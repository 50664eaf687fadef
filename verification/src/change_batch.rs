//! Collections of counted changes.

use vstd::prelude::*;

use crate::order::{Ordered, Relation};

verus! {

/// The first position of `s` whose key is not before `t`.
pub open spec fn slot<T: Ordered>(s: Seq<(T, i64)>, t: T) -> nat
    decreases s.len(),
{
    if s.len() == 0 || !s[0].0.before(t) {
        0
    } else {
        1 + slot(s.drop_first(), t)
    }
}

/// Whether `s` holds an entry for `t` at the position where one belongs.
pub open spec fn holds<T: Ordered>(s: Seq<(T, i64)>, t: T) -> bool {
    slot(s, t) < s.len() && s[slot(s, t) as int].0 == t
}

/// The count that `s` gives to `t`.
pub open spec fn count<T: Ordered>(s: Seq<(T, i64)>, t: T) -> i64 {
    if holds(s, t) {
        s[slot(s, t) as int].1
    } else {
        0
    }
}

/// The changes `s`, with `delta` more of `t`. A count that comes to zero leaves no entry.
pub open spec fn updated<T: Ordered>(s: Seq<(T, i64)>, t: T, delta: i64) -> Seq<(T, i64)> {
    let p = slot(s, t) as int;
    let sum = i64::wrapping_add(count(s, t), delta);
    if holds(s, t) {
        if sum == 0 {
            s.remove(p)
        } else {
            s.update(p, (t, sum))
        }
    } else if sum == 0 {
        s
    } else {
        s.insert(p, (t, sum))
    }
}

/// The changes `s`, with each of `changes` made in turn.
pub open spec fn extended<T: Ordered>(s: Seq<(T, i64)>, changes: Seq<(T, i64)>) -> Seq<(T, i64)>
    decreases changes.len(),
{
    if changes.len() == 0 {
        s
    } else {
        extended(updated(s, changes[0].0, changes[0].1), changes.drop_first())
    }
}

/// Keys come in strictly ascending order, and no count is zero.
pub open spec fn compacted<T: Ordered>(s: Seq<(T, i64)>) -> bool {
    &&& forall|i: int, j: int| 0 <= i < j < s.len() ==> (#[trigger] s[i]).0.before((#[trigger] s[j]).0)
    &&& forall|i: int| 0 <= i < s.len() ==> (#[trigger] s[i]).1 != 0
}

/// A position that splits `s` into keys before `t` and a key that is not is the slot of `t`.
proof fn lemma_slot_is<T: Ordered>(s: Seq<(T, i64)>, t: T, p: int)
    requires
        0 <= p <= s.len(),
        forall|i: int| 0 <= i < p ==> (#[trigger] s[i]).0.before(t),
        p < s.len() ==> !s[p].0.before(t),
    ensures
        slot(s, t) == p,
    decreases s.len(),
{
    if s.len() != 0 && s[0].0.before(t) {
        let rest = s.drop_first();
        assert forall|i: int| 0 <= i < p - 1 implies (#[trigger] rest[i]).0.before(t) by {
            assert(rest[i] == s[i + 1]);
        }
        if p == 0 {
            assert(false);
        }
        lemma_slot_is(rest, t, p - 1);
    }
}

/// What the slot of `t` divides.
pub proof fn lemma_slot_splits<T: Ordered>(s: Seq<(T, i64)>, t: T)
    ensures
        slot(s, t) <= s.len(),
        forall|i: int| 0 <= i < slot(s, t) ==> (#[trigger] s[i]).0.before(t),
        slot(s, t) < s.len() ==> !s[slot(s, t) as int].0.before(t),
    decreases s.len(),
{
    if s.len() != 0 && s[0].0.before(t) {
        let rest = s.drop_first();
        lemma_slot_splits(rest, t);
        assert forall|i: int| 0 <= i < slot(s, t) implies (#[trigger] s[i]).0.before(t) by {
            if i > 0 {
                assert(rest[i - 1] == s[i]);
            }
        }
    }
}

/// A collection of changes to counts, held as one entry per key in ascending order of keys.
///
/// Counts are added in two's complement: they wrap around at the ends of `i64`.
pub struct ChangeBatch<T: Ordered> {
    updates: Vec<(T, i64)>,
}

impl<T: Ordered> View for ChangeBatch<T> {
    type V = Seq<(T, i64)>;

    closed spec fn view(&self) -> Seq<(T, i64)> {
        self.updates@
    }
}

impl<T: Ordered> ChangeBatch<T> {
    /// Keys ascend strictly and no count is zero.
    pub open spec fn wf(&self) -> bool {
        compacted(self@)
    }

    /// No changes.
    pub fn new() -> (r: Self)
        ensures
            r@ == Seq::<(T, i64)>::empty(),
            r.wf(),
    {
        ChangeBatch { updates: Vec::new() }
    }

    /// The one change of `value` at `key`, or none if `value` is zero.
    pub fn new_from(key: T, value: i64) -> (r: Self)
        ensures
            r@ == updated(Seq::<(T, i64)>::empty(), key, value),
            r@ == (if value == 0 { Seq::<(T, i64)>::empty() } else { seq![(key, value)] }),
            r.wf(),
    {
        let mut r: ChangeBatch<T> = ChangeBatch::new();
        r.update(key, value);
        proof {
            let none = Seq::<(T, i64)>::empty();
            assert(none.insert(0, (key, value)) =~= seq![(key, value)]);
        }
        r
    }

    /// The position at which an entry for `key` stands or belongs.
    fn find(&self, key: &T) -> (p: usize)
        ensures
            p == slot(self@, *key),
            p <= self@.len(),
    {
        let mut p: usize = 0;
        while p < self.updates.len()
            invariant
                p <= self.updates@.len(),
                forall|i: int| 0 <= i < p ==> (#[trigger] self.updates@[i]).0.before(*key),
                p == self.updates@.len() ==> slot(self.updates@, *key) == p,
            ensures
                p <= self.updates@.len(),
                slot(self.updates@, *key) == p,
            decreases self.updates@.len() - p,
        {
            match self.updates[p].0.relate(key) {
                Relation::Before => {
                    p += 1;
                },
                Relation::Same => {
                    proof {
                        T::before_irreflexive(*key);
                        lemma_slot_is(self.updates@, *key, p as int);
                    }
                    break;
                },
                Relation::After => {
                    proof {
                        let other = self.updates@[p as int].0;
                        if other.before(*key) {
                            T::before_transitive(other, *key, other);
                            T::before_irreflexive(other);
                        }
                        lemma_slot_is(self.updates@, *key, p as int);
                    }
                    break;
                },
            }
            proof {
                if p == self.updates@.len() {
                    lemma_slot_is(self.updates@, *key, p as int);
                }
            }
        }
        p
    }

    /// Adds `value` to the count of `item`.
    pub fn update(&mut self, item: T, value: i64)
        ensures
            final(self)@ == updated(old(self)@, item, value),
            old(self).wf() ==> final(self).wf(),
    {
        let p: usize = self.find(&item);
        let ghost before = self@;
        let mut present: bool = false;
        if p < self.updates.len() {
            match self.updates[p].0.relate(&item) {
                Relation::Same => {
                    present = true;
                },
                Relation::Before => {
                    proof {
                        T::before_irreflexive(item);
                    }
                },
                Relation::After => {
                    proof {
                        T::before_irreflexive(item);
                    }
                },
            }
        }
        if present {
            let sum: i64 = self.updates[p].1.wrapping_add(value);
            if sum == 0 {
                self.updates.remove(p);
            } else {
                self.updates.set(p, (item, sum));
            }
        } else if value != 0 {
            self.updates.insert(p, (item, value));
        }
        proof {
            if compacted(before) {
                lemma_updated_compacted(before, item, value);
            }
        }
    }

    /// Makes each of `changes`, in order.
    pub fn extend(&mut self, changes: &Vec<(T, i64)>)
        ensures
            final(self)@ == extended(old(self)@, changes@),
            old(self).wf() ==> final(self).wf(),
    {
        let ghost start = self@;
        let mut i: usize = 0;
        assert(changes@.skip(0) =~= changes@);
        while i < changes.len()
            invariant
                i <= changes@.len(),
                extended(self@, changes@.skip(i as int)) == extended(start, changes@),
                compacted(start) ==> self.wf(),
            decreases changes@.len() - i,
        {
            let (item, value) = changes[i];
            assert(changes@.skip(i as int).drop_first() =~= changes@.skip(i + 1));
            self.update(item, value);
            i += 1;
        }
        assert(changes@.skip(i as int).len() == 0);
    }

    /// Takes all changes out, in ascending order of keys.
    pub fn drain(&mut self) -> (r: Vec<(T, i64)>)
        ensures
            r@ == old(self)@,
            final(self)@ == Seq::<(T, i64)>::empty(),
            final(self).wf(),
    {
        let mut r: Vec<(T, i64)> = Vec::new();
        std::mem::swap(&mut r, &mut self.updates);
        r
    }

    /// Moves all changes into `other`.
    pub fn drain_into(&mut self, other: &mut ChangeBatch<T>)
        ensures
            final(self)@ == Seq::<(T, i64)>::empty(),
            final(self).wf(),
            final(other)@ == extended(old(other)@, old(self)@),
            old(other).wf() ==> final(other).wf(),
    {
        let changes = self.drain();
        other.extend(&changes);
    }

    /// Whether every count is zero.
    pub fn is_empty(&self) -> (r: bool)
        ensures
            r == (self@.len() == 0),
    {
        self.updates.len() == 0
    }

    /// The changes, in ascending order of keys.
    pub fn entries(&self) -> (r: &Vec<(T, i64)>)
        ensures
            r@ == self@,
    {
        &self.updates
    }
}

/// An update leaves the entries compacted.
proof fn lemma_updated_compacted<T: Ordered>(s: Seq<(T, i64)>, t: T, delta: i64)
    requires
        compacted(s),
    ensures
        compacted(updated(s, t, delta)),
{
    lemma_slot_splits(s, t);
    let p = slot(s, t) as int;
    let r = updated(s, t, delta);
    assert forall|i: int, j: int| 0 <= i < j < r.len() implies (#[trigger] r[i]).0.before(
        (#[trigger] r[j]).0,
    ) by {
        if holds(s, t) {
            let sum = i64::wrapping_add(count(s, t), delta);
            if sum == 0 {
                let si = if i < p { i } else { i + 1 };
                let sj = if j < p { j } else { j + 1 };
                assert(r[i] == s[si] && r[j] == s[sj]);
            } else {
                assert(r[i].0 == s[i].0 && r[j].0 == s[j].0);
            }
        } else if r != s {
            let si = if i < p { i } else { i - 1 };
            let sj = if j < p { j } else { j - 1 };
            if p < s.len() {
                T::before_total(s[p].0, t);
            }
            if i == p {
                assert(r[j] == s[sj]);
                if sj != p {
                    T::before_transitive(t, s[p].0, s[sj].0);
                }
            } else if j == p {
                assert(r[i] == s[si]);
            } else {
                assert(r[i] == s[si] && r[j] == s[sj]);
            }
        }
    }
    assert forall|i: int| 0 <= i < r.len() implies (#[trigger] r[i]).1 != 0 by {
        if holds(s, t) {
            let sum = i64::wrapping_add(count(s, t), delta);
            if sum == 0 {
                let si = if i < p { i } else { i + 1 };
                assert(r[i] == s[si]);
            } else if i != p {
                assert(r[i] == s[i]);
            }
        } else if r != s {
            let si = if i < p { i } else { i - 1 };
            if i != p {
                assert(r[i] == s[si]);
            }
        }
    }
}

/// An entry of compacted changes stands at the slot of its key.
proof fn lemma_entry_slot<T: Ordered>(s: Seq<(T, i64)>, i: int)
    requires
        compacted(s),
        0 <= i < s.len(),
    ensures
        slot(s, s[i].0) == i,
        holds(s, s[i].0),
        count(s, s[i].0) == s[i].1,
{
    T::before_irreflexive(s[i].0);
    lemma_slot_is(s, s[i].0, i);
}

/// Compacted changes give a count other than zero exactly to the keys they hold.
proof fn lemma_count_held<T: Ordered>(s: Seq<(T, i64)>, t: T)
    requires
        compacted(s),
    ensures
        holds(s, t) <==> count(s, t) != 0,
        holds(s, t) <==> exists|i: int| 0 <= i < s.len() && (#[trigger] s[i]).0 == t,
{
    lemma_slot_splits(s, t);
    if exists|i: int| 0 <= i < s.len() && (#[trigger] s[i]).0 == t {
        let i = choose|i: int| 0 <= i < s.len() && (#[trigger] s[i]).0 == t;
        lemma_entry_slot(s, i);
    }
}

/// An update changes the count of its own key, by its delta, and no other count.
pub proof fn law_update_counts<T: Ordered>(s: Seq<(T, i64)>, t: T, delta: i64, u: T)
    requires
        compacted(s),
    ensures
        compacted(updated(s, t, delta)),
        count(updated(s, t, delta), u) == (if u == t {
            i64::wrapping_add(count(s, t), delta)
        } else {
            count(s, u)
        }),
{
    lemma_updated_compacted(s, t, delta);
    lemma_slot_splits(s, t);
    let r = updated(s, t, delta);
    let p = slot(s, t) as int;
    let sum = i64::wrapping_add(count(s, t), delta);
    lemma_count_held(s, u);
    lemma_count_held(r, u);
    lemma_count_held(s, t);
    if u == t {
        if sum != 0 {
            assert(r[p] == (t, sum));
            lemma_entry_slot(r, p);
        } else {
            assert forall|i: int| 0 <= i < r.len() implies (#[trigger] r[i]).0 != t by {
                let si = if i < p || r == s { i } else { i + 1 };
                assert(r[i] == s[si]);
                if r == s {
                    assert(s[i].0 != t);
                } else {
                    lemma_entry_slot(s, si);
                }
            }
        }
    } else {
        if holds(s, u) {
            let i = slot(s, u) as int;
            let ri = if r.len() == s.len() || i < p {
                i
            } else if r.len() > s.len() {
                i + 1
            } else {
                i - 1
            };
            assert(r[ri] == s[i]);
            lemma_entry_slot(r, ri);
        } else if holds(r, u) {
            let i = slot(r, u) as int;
            let si = if r.len() == s.len() || i < p {
                i
            } else if r.len() > s.len() {
                i - 1
            } else {
                i + 1
            };
            assert(r[i] == s[si]);
            assert(s[si].0 == u);
            assert(false);
        }
    }
}

/// Compacted changes that give every key the same count are the same changes.
pub proof fn law_counts_determine<T: Ordered>(a: Seq<(T, i64)>, b: Seq<(T, i64)>)
    requires
        compacted(a),
        compacted(b),
        forall|t: T| #[trigger] count(a, t) == count(b, t),
    ensures
        a == b,
    decreases a.len(),
{
    if a.len() == 0 {
        if b.len() != 0 {
            lemma_entry_slot(b, 0);
            assert(count(a, b[0].0) == 0);
        }
        assert(a =~= b);
    } else {
        lemma_entry_slot(a, 0);
        assert(count(b, a[0].0) != 0);
        lemma_count_held(b, a[0].0);
        lemma_entry_slot(b, 0);
        assert(count(a, b[0].0) != 0);
        lemma_count_held(a, b[0].0);
        let i = slot(b, a[0].0) as int;
        let j = slot(a, b[0].0) as int;
        if i != 0 {
            assert(b[0].0.before(b[i].0));
            if j == 0 {
                T::before_irreflexive(a[0].0);
            } else {
                assert(a[0].0.before(a[j].0));
                T::before_transitive(a[0].0, b[0].0, a[0].0);
                T::before_irreflexive(a[0].0);
            }
        }
        assert(a[0] == b[0]);
        let ra = a.drop_first();
        let rb = b.drop_first();
        lemma_drop_first(a);
        lemma_drop_first(b);
        assert forall|t: T| #[trigger] count(ra, t) == count(rb, t) by {
            lemma_count_drop_first(a, t);
            lemma_count_drop_first(b, t);
            assert(count(a, t) == count(b, t));
        }
        law_counts_determine(ra, rb);
        assert(a =~= seq![a[0]] + ra);
        assert(b =~= seq![b[0]] + rb);
    }
}

/// Compacted changes stay so without their first entry.
proof fn lemma_drop_first<T: Ordered>(s: Seq<(T, i64)>)
    requires
        compacted(s),
        s.len() > 0,
    ensures
        compacted(s.drop_first()),
{
    let r = s.drop_first();
    assert forall|i: int, j: int| 0 <= i < j < r.len() implies (#[trigger] r[i]).0.before(
        (#[trigger] r[j]).0,
    ) by {
        assert(r[i] == s[i + 1] && r[j] == s[j + 1]);
    }
    assert forall|i: int| 0 <= i < r.len() implies (#[trigger] r[i]).1 != 0 by {
        assert(r[i] == s[i + 1]);
    }
}

/// The counts without the first entry.
proof fn lemma_count_drop_first<T: Ordered>(s: Seq<(T, i64)>, t: T)
    requires
        compacted(s),
        s.len() > 0,
    ensures
        count(s.drop_first(), t) == (if t == s[0].0 {
            0
        } else {
            count(s, t)
        }),
{
    let r = s.drop_first();
    lemma_drop_first(s);
    lemma_count_held(s, t);
    lemma_count_held(r, t);
    if holds(r, t) {
        let i = slot(r, t) as int;
        assert(r[i] == s[i + 1]);
        lemma_entry_slot(s, i + 1);
        lemma_entry_slot(s, 0);
    } else if holds(s, t) && t != s[0].0 {
        let i = slot(s, t) as int;
        assert(r[i - 1] == s[i]);
    }
}

/// Two updates can be made in either order.
pub proof fn law_updates_commute<T: Ordered>(s: Seq<(T, i64)>, t: T, d: i64, u: T, e: i64)
    requires
        compacted(s),
    ensures
        updated(updated(s, t, d), u, e) == updated(updated(s, u, e), t, d),
{
    let a = updated(updated(s, t, d), u, e);
    let b = updated(updated(s, u, e), t, d);
    law_update_counts(s, t, d, t);
    law_update_counts(s, u, e, u);
    law_update_counts(updated(s, t, d), u, e, u);
    law_update_counts(updated(s, u, e), t, d, t);
    assert forall|x: T| #[trigger] count(a, x) == count(b, x) by {
        law_update_counts(s, t, d, x);
        law_update_counts(s, u, e, x);
        law_update_counts(updated(s, t, d), u, e, x);
        law_update_counts(updated(s, u, e), t, d, x);
    }
    law_counts_determine(a, b);
}

/// Taking back what was added leaves what was there before.
pub proof fn law_update_undone<T: Ordered>(s: Seq<(T, i64)>, t: T, delta: i64)
    requires
        compacted(s),
    ensures
        updated(updated(s, t, delta), t, i64::wrapping_sub(0, delta)) == s,
{
    let a = updated(s, t, delta);
    let b = updated(a, t, i64::wrapping_sub(0, delta));
    law_update_counts(s, t, delta, t);
    law_update_counts(a, t, i64::wrapping_sub(0, delta), t);
    assert forall|x: T| #[trigger] count(b, x) == count(s, x) by {
        law_update_counts(s, t, delta, x);
        law_update_counts(a, t, i64::wrapping_sub(0, delta), x);
    }
    law_counts_determine(b, s);
}

/// Making one run of changes and then another is making both as one run.
pub proof fn law_extend_in_parts<T: Ordered>(
    s: Seq<(T, i64)>,
    first: Seq<(T, i64)>,
    second: Seq<(T, i64)>,
)
    ensures
        extended(s, first + second) == extended(extended(s, first), second),
    decreases first.len(),
{
    if first.len() == 0 {
        assert(first + second =~= second);
    } else {
        assert((first + second).drop_first() =~= first.drop_first() + second);
        law_extend_in_parts(
            updated(s, first[0].0, first[0].1),
            first.drop_first(),
            second,
        );
    }
}

/// The sum of what `changes` does to `t`, as an unbounded integer.
pub open spec fn total<T: Ordered>(changes: Seq<(T, i64)>, t: T) -> int
    decreases changes.len(),
{
    if changes.len() == 0 {
        0
    } else {
        (if changes[0].0 == t {
            changes[0].1 as int
        } else {
            0
        }) + total(changes.drop_first(), t)
    }
}

/// The two's complement value of `x` in 64 bits.
pub open spec fn wrapped(x: int) -> int {
    (x + 0x8000_0000_0000_0000) % 0x1_0000_0000_0000_0000 - 0x8000_0000_0000_0000
}

/// A run of changes adds to every count the sum of its changes to that key.
pub proof fn law_extend_counts<T: Ordered>(s: Seq<(T, i64)>, changes: Seq<(T, i64)>, t: T)
    requires
        compacted(s),
    ensures
        compacted(extended(s, changes)),
        count(extended(s, changes), t) == wrapped(count(s, t) + total(changes, t)),
    decreases changes.len(),
{
    if changes.len() != 0 {
        let s1 = updated(s, changes[0].0, changes[0].1);
        law_update_counts(s, changes[0].0, changes[0].1, t);
        law_extend_counts(s1, changes.drop_first(), t);
    }
}

/// Compacted changes made on top of nothing are those changes.
pub proof fn law_extend_nothing<T: Ordered>(changes: Seq<(T, i64)>)
    requires
        compacted(changes),
    ensures
        extended(Seq::<(T, i64)>::empty(), changes) == changes,
{
    let none = Seq::<(T, i64)>::empty();
    let r = extended(none, changes);
    assert(compacted(none));
    assert forall|t: T| #[trigger] count(r, t) == count(changes, t) by {
        law_extend_counts(none, changes, t);
        law_total_is_count(changes, t);
    }
    assert(compacted(r)) by {
        if changes.len() != 0 {
            law_extend_counts(none, changes, changes[0].0);
        }
    }
    law_counts_determine(r, changes);
}

/// Over compacted changes the sum for a key is its count.
pub proof fn law_total_is_count<T: Ordered>(s: Seq<(T, i64)>, t: T)
    requires
        compacted(s),
    ensures
        total(s, t) == count(s, t),
    decreases s.len(),
{
    if s.len() != 0 {
        lemma_drop_first(s);
        lemma_count_drop_first(s, t);
        lemma_entry_slot(s, 0);
        law_total_is_count(s.drop_first(), t);
    }
}

/// Making one run of changes after another changes a key by the sum of both.
pub proof fn lemma_total_join<T: Ordered>(a: Seq<(T, i64)>, b: Seq<(T, i64)>, t: T)
    ensures
        total(a + b, t) == total(a, t) + total(b, t),
    decreases a.len(),
{
    if a.len() == 0 {
        assert(a + b =~= b);
    } else {
        assert((a + b).drop_first() =~= a.drop_first() + b);
        lemma_total_join(a.drop_first(), b, t);
    }
}

/// Values that differ by what is counted twice over in 64 bits have the same two's complement.
pub proof fn lemma_wrapped_sum(x: int, y: int, z: int)
    requires
        wrapped(x) == wrapped(y),
    ensures
        wrapped(x + z) == wrapped(y + z),
        wrapped(z + x) == wrapped(z + y),
        wrapped(-x) == wrapped(-y),
        wrapped(z - x) == wrapped(z - y),
{
    let m: int = 0x1_0000_0000_0000_0000;
    let a = x + 0x8000_0000_0000_0000;
    let b = y + 0x8000_0000_0000_0000;
    vstd::arithmetic::div_mod::lemma_fundamental_div_mod(a, m);
    vstd::arithmetic::div_mod::lemma_fundamental_div_mod(b, m);
    let q = a / m - b / m;
    assert(x - y == m * q) by (nonlinear_arith)
        requires
            x - y == a - b,
            a == m * (a / m) + a % m,
            b == m * (b / m) + b % m,
            a % m == b % m,
            q == a / m - b / m,
    ;
    lemma_wrapped_shift(y + z, q);
    lemma_wrapped_shift(-y, -q);
    lemma_wrapped_shift(z - y, -q);
    assert(m * (-q) == -(m * q)) by (nonlinear_arith);
}

proof fn lemma_wrapped_shift(x: int, q: int)
    ensures
        wrapped(x + 0x1_0000_0000_0000_0000 * q) == wrapped(x),
{
    let m: int = 0x1_0000_0000_0000_0000;
    vstd::arithmetic::div_mod::lemma_mod_multiples_vanish(q, x + 0x8000_0000_0000_0000, m);
    assert(m * q + (x + 0x8000_0000_0000_0000) == x + m * q + 0x8000_0000_0000_0000);
}

/// Compacted changes give each key that they hold the count beside it, and every other key none.
pub proof fn law_count_is_entry<T: Ordered>(s: Seq<(T, i64)>, t: T)
    requires
        compacted(s),
    ensures
        forall|i: int| 0 <= i < s.len() && (#[trigger] s[i]).0 == t ==> count(s, t) == s[i].1,
        (forall|i: int| 0 <= i < s.len() ==> (#[trigger] s[i]).0 != t) ==> count(s, t) == 0,
{
    lemma_count_held(s, t);
    assert forall|i: int| 0 <= i < s.len() && (#[trigger] s[i]).0 == t implies count(s, t)
        == s[i].1 by {
        lemma_entry_slot(s, i);
    }
}

} // verus!
