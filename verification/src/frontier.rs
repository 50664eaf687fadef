//! Antichains of times, and the frontiers of counted times.

use vstd::prelude::*;

use crate::change_batch::{
    compacted, count, extended, law_extend_counts, total, wrapped,
    ChangeBatch,
};
use crate::order::{Ordered, PartialOrder, Timestamp};

verus! {

/// Whether some element of `s` is less than or equal to `e`.
pub open spec fn dominates<T: PartialOrder>(s: Seq<T>, e: T) -> bool {
    exists|i: int| 0 <= i < s.len() && (#[trigger] s[i]).le(e)
}

/// The antichain `s` with `e` inserted: unchanged where an element is below `e`; otherwise
/// without the elements above `e`, and with `e` last.
pub open spec fn inserted<T: PartialOrder>(s: Seq<T>, e: T) -> Seq<T> {
    if dominates(s, e) {
        s
    } else {
        s.filter(|x: T| !e.le(x)).push(e)
    }
}

/// Each of `elements` inserted into `s` in turn.
pub open spec fn all_inserted<T: PartialOrder>(s: Seq<T>, elements: Seq<T>) -> Seq<T>
    decreases elements.len(),
{
    if elements.len() == 0 {
        s
    } else {
        all_inserted(inserted(s, elements[0]), elements.drop_first())
    }
}

/// No element is less than or equal to another.
pub open spec fn is_antichain<T: PartialOrder>(s: Seq<T>) -> bool {
    forall|i: int, j: int|
        0 <= i < s.len() && 0 <= j < s.len() && i != j ==> !(#[trigger] s[i]).le(#[trigger] s[j])
}

/// A set of mutually incomparable elements.
pub struct Antichain<T: PartialOrder> {
    elements: Vec<T>,
}

impl<T: PartialOrder> View for Antichain<T> {
    type V = Seq<T>;

    closed spec fn view(&self) -> Seq<T> {
        self.elements@
    }
}

impl<T: PartialOrder> Antichain<T> {
    /// The empty antichain.
    pub fn new() -> (r: Self)
        ensures
            r@ == Seq::<T>::empty(),
    {
        Antichain { elements: Vec::new() }
    }

    /// The antichain of one element.
    pub fn from_elem(element: T) -> (r: Self)
        ensures
            r@ == seq![element],
    {
        let mut elements: Vec<T> = Vec::new();
        elements.push(element);
        assert(elements@ =~= seq![element]);
        Antichain { elements }
    }

    /// Inserts `element` unless an element is below it, and drops what is above it. Returns
    /// whether it was inserted.
    pub fn insert(&mut self, element: T) -> (r: bool)
        ensures
            final(self)@ == inserted(old(self)@, element),
            r == !dominates(old(self)@, element),
            is_antichain(old(self)@) ==> is_antichain(final(self)@),
    {
        let ghost start = self.elements@;
        if any_less_equal(&self.elements, &element) {
            return false;
        }
        let mut kept: Vec<T> = Vec::new();
        let mut i: usize = 0;
        let ghost keep = |x: T| !element.le(x);
        while i < self.elements.len()
            invariant
                i <= self.elements@.len(),
                start == self.elements@,
                keep == (|x: T| !element.le(x)),
                kept@ == start.take(i as int).filter(keep),
            decreases self.elements@.len() - i,
        {
            let x: T = self.elements[i];
            proof {
                lemma_filter_step(start, i as int, keep);
            }
            if !element.less_equal(&x) {
                kept.push(x);
            }
            i += 1;
        }
        proof {
            assert(start.take(i as int) =~= start);
            if is_antichain(start) {
                lemma_filter_antichain(start, keep);
                let f = start.filter(keep);
                let r = f.push(element);
                assert forall|a: int, b: int|
                    0 <= a < r.len() && 0 <= b < r.len() && a != b implies !(#[trigger] r[a]).le(
                    #[trigger] r[b],
                ) by {
                    lemma_filter_member(start, keep);
                    if a < f.len() && b < f.len() {
                        assert(r[a] == f[a] && r[b] == f[b]);
                    } else if a < f.len() {
                        assert(r[a] == f[a]);
                        let k = choose|k: int| 0 <= k < start.len() && start[k] == f[a];
                        assert(!start[k].le(element));
                    } else {
                        assert(r[b] == f[b]);
                    }
                }
            }
        }
        kept.push(element);
        self.elements = kept;
        true
    }

    /// The elements.
    pub fn elements(&self) -> (r: &Vec<T>)
        ensures
            r@ == self@,
    {
        &self.elements
    }

    /// A copy.
    pub fn duplicate(&self) -> (r: Self)
        ensures
            r@ == self@,
    {
        let mut elements: Vec<T> = Vec::new();
        let mut i: usize = 0;
        while i < self.elements.len()
            invariant
                i <= self.elements@.len(),
                elements@ == self.elements@.take(i as int),
            decreases self.elements@.len() - i,
        {
            elements.push(self.elements[i]);
            i += 1;
            assert(self.elements@.take(i as int) =~= self.elements@.take(i - 1).push(
                self.elements@[i - 1],
            ));
        }
        assert(self.elements@.take(i as int) =~= self.elements@);
        Antichain { elements }
    }
}

/// Whether some element is less than or equal to `e`.
fn any_less_equal<T: PartialOrder>(elements: &Vec<T>, e: &T) -> (r: bool)
    ensures
        r == dominates(elements@, *e),
{
    let mut i: usize = 0;
    while i < elements.len()
        invariant
            i <= elements@.len(),
            forall|j: int| 0 <= j < i ==> !(#[trigger] elements@[j]).le(*e),
        decreases elements@.len() - i,
    {
        if elements[i].less_equal(e) {
            assert(elements@[i as int].le(*e));
            return true;
        }
        i += 1;
    }
    false
}

/// Filtering one element more.
proof fn lemma_filter_step<T>(s: Seq<T>, i: int, keep: spec_fn(T) -> bool)
    requires
        0 <= i < s.len(),
    ensures
        s.take(i + 1).filter(keep) == (if keep(s[i]) {
            s.take(i).filter(keep).push(s[i])
        } else {
            s.take(i).filter(keep)
        }),
{
    let t = s.take(i + 1);
    assert(t.drop_last() =~= s.take(i));
    assert(t.last() == s[i]);
    reveal(Seq::filter);
}

/// What is filtered is kept, and comes from the sequence.
proof fn lemma_filter_member<T>(s: Seq<T>, keep: spec_fn(T) -> bool)
    ensures
        forall|i: int|
            0 <= i < s.filter(keep).len() ==> keep(#[trigger] s.filter(keep)[i]) && (exists|j: int|
                0 <= j < s.len() && #[trigger] s[j] == s.filter(keep)[i]),
    decreases s.len(),
{
    reveal(Seq::filter);
    if s.len() != 0 {
        lemma_filter_member(s.drop_last(), keep);
        assert forall|i: int| 0 <= i < s.filter(keep).len() implies keep(
            #[trigger] s.filter(keep)[i],
        ) && (exists|j: int| 0 <= j < s.len() && #[trigger] s[j] == s.filter(keep)[i]) by {
            let f = s.drop_last().filter(keep);
            if i < f.len() {
                assert(s.filter(keep)[i] == f[i]);
                let j = choose|j: int|
                    0 <= j < s.drop_last().len() && #[trigger] s.drop_last()[j] == f[i];
                assert(s[j] == f[i]);
            } else {
                assert(s[s.len() - 1] == s.filter(keep)[i]);
            }
        }
    }
}

/// A filtered antichain is an antichain.
proof fn lemma_filter_antichain<T: PartialOrder>(s: Seq<T>, keep: spec_fn(T) -> bool)
    requires
        is_antichain(s),
    ensures
        is_antichain(s.filter(keep)),
    decreases s.len(),
{
    reveal(Seq::filter);
    if s.len() != 0 {
        let d = s.drop_last();
        assert(is_antichain(d)) by {
            assert forall|i: int, j: int|
                0 <= i < d.len() && 0 <= j < d.len() && i != j implies !(#[trigger] d[i]).le(
                #[trigger] d[j],
            ) by {
                assert(d[i] == s[i] && d[j] == s[j]);
            }
        }
        lemma_filter_antichain(d, keep);
        lemma_filter_member(d, keep);
        let f = d.filter(keep);
        let r = s.filter(keep);
        assert forall|i: int, j: int|
            0 <= i < r.len() && 0 <= j < r.len() && i != j implies !(#[trigger] r[i]).le(
            #[trigger] r[j],
        ) by {
            if i < f.len() && j < f.len() {
                assert(r[i] == f[i] && r[j] == f[j]);
            } else if i < f.len() {
                assert(r[i] == f[i]);
                let k = choose|k: int| 0 <= k < d.len() && #[trigger] d[k] == f[i];
                assert(s[k] == r[i] && s[s.len() - 1] == r[j]);
            } else {
                assert(r[j] == f[j]);
                let k = choose|k: int| 0 <= k < d.len() && #[trigger] d[k] == f[j];
                assert(s[k] == r[j] && s[s.len() - 1] == r[i]);
            }
        }
    }
}

/// The minimal times among those that `s`, in ascending order, counts above zero.
pub open spec fn frontier_of<T: Timestamp>(s: Seq<(T, i64)>) -> Seq<T>
    decreases s.len(),
{
    if s.len() == 0 {
        Seq::empty()
    } else {
        let f = frontier_of(s.drop_last());
        if s.last().1 > 0 && !dominates(f, s.last().0) {
            f.push(s.last().0)
        } else {
            f
        }
    }
}

/// Each element of `s`, with the weight `w`.
pub open spec fn weighted<T>(s: Seq<T>, w: i64) -> Seq<(T, i64)> {
    s.map_values(|t: T| (t, w))
}

/// What changes when the frontier `prior` becomes the frontier `next`: a loss of each time
/// that leaves and a gain of each that joins.
pub open spec fn frontier_changes<T: Timestamp>(prior: Seq<T>, next: Seq<T>) -> Seq<(T, i64)> {
    extended(extended(Seq::<(T, i64)>::empty(), weighted(prior, (-1) as i64)), weighted(next, 1))
}

/// Counted times, with the frontier of those counted above zero.
pub struct MutableAntichain<T: Timestamp> {
    updates: ChangeBatch<T>,
    frontier: Vec<T>,
}

impl<T: Timestamp> MutableAntichain<T> {
    /// The counts.
    pub closed spec fn counts(&self) -> Seq<(T, i64)> {
        self.updates@
    }

    /// The minimal times counted above zero.
    pub closed spec fn minimal(&self) -> Seq<T> {
        self.frontier@
    }

    /// The counts are compacted and the frontier is theirs.
    pub open spec fn wf(&self) -> bool {
        &&& compacted(self.counts())
        &&& self.minimal() == frontier_of(self.counts())
    }

    /// No times.
    pub fn new() -> (r: Self)
        ensures
            r.counts() == Seq::<(T, i64)>::empty(),
            r.minimal() == Seq::<T>::empty(),
            r.wf(),
    {
        MutableAntichain { updates: ChangeBatch::new(), frontier: Vec::new() }
    }

    /// Changes the counts and returns what that changes in the frontier.
    pub fn update_iter(&mut self, changes: &Vec<(T, i64)>) -> (r: Vec<(T, i64)>)
        ensures
            final(self).counts() == extended(old(self).counts(), changes@),
            final(self).minimal() == frontier_of(final(self).counts()),
            r@ == frontier_changes(old(self).minimal(), final(self).minimal()),
            old(self).wf() ==> final(self).wf(),
    {
        self.updates.extend(changes);
        let mut difference: ChangeBatch<T> = ChangeBatch::new();
        add_weighted(&mut difference, &self.frontier, -1);
        let mut frontier: Vec<T> = Vec::new();
        let entries = self.updates.entries();
        let mut i: usize = 0;
        while i < entries.len()
            invariant
                i <= entries@.len(),
                frontier@ == frontier_of(entries@.take(i as int)),
            decreases entries@.len() - i,
        {
            let (time, value) = entries[i];
            assert(entries@.take(i + 1).drop_last() =~= entries@.take(i as int));
            if value > 0 && !any_less_equal(&frontier, &time) {
                frontier.push(time);
            }
            i += 1;
        }
        assert(entries@.take(i as int) =~= entries@);
        add_weighted(&mut difference, &frontier, 1);
        self.frontier = frontier;
        difference.drain()
    }

    /// The minimal times, in ascending order.
    pub fn frontier(&self) -> (r: &Vec<T>)
        ensures
            r@ == self.minimal(),
    {
        &self.frontier
    }

    /// Whether the frontier is empty.
    pub fn is_empty(&self) -> (r: bool)
        ensures
            r == (self.minimal().len() == 0),
    {
        self.frontier.len() == 0
    }

    /// Whether a time of the frontier is less than or equal to `time`.
    pub fn less_equal(&self, time: &T) -> (r: bool)
        ensures
            r == dominates(self.minimal(), *time),
    {
        any_less_equal(&self.frontier, time)
    }
}

/// Adds `weight` to the count of each of `times`.
fn add_weighted<T: Timestamp>(batch: &mut ChangeBatch<T>, times: &Vec<T>, weight: i64)
    ensures
        final(batch)@ == extended(old(batch)@, weighted(times@, weight)),
{
    let ghost start = batch@;
    let ghost all = weighted(times@, weight);
    let mut i: usize = 0;
    assert(all.skip(0) =~= all);
    while i < times.len()
        invariant
            i <= times@.len(),
            all == weighted(times@, weight),
            extended(batch@, all.skip(i as int)) == extended(start, all),
        decreases times@.len() - i,
    {
        assert(all.skip(i as int)[0] == (times@[i as int], weight));
        assert(all.skip(i as int).drop_first() =~= all.skip(i + 1));
        batch.update(times[i], weight);
        i += 1;
    }
    assert(all.skip(i as int).len() == 0);
}

/// A frontier holds only times counted above zero, holds them in ascending order, is an
/// antichain, and has a time at or below each time counted above zero.
pub proof fn law_frontier<T: Timestamp>(s: Seq<(T, i64)>)
    requires
        compacted(s),
    ensures
        is_antichain(frontier_of(s)),
        forall|i: int, j: int|
            0 <= i < j < frontier_of(s).len() ==> (#[trigger] frontier_of(s)[i]).before(
                #[trigger] frontier_of(s)[j],
            ),
        forall|i: int|
            0 <= i < frontier_of(s).len() ==> exists|k: int|
                0 <= k < s.len() && s[k].1 > 0 && (#[trigger] s[k]).0
                    == #[trigger] frontier_of(s)[i],
        forall|k: int|
            0 <= k < s.len() && (#[trigger] s[k]).1 > 0 ==> dominates(frontier_of(s), s[k].0),
    decreases s.len(),
{
    let f = frontier_of(s);
    if s.len() != 0 {
        let d = s.drop_last();
        let g = frontier_of(d);
        let last = s.last().0;
        assert(compacted(d)) by {
            assert forall|i: int, j: int| 0 <= i < j < d.len() implies (#[trigger] d[i]).0.before(
                (#[trigger] d[j]).0,
            ) by {
                assert(d[i] == s[i] && d[j] == s[j]);
            }
            assert forall|i: int| 0 <= i < d.len() implies (#[trigger] d[i]).1 != 0 by {
                assert(d[i] == s[i]);
            }
        }
        law_frontier(d);
        assert forall|i: int| 0 <= i < g.len() implies (#[trigger] g[i]).before(last) by {
            let k = choose|k: int| 0 <= k < d.len() && d[k].1 > 0 && (#[trigger] d[k]).0 == g[i];
            assert(d[k] == s[k]);
            assert(s[k].0.before(s[s.len() - 1].0));
        }
        assert forall|i: int| 0 <= i < f.len() implies exists|k: int|
            0 <= k < s.len() && s[k].1 > 0 && (#[trigger] s[k]).0 == #[trigger] f[i] by {
            if i < g.len() {
                assert(f[i] == g[i]);
                let k = choose|k: int|
                    0 <= k < d.len() && d[k].1 > 0 && (#[trigger] d[k]).0 == g[i];
                assert(d[k] == s[k]);
            } else {
                assert(s[s.len() - 1].0 == f[i]);
            }
        }
        assert forall|k: int| 0 <= k < s.len() && (#[trigger] s[k]).1 > 0 implies dominates(
            f,
            s[k].0,
        ) by {
            if k < d.len() {
                assert(d[k] == s[k]);
                let i = choose|i: int| 0 <= i < g.len() && (#[trigger] g[i]).le(s[k].0);
                assert(f[i] == g[i]);
            } else if dominates(g, last) {
                let i = choose|i: int| 0 <= i < g.len() && (#[trigger] g[i]).le(last);
                assert(f[i] == g[i]);
            } else {
                T::le_reflexive(last);
                assert(f[g.len() as int].le(last));
            }
        }
        assert forall|i: int, j: int|
            0 <= i < f.len() && 0 <= j < f.len() && i != j implies !(#[trigger] f[i]).le(
            #[trigger] f[j],
        ) by {
            if i < g.len() && j < g.len() {
                assert(f[i] == g[i] && f[j] == g[j]);
            } else if i < g.len() {
                assert(f[i] == g[i]);
            } else {
                assert(f[j] == g[j]);
                assert(g[j].before(last));
                if last.le(g[j]) {
                    T::before_irreflexive(last);
                    T::before_extends_le(last, g[j]);
                    T::before_transitive(last, g[j], last);
                }
            }
        }
        assert forall|i: int, j: int| 0 <= i < j < f.len() implies (#[trigger] f[i]).before(
            #[trigger] f[j],
        ) by {
            if j < g.len() {
                assert(f[i] == g[i] && f[j] == g[j]);
            } else {
                assert(f[i] == g[i]);
            }
        }
    }
}

/// How often `t` occurs in `s`.
pub open spec fn occurrences<T>(s: Seq<T>, t: T) -> int
    decreases s.len(),
{
    if s.len() == 0 {
        0
    } else {
        (if s[0] == t {
            1int
        } else {
            0
        }) + occurrences(s.drop_first(), t)
    }
}

proof fn lemma_weighted_total<T: Ordered>(s: Seq<T>, w: i64, t: T)
    ensures
        total(weighted(s, w), t) == w * occurrences(s, t),
    decreases s.len(),
{
    if s.len() != 0 {
        assert(weighted(s, w).drop_first() =~= weighted(s.drop_first(), w));
        lemma_weighted_total(s.drop_first(), w, t);
        let n = occurrences(s.drop_first(), t);
        assert(w * (1 + n) == w + w * n) by (nonlinear_arith);
        assert(w * (0 + n) == w * n);
    } else {
        assert(w * 0 == 0);
    }
}

/// What an update of counted times reports is the new frontier less the old one.
pub proof fn law_frontier_changes<T: Timestamp>(prior: Seq<T>, next: Seq<T>, t: T)
    ensures
        compacted(frontier_changes(prior, next)),
        count(frontier_changes(prior, next), t) == wrapped(
            occurrences(next, t) - occurrences(prior, t),
        ),
{
    let none = Seq::<(T, i64)>::empty();
    let a = weighted(prior, (-1) as i64);
    let b = weighted(next, 1);
    assert(compacted(none));
    law_extend_counts(none, a, t);
    law_extend_counts(extended(none, a), b, t);
    lemma_weighted_total(prior, (-1) as i64, t);
    lemma_weighted_total(next, 1, t);
    let m = occurrences(prior, t);
    assert((-1) * m == -m);
    assert(1 * occurrences(next, t) == occurrences(next, t));
}

/// Inserting an element keeps an antichain: of the old elements and the new one, those stay that no
/// other one is below. What was reached before is still reached, and so is the new element; and
/// nothing else is in it.
pub proof fn law_inserted<T: PartialOrder>(s: Seq<T>, e: T, x: T)
    requires
        is_antichain(s),
    ensures
        is_antichain(inserted(s, e)),
        inserted(s, e).contains(x) ==> s.contains(x) || x == e,
        s.contains(x) && !inserted(s, e).contains(x) ==> e.le(x),
        (exists|i: int| 0 <= i < inserted(s, e).len() && (#[trigger] inserted(s, e)[i]).le(x)) <==> (
        e.le(x) || exists|i: int| 0 <= i < s.len() && (#[trigger] s[i]).le(x)),
{
    let r = inserted(s, e);
    T::le_reflexive(e);
    if dominates(s, e) {
        let j = choose|j: int| 0 <= j < s.len() && (#[trigger] s[j]).le(e);
        if e.le(x) {
            T::le_transitive(s[j], e, x);
            assert(r[j].le(x));
        }
    } else {
        let keep = |y: T| !e.le(y);
        let kept = s.filter(keep);
        lemma_filter_member(s, keep);
        lemma_filter_antichain(s, keep);
        assert(r == kept.push(e));
        assert forall|i: int, j: int|
            0 <= i < r.len() && 0 <= j < r.len() && i != j implies !(#[trigger] r[i]).le(
            #[trigger] r[j],
        ) by {
            if j == r.len() - 1 {
                assert(r[i] == kept[i]);
                let k = choose|k: int| 0 <= k < s.len() && #[trigger] s[k] == kept[i];
                assert(!s[k].le(e));
            } else if i == r.len() - 1 {
                assert(keep(kept[j]));
            } else {
                assert(r[i] == kept[i] && r[j] == kept[j]);
            }
        }
        if r.contains(x) && x != e {
            let i = r.index_of(x);
            assert(kept[i] == x);
            let k = choose|k: int| 0 <= k < s.len() && #[trigger] s[k] == kept[i];
            assert(s[k] == x);
        }
        if s.contains(x) && !e.le(x) {
            s.lemma_filter_contains(keep, s.index_of(x));
            let i = kept.index_of(x);
            assert(r[i] == x);
        }
        if e.le(x) {
            assert(r[r.len() - 1].le(x));
        }
        if exists|i: int| 0 <= i < s.len() && (#[trigger] s[i]).le(x) {
            let i = choose|i: int| 0 <= i < s.len() && (#[trigger] s[i]).le(x);
            if keep(s[i]) {
                s.lemma_filter_contains(keep, i);
                let k = kept.index_of(s[i]);
                assert(r[k] == s[i]);
            } else {
                T::le_transitive(e, s[i], x);
                assert(r[r.len() - 1].le(x));
            }
        }
        if exists|i: int| 0 <= i < r.len() && (#[trigger] r[i]).le(x) {
            let i = choose|i: int| 0 <= i < r.len() && (#[trigger] r[i]).le(x);
            if i < r.len() - 1 {
                let k = choose|k: int| 0 <= k < s.len() && #[trigger] s[k] == kept[i];
                assert(s[k].le(x));
            }
        }
    }
}

/// Inserting elements one by one leaves an antichain of some of them that reaches whatever one of
/// them reaches.
pub proof fn law_all_inserted<T: PartialOrder>(s: Seq<T>, elements: Seq<T>, x: T)
    requires
        is_antichain(s),
    ensures
        is_antichain(all_inserted(s, elements)),
        all_inserted(s, elements).contains(x) ==> s.contains(x) || elements.contains(x),
        (exists|i: int|
            0 <= i < all_inserted(s, elements).len() && (#[trigger] all_inserted(s, elements)[i]).le(
                x,
            )) <==> {
            ||| exists|i: int| 0 <= i < s.len() && (#[trigger] s[i]).le(x)
            ||| exists|i: int| 0 <= i < elements.len() && (#[trigger] elements[i]).le(x)
        },
    decreases elements.len(),
{
    if elements.len() > 0 {
        let first = elements[0];
        let rest = elements.drop_first();
        let next = inserted(s, first);
        law_inserted(s, first, x);
        law_all_inserted(next, rest, x);
        if rest.contains(x) {
            let k = rest.index_of(x);
            assert(elements[k + 1] == x);
        }
        if exists|i: int| 0 <= i < rest.len() && (#[trigger] rest[i]).le(x) {
            let i = choose|i: int| 0 <= i < rest.len() && (#[trigger] rest[i]).le(x);
            assert(elements[i + 1].le(x));
        }
        if exists|i: int| 0 <= i < elements.len() && (#[trigger] elements[i]).le(x) {
            let i = choose|i: int| 0 <= i < elements.len() && (#[trigger] elements[i]).le(x);
            if i > 0 {
                assert(rest[i - 1].le(x));
            }
        }
    }
}

/// The frontier of counts reaches exactly the times that a time with a positive count reaches.
pub proof fn law_frontier_reach<T: Timestamp>(s: Seq<(T, i64)>, x: T)
    requires
        compacted(s),
    ensures
        (exists|i: int| 0 <= i < frontier_of(s).len() && (#[trigger] frontier_of(s)[i]).le(x)) <==> (
        exists|k: int| 0 <= k < s.len() && (#[trigger] s[k]).1 > 0 && s[k].0.le(x)),
{
    law_frontier(s);
    let f = frontier_of(s);
    if exists|i: int| 0 <= i < f.len() && (#[trigger] f[i]).le(x) {
        let i = choose|i: int| 0 <= i < f.len() && (#[trigger] f[i]).le(x);
        let k = choose|k: int| 0 <= k < s.len() && s[k].1 > 0 && (#[trigger] s[k]).0 == f[i];
        assert(s[k].0.le(x));
    }
    if exists|k: int| 0 <= k < s.len() && (#[trigger] s[k]).1 > 0 && s[k].0.le(x) {
        let k = choose|k: int| 0 <= k < s.len() && (#[trigger] s[k]).1 > 0 && s[k].0.le(x);
        assert(dominates(f, s[k].0));
        let i = choose|i: int| 0 <= i < f.len() && (#[trigger] f[i]).le(s[k].0);
        T::le_transitive(f[i], s[k].0, x);
        assert(f[i].le(x));
    }
}

} // verus!
