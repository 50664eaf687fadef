//! Holding records back until a later time.

use vstd::prelude::*;

use crate::order::{Ordered, Relation, Timestamp};

verus! {

/// `m` with `x` behind what is held for `t`.
pub open spec fn stashed<T, X>(m: Map<T, Seq<X>>, t: T, x: X) -> Map<T, Seq<X>> {
    if m.contains_key(t) {
        m.insert(t, m[t].push(x))
    } else {
        m.insert(t, seq![x])
    }
}

/// `m` with each of `xs` held for the time at the same place of `times`.
pub open spec fn all_stashed<T, X>(m: Map<T, Seq<X>>, times: Seq<T>, xs: Seq<X>) -> Map<T, Seq<X>>
    decreases times.len(),
{
    if times.len() == 0 {
        m
    } else {
        stashed(all_stashed(m, times.drop_last(), xs.drop_last()), times.last(), xs.last())
    }
}

/// Those of `times` for which nothing was held when their turn came: of these a notification
/// is asked for.
pub open spec fn requested<T, X>(m: Map<T, Seq<X>>, times: Seq<T>, xs: Seq<X>) -> Seq<T>
    decreases times.len(),
{
    if times.len() == 0 {
        Seq::empty()
    } else {
        let before = requested(m, times.drop_last(), xs.drop_last());
        if all_stashed(m, times.drop_last(), xs.drop_last()).contains_key(times.last()) {
            before
        } else {
            before.push(times.last())
        }
    }
}

/// What is held in the entries `s`, of which later ones take precedence.
spec fn entries_map<T, X>(s: Seq<(T, Vec<X>)>) -> Map<T, Seq<X>>
    decreases s.len(),
{
    if s.len() == 0 {
        Map::empty()
    } else {
        entries_map(s.drop_last()).insert(s.last().0, s.last().1@)
    }
}

/// No time has two entries.
spec fn one_each<T, X>(s: Seq<(T, Vec<X>)>) -> bool {
    forall|i: int, j: int| 0 <= i < j < s.len() ==> (#[trigger] s[i]).0 != (#[trigger] s[j]).0
}

proof fn lemma_entries<T, X>(s: Seq<(T, Vec<X>)>)
    requires
        one_each(s),
    ensures
        forall|i: int|
            0 <= i < s.len() ==> entries_map(s).contains_key((#[trigger] s[i]).0)
                && entries_map(s)[s[i].0] == s[i].1@,
        forall|t: T| #[trigger]
            entries_map(s).contains_key(t) ==> exists|i: int|
                0 <= i < s.len() && (#[trigger] s[i]).0 == t,
    decreases s.len(),
{
    if s.len() > 0 {
        let before = s.drop_last();
        assert(one_each(before)) by {
            assert forall|i: int, j: int| 0 <= i < j < before.len() implies (
            #[trigger] before[i]).0 != (#[trigger] before[j]).0 by {
                assert(s[i] == before[i] && s[j] == before[j]);
            }
        }
        lemma_entries(before);
        assert forall|i: int| 0 <= i < s.len() implies entries_map(s).contains_key(
            (#[trigger] s[i]).0,
        ) && entries_map(s)[s[i].0] == s[i].1@ by {
            if i < before.len() {
                assert(before[i] == s[i]);
                assert(s[i].0 != s[s.len() - 1].0);
            }
        }
        assert forall|t: T| #[trigger] entries_map(s).contains_key(t) implies exists|i: int|
            0 <= i < s.len() && (#[trigger] s[i]).0 == t by {
            if t == s.last().0 {
                assert(s[s.len() - 1].0 == t);
            } else {
                assert(entries_map(before).contains_key(t));
                let i = choose|i: int| 0 <= i < before.len() && (#[trigger] before[i]).0 == t;
                assert(s[i].0 == t);
            }
        }
    }
}

/// What is held back, by time.
pub struct Held<T: Ordered, X> {
    entries: Vec<(T, Vec<X>)>,
}

impl<T: Ordered, X> View for Held<T, X> {
    type V = Map<T, Seq<X>>;

    closed spec fn view(&self) -> Map<T, Seq<X>> {
        entries_map(self.entries@)
    }
}

impl<T: Ordered, X> Held<T, X> {
    /// No time has two entries.
    pub closed spec fn wf(&self) -> bool {
        one_each(self.entries@)
    }

    /// Nothing.
    pub fn new() -> (r: Self)
        ensures
            r.wf(),
            r@ == Map::<T, Seq<X>>::empty(),
    {
        Held { entries: Vec::new() }
    }

    /// Where the entry for `time` is: behind all of them, if there is none.
    fn find(&self, time: &T) -> (r: usize)
        ensures
            r <= self.entries@.len(),
            r < self.entries@.len() ==> self.entries@[r as int].0 == *time,
            r == self.entries@.len() ==> forall|i: int|
                0 <= i < self.entries@.len() ==> (#[trigger] self.entries@[i]).0 != *time,
    {
        let mut i: usize = 0;
        while i < self.entries.len()
            invariant
                i <= self.entries@.len(),
                forall|k: int| 0 <= k < i ==> (#[trigger] self.entries@[k]).0 != *time,
            decreases self.entries@.len() - i,
        {
            match self.entries[i].0.relate(time) {
                Relation::Same => {
                    return i;
                },
                Relation::Before => {
                    proof {
                        T::before_irreflexive(*time);
                    }
                },
                Relation::After => {
                    proof {
                        T::before_irreflexive(*time);
                    }
                },
            }
            i += 1;
        }
        i
    }

    /// Holds `item` back until `time`. Returns whether nothing was held for that time.
    pub fn put(&mut self, time: T, item: X) -> (r: bool)
        requires
            old(self).wf(),
        ensures
            final(self).wf(),
            final(self)@ == stashed(old(self)@, time, item),
            r == !old(self)@.contains_key(time),
    {
        let ghost s = self.entries@;
        proof {
            lemma_entries(s);
        }
        let p: usize = self.find(&time);
        if p < self.entries.len() {
            self.entries[p].1.push(item);
            proof {
                let n = self.entries@;
                assert(one_each(n)) by {
                    assert forall|i: int, j: int| 0 <= i < j < n.len() implies (
                    #[trigger] n[i]).0 != (#[trigger] n[j]).0 by {
                        assert(n[i].0 == s[i].0 && n[j].0 == s[j].0);
                    }
                }
                lemma_entries(n);
                assert(s[p as int].0 == time);
                assert(n[p as int].0 == time);
                assert(entries_map(n) =~= stashed(entries_map(s), time, item)) by {
                    assert forall|t: T| entries_map(n).contains_key(t) <==> stashed(
                        entries_map(s),
                        time,
                        item,
                    ).contains_key(t) by {
                        if entries_map(n).contains_key(t) {
                            let i = choose|i: int| 0 <= i < n.len() && (#[trigger] n[i]).0 == t;
                            assert(s[i].0 == t);
                        }
                        if entries_map(s).contains_key(t) {
                            let i = choose|i: int| 0 <= i < s.len() && (#[trigger] s[i]).0 == t;
                            assert(n[i].0 == t);
                        }
                    }
                    assert forall|t: T| entries_map(n).contains_key(t) implies entries_map(n)[t]
                        == stashed(entries_map(s), time, item)[t] by {
                        let i = choose|i: int| 0 <= i < n.len() && (#[trigger] n[i]).0 == t;
                        assert(s[i].0 == t);
                        if i != p {
                            assert(n[i] == s[i]);
                            if t == time {
                                if i < p {
                                    assert(s[i].0 != s[p as int].0);
                                } else {
                                    assert(s[p as int].0 != s[i].0);
                                }
                            }
                        }
                    }
                }
            }
            false
        } else {
            let mut items: Vec<X> = Vec::new();
            items.push(item);
            self.entries.push((time, items));
            proof {
                let n = self.entries@;
                assert(n.drop_last() =~= s);
                assert(items@ =~= seq![item]);
                if entries_map(s).contains_key(time) {
                    let i = choose|i: int| 0 <= i < s.len() && (#[trigger] s[i]).0 == time;
                    assert(false);
                }
                assert(one_each(n)) by {
                    assert forall|i: int, j: int| 0 <= i < j < n.len() implies (
                    #[trigger] n[i]).0 != (#[trigger] n[j]).0 by {
                        assert(n[i] == s[i]);
                        if j < s.len() {
                            assert(n[j] == s[j]);
                        }
                    }
                }
            }
            true
        }
    }

    /// Takes out what is held for `time`.
    pub fn take(&mut self, time: &T) -> (r: Option<Vec<X>>)
        requires
            old(self).wf(),
        ensures
            final(self).wf(),
            final(self)@ == old(self)@.remove(*time),
            match r {
                Some(items) => old(self)@.contains_key(*time) && items@ == old(self)@[*time],
                None => !old(self)@.contains_key(*time),
            },
    {
        let ghost s = self.entries@;
        proof {
            lemma_entries(s);
        }
        let p: usize = self.find(time);
        if p < self.entries.len() {
            let (_, items) = self.entries.remove(p);
            proof {
                let n = self.entries@;
                assert(s[p as int].0 == *time);
                assert forall|i: int| 0 <= i < n.len() implies #[trigger] n[i] == (if i < p {
                    s[i]
                } else {
                    s[i + 1]
                }) by {}
                assert(one_each(n));
                lemma_entries(n);
                assert(entries_map(n) =~= entries_map(s).remove(*time)) by {
                    assert forall|t: T| entries_map(n).contains_key(t) <==> entries_map(s).remove(
                        *time,
                    ).contains_key(t) by {
                        if entries_map(n).contains_key(t) {
                            let i = choose|i: int| 0 <= i < n.len() && (#[trigger] n[i]).0 == t;
                            let k = if i < p {
                                i
                            } else {
                                i + 1
                            };
                            assert(s[k].0 == t);
                            if k < p {
                                assert(s[k].0 != s[p as int].0);
                            } else {
                                assert(s[p as int].0 != s[k].0);
                            }
                        }
                        if entries_map(s).contains_key(t) && t != *time {
                            let i = choose|i: int| 0 <= i < s.len() && (#[trigger] s[i]).0 == t;
                            let k = if i < p {
                                i
                            } else {
                                i - 1
                            };
                            assert(n[k].0 == t);
                        }
                    }
                    assert forall|t: T| entries_map(n).contains_key(t) implies entries_map(n)[t]
                        == entries_map(s)[t] by {
                        let i = choose|i: int| 0 <= i < n.len() && (#[trigger] n[i]).0 == t;
                        let k = if i < p {
                            i
                        } else {
                            i + 1
                        };
                        assert(s[k].0 == t);
                    }
                }
            }
            Some(items)
        } else {
            proof {
                if entries_map(s).contains_key(*time) {
                    let i = choose|i: int| 0 <= i < s.len() && (#[trigger] s[i]).0 == *time;
                    assert(false);
                }
                assert(entries_map(s).remove(*time) =~= entries_map(s));
            }
            None
        }
    }
}

/// Advancing the times of records, or of batches of records.
pub trait Delay<T: Timestamp, D>: Sized {
    /// The records held back, by the time they wait for.
    spec fn records(&self) -> Map<T, Seq<D>>;

    /// The batches held back, by the time they wait for.
    spec fn batches(&self) -> Map<T, Seq<Vec<D>>>;

    /// What is held back is in order.
    spec fn in_order(&self) -> bool;

    /// Holds each of `data`, which came at `time`, back until the time that `func` gives it.
    /// That time must not be before `time`. Returns the times of which a notification is to be
    /// asked for: those for which nothing was held.
    fn delay<F: Fn(&D, &T) -> T>(&mut self, time: T, data: Vec<D>, func: F) -> (r: Vec<T>)
        requires
            old(self).in_order(),
            forall|i: int|
                0 <= i < data@.len() ==> call_requires(func, (&(#[trigger] data@[i]), &time)),
            forall|i: int, t: T|
                0 <= i < data@.len() && #[trigger] call_ensures(func, (&data@[i], &time), t)
                    ==> time.le(t),
        ensures
            final(self).in_order(),
            final(self).batches() == old(self).batches(),
            exists|times: Seq<T>|
                {
                    &&& times.len() == data@.len()
                    &&& forall|i: int|
                        0 <= i < data@.len() ==> call_ensures(
                            func,
                            (&data@[i], &time),
                            #[trigger] times[i],
                        )
                    &&& final(self).records() == #[trigger] all_stashed(
                        old(self).records(),
                        times,
                        data@,
                    )
                    &&& r@ == requested(old(self).records(), times, data@)
                },
    ;

    /// Holds the batch `data`, which came at `time`, back until the time that `func` gives.
    /// That time must not be before `time`. Returns it, if nothing was held for it, so that a
    /// notification is to be asked for.
    fn delay_batch<F: Fn(&T) -> T>(&mut self, time: T, data: Vec<D>, func: F) -> (r: Option<T>)
        requires
            old(self).in_order(),
            call_requires(func, (&time,)),
            forall|t: T| #[trigger] call_ensures(func, (&time,), t) ==> time.le(t),
        ensures
            final(self).in_order(),
            final(self).records() == old(self).records(),
            exists|t: T|
                {
                    &&& #[trigger] call_ensures(func, (&time,), t)
                    &&& final(self).batches() == stashed(old(self).batches(), t, data)
                    &&& r == (if old(self).batches().contains_key(t) {
                        None
                    } else {
                        Some(t)
                    })
                },
    ;

    /// Takes out the records that wait for `time`, once that has come.
    fn release(&mut self, time: &T) -> (r: Option<Vec<D>>)
        requires
            old(self).in_order(),
        ensures
            final(self).in_order(),
            final(self).batches() == old(self).batches(),
            final(self).records() == old(self).records().remove(*time),
            match r {
                Some(data) => old(self).records().contains_key(*time) && data@
                    == old(self).records()[*time],
                None => !old(self).records().contains_key(*time),
            },
    ;

    /// Takes out the batches that wait for `time`, once that has come.
    fn release_batches(&mut self, time: &T) -> (r: Option<Vec<Vec<D>>>)
        requires
            old(self).in_order(),
        ensures
            final(self).in_order(),
            final(self).records() == old(self).records(),
            final(self).batches() == old(self).batches().remove(*time),
            match r {
                Some(data) => old(self).batches().contains_key(*time) && data@
                    == old(self).batches()[*time],
                None => !old(self).batches().contains_key(*time),
            },
    ;
}

/// Records and batches of records that are held back.
pub struct DelayBuffer<T: Timestamp, D> {
    /// The records.
    pub elements: Held<T, D>,
    /// The batches.
    pub datas: Held<T, Vec<D>>,
}

impl<T: Timestamp, D> DelayBuffer<T, D> {
    /// Nothing held back.
    pub fn new() -> (r: Self)
        ensures
            r.in_order(),
            r.records() == Map::<T, Seq<D>>::empty(),
            r.batches() == Map::<T, Seq<Vec<D>>>::empty(),
    {
        DelayBuffer { elements: Held::new(), datas: Held::new() }
    }
}

impl<T: Timestamp, D> Delay<T, D> for DelayBuffer<T, D> {
    open spec fn records(&self) -> Map<T, Seq<D>> {
        self.elements@
    }

    open spec fn batches(&self) -> Map<T, Seq<Vec<D>>> {
        self.datas@
    }

    open spec fn in_order(&self) -> bool {
        self.elements.wf() && self.datas.wf()
    }

    fn delay<F: Fn(&D, &T) -> T>(&mut self, time: T, data: Vec<D>, func: F) -> (r: Vec<T>) {
        let ghost start = self.elements@;
        let ghost all = data@;
        let ghost mut times: Seq<T> = Seq::empty();
        let count: usize = data.len();
        let mut data = data;
        let mut r: Vec<T> = Vec::new();
        let mut i: usize = 0;
        assert(data@ =~= all.skip(0));
        while i < count
            invariant
                i <= count,
                count == all.len(),
                data@ == all.skip(i as int),
                times.len() == i,
                self.elements.wf(),
                self.datas == old(self).datas,
                forall|k: int|
                    0 <= k < all.len() ==> call_requires(func, (&(#[trigger] all[k]), &time)),
                forall|k: int|
                    0 <= k < i ==> call_ensures(func, (&all[k], &time), #[trigger] times[k]),
                self.elements@ == all_stashed(start, times, all.take(i as int)),
                r@ == requested(start, times, all.take(i as int)),
            decreases count - i,
        {
            let ghost before = times;
            let datum = data.remove(0);
            assert(datum == all[i as int]);
            assert(data@ =~= all.skip(i + 1));
            assert(call_requires(func, (&all[i as int], &time)));
            let new_time = func(&datum, &time);
            proof {
                times = times.push(new_time);
                assert(times.drop_last() =~= before);
                assert(all.take(i + 1).drop_last() =~= all.take(i as int));
                assert(all.take(i + 1).last() == datum);
            }
            if self.elements.put(new_time, datum) {
                r.push(new_time);
            }
            i += 1;
        }
        assert(all.take(i as int) =~= all);
        assert(self.records() == all_stashed(old(self).records(), times, all));
        r
    }

    fn delay_batch<F: Fn(&T) -> T>(&mut self, time: T, data: Vec<D>, func: F) -> (r: Option<T>) {
        let new_time = func(&time);
        if self.datas.put(new_time, data) {
            Some(new_time)
        } else {
            None
        }
    }

    fn release(&mut self, time: &T) -> (r: Option<Vec<D>>) {
        self.elements.take(time)
    }

    fn release_batches(&mut self, time: &T) -> (r: Option<Vec<Vec<D>>>) {
        self.datas.take(time)
    }
}

/// A record that is held back comes out when its time does: once records were held back, what
/// is held for the time of each of them includes it, and what was held before is still there.
pub proof fn law_delayed_is_held<T, X>(m: Map<T, Seq<X>>, times: Seq<T>, xs: Seq<X>)
    requires
        times.len() == xs.len(),
    ensures
        forall|i: int|
            0 <= i < times.len() ==> all_stashed(m, times, xs).contains_key(#[trigger] times[i])
                && all_stashed(m, times, xs)[times[i]].contains(xs[i]),
        forall|t: T| #[trigger]
            m.contains_key(t) ==> all_stashed(m, times, xs).contains_key(t)
                && m[t].is_prefix_of(all_stashed(m, times, xs)[t]),
    decreases times.len(),
{
    if times.len() > 0 {
        let earlier = times.drop_last();
        let others = xs.drop_last();
        let before = all_stashed(m, earlier, others);
        let after = all_stashed(m, times, xs);
        law_delayed_is_held(m, earlier, others);
        assert forall|i: int| 0 <= i < times.len() implies after.contains_key(#[trigger] times[i])
            && after[times[i]].contains(xs[i]) by {
            if i < earlier.len() {
                assert(earlier[i] == times[i] && others[i] == xs[i]);
                let k = before[times[i]].index_of(xs[i]);
                assert(after[times[i]][k] == xs[i]);
            } else {
                let held = after[times[i]];
                assert(held[held.len() - 1] == xs[i]);
            }
        }
    }
}

/// Of each time for which something is held after records were held back, something was held
/// before or a notification was asked for.
pub proof fn law_held_is_notified<T, X>(m: Map<T, Seq<X>>, times: Seq<T>, xs: Seq<X>, t: T)
    requires
        times.len() == xs.len(),
        all_stashed(m, times, xs).contains_key(t),
    ensures
        m.contains_key(t) || requested(m, times, xs).contains(t),
    decreases times.len(),
{
    if times.len() > 0 {
        let earlier = times.drop_last();
        let others = xs.drop_last();
        let asked = requested(m, earlier, others);
        if all_stashed(m, earlier, others).contains_key(t) {
            law_held_is_notified(m, earlier, others, t);
            if asked.contains(t) {
                let k = asked.index_of(t);
                assert(requested(m, times, xs)[k] == t);
            }
        } else {
            let now = requested(m, times, xs);
            assert(now[now.len() - 1] == t);
        }
    }
}

/// What is held for a time: what was held for it before, and behind it, in their order, the items
/// delayed to it. A time is there if one of these is.
pub proof fn law_items_held<T, X>(m: Map<T, Seq<X>>, times: Seq<T>, xs: Seq<X>, t: T)
    requires
        times.len() == xs.len(),
    ensures
        all_stashed(m, times, xs).contains_key(t) <==> m.contains_key(t) || times.contains(t),
        all_stashed(m, times, xs).contains_key(t) ==> all_stashed(m, times, xs)[t] == (
        if m.contains_key(t) {
            m[t]
        } else {
            Seq::empty()
        }) + Seq::new(times.len(), |i: int| i).filter(|i: int| times[i] == t).map_values(
            |i: int| xs[i],
        ),
    decreases times.len(),
{
    let all = Seq::new(times.len(), |i: int| i);
    let keep = |i: int| times[i] == t;
    let item = |i: int| xs[i];
    let held = if m.contains_key(t) {
        m[t]
    } else {
        Seq::empty()
    };
    reveal(Seq::filter);
    if times.len() > 0 {
        let before = times.drop_last();
        let items = xs.drop_last();
        law_items_held(m, before, items, t);
        let less = Seq::new(before.len(), |i: int| i);
        let keep1 = |i: int| before[i] == t;
        let item1 = |i: int| items[i];
        assert(all.drop_last() =~= less);
        lemma_same_filter(less, keep, keep1, item, item1, before.len() as int);
        assert(times[times.len() - 1] == times.last());
        if before.contains(t) {
            let k = before.index_of(t);
            assert(times[k] == t);
        }
        if times.contains(t) && times.last() != t {
            let k = times.index_of(t);
            assert(before[k] == t);
        }
        let was = held + less.filter(keep).map_values(item);
        if times.last() == t {
            assert(held + all.filter(keep).map_values(item) =~= was.push(xs.last()));
            if !all_stashed(m, before, items).contains_key(t) {
                assert(!m.contains_key(t) && !before.contains(t));
                assert(less.filter(keep) =~= Seq::<int>::empty()) by {
                    lemma_nothing_kept(less, keep, before.len() as int, before, t);
                }
                assert(was =~= Seq::<X>::empty());
                assert(was.push(xs.last()) =~= seq![xs.last()]);
            }
        } else {
            assert(all.filter(keep) == less.filter(keep));
        }
    } else {
        assert(held + all.filter(keep).map_values(item) =~= held);
    }
}

proof fn lemma_nothing_kept<T>(
    all: Seq<int>,
    keep: spec_fn(int) -> bool,
    n: int,
    times: Seq<T>,
    t: T,
)
    requires
        all == Seq::new(n as nat, |i: int| i),
        0 <= n <= times.len(),
        forall|i: int| 0 <= i < n ==> (#[trigger] keep(i) <==> times[i] == t),
        !times.contains(t),
    ensures
        all.filter(keep) == Seq::<int>::empty(),
    decreases n,
{
    reveal(Seq::filter);
    if n > 0 {
        let less = Seq::new((n - 1) as nat, |i: int| i);
        assert(all.drop_last() =~= less);
        lemma_nothing_kept(less, keep, n - 1, times, t);
        assert(times[n - 1] != t);
        assert(!keep(n - 1));
    }
}

proof fn lemma_same_filter<X>(
    all: Seq<int>,
    keep: spec_fn(int) -> bool,
    keep1: spec_fn(int) -> bool,
    item: spec_fn(int) -> X,
    item1: spec_fn(int) -> X,
    n: int,
)
    requires
        0 <= n,
        all == Seq::new(n as nat, |i: int| i),
        forall|i: int| 0 <= i < n ==> #[trigger] keep(i) == keep1(i),
        forall|i: int| 0 <= i < n ==> #[trigger] item(i) == item1(i),
    ensures
        all.filter(keep) == all.filter(keep1),
        all.filter(keep).map_values(item) == all.filter(keep1).map_values(item1),
    decreases n,
{
    reveal(Seq::filter);
    if n > 0 {
        let less = Seq::new((n - 1) as nat, |i: int| i);
        assert(all.drop_last() =~= less);
        lemma_same_filter(less, keep, keep1, item, item1, n - 1);
        assert(keep(n - 1) == keep1(n - 1));
        assert(item(n - 1) == item1(n - 1));
        assert(all.last() == n - 1);
        if keep(n - 1) {
            let a = less.filter(keep).map_values(item);
            let b = less.filter(keep1).map_values(item1);
            assert(all.filter(keep).map_values(item) =~= a.push(item(n - 1)));
            assert(all.filter(keep1).map_values(item1) =~= b.push(item1(n - 1)));
        }
    }
    assert(all.filter(keep).map_values(item) =~= all.filter(keep1).map_values(item1));
}

/// A notification is asked for exactly for the times for which nothing was held before and
/// something is now, and once for each.
pub proof fn law_requested_once<T, X>(m: Map<T, Seq<X>>, times: Seq<T>, xs: Seq<X>, t: T)
    requires
        times.len() == xs.len(),
    ensures
        requested(m, times, xs).contains(t) <==> times.contains(t) && !m.contains_key(t),
        requested(m, times, xs).no_duplicates(),
    decreases times.len(),
{
    if times.len() > 0 {
        let before = times.drop_last();
        let items = xs.drop_last();
        let last = times.last();
        let asked = requested(m, before, items);
        law_requested_once(m, before, items, t);
        law_requested_once(m, before, items, last);
        law_items_held(m, before, items, last);
        assert(times[times.len() - 1] == last);
        if before.contains(t) {
            let k = before.index_of(t);
            assert(times[k] == t);
        }
        if times.contains(t) && last != t {
            let k = times.index_of(t);
            assert(before[k] == t);
        }
        let all = requested(m, times, xs);
        if all != asked {
            assert(all == asked.push(last));
            assert(!asked.contains(last));
            if asked.contains(t) {
                let k = asked.index_of(t);
                assert(all[k] == t);
            }
            if t == last {
                assert(all[all.len() - 1] == t);
            }
            if all.contains(t) && t != last {
                let k = all.index_of(t);
                assert(asked[k] == t);
            }
        }
    }
}

/// One item delayed to a time is put behind what is held for it, and what is held for other times
/// stays.
pub proof fn law_item_held<T, X>(m: Map<T, Seq<X>>, t: T, x: X, u: T)
    ensures
        stashed(m, t, x).contains_key(t),
        m.contains_key(t) ==> stashed(m, t, x)[t] == m[t].push(x),
        !m.contains_key(t) ==> stashed(m, t, x)[t] == seq![x],
        u != t ==> stashed(m, t, x).contains_key(u) == m.contains_key(u),
        u != t && m.contains_key(u) ==> stashed(m, t, x)[u] == m[u],
{
}

} // verus!
