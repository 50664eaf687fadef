//! Children that wait to be scheduled.

use vstd::multiset::Multiset;
use vstd::prelude::*;

verus! {

broadcast use vstd::seq_lib::group_to_multiset_ensures;

/// Joining sequences adds up what they hold.
pub proof fn lemma_bag_join<A>(a: Seq<A>, b: Seq<A>)
    ensures
        (a + b).to_multiset() == a.to_multiset().add(b.to_multiset()),
    decreases b.len(),
{
    if b.len() == 0 {
        assert(a + b =~= a);
        assert(b =~= Seq::<A>::empty());
        assert(b.to_multiset() =~= Multiset::<A>::empty());
        assert(a.to_multiset() =~= a.to_multiset().add(Multiset::<A>::empty()));
    } else {
        let c = b.drop_last();
        assert(b =~= c.push(b.last()));
        assert(a + b =~= (a + c).push(b.last()));
        lemma_bag_join(a, c);
        assert(a.to_multiset().add(c.to_multiset()).insert(b.last()) =~= a.to_multiset().add(
            c.to_multiset().insert(b.last()),
        ));
    }
}

/// Indexes of children to schedule, handed out lowest first.
pub struct ActiveHeap {
    pending: Vec<usize>,
}

impl View for ActiveHeap {
    type V = Multiset<usize>;

    closed spec fn view(&self) -> Multiset<usize> {
        self.pending@.to_multiset()
    }
}

/// What is left of the bag `m` once `x`, its least index above `previous`, was handed out: one
/// `x` less, and nothing that is not above `previous`.
pub open spec fn handed_out(m: Multiset<usize>, previous: usize, x: usize, rest: Multiset<usize>)
    -> bool {
    &&& previous < x
    &&& m.count(x) > 0
    &&& forall|y: usize| previous < y && #[trigger] m.count(y) > 0 ==> x <= y
    &&& forall|y: usize| #[trigger]
        rest.count(y) == (if y <= previous {
            0
        } else if y == x {
            (m.count(x) - 1) as nat
        } else {
            m.count(y)
        })
}

/// What is left of the bag `m`, in which no index is above `previous`: nothing.
pub open spec fn used_up(m: Multiset<usize>, previous: usize, rest: Multiset<usize>) -> bool {
    &&& rest == Multiset::<usize>::empty()
    &&& forall|y: usize| #[trigger] m.count(y) > 0 ==> y <= previous
}

impl ActiveHeap {
    /// Nothing to schedule.
    pub fn new() -> (r: Self)
        ensures
            r@ == Multiset::<usize>::empty(),
    {
        let r = ActiveHeap { pending: Vec::new() };
        assert(r@ =~= Multiset::<usize>::empty());
        r
    }

    /// Adds an index.
    pub fn push(&mut self, index: usize)
        ensures
            final(self)@ == old(self)@.insert(index),
    {
        self.pending.push(index);
    }

    /// Takes out the lowest index.
    pub fn pop(&mut self) -> (r: Option<usize>)
        ensures
            match r {
                None => old(self)@ == Multiset::<usize>::empty() && final(self)@ == old(self)@,
                Some(x) => {
                    &&& old(self)@.count(x) > 0
                    &&& forall|y: usize| #[trigger] old(self)@.count(y) > 0 ==> x <= y
                    &&& final(self)@ == old(self)@.remove(x)
                },
            },
    {
        let ghost m = self@;
        if self.pending.len() == 0 {
            assert(self.pending@ =~= Seq::<usize>::empty());
            assert(self@ =~= Multiset::<usize>::empty());
            return None;
        }
        let mut least: usize = 0;
        let mut i: usize = 1;
        while i < self.pending.len()
            invariant
                least < i <= self.pending@.len(),
                forall|j: int|
                    0 <= j < i ==> self.pending@[least as int] <= #[trigger] self.pending@[j],
            decreases self.pending@.len() - i,
        {
            if self.pending[i] < self.pending[least] {
                least = i;
            }
            i += 1;
        }
        let ghost all = self.pending@;
        let x: usize = self.pending.remove(least);
        proof {
            assert(all.contains(x));
            assert forall|y: usize| #[trigger] m.count(y) > 0 implies x <= y by {
                assert(all.contains(y));
                let j = all.index_of(y);
                assert(all[j] == y);
            }
        }
        Some(x)
    }

    /// Takes out the lowest index above `previous`, and all that are not above it.
    pub fn next_after(&mut self, previous: usize) -> (r: Option<usize>)
        ensures
            match r {
                None => used_up(old(self)@, previous, final(self)@),
                Some(x) => handed_out(old(self)@, previous, x, final(self)@),
            },
    {
        let ghost start = self@;
        loop
            invariant
                forall|y: usize| #[trigger] self@.count(y) <= start.count(y),
                forall|y: usize| y > previous ==> #[trigger] self@.count(y) == start.count(y),
                start == old(self)@,
            decreases self@.len(),
        {
            let ghost here = self@;
            match self.pop() {
                None => {
                    assert forall|y: usize| #[trigger] start.count(y) > 0 implies y <= previous by {
                        assert(here.count(y) == 0);
                    }
                    return None;
                },
                Some(x) => {
                    if x > previous {
                        assert(here.count(x) == start.count(x));
                        assert forall|y: usize|
                            previous < y && #[trigger] start.count(y) > 0 implies x <= y by {
                            assert(here.count(y) > 0);
                        }
                        assert forall|y: usize| #[trigger]
                            self@.count(y) == (if y <= previous {
                                0
                            } else if y == x {
                                (start.count(x) - 1) as nat
                            } else {
                                start.count(y)
                            }) by {
                            if y <= previous && here.count(y) > 0 {
                                assert(x <= y);
                            }
                        }
                        return Some(x);
                    }
                },
            }
        }
    }
}

/// The index that was handed out before the one at `k`, 0 for the first.
pub open spec fn handed_before(handed: Seq<usize>, k: int) -> usize {
    if k == 0 {
        0
    } else {
        handed[k - 1]
    }
}

/// Whether the index at `k` is handed out of `bags[k]`, which leaves `rests[k]`, and `added[k]`
/// is added to that.
pub open spec fn is_step(
    bags: Seq<Multiset<usize>>,
    rests: Seq<Multiset<usize>>,
    added: Seq<Multiset<usize>>,
    handed: Seq<usize>,
    k: int,
) -> bool {
    &&& handed_out(bags[k], handed_before(handed, k), handed[k], rests[k])
    &&& bags[k + 1] == rests[k].add(added[k])
}

/// Whether the indexes `handed` are handed out step by step, until no index in the last of `bags`
/// is above the one handed out last. In the end, `rest` is left.
pub open spec fn is_pass(
    bags: Seq<Multiset<usize>>,
    rests: Seq<Multiset<usize>>,
    added: Seq<Multiset<usize>>,
    handed: Seq<usize>,
    rest: Multiset<usize>,
) -> bool {
    &&& bags.len() == handed.len() + 1
    &&& rests.len() == handed.len()
    &&& added.len() == handed.len()
    &&& forall|k: int|
        0 <= k < handed.len() ==> #[trigger] is_step(bags, rests, added, handed, k)
    &&& used_up(bags.last(), handed_before(handed, handed.len() as int), rest)
}

/// In one pass, indexes are handed out in ascending order, each at most once and none that is 0.
/// Whatever waits at first is handed out, but for 0, and so is what is added later, if it is above
/// the index handed out last. Nothing else is, and nothing is left.
pub proof fn law_pass(
    bags: Seq<Multiset<usize>>,
    rests: Seq<Multiset<usize>>,
    added: Seq<Multiset<usize>>,
    handed: Seq<usize>,
    rest: Multiset<usize>,
)
    requires
        is_pass(bags, rests, added, handed, rest),
    ensures
        forall|i: int, j: int| 0 <= i < j < handed.len() ==> handed[i] < handed[j],
        forall|i: int| 0 <= i < handed.len() ==> 0 < #[trigger] handed[i],
        forall|y: usize| 0 < y && #[trigger] bags[0].count(y) > 0 ==> handed.contains(y),
        forall|k: int, y: usize|
            0 <= k < handed.len() && handed[k] < y && #[trigger] added[k].count(y) > 0
                ==> handed.contains(y),
        forall|k: int|
            0 <= k < handed.len() ==> bags[0].count(#[trigger] handed[k]) > 0 || exists|j: int|
                0 <= j < k && #[trigger] added[j].count(handed[k]) > 0,
        rest == Multiset::<usize>::empty(),
{
    assert forall|i: int, j: int| 0 <= i < j < handed.len() implies handed[i] < handed[j] by {
        lemma_pass_ascends(bags, rests, added, handed, rest, i, j);
    }
    assert forall|i: int| 0 <= i < handed.len() implies 0 < #[trigger] handed[i] by {
        assert(is_step(bags, rests, added, handed, i));
    }
    assert forall|y: usize| 0 < y && #[trigger] bags[0].count(y) > 0 implies handed.contains(y) by {
        lemma_pass_reaches(bags, rests, added, handed, rest, 0, y);
    }
    assert forall|k: int, y: usize|
        0 <= k < handed.len() && handed[k] < y && #[trigger] added[k].count(y) > 0 implies
        handed.contains(y) by {
        assert(is_step(bags, rests, added, handed, k));
        lemma_pass_reaches(bags, rests, added, handed, rest, k + 1, y);
    }
    assert forall|k: int| 0 <= k < handed.len() implies bags[0].count(#[trigger] handed[k]) > 0
        || exists|j: int| 0 <= j < k && #[trigger] added[j].count(handed[k]) > 0 by {
        assert(is_step(bags, rests, added, handed, k));
        lemma_pass_origin(bags, rests, added, handed, rest, k, handed[k]);
    }
}

proof fn lemma_pass_ascends(
    bags: Seq<Multiset<usize>>,
    rests: Seq<Multiset<usize>>,
    added: Seq<Multiset<usize>>,
    handed: Seq<usize>,
    rest: Multiset<usize>,
    i: int,
    j: int,
)
    requires
        is_pass(bags, rests, added, handed, rest),
        0 <= i < j < handed.len(),
    ensures
        handed[i] < handed[j],
    decreases j,
{
    assert(is_step(bags, rests, added, handed, j));
    if i < j - 1 {
        lemma_pass_ascends(bags, rests, added, handed, rest, i, j - 1);
    }
}

/// What waits, above the index handed out last, is still handed out.
proof fn lemma_pass_reaches(
    bags: Seq<Multiset<usize>>,
    rests: Seq<Multiset<usize>>,
    added: Seq<Multiset<usize>>,
    handed: Seq<usize>,
    rest: Multiset<usize>,
    k: int,
    y: usize,
)
    requires
        is_pass(bags, rests, added, handed, rest),
        0 <= k <= handed.len(),
        handed_before(handed, k) < y,
        bags[k].count(y) > 0,
    ensures
        handed.contains(y),
    decreases handed.len() - k,
{
    if k < handed.len() && handed[k] != y {
        assert(is_step(bags, rests, added, handed, k));
        lemma_pass_reaches(bags, rests, added, handed, rest, k + 1, y);
    }
}

/// What waits did so at first, or was added.
proof fn lemma_pass_origin(
    bags: Seq<Multiset<usize>>,
    rests: Seq<Multiset<usize>>,
    added: Seq<Multiset<usize>>,
    handed: Seq<usize>,
    rest: Multiset<usize>,
    k: int,
    y: usize,
)
    requires
        is_pass(bags, rests, added, handed, rest),
        0 <= k < handed.len(),
        bags[k].count(y) > 0,
    ensures
        bags[0].count(y) > 0 || exists|j: int| 0 <= j < k && #[trigger] added[j].count(y) > 0,
    decreases k,
{
    if k > 0 {
        assert(is_step(bags, rests, added, handed, k - 1));
        if added[k - 1].count(y) == 0 {
            lemma_pass_origin(bags, rests, added, handed, rest, k - 1, y);
        }
    }
}

/// Handing out an index takes one of it out of the bag: putting it back restores all above
/// `previous`. Nothing else is left, and nothing between `previous` and the index was there.
pub proof fn law_one_handed_out(
    m: Multiset<usize>,
    previous: usize,
    x: usize,
    rest: Multiset<usize>,
    y: usize,
)
    requires
        handed_out(m, previous, x, rest),
    ensures
        m.contains(x),
        y <= previous ==> !rest.contains(y),
        y > previous ==> rest.insert(x).count(y) == m.count(y),
        previous < y < x ==> !m.contains(y),
{
}

/// Where no index is handed out, none above `previous` was in the bag, and none is left.
pub proof fn law_none_handed_out(
    m: Multiset<usize>,
    previous: usize,
    rest: Multiset<usize>,
    y: usize,
)
    requires
        used_up(m, previous, rest),
    ensures
        !rest.contains(y),
        y > previous ==> !m.contains(y),
{
}

} // verus!
