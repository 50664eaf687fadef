//! Accesses to memory that is shared with the device, in the order in which they are to be
//! made.

use vstd::prelude::*;

verus! {

/// One access to the shared memory, by the index of a word in it.
#[derive(Clone, Copy, Debug, PartialEq, Eq, Structural)]
pub enum Access {
    /// Store a word.
    Store {
        /// Where.
        slot: usize,
        /// What.
        word: u64,
    },
    /// Store two words at once, at neighbouring slots.
    StorePair {
        /// Where the first goes.
        slot: usize,
        /// The first.
        first: u64,
        /// The second.
        second: u64,
    },
    /// Load a word.
    Load {
        /// Where from.
        slot: usize,
    },
    /// Load two words at once, from neighbouring slots.
    LoadPair {
        /// Where the first comes from.
        slot: usize,
    },
    /// Let no later access overtake an earlier one.
    Fence,
}

/// How many words `plan` loads.
pub open spec fn load_count(plan: Seq<Access>) -> nat
    decreases plan.len(),
{
    if plan.len() == 0 {
        0
    } else {
        load_count(plan.drop_last()) + match plan.last() {
            Access::Load { .. } => 1nat,
            Access::LoadPair { .. } => 2nat,
            _ => 0nat,
        }
    }
}

/// What each of `plans` holds.
pub open spec fn plan_views(plans: Seq<Vec<Access>>) -> Seq<Seq<Access>> {
    plans.map_values(|p: Vec<Access>| p@)
}

/// Store `words` from `offset` on.
pub open spec fn stores(offset: usize, words: Seq<u64>) -> Seq<Access> {
    words.map(|i: int, w: u64| Access::Store { slot: (offset + i) as usize, word: w })
}

/// Load as many words as `n` from `offset` on.
pub open spec fn loads(offset: usize, n: nat) -> Seq<Access> {
    Seq::new(n, |i: int| Access::Load { slot: (offset + i) as usize })
}

/// Store `words` from `offset` on, then fence.
pub open spec fn fenced_stores(offset: usize, words: Seq<u64>) -> Seq<Access> {
    stores(offset, words).push(Access::Fence)
}

/// Load as many words as `n` from `offset` on, then fence.
pub open spec fn fenced_loads(offset: usize, n: nat) -> Seq<Access> {
    loads(offset, n).push(Access::Fence)
}

/// Adds stores of words `from` to `to` of `words`, from `offset` on, and a fence.
pub fn push_stores(plan: &mut Vec<Access>, offset: usize, words: &Vec<u64>, from: usize, to: usize)
    requires
        from <= to <= words@.len(),
        offset + (to - from) <= usize::MAX,
    ensures
        final(plan)@ == old(plan)@ + fenced_stores(
            offset,
            words@.subrange(from as int, to as int),
        ),
{
    let ghost start = plan@;
    let ghost list = words@.subrange(from as int, to as int);
    let mut i: usize = from;
    assert(start + stores(offset, list.take(0)) =~= start);
    while i < to
        invariant
            from <= i <= to <= words@.len(),
            offset + (to - from) <= usize::MAX,
            list == words@.subrange(from as int, to as int),
            plan@ == start + stores(offset, list.take(i - from)),
        decreases to - i,
    {
        plan.push(Access::Store { slot: offset + (i - from), word: words[i] });
        assert(plan@ =~= start + stores(offset, list.take(i + 1 - from)));
        i += 1;
    }
    assert(list.take(i - from) =~= list);
    plan.push(Access::Fence);
    assert(plan@ =~= start + fenced_stores(offset, list));
}

/// Adds loads of as many words as `n`, from `offset` on, and a fence.
pub fn push_loads(plan: &mut Vec<Access>, offset: usize, n: usize)
    requires
        offset + n <= usize::MAX,
    ensures
        final(plan)@ == old(plan)@ + fenced_loads(offset, n as nat),
{
    let ghost start = plan@;
    let mut i: usize = 0;
    assert(start + loads(offset, 0) =~= start);
    while i < n
        invariant
            i <= n,
            offset + n <= usize::MAX,
            plan@ == start + loads(offset, i as nat),
        decreases n - i,
    {
        plan.push(Access::Load { slot: offset + i });
        assert(plan@ =~= start + loads(offset, (i + 1) as nat));
        i += 1;
    }
    plan.push(Access::Fence);
    assert(plan@ =~= start + fenced_loads(offset, n as nat));
}

/// Making one plan after another loads the words of both.
pub proof fn lemma_load_count_join(a: Seq<Access>, b: Seq<Access>)
    ensures
        load_count(a + b) == load_count(a) + load_count(b),
    decreases b.len(),
{
    if b.len() == 0 {
        assert(a + b =~= a);
    } else {
        assert((a + b).drop_last() =~= a + b.drop_last());
        lemma_load_count_join(a, b.drop_last());
    }
}

/// Stores load nothing.
pub proof fn lemma_load_count_stores(offset: usize, words: Seq<u64>)
    ensures
        load_count(fenced_stores(offset, words)) == 0,
        load_count(stores(offset, words)) == 0,
    decreases words.len(),
{
    if words.len() > 0 {
        lemma_load_count_stores(offset, words.drop_last());
        assert(stores(offset, words).drop_last() =~= stores(offset, words.drop_last()));
    }
    assert(load_count(stores(offset, words)) == 0);
    assert(fenced_stores(offset, words).drop_last() =~= stores(offset, words));
    assert(fenced_stores(offset, words).last() == Access::Fence);
}

/// Loads load what they say.
pub proof fn lemma_load_count_loads(offset: usize, n: nat)
    ensures
        load_count(fenced_loads(offset, n)) == n,
        load_count(loads(offset, n)) == n,
    decreases n,
{
    if n > 0 {
        lemma_load_count_loads(offset, (n - 1) as nat);
        assert(loads(offset, n).drop_last() =~= loads(offset, (n - 1) as nat));
    }
    assert(load_count(loads(offset, n)) == n);
    assert(fenced_loads(offset, n).drop_last() =~= loads(offset, n));
    assert(fenced_loads(offset, n).last() == Access::Fence);
}

/// Whether `access` stays within the first `size` words of the shared memory.
pub open spec fn within(access: Access, size: nat) -> bool {
    match access {
        Access::Store { slot, .. } => slot < size,
        Access::StorePair { slot, .. } => slot + 1 < size,
        Access::Load { slot } => slot < size,
        Access::LoadPair { slot } => slot + 1 < size,
        Access::Fence => true,
    }
}

/// Whether each access of `plan` stays within the first `size` words of the shared memory.
pub open spec fn in_area(plan: Seq<Access>, size: nat) -> bool {
    forall|k: int| 0 <= k < plan.len() ==> within(#[trigger] plan[k], size)
}

/// Plans that stay within an area stay there one after the other.
pub proof fn lemma_in_area_join(a: Seq<Access>, b: Seq<Access>, size: nat)
    requires
        in_area(a, size),
        in_area(b, size),
    ensures
        in_area(a + b, size),
{
    assert forall|k: int| 0 <= k < (a + b).len() implies within(#[trigger] (a + b)[k], size) by {
        if k < a.len() {
            assert((a + b)[k] == a[k]);
        } else {
            assert((a + b)[k] == b[k - a.len()]);
        }
    }
}

/// Stores and loads stay where they say.
pub proof fn lemma_in_area_lines(offset: usize, words: Seq<u64>, n: nat, size: nat)
    requires
        offset + words.len() <= size,
        offset + n <= size,
        size <= usize::MAX,
    ensures
        in_area(stores(offset, words), size),
        in_area(fenced_stores(offset, words), size),
        in_area(fenced_loads(offset, n), size),
{
}

/// The slots that an access loads, in their order.
pub open spec fn slots_loaded(access: Access) -> Seq<int> {
    match access {
        Access::Load { slot } => seq![slot as int],
        Access::LoadPair { slot } => seq![slot as int, slot + 1],
        _ => Seq::empty(),
    }
}

/// The slots that a plan loads, in their order.
pub open spec fn loaded_slots(plan: Seq<Access>) -> Seq<int>
    decreases plan.len(),
{
    if plan.len() == 0 {
        Seq::empty()
    } else {
        loaded_slots(plan.drop_last()) + slots_loaded(plan.last())
    }
}

/// What memory holds once an access was made, if nobody else writes to it.
pub open spec fn memory_after_one(memory: Map<int, u64>, access: Access) -> Map<int, u64> {
    match access {
        Access::Store { slot, word } => memory.insert(slot as int, word),
        Access::StorePair { slot, first, second } => memory.insert(slot as int, first).insert(
            slot + 1,
            second,
        ),
        _ => memory,
    }
}

/// What memory holds once a plan was carried out, if nobody else writes to it.
pub open spec fn memory_after(memory: Map<int, u64>, plan: Seq<Access>) -> Map<int, u64>
    decreases plan.len(),
{
    if plan.len() == 0 {
        memory
    } else {
        memory_after_one(memory_after(memory, plan.drop_last()), plan.last())
    }
}

/// A plan loads as many words as it has slots to load from.
pub proof fn law_loads_counted(plan: Seq<Access>)
    ensures
        load_count(plan) == loaded_slots(plan).len(),
    decreases plan.len(),
{
    if plan.len() > 0 {
        law_loads_counted(plan.drop_last());
    }
}

/// Carrying out one plan after another.
pub proof fn lemma_plans_join(memory: Map<int, u64>, a: Seq<Access>, b: Seq<Access>)
    ensures
        loaded_slots(a + b) == loaded_slots(a) + loaded_slots(b),
        memory_after(memory, a + b) == memory_after(memory_after(memory, a), b),
    decreases b.len(),
{
    if b.len() == 0 {
        assert(a + b =~= a);
        assert(loaded_slots(a) + Seq::<int>::empty() =~= loaded_slots(a));
    } else {
        assert((a + b).drop_last() =~= a + b.drop_last());
        assert((a + b).last() == b.last());
        lemma_plans_join(memory, a, b.drop_last());
        assert(loaded_slots(a + b) =~= loaded_slots(a) + loaded_slots(b));
    }
}

/// A fence neither loads nor stores.
pub proof fn lemma_fence(memory: Map<int, u64>, a: Seq<Access>)
    ensures
        loaded_slots(a.push(Access::Fence)) == loaded_slots(a),
        memory_after(memory, a.push(Access::Fence)) == memory_after(memory, a),
{
    assert(a.push(Access::Fence).drop_last() =~= a);
    assert(loaded_slots(a) + Seq::<int>::empty() =~= loaded_slots(a));
}

/// Stores put each word into its slot, one behind the other from `offset` on, and change nothing
/// else. They load nothing.
pub proof fn law_stores_write(memory: Map<int, u64>, offset: usize, words: Seq<u64>, slot: int)
    requires
        offset + words.len() <= usize::MAX,
    ensures
        loaded_slots(stores(offset, words)) == Seq::<int>::empty(),
        loaded_slots(fenced_stores(offset, words)) == Seq::<int>::empty(),
        memory_after(memory, fenced_stores(offset, words)) == memory_after(
            memory,
            stores(offset, words),
        ),
        offset <= slot < offset + words.len() ==> memory_after(
            memory,
            stores(offset, words),
        ).contains_key(slot) && memory_after(memory, stores(offset, words))[slot] == words[slot
            - offset],
        !(offset <= slot < offset + words.len()) ==> memory_after(
            memory,
            stores(offset, words),
        ).contains_key(slot) == memory.contains_key(slot) && memory_after(
            memory,
            stores(offset, words),
        )[slot] == memory[slot],
    decreases words.len(),
{
    lemma_fence(memory, stores(offset, words));
    if words.len() > 0 {
        let before = words.drop_last();
        law_stores_write(memory, offset, before, slot);
        let all = stores(offset, words);
        assert(all.drop_last() =~= stores(offset, before));
        assert(all.last() == Access::Store {
            slot: (offset + before.len()) as usize,
            word: words.last(),
        });
        assert(loaded_slots(all) =~= Seq::<int>::empty());
    }
}

/// Loads read slot after slot from `offset` on, and change nothing.
pub proof fn law_loads_read(memory: Map<int, u64>, offset: usize, n: nat)
    requires
        offset + n <= usize::MAX,
    ensures
        loaded_slots(loads(offset, n)) == Seq::new(n, |i: int| offset + i),
        loaded_slots(fenced_loads(offset, n)) == Seq::new(n, |i: int| offset + i),
        memory_after(memory, loads(offset, n)) == memory,
        memory_after(memory, fenced_loads(offset, n)) == memory,
    decreases n,
{
    lemma_fence(memory, loads(offset, n));
    if n > 0 {
        law_loads_read(memory, offset, (n - 1) as nat);
        let all = loads(offset, n);
        assert(all.drop_last() =~= loads(offset, (n - 1) as nat));
        assert(all.last() == Access::Load { slot: (offset + (n - 1)) as usize });
    }
    assert(loaded_slots(loads(offset, n)) =~= Seq::new(n, |i: int| offset + i));
}

/// The cache line that an access touches first, by number.
pub open spec fn line_touched(access: Access) -> int {
    match access {
        Access::Store { slot, .. } => slot as int / 16,
        Access::StorePair { slot, .. } => slot as int / 16,
        Access::Load { slot } => slot as int / 16,
        Access::LoadPair { slot } => slot as int / 16,
        Access::Fence => 0,
    }
}

/// Whether a fence belongs between two accesses: one loads and the other stores, or they touch
/// different cache lines.
pub open spec fn clash(a: Access, b: Access) -> bool {
    &&& a != Access::Fence
    &&& b != Access::Fence
    &&& line_touched(a) != line_touched(b) || (slots_loaded(a).len() == 0) != (slots_loaded(b).len()
        == 0)
}

/// Whether there is a fence between any two accesses of a plan that clash.
pub open spec fn is_fenced(plan: Seq<Access>) -> bool {
    forall|i: int, j: int|
        0 <= i < j < plan.len() && clash(#[trigger] plan[i], #[trigger] plan[j]) ==> exists|k: int|
            i < k < j && #[trigger] plan[k] == Access::Fence
}

/// Plans that are fenced, the first of which ends in a fence, are so one after the other.
pub proof fn lemma_fenced_join(a: Seq<Access>, b: Seq<Access>)
    requires
        is_fenced(a),
        is_fenced(b),
        a.len() == 0 || a.last() == Access::Fence,
    ensures
        is_fenced(a + b),
{
    let all = a + b;
    let m = a.len() as int;
    assert forall|i: int, j: int|
        0 <= i < j < all.len() && clash(#[trigger] all[i], #[trigger] all[j]) implies exists|k: int|
        i < k < j && #[trigger] all[k] == Access::Fence by {
        if j < m {
            assert(clash(a[i], a[j]));
            let k = choose|k: int| i < k < j && #[trigger] a[k] == Access::Fence;
            assert(all[k] == Access::Fence);
        } else if i >= m {
            assert(clash(b[i - m], b[j - m]));
            let k = choose|k: int| i - m < k < j - m && #[trigger] b[k] == Access::Fence;
            assert(all[k + m] == Access::Fence);
        } else {
            assert(all[m - 1] == a.last());
            assert(i != m - 1);
        }
    }
}

/// Accesses of one kind to one cache line need no fence among them.
pub proof fn lemma_fenced_line(plan: Seq<Access>, line: int, loading: bool)
    requires
        forall|i: int|
            0 <= i < plan.len() && (#[trigger] plan[i]) != Access::Fence ==> line_touched(plan[i])
                == line && (slots_loaded(plan[i]).len() > 0) == loading,
    ensures
        is_fenced(plan),
{
}

/// Stores into a line, and loads from a line, are fenced, and end in a fence.
pub proof fn lemma_fenced_lines(offset: usize, words: Seq<u64>, n: nat)
    requires
        offset % 16 == 0,
        words.len() <= 16,
        n <= 16,
        offset + 16 <= usize::MAX,
    ensures
        is_fenced(fenced_stores(offset, words)),
        fenced_stores(offset, words).last() == Access::Fence,
        is_fenced(fenced_loads(offset, n)),
        fenced_loads(offset, n).last() == Access::Fence,
{
    lemma_fenced_line(fenced_stores(offset, words), offset as int / 16, false);
    lemma_fenced_line(fenced_loads(offset, n), offset as int / 16, true);
}

/// Plans are taken as they are, in their order.
pub proof fn law_plans_as_they_are(plans: Seq<Vec<Access>>, k: int)
    ensures
        plan_views(plans).len() == plans.len(),
        0 <= k < plans.len() ==> plan_views(plans)[k] == plans[k]@,
{
}

} // verus!
