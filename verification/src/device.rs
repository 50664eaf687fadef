//! What an operator that stands for device-side nodes does, whatever way it talks to the
//! device: it follows the frontiers of these nodes, and passes on what the device reports of
//! them.

use vstd::prelude::*;

use crate::change_batch::{
    compacted, count, extended, law_update_counts, lemma_wrapped_sum, updated, wrapped,
};
use crate::frontier::{frontier_of, MutableAntichain};
use crate::order::Timestamp;
use crate::shared_progress::{
    drain_node_batch, update_node_batch, ProgressContents, SharedProgress,
};
use crate::words::{
    all_frontier_words, decode, decoded, frontier_words, law_word_arithmetic, push_encoded,
};

verus! {

broadcast use vstd::std_specs::hash::group_hash_axioms;

/// What the device reports of one node.
#[derive(Clone, Copy, Debug, PartialEq, Eq, Structural)]
pub struct ProgressGroup {
    /// Messages consumed.
    pub consumed: i64,
    /// Messages produced.
    pub produced: i64,
    /// A time at which capabilities change.
    pub time: u64,
    /// By how much they change.
    pub change: i64,
}

/// The report in four words from `at` on.
pub open spec fn group_at(words: Seq<u64>, at: int) -> ProgressGroup {
    ProgressGroup {
        consumed: words[at] as i64,
        produced: words[at + 1] as i64,
        time: words[at + 2],
        change: words[at + 3] as i64,
    }
}

/// The report in four words from `at` on, where the word of a time is that of a value.
pub open spec fn encoded_group_at(words: Seq<u64>, at: int) -> ProgressGroup {
    ProgressGroup { time: decoded(words[at + 2]), ..group_at(words, at) }
}

/// The first `n` reports in `words`, from `at` on.
pub open spec fn groups_from(words: Seq<u64>, at: nat, n: nat) -> Seq<ProgressGroup> {
    Seq::new(n, |k: int| group_at(words, at + 4 * k))
}

/// The first `n` reports in `words`, from `at` on, where the words of times are those of values.
pub open spec fn encoded_groups_from(words: Seq<u64>, at: nat, n: nat) -> Seq<ProgressGroup> {
    Seq::new(n, |k: int| encoded_group_at(words, at + 4 * k))
}

/// `m` with `delta` more of `time` in the first batch of `node`.
pub open spec fn node_updated(
    m: Map<usize, Seq<Seq<(u64, i64)>>>,
    node: usize,
    time: u64,
    delta: i64,
) -> Map<usize, Seq<Seq<(u64, i64)>>> {
    m.insert(node, m[node].update(0, updated(m[node][0], time, delta)))
}

/// Progress information with what `group` says `node` produced at `time` and with what it says
/// of the capabilities of `node`.
pub open spec fn released(
    p: ProgressContents<u64>,
    node: usize,
    time: u64,
    group: ProgressGroup,
) -> ProgressContents<u64> {
    ProgressContents {
        wrapper_produceds: node_updated(p.wrapper_produceds, node, time, group.produced),
        wrapper_internals: node_updated(p.wrapper_internals, node, group.time, group.change),
        ..p
    }
}

/// Progress information with all that `group` says of `node` for `time`.
pub open spec fn reported(
    p: ProgressContents<u64>,
    node: usize,
    time: u64,
    group: ProgressGroup,
) -> ProgressContents<u64> {
    released(
        ProgressContents {
            wrapper_consumeds: node_updated(p.wrapper_consumeds, node, time, group.consumed),
            ..p
        },
        node,
        time,
        group,
    )
}

/// Progress information with all that the first `n` of `groups` say of the nodes that `ghosts`
/// names.
pub open spec fn all_reported(
    p: ProgressContents<u64>,
    ghosts: Seq<(usize, usize)>,
    time: u64,
    groups: Seq<ProgressGroup>,
    n: nat,
) -> ProgressContents<u64>
    decreases n,
{
    if n == 0 {
        p
    } else {
        reported(
            all_reported(p, ghosts, time, groups, (n - 1) as nat),
            ghosts[n - 1].1,
            time,
            groups[n - 1],
        )
    }
}

/// Whether progress information has a place for each report on `node`.
pub open spec fn has_place(p: ProgressContents<u64>, node: usize) -> bool {
    &&& p.wrapper_frontiers.contains_key(node)
    &&& p.wrapper_frontiers[node].len() > 0
    &&& p.wrapper_consumeds.contains_key(node)
    &&& p.wrapper_consumeds[node].len() > 0
    &&& p.wrapper_internals.contains_key(node)
    &&& p.wrapper_internals[node].len() > 0
    &&& p.wrapper_produceds.contains_key(node)
    &&& p.wrapper_produceds[node].len() > 0
}

/// Whether progress information has places for reports on each node that `ghosts` names.
pub open spec fn has_places(p: ProgressContents<u64>, ghosts: Seq<(usize, usize)>) -> bool {
    forall|k: int| 0 <= k < ghosts.len() ==> has_place(p, (#[trigger] ghosts[k]).1)
}

/// Whether `ghosts` numbers nodes from zero, each node once.
pub open spec fn numbers_nodes(ghosts: Seq<(usize, usize)>) -> bool {
    &&& forall|k: int| 0 <= k < ghosts.len() ==> (#[trigger] ghosts[k]).0 == k
    &&& forall|j: int, k: int|
        0 <= j < k < ghosts.len() ==> (#[trigger] ghosts[j]).1 != (#[trigger] ghosts[k]).1
}

/// The report in four words from `at` on.
pub fn read_group(words: &Vec<u64>, at: usize) -> (r: ProgressGroup)
    requires
        at + 4 <= words@.len(),
    ensures
        r == group_at(words@, at as int),
{
    assert(words.len() == words@.len());
    ProgressGroup {
        consumed: words[at] as i64,
        produced: words[at + 1] as i64,
        time: words[at + 2],
        change: words[at + 3] as i64,
    }
}

/// The report in four words from `at` on, where the word of a time is that of a value.
pub fn read_encoded_group(words: &Vec<u64>, at: usize) -> (r: ProgressGroup)
    requires
        at + 4 <= words@.len(),
    ensures
        r == encoded_group_at(words@, at as int),
{
    let group = read_group(words, at);
    ProgressGroup { time: decode(group.time), ..group }
}

/// The first `n` reports in `words`, from `at` on.
pub fn read_groups(words: &Vec<u64>, at: usize, n: usize) -> (r: Vec<ProgressGroup>)
    requires
        at + 4 * n <= words@.len(),
    ensures
        r@ == groups_from(words@, at as nat, n as nat),
{
    let mut r: Vec<ProgressGroup> = Vec::new();
    let mut k: usize = 0;
    while k < n
        invariant
            k <= n,
            at + 4 * n <= words@.len(),
            r@ == groups_from(words@, at as nat, k as nat),
        decreases n - k,
    {
        assert(words.len() == words@.len());
        r.push(read_group(words, at + 4 * k));
        assert(r@ =~= groups_from(words@, at as nat, (k + 1) as nat));
        k += 1;
    }
    r
}

/// The first `n` reports in `words`, from `at` on, where the words of times are those of values.
pub fn read_encoded_groups(words: &Vec<u64>, at: usize, n: usize) -> (r: Vec<ProgressGroup>)
    requires
        at + 4 * n <= words@.len(),
    ensures
        r@ == encoded_groups_from(words@, at as nat, n as nat),
{
    let mut r: Vec<ProgressGroup> = Vec::new();
    let mut k: usize = 0;
    while k < n
        invariant
            k <= n,
            at + 4 * n <= words@.len(),
            r@ == encoded_groups_from(words@, at as nat, k as nat),
        decreases n - k,
    {
        assert(words.len() == words@.len());
        r.push(read_encoded_group(words, at + 4 * k));
        assert(r@ =~= encoded_groups_from(words@, at as nat, (k + 1) as nat));
        k += 1;
    }
    r
}

/// Passes on what `group` says `node` produced at `time`, and what it says of the capabilities
/// of `node`.
pub fn release(progress: &mut SharedProgress<u64>, node: usize, time: u64, group: &ProgressGroup)
    requires
        has_place(old(progress)@, node),
    ensures
        final(progress)@ == released(old(progress)@, node, time, *group),
        forall|g: usize| #[trigger] has_place(old(progress)@, g) ==> has_place(final(progress)@, g),
{
    update_node_batch(&mut progress.wrapper_produceds, node, 0, time, group.produced);
    update_node_batch(&mut progress.wrapper_internals, node, 0, group.time, group.change);
}

/// Passes on all that `group` says of `node` for `time`.
pub fn report(progress: &mut SharedProgress<u64>, node: usize, time: u64, group: &ProgressGroup)
    requires
        has_place(old(progress)@, node),
    ensures
        final(progress)@ == reported(old(progress)@, node, time, *group),
        forall|g: usize| #[trigger] has_place(old(progress)@, g) ==> has_place(final(progress)@, g),
{
    update_node_batch(&mut progress.wrapper_consumeds, node, 0, time, group.consumed);
    release(progress, node, time, group);
}

/// Passes on all that the first `n` of `groups` say of the nodes that `ghosts` names.
pub fn report_all(
    progress: &mut SharedProgress<u64>,
    ghosts: &Vec<(usize, usize)>,
    time: u64,
    groups: &Vec<ProgressGroup>,
    n: usize,
)
    requires
        n <= ghosts@.len(),
        n <= groups@.len(),
        has_places(old(progress)@, ghosts@),
    ensures
        final(progress)@ == all_reported(old(progress)@, ghosts@, time, groups@, n as nat),
        has_places(final(progress)@, ghosts@),
{
    let ghost start = progress@;
    let mut k: usize = 0;
    while k < n
        invariant
            k <= n <= ghosts@.len(),
            n <= groups@.len(),
            has_places(progress@, ghosts@),
            progress@ == all_reported(start, ghosts@, time, groups@, k as nat),
        decreases n - k,
    {
        assert(has_place(progress@, ghosts@[k as int].1));
        report(progress, ghosts[k].1, time, &groups[k]);
        k += 1;
    }
}

/// The frontier of each node.
pub open spec fn frontiers_of(v: Seq<MutableAntichain<u64>>) -> Seq<Seq<u64>> {
    v.map_values(|f: MutableAntichain<u64>| f.minimal())
}

/// An operator that stands for device-side nodes, as it is between rounds.
pub struct WrapperState {
    /// The number and the index of each node.
    pub ghost_indexes: Vec<(usize, usize)>,
    /// The input frontier of each node.
    pub frontier: Vec<MutableAntichain<u64>>,
    /// Whether the capabilities held at first were given up.
    pub started: bool,
}

/// Frontier changes, without those in the first batch of each of the first `n` nodes of
/// `ghosts`.
pub open spec fn taken(
    m: Map<usize, Seq<Seq<(u64, i64)>>>,
    ghosts: Seq<(usize, usize)>,
    n: nat,
) -> Map<usize, Seq<Seq<(u64, i64)>>>
    decreases n,
{
    if n == 0 {
        m
    } else {
        let before = taken(m, ghosts, (n - 1) as nat);
        let node = ghosts[n - 1].1;
        before.insert(node, before[node].update(0, Seq::<(u64, i64)>::empty()))
    }
}

/// Capability changes, with one capability less at the least time for each of the first `n`
/// nodes of `ghosts`.
pub open spec fn given_up(
    m: Map<usize, Seq<Seq<(u64, i64)>>>,
    ghosts: Seq<(usize, usize)>,
    n: nat,
) -> Map<usize, Seq<Seq<(u64, i64)>>>
    decreases n,
{
    if n == 0 {
        m
    } else {
        node_updated(
            given_up(m, ghosts, (n - 1) as nat),
            ghosts[n - 1].1,
            u64::least(),
            (-1) as i64,
        )
    }
}

/// What is taken from other nodes does not concern a node.
proof fn lemma_taken_other(
    m: Map<usize, Seq<Seq<(u64, i64)>>>,
    ghosts: Seq<(usize, usize)>,
    n: nat,
    node: usize,
)
    requires
        n <= ghosts.len(),
        forall|k: int| 0 <= k < n ==> (#[trigger] ghosts[k]).1 != node,
    ensures
        taken(m, ghosts, n).contains_key(node) == m.contains_key(node),
        taken(m, ghosts, n)[node] == m[node],
    decreases n,
{
    if n > 0 {
        lemma_taken_other(m, ghosts, (n - 1) as nat, node);
        assert(ghosts[n - 1].1 != node);
    }
}

impl WrapperState {
    /// A frontier is kept for each node.
    pub open spec fn wf(&self) -> bool {
        &&& numbers_nodes(self.ghost_indexes@)
        &&& self.frontier@.len() == self.ghost_indexes@.len()
    }

    /// No round was started, and no node was told of a frontier.
    pub open spec fn is_fresh(&self) -> bool {
        &&& !self.started
        &&& forall|k: int|
            0 <= k < self.frontier@.len() ==> {
                &&& (#[trigger] self.frontier@[k]).counts() == Seq::<(u64, i64)>::empty()
                &&& self.frontier@[k].minimal() == Seq::<u64>::empty()
            }
    }

    /// An operator that stands for the nodes with indexes `ghosts`.
    pub fn new(ghosts: &Vec<usize>) -> (r: Self)
        requires
            ghosts@.no_duplicates(),
        ensures
            r.wf(),
            r.ghost_indexes@ == Seq::new(
                ghosts@.len(),
                |k: int| (k as usize, ghosts@[k]),
            ),
            r.is_fresh(),
    {
        let mut ghost_indexes: Vec<(usize, usize)> = Vec::new();
        let mut frontier: Vec<MutableAntichain<u64>> = Vec::new();
        let mut k: usize = 0;
        while k < ghosts.len()
            invariant
                k <= ghosts@.len(),
                ghost_indexes@.len() == k,
                frontier@.len() == k,
                forall|i: int|
                    0 <= i < k ==> #[trigger] ghost_indexes@[i] == (i as usize, ghosts@[i]),
                forall|i: int|
                    0 <= i < k ==> (#[trigger] frontier@[i]).counts() == Seq::<
                        (u64, i64),
                    >::empty() && frontier@[i].minimal() == Seq::<u64>::empty(),
            decreases ghosts@.len() - k,
        {
            ghost_indexes.push((k, ghosts[k]));
            frontier.push(MutableAntichain::new());
            k += 1;
        }
        assert(ghost_indexes@ =~= Seq::new(ghosts@.len(), |k: int| (k as usize, ghosts@[k])));
        WrapperState { ghost_indexes, frontier, started: false }
    }

    /// Starts a round: takes in the frontier changes of each node, and in the first round gives
    /// up the capabilities that the nodes held at first.
    pub fn begin_round(&mut self, progress: &mut SharedProgress<u64>)
        requires
            old(self).wf(),
            has_places(old(progress)@, old(self).ghost_indexes@),
        ensures
            final(self).wf(),
            final(self).ghost_indexes == old(self).ghost_indexes,
            forall|k: int|
                0 <= k < old(self).frontier@.len() ==> {
                    &&& (#[trigger] final(self).frontier@[k]).counts() == extended(
                        old(self).frontier@[k].counts(),
                        old(progress)@.wrapper_frontiers[old(self).ghost_indexes@[k].1][0],
                    )
                    &&& final(self).frontier@[k].minimal() == frontier_of(
                        final(self).frontier@[k].counts(),
                    )
                },
            final(self).started == (old(self).started || old(self).ghost_indexes@.len() > 0),
            final(progress)@ == (ProgressContents {
                wrapper_frontiers: taken(
                    old(progress)@.wrapper_frontiers,
                    old(self).ghost_indexes@,
                    old(self).ghost_indexes@.len(),
                ),
                wrapper_internals: if old(self).started {
                    old(progress)@.wrapper_internals
                } else {
                    given_up(
                        old(progress)@.wrapper_internals,
                        old(self).ghost_indexes@,
                        old(self).ghost_indexes@.len(),
                    )
                },
                ..old(progress)@
            }),
            has_places(final(progress)@, old(self).ghost_indexes@),
    {
        let ghost start = progress@;
        let ghost ghosts = self.ghost_indexes@;
        let mut k: usize = 0;
        while k < self.ghost_indexes.len()
            invariant
                k <= ghosts.len(),
                self.ghost_indexes == old(self).ghost_indexes,
                ghosts == self.ghost_indexes@,
                self.started == old(self).started,
                self.frontier@.len() == ghosts.len(),
                old(self).frontier@.len() == ghosts.len(),
                numbers_nodes(ghosts),
                has_places(start, ghosts),
                has_places(progress@, ghosts),
                progress@ == (ProgressContents {
                    wrapper_frontiers: taken(start.wrapper_frontiers, ghosts, k as nat),
                    ..start
                }),
                forall|i: int|
                    0 <= i < k ==> {
                        &&& (#[trigger] self.frontier@[i]).counts() == extended(
                            old(self).frontier@[i].counts(),
                            start.wrapper_frontiers[ghosts[i].1][0],
                        )
                        &&& self.frontier@[i].minimal() == frontier_of(self.frontier@[i].counts())
                    },
                forall|i: int|
                    k <= i < ghosts.len() ==> #[trigger] self.frontier@[i] == old(
                        self,
                    ).frontier@[i],
            decreases ghosts.len() - k,
        {
            let (i, j) = self.ghost_indexes[k];
            proof {
                assert(ghosts[k as int] == (i, j));
                assert(has_place(progress@, j));
                lemma_taken_other(start.wrapper_frontiers, ghosts, k as nat, j);
            }
            let ghost before = progress@;
            let changes = drain_node_batch(&mut progress.wrapper_frontiers, j, 0);
            proof {
                assert forall|m: int| 0 <= m < ghosts.len() implies has_place(
                    progress@,
                    (#[trigger] ghosts[m]).1,
                ) by {
                    assert(has_place(before, ghosts[m].1));
                }
            }
            self.frontier[i].update_iter(&changes);
            k += 1;
        }
        if !self.started {
            let ghost mid = progress@;
            let mut m: usize = 0;
            while m < self.ghost_indexes.len()
                invariant
                    m <= ghosts.len(),
                    self.ghost_indexes == old(self).ghost_indexes,
                    ghosts == self.ghost_indexes@,
                    has_places(progress@, ghosts),
                    self.frontier@.len() == ghosts.len(),
                    self.started == (m > 0),
                    forall|i: int|
                        0 <= i < ghosts.len() ==> {
                            &&& (#[trigger] self.frontier@[i]).counts() == extended(
                                old(self).frontier@[i].counts(),
                                start.wrapper_frontiers[ghosts[i].1][0],
                            )
                            &&& self.frontier@[i].minimal() == frontier_of(
                                self.frontier@[i].counts(),
                            )
                        },
                    progress@ == (ProgressContents {
                        wrapper_internals: given_up(mid.wrapper_internals, ghosts, m as nat),
                        ..mid
                    }),
                decreases ghosts.len() - m,
            {
                let (_, j) = self.ghost_indexes[m];
                assert(has_place(progress@, ghosts[m as int].1));
                let ghost before = progress@;
                update_node_batch(&mut progress.wrapper_internals, j, 0, u64::minimum(), -1);
                proof {
                    assert forall|q: int| 0 <= q < ghosts.len() implies has_place(
                        progress@,
                        (#[trigger] ghosts[q]).1,
                    ) by {
                        assert(has_place(before, ghosts[q].1));
                    }
                }
                self.started = true;
                m += 1;
            }
        }
    }

    /// Adds the words of the frontiers of all nodes to `words`.
    pub fn push_frontiers(&self, words: &mut Vec<u64>)
        ensures
            final(words)@ == old(words)@ + all_frontier_words(frontiers_of(self.frontier@)),
    {
        let ghost start = words@;
        let ghost all = frontiers_of(self.frontier@);
        let mut i: usize = 0;
        assert(start + all_frontier_words(all.take(0)) =~= start);
        while i < self.frontier.len()
            invariant
                i <= self.frontier@.len(),
                all == frontiers_of(self.frontier@),
                words@ == start + all_frontier_words(all.take(i as int)),
            decreases self.frontier@.len() - i,
        {
            let frontier = self.frontier[i].frontier();
            let ghost before = words@;
            if frontier.len() == 0 {
                words.push(0);
            } else {
                push_encoded(words, frontier);
            }
            proof {
                assert(words@ =~= before + frontier_words(all[i as int]));
                assert(all.take(i + 1).drop_last() =~= all.take(i as int));
                assert(words@ =~= start + all_frontier_words(all.take(i + 1)));
            }
            i += 1;
        }
        assert(all.take(i as int) =~= all);
    }
}

/// A word as a number in two's complement.
pub open spec fn signed(word: u64) -> int {
    if word < 0x8000_0000_0000_0000 {
        word as int
    } else {
        word - 0x1_0000_0000_0000_0000
    }
}

proof fn lemma_signed(word: u64)
    ensures
        word as i64 == signed(word),
{
    assert(word < 0x8000_0000_0000_0000 ==> word as i64 == word) by (bit_vector);
    assert(word >= 0x8000_0000_0000_0000 ==> word as i64 == word - 0x1_0000_0000_0000_0000)
        by (bit_vector);
}

/// A report says what its four words say, whatever they are: the first is the number of messages
/// consumed, the second of those produced, the third a time and the fourth a change of
/// capabilities. Numbers are in two's complement, so that a word below the half of what 64 bits
/// hold is that many messages. Report `k` of some is in the `k`th four words.
pub proof fn law_reports_read(words: Seq<u64>, at: nat, n: nat, k: int)
    requires
        0 <= k < n,
        at + 4 * n <= words.len(),
    ensures
        groups_from(words, at, n).len() == n,
        groups_from(words, at, n)[k].consumed == signed(words[at + 4 * k]),
        groups_from(words, at, n)[k].produced == signed(words[at + 4 * k + 1]),
        groups_from(words, at, n)[k].time == words[at + 4 * k + 2],
        groups_from(words, at, n)[k].change == signed(words[at + 4 * k + 3]),
        words[at + 4 * k] < 0x8000_0000_0000_0000 ==> groups_from(words, at, n)[k].consumed
            == words[at + 4 * k],
        words[at + 4 * k + 1] < 0x8000_0000_0000_0000 ==> groups_from(words, at, n)[k].produced
            == words[at + 4 * k + 1],
        encoded_groups_from(words, at, n).len() == n,
        encoded_groups_from(words, at, n)[k].consumed == signed(words[at + 4 * k]),
        encoded_groups_from(words, at, n)[k].produced == signed(words[at + 4 * k + 1]),
        encoded_groups_from(words, at, n)[k].time == words[at + 4 * k + 2] / 2,
        encoded_groups_from(words, at, n)[k].change == signed(words[at + 4 * k + 3]),
{
    lemma_signed(words[at + 4 * k]);
    lemma_signed(words[at + 4 * k + 1]);
    lemma_signed(words[at + 4 * k + 3]);
    law_word_arithmetic(0, words[at + 4 * k + 2]);
}

/// One report says what its four words say.
pub proof fn law_report_read(words: Seq<u64>, at: int)
    requires
        0 <= at,
        at + 4 <= words.len(),
    ensures
        group_at(words, at).consumed == signed(words[at]),
        group_at(words, at).produced == signed(words[at + 1]),
        group_at(words, at).time == words[at + 2],
        group_at(words, at).change == signed(words[at + 3]),
        encoded_group_at(words, at).consumed == signed(words[at]),
        encoded_group_at(words, at).produced == signed(words[at + 1]),
        encoded_group_at(words, at).time == words[at + 2] / 2,
        encoded_group_at(words, at).change == signed(words[at + 3]),
{
    lemma_signed(words[at]);
    lemma_signed(words[at + 1]);
    lemma_signed(words[at + 3]);
    law_word_arithmetic(0, words[at + 2]);
}

/// Whether two lists of batches differ at most in how often the first batch counts `time`: there,
/// `after` counts `delta` more than `before`, in two's complement.
pub open spec fn counts_more(
    before: Seq<Seq<(u64, i64)>>,
    after: Seq<Seq<(u64, i64)>>,
    time: u64,
    delta: int,
) -> bool {
    &&& after.len() == before.len()
    &&& forall|port: int| 1 <= port < before.len() ==> #[trigger] after[port] == before[port]
    &&& compacted(after[0])
    &&& forall|t: u64|
        #[trigger] count(after[0], t) == (if t == time {
            wrapped(count(before[0], t) + delta)
        } else {
            count(before[0], t) as int
        })
}

/// Whether the first batches of `node` are there and hold each time once.
pub open spec fn is_tidy(p: ProgressContents<u64>, node: usize) -> bool {
    &&& has_place(p, node)
    &&& compacted(p.wrapper_consumeds[node][0])
    &&& compacted(p.wrapper_internals[node][0])
    &&& compacted(p.wrapper_produceds[node][0])
}

proof fn lemma_node_updated(
    m: Map<usize, Seq<Seq<(u64, i64)>>>,
    node: usize,
    time: u64,
    delta: i64,
)
    requires
        m.contains_key(node),
        m[node].len() > 0,
        compacted(m[node][0]),
    ensures
        counts_more(m[node], node_updated(m, node, time, delta)[node], time, delta as int),
{
    let after = node_updated(m, node, time, delta)[node];
    law_update_counts(m[node][0], time, delta, time);
    assert forall|t: u64| #[trigger] count(after[0], t) == (if t == time {
        wrapped(count(m[node][0], t) + delta)
    } else {
        count(m[node][0], t) as int
    }) by {
        law_update_counts(m[node][0], time, delta, t);
    }
}

/// What a report says of a node is passed on as it is: `consumed` messages more are consumed and
/// `produced` more produced at the time given, and capabilities change by `change` at the time
/// that the report names. Nothing else changes. Where a round had no message, all but what was
/// consumed is passed on.
pub proof fn law_report_passed_on(
    p: ProgressContents<u64>,
    node: usize,
    time: u64,
    group: ProgressGroup,
)
    requires
        is_tidy(p, node),
    ensures
        ({
            let all = reported(p, node, time, group);
            let some = released(p, node, time, group);
            &&& counts_more(
                p.wrapper_consumeds[node],
                all.wrapper_consumeds[node],
                time,
                group.consumed as int,
            )
            &&& some.wrapper_consumeds == p.wrapper_consumeds
            &&& counts_more(
                p.wrapper_produceds[node],
                all.wrapper_produceds[node],
                time,
                group.produced as int,
            )
            &&& some.wrapper_produceds == all.wrapper_produceds
            &&& counts_more(
                p.wrapper_internals[node],
                all.wrapper_internals[node],
                group.time,
                group.change as int,
            )
            &&& some.wrapper_internals == all.wrapper_internals
            &&& same_but_for(p, all, node)
            &&& same_but_for(p, some, node)
        }),
{
    lemma_node_updated(p.wrapper_consumeds, node, time, group.consumed);
    lemma_node_updated(p.wrapper_produceds, node, time, group.produced);
    lemma_node_updated(p.wrapper_internals, node, group.time, group.change);
}

/// Whether `p` and `q` differ at most in what is reported of `node`.
pub open spec fn same_but_for(
    p: ProgressContents<u64>,
    q: ProgressContents<u64>,
    node: usize,
) -> bool {
    &&& q.frontiers == p.frontiers
    &&& q.consumeds == p.consumeds
    &&& q.internals == p.internals
    &&& q.produceds == p.produceds
    &&& q.wrapper_frontiers == p.wrapper_frontiers
    &&& forall|g: usize|
        g != node ==> {
            &&& #[trigger] q.wrapper_consumeds.contains_key(g) == p.wrapper_consumeds.contains_key(g)
            &&& q.wrapper_consumeds[g] == p.wrapper_consumeds[g]
        }
    &&& forall|g: usize|
        g != node ==> {
            &&& #[trigger] q.wrapper_produceds.contains_key(g) == p.wrapper_produceds.contains_key(g)
            &&& q.wrapper_produceds[g] == p.wrapper_produceds[g]
        }
    &&& forall|g: usize|
        g != node ==> {
            &&& #[trigger] q.wrapper_internals.contains_key(g) == p.wrapper_internals.contains_key(g)
            &&& q.wrapper_internals[g] == p.wrapper_internals[g]
        }
}

/// What a device reports of some nodes leaves alone what is known of another node, of the
/// operator itself and of frontiers.
pub proof fn law_reports_spare_others(
    p: ProgressContents<u64>,
    ghosts: Seq<(usize, usize)>,
    time: u64,
    groups: Seq<ProgressGroup>,
    n: nat,
    node: usize,
)
    requires
        n <= ghosts.len(),
        forall|k: int| 0 <= k < n ==> (#[trigger] ghosts[k]).1 != node,
    ensures
        ({
            let q = all_reported(p, ghosts, time, groups, n);
            &&& q.wrapper_consumeds[node] == p.wrapper_consumeds[node]
            &&& q.wrapper_produceds[node] == p.wrapper_produceds[node]
            &&& q.wrapper_internals[node] == p.wrapper_internals[node]
            &&& q.wrapper_consumeds.contains_key(node) == p.wrapper_consumeds.contains_key(node)
            &&& q.wrapper_produceds.contains_key(node) == p.wrapper_produceds.contains_key(node)
            &&& q.wrapper_internals.contains_key(node) == p.wrapper_internals.contains_key(node)
            &&& q.frontiers == p.frontiers
            &&& q.consumeds == p.consumeds
            &&& q.internals == p.internals
            &&& q.produceds == p.produceds
            &&& q.wrapper_frontiers == p.wrapper_frontiers
        }),
    decreases n,
{
    if n > 0 {
        law_reports_spare_others(p, ghosts, time, groups, (n - 1) as nat, node);
        assert(ghosts[n - 1].1 != node);
    }
}

/// All that a device reports is passed on, each report to its own node: report `k` to the node
/// that `ghosts` names at `k`. What is known of the operator itself and of frontiers stays.
pub proof fn law_reports_passed_on(
    p: ProgressContents<u64>,
    ghosts: Seq<(usize, usize)>,
    time: u64,
    groups: Seq<ProgressGroup>,
    n: nat,
    k: int,
)
    requires
        0 <= k < n <= ghosts.len(),
        n <= groups.len(),
        numbers_nodes(ghosts),
        is_tidy(p, ghosts[k].1),
    ensures
        ({
            let q = all_reported(p, ghosts, time, groups, n);
            let node = ghosts[k].1;
            &&& counts_more(
                p.wrapper_consumeds[node],
                q.wrapper_consumeds[node],
                time,
                groups[k].consumed as int,
            )
            &&& counts_more(
                p.wrapper_produceds[node],
                q.wrapper_produceds[node],
                time,
                groups[k].produced as int,
            )
            &&& counts_more(
                p.wrapper_internals[node],
                q.wrapper_internals[node],
                groups[k].time,
                groups[k].change as int,
            )
            &&& q.frontiers == p.frontiers
            &&& q.consumeds == p.consumeds
            &&& q.internals == p.internals
            &&& q.produceds == p.produceds
            &&& q.wrapper_frontiers == p.wrapper_frontiers
        }),
    decreases n,
{
    let node = ghosts[k].1;
    let before = all_reported(p, ghosts, time, groups, (n - 1) as nat);
    if k == n - 1 {
        assert forall|j: int| 0 <= j < n - 1 implies (#[trigger] ghosts[j]).1 != node by {
            assert(ghosts[j].1 != ghosts[k].1);
        }
        law_reports_spare_others(p, ghosts, time, groups, (n - 1) as nat, node);
        law_report_passed_on(before, node, time, groups[k]);
    } else {
        law_reports_passed_on(p, ghosts, time, groups, (n - 1) as nat, k);
        assert(ghosts[k].1 != ghosts[n - 1].1);
    }
}

/// Starting a round takes all frontier changes of each node, and no other changes.
pub proof fn law_frontiers_taken(
    m: Map<usize, Seq<Seq<(u64, i64)>>>,
    ghosts: Seq<(usize, usize)>,
    n: nat,
    node: usize,
)
    requires
        n <= ghosts.len(),
        numbers_nodes(ghosts),
        forall|k: int|
            0 <= k < n ==> m.contains_key((#[trigger] ghosts[k]).1) && m[ghosts[k].1].len() > 0,
    ensures
        taken(m, ghosts, n).dom() == m.dom(),
        (forall|k: int| 0 <= k < n ==> (#[trigger] ghosts[k]).1 != node) ==> taken(
            m,
            ghosts,
            n,
        )[node] == m[node],
        (exists|k: int| 0 <= k < n && (#[trigger] ghosts[k]).1 == node) ==> {
            &&& taken(m, ghosts, n)[node].len() == m[node].len()
            &&& taken(m, ghosts, n)[node][0].len() == 0
            &&& forall|port: int|
                1 <= port < m[node].len() ==> #[trigger] taken(m, ghosts, n)[node][port]
                    == m[node][port]
        },
    decreases n,
{
    if n > 0 {
        law_frontiers_taken(m, ghosts, (n - 1) as nat, node);
        let last = ghosts[n - 1].1;
        assert(m.contains_key(last));
        assert forall|k: int| 0 <= k < n - 1 implies (#[trigger] ghosts[k]).1 != last by {
            assert(ghosts[k].1 != ghosts[n - 1].1);
        }
        lemma_taken_other(m, ghosts, (n - 1) as nat, last);
    }
    assert(taken(m, ghosts, n).dom() =~= m.dom());
}

/// In the first round each node gives up one capability at the least time, which is zero, and
/// nothing else changes.
pub proof fn law_capability_given_up(
    m: Map<usize, Seq<Seq<(u64, i64)>>>,
    ghosts: Seq<(usize, usize)>,
    n: nat,
    node: usize,
)
    requires
        n <= ghosts.len(),
        numbers_nodes(ghosts),
        forall|k: int|
            0 <= k < n ==> m.contains_key((#[trigger] ghosts[k]).1) && m[ghosts[k].1].len() > 0
                && compacted(m[ghosts[k].1][0]),
    ensures
        given_up(m, ghosts, n).dom() == m.dom(),
        (forall|k: int| 0 <= k < n ==> (#[trigger] ghosts[k]).1 != node) ==> given_up(
            m,
            ghosts,
            n,
        )[node] == m[node],
        (exists|k: int| 0 <= k < n && (#[trigger] ghosts[k]).1 == node) ==> counts_more(
            m[node],
            given_up(m, ghosts, n)[node],
            0,
            -1,
        ),
    decreases n,
{
    if n > 0 {
        law_capability_given_up(m, ghosts, (n - 1) as nat, node);
        let before = given_up(m, ghosts, (n - 1) as nat);
        let last = ghosts[n - 1].1;
        assert(m.contains_key(last));
        if node == last {
            assert forall|k: int| 0 <= k < n - 1 implies (#[trigger] ghosts[k]).1 != last by {
                assert(ghosts[k].1 != ghosts[n - 1].1);
            }
            assert(before[last] == m[last]);
            lemma_node_updated(before, last, 0, (-1) as i64);
        }
    }
    assert(given_up(m, ghosts, n).dom() =~= m.dom());
}

/// Reports keep what is known of a node tidy.
pub proof fn lemma_stays_tidy(
    p: ProgressContents<u64>,
    ghosts: Seq<(usize, usize)>,
    time: u64,
    groups: Seq<ProgressGroup>,
    n: nat,
    node: usize,
)
    requires
        n <= ghosts.len(),
        is_tidy(p, node),
        forall|k: int| 0 <= k < n ==> is_tidy(p, (#[trigger] ghosts[k]).1),
    ensures
        is_tidy(all_reported(p, ghosts, time, groups, n), node),
    decreases n,
{
    if n > 0 {
        let before = all_reported(p, ghosts, time, groups, (n - 1) as nat);
        let last = ghosts[n - 1].1;
        lemma_stays_tidy(p, ghosts, time, groups, (n - 1) as nat, node);
        lemma_stays_tidy(p, ghosts, time, groups, (n - 1) as nat, last);
        law_report_passed_on(before, last, time, groups[n - 1]);
    }
}

/// One more report on a node, added to what was reported of it before.
pub proof fn lemma_counts_add(
    before: Seq<Seq<(u64, i64)>>,
    after: Seq<Seq<(u64, i64)>>,
    start: int,
    sum: int,
    time: u64,
    delta: int,
    t: u64,
)
    requires
        counts_more(before, after, time, delta),
        count(before[0], t) == wrapped(start + sum),
    ensures
        count(after[0], t) == wrapped(
            start + sum + (if time == t {
                delta
            } else {
                0
            }),
        ),
{
    if time == t {
        let c = count(before[0], t) as int;
        assert(wrapped(c) == c);
        lemma_wrapped_sum(c, start + sum, delta);
    }
}

/// The frontiers that are sent to the device are those that are kept, each in full, in the order of
/// the nodes.
pub proof fn law_frontiers_in_full(v: Seq<MutableAntichain<u64>>, i: int)
    ensures
        frontiers_of(v).len() == v.len(),
        0 <= i < v.len() ==> frontiers_of(v)[i] == v[i].minimal(),
{
}

/// An operator that stands for nodes starts with no round behind it and with empty frontiers.
pub proof fn law_fresh_state(state: &WrapperState, k: int)
    requires
        state.is_fresh(),
        0 <= k < state.frontier@.len(),
    ensures
        !state.started,
        state.frontier@[k].counts().len() == 0,
        state.frontier@[k].minimal().len() == 0,
{
}

} // verus!
