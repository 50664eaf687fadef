//! Running operators on a device whose memory is mapped into that of the host: a frame goes out
//! and its answer comes back two words at a time.

use vstd::prelude::*;

use crate::access::{
    in_area, lemma_fence, lemma_in_area_join, lemma_load_count_join, lemma_plans_join, load_count,
    loaded_slots, memory_after, plan_views, Access,
};
use crate::change_batch::{count, wrapped};
use crate::device::{
    all_reported, counts_more, frontiers_of, groups_from, has_place, has_places, is_tidy,
    law_report_passed_on, law_reports_passed_on, law_reports_read, lemma_counts_add,
    lemma_stays_tidy, numbers_nodes, read_groups, release, released, report, report_all, reported,
    signed, ProgressGroup, WrapperState,
};
use crate::fpga_wrapper::{message_views, session_view};
use crate::frontier::MutableAntichain;
use crate::location::Source;
use crate::naming::name_list;
use crate::order::{Refines, Timestamp};
use crate::registration::{numbered, register_filters, registered_with, Host, Registered};
use crate::shared_progress::{ProgressContents, SharedProgress};
use crate::subgraph_builder::SubgraphBuilder;
use crate::sums::sum_over;
use crate::words::{
    all_decoded, all_encoded, data_words, encode, encoded, law_data_round_trip,
    law_word_arithmetic, law_words_read, pad, padded, push_decoded, word_views, zeros,
};

verus! {

/// Operators on the device.
pub const OPERATOR_COUNT: usize = 31;

/// Words of a frame that hold frontiers.
pub const FRONTIER_LENGTH: usize = 32;

/// Words of reports in an answer.
pub const PROGRESS_LENGTH: usize = 124;

/// Operators whose consumption is not reported in a round without messages.
pub const QUIET_OPERATORS: usize = 20;

/// How much data a frame holds.
#[derive(Clone, Copy, Debug, PartialEq, Eq, Structural)]
pub enum FrameSize {
    /// Sixteen words.
    Narrow,
    /// A thousand and twenty-four words.
    Wide,
}

impl FrameSize {
    /// Words of data in a frame.
    pub open spec fn words(self) -> nat {
        match self {
            FrameSize::Narrow => 16,
            FrameSize::Wide => 1024,
        }
    }

    /// Words of data in a frame.
    pub fn data_words(self) -> (r: usize)
        ensures
            r == self.words(),
    {
        match self {
            FrameSize::Narrow => 16,
            FrameSize::Wide => 1024,
        }
    }

    /// Whether frames of this size can carry `frontiers`: in narrow frames none may be empty; in
    /// wide ones a pair whose first is empty counts as absent.
    pub open spec fn carries(self, frontiers: Seq<Seq<u64>>) -> bool {
        &&& OPERATOR_COUNT <= frontiers.len()
        &&& self is Narrow ==> forall|i: int|
            0 <= i < OPERATOR_COUNT ==> (#[trigger] frontiers[i]).len() > 0
        &&& forall|i: int|
            0 <= i < 30 && i % 2 == 1 && frontiers[i - 1].len() > 0 ==> (
            #[trigger] frontiers[i]).len() > 0
    }

    /// Whether frames of this size can carry `frontiers`.
    pub fn check_frontiers(self, frontiers: &Vec<MutableAntichain<u64>>) -> (r: bool)
        ensures
            r == self.carries(frontiers_of(frontiers@)),
    {
        let ghost all = frontiers_of(frontiers@);
        if frontiers.len() < OPERATOR_COUNT {
            return false;
        }
        let narrow = match self {
            FrameSize::Narrow => true,
            FrameSize::Wide => false,
        };
        let mut i: usize = 0;
        while i < OPERATOR_COUNT
            invariant
                i <= OPERATOR_COUNT <= frontiers@.len(),
                all == frontiers_of(frontiers@),
                narrow == (self is Narrow),
                forall|k: int| 0 <= k < i && narrow ==> (#[trigger] all[k]).len() > 0,
                forall|k: int|
                    0 <= k < i && k < 30 && k % 2 == 1 && all[k - 1].len() > 0 ==> (
                    #[trigger] all[k]).len() > 0,
            decreases OPERATOR_COUNT - i,
        {
            assert(all[i as int] == frontiers@[i as int].minimal());
            let paired = i < 30 && i % 2 == 1 && !frontiers[i - 1].is_empty();
            if (narrow || paired) && frontiers[i].is_empty() {
                assert(all[i as int].len() == 0);
                return false;
            }
            i += 1;
        }
        true
    }
}

/// The word of a frontier in a frame. The last word of the frontiers is not used.
pub open spec fn frontier_word(frontiers: Seq<Seq<u64>>, i: int) -> u64 {
    if i >= OPERATOR_COUNT || frontiers[i - i % 2].len() == 0 {
        0
    } else {
        encoded(frontiers[i][0])
    }
}

/// The words of the frontiers in a frame.
pub open spec fn frontier_frame(frontiers: Seq<Seq<u64>>) -> Seq<u64> {
    Seq::new(FRONTIER_LENGTH as nat, |i: int| frontier_word(frontiers, i))
}

/// The frame of a message.
pub open spec fn message_frame(size: FrameSize, frontiers: Seq<Seq<u64>>, data: Seq<u64>) -> Seq<u64> {
    frontier_frame(frontiers) + all_encoded(data.take(size.words() as int))
}

/// The frame of a round without messages.
pub open spec fn idle_frame(size: FrameSize, frontiers: Seq<Seq<u64>>) -> Seq<u64> {
    frontier_frame(frontiers) + zeros(size.words())
}

/// Stores of `words`, two at a time.
pub open spec fn pair_stores(words: Seq<u64>) -> Seq<Access> {
    Seq::new(
        words.len() / 2,
        |k: int|
            Access::StorePair {
                slot: (2 * k) as usize,
                first: words[2 * k],
                second: words[2 * k + 1],
            },
    )
}

/// Loads of as many pairs of words as `n`, from `offset` on, each with a fence behind it.
pub open spec fn pair_loads(offset: usize, n: nat) -> Seq<Access>
    decreases n,
{
    if n == 0 {
        Seq::empty()
    } else {
        pair_loads(offset, (n - 1) as nat).push(
            Access::LoadPair { slot: (offset + 2 * (n - 1)) as usize },
        ).push(Access::Fence)
    }
}

/// What is to be done with the memory for a message: store the frame, then load data and
/// reports.
pub open spec fn message_plan(size: FrameSize, frame: Seq<u64>) -> Seq<Access> {
    pair_stores(frame).push(Access::Fence) + pair_loads(0, size.words() / 2) + pair_loads(
        size.words() as usize,
        62,
    )
}

/// What is to be done with the memory in a round without messages: store the frame, load as
/// many words of data as asked for, and then reports, unless frames are wide.
pub open spec fn idle_plan(size: FrameSize, frame: Seq<u64>, num_data: nat) -> Seq<Access> {
    pair_stores(frame).push(Access::Fence) + pair_loads(0, (num_data + 1) / 2) + (match size {
        FrameSize::Narrow => pair_loads(16, 62),
        FrameSize::Wide => Seq::empty(),
    })
}

/// The words of the frontiers in a frame.
fn frame_frontiers(size: FrameSize, frontiers: &Vec<MutableAntichain<u64>>) -> (r: Vec<u64>)
    requires
        size.carries(frontiers_of(frontiers@)),
    ensures
        r@ == frontier_frame(frontiers_of(frontiers@)),
{
    let ghost all = frontiers_of(frontiers@);
    let mut r: Vec<u64> = Vec::new();
    let mut i: usize = 0;
    while i < 30
        invariant
            i <= 30,
            i % 2 == 0,
            all == frontiers_of(frontiers@),
            size.carries(all),
            r@.len() == i,
            forall|k: int| 0 <= k < i ==> #[trigger] r@[k] == frontier_word(all, k),
        decreases 30 - i,
    {
        let frontier1 = frontiers[i].frontier();
        let frontier2 = frontiers[i + 1].frontier();
        assert(frontier1@ == all[i as int]);
        assert(frontier2@ == all[i + 1]);
        assert((i + 1) % 2 == 1);
        if frontier1.len() == 0 {
            r.push(0);
            r.push(0);
        } else {
            assert(all[(i + 1) - 1].len() > 0);
            r.push(encode(frontier1[0]));
            r.push(encode(frontier2[0]));
        }
        assert forall|k: int| 0 <= k < i + 2 implies #[trigger] r@[k] == frontier_word(all, k) by {
            assert((i + 1) - (i + 1) % 2 == i as int);
        }
        i += 2;
    }
    let last = frontiers[30].frontier();
    assert(last@ == all[30]);
    if last.len() == 0 {
        r.push(0);
    } else {
        r.push(encode(last[0]));
    }
    r.push(0);
    assert(r@ =~= frontier_frame(all));
    r
}

/// The frame of a message.
pub fn frame_message(
    size: FrameSize,
    frontiers: &Vec<MutableAntichain<u64>>,
    data: &Vec<u64>,
) -> (r: Vec<u64>)
    requires
        size.carries(frontiers_of(frontiers@)),
        size.words() <= data@.len(),
    ensures
        r@ == message_frame(size, frontiers_of(frontiers@), data@),
{
    let n: usize = size.data_words();
    let mut r = frame_frontiers(size, frontiers);
    let ghost head = r@;
    let ghost taken = data@.take(n as int);
    let mut i: usize = 0;
    assert(r@ =~= head + all_encoded(taken.take(0)));
    while i < n
        invariant
            i <= n <= data@.len(),
            taken == data@.take(n as int),
            r@ == head + all_encoded(taken.take(i as int)),
        decreases n - i,
    {
        r.push(encode(data[i]));
        assert(r@ =~= head + all_encoded(taken.take(i + 1)));
        i += 1;
    }
    assert(taken.take(i as int) =~= taken);
    r
}

/// The frame of a round without messages.
pub fn frame_idle(size: FrameSize, frontiers: &Vec<MutableAntichain<u64>>) -> (r: Vec<u64>)
    requires
        size.carries(frontiers_of(frontiers@)),
    ensures
        r@ == idle_frame(size, frontiers_of(frontiers@)),
{
    let mut r = frame_frontiers(size, frontiers);
    pad(&mut r, FRONTIER_LENGTH + size.data_words());
    r
}

/// Adds stores of `words`, two at a time, and a fence.
fn push_pair_stores(plan: &mut Vec<Access>, words: &Vec<u64>)
    ensures
        final(plan)@ == old(plan)@ + pair_stores(words@).push(Access::Fence),
{
    let ghost start = plan@;
    let pairs: usize = words.len() / 2;
    let mut k: usize = 0;
    assert(plan@ =~= start + pair_stores(words@).take(0));
    while k < pairs
        invariant
            k <= pairs,
            pairs == words@.len() / 2,
            words@.len() <= usize::MAX,
            plan@ == start + pair_stores(words@).take(k as int),
        decreases pairs - k,
    {
        plan.push(
            Access::StorePair { slot: 2 * k, first: words[2 * k], second: words[2 * k + 1] },
        );
        assert(plan@ =~= start + pair_stores(words@).take(k + 1));
        k += 1;
    }
    assert(pair_stores(words@).take(k as int) =~= pair_stores(words@));
    plan.push(Access::Fence);
    assert(plan@ =~= start + pair_stores(words@).push(Access::Fence));
}

/// Adds loads of as many pairs of words as `n`, from `offset` on, each with a fence behind it.
fn push_pair_loads(plan: &mut Vec<Access>, offset: usize, n: usize)
    requires
        offset + 2 * n <= usize::MAX,
    ensures
        final(plan)@ == old(plan)@ + pair_loads(offset, n as nat),
{
    let ghost start = plan@;
    let mut k: usize = 0;
    assert(plan@ =~= start + pair_loads(offset, 0));
    while k < n
        invariant
            k <= n,
            offset + 2 * n <= usize::MAX,
            plan@ == start + pair_loads(offset, k as nat),
        decreases n - k,
    {
        plan.push(Access::LoadPair { slot: offset + 2 * k });
        plan.push(Access::Fence);
        assert(plan@ =~= start + pair_loads(offset, (k + 1) as nat));
        k += 1;
    }
}

/// Stores load nothing.
proof fn lemma_pair_stores_load(words: Seq<u64>, n: nat)
    requires
        n <= words.len() / 2,
    ensures
        load_count(pair_stores(words).take(n as int)) == 0,
    decreases n,
{
    if n > 0 {
        lemma_pair_stores_load(words, (n - 1) as nat);
        assert(pair_stores(words).take(n as int).drop_last() =~= pair_stores(words).take(n - 1));
    }
}

/// A frame is stored without a load.
proof fn lemma_frame_stores_load(words: Seq<u64>)
    ensures
        load_count(pair_stores(words).push(Access::Fence)) == 0,
{
    lemma_pair_stores_load(words, words.len() / 2);
    assert(pair_stores(words).take((words.len() / 2) as int) =~= pair_stores(words));
    assert(pair_stores(words).push(Access::Fence).drop_last() =~= pair_stores(words));
}

/// Loads of pairs load two words each.
proof fn lemma_pair_loads_load(offset: usize, n: nat)
    ensures
        load_count(pair_loads(offset, n)) == 2 * n,
    decreases n,
{
    if n > 0 {
        lemma_pair_loads_load(offset, (n - 1) as nat);
        let before = pair_loads(offset, (n - 1) as nat);
        let load = Access::LoadPair { slot: (offset + 2 * (n - 1)) as usize };
        let mid = before.push(load);
        assert(mid.drop_last() =~= before);
        assert(load_count(mid) == 2 * n);
        assert(pair_loads(offset, n).drop_last() =~= mid);
        assert(pair_loads(offset, n).last() == Access::Fence);
    }
}

/// What is to be done with the memory for a message. As many words are read as data and reports
/// take.
pub fn plan_message(size: FrameSize, frame: &Vec<u64>) -> (r: Vec<Access>)
    ensures
        r@ == message_plan(size, frame@),
        load_count(r@) == size.words() + PROGRESS_LENGTH,
{
    let n: usize = size.data_words();
    let mut plan: Vec<Access> = Vec::new();
    push_pair_stores(&mut plan, frame);
    let ghost head = pair_stores(frame@).push(Access::Fence);
    assert(plan@ =~= head);
    push_pair_loads(&mut plan, 0, n / 2);
    push_pair_loads(&mut plan, n, 62);
    proof {
        lemma_frame_stores_load(frame@);
        lemma_pair_loads_load(0, (n / 2) as nat);
        lemma_pair_loads_load(n, 62);
        lemma_load_count_join(head, pair_loads(0, (n / 2) as nat));
        lemma_load_count_join(head + pair_loads(0, (n / 2) as nat), pair_loads(n, 62));
    }
    plan
}

/// What is to be done with the memory in a round without messages.
pub fn plan_idle(size: FrameSize, frame: &Vec<u64>, num_data: usize) -> (r: Vec<Access>)
    requires
        num_data < usize::MAX,
    ensures
        r@ == idle_plan(size, frame@, num_data as nat),
        load_count(r@) == 2 * ((num_data as nat + 1) / 2) + (match size {
            FrameSize::Narrow => PROGRESS_LENGTH as nat,
            FrameSize::Wide => 0,
        }),
{
    let pairs: usize = (num_data + 1) / 2;
    let mut plan: Vec<Access> = Vec::new();
    push_pair_stores(&mut plan, frame);
    let ghost head = pair_stores(frame@).push(Access::Fence);
    assert(plan@ =~= head);
    push_pair_loads(&mut plan, 0, pairs);
    proof {
        lemma_frame_stores_load(frame@);
        lemma_pair_loads_load(0, pairs as nat);
        lemma_load_count_join(head, pair_loads(0, pairs as nat));
        assert(plan@ =~= plan@ + Seq::<Access>::empty());
    }
    match size {
        FrameSize::Narrow => {
            let ghost before = plan@;
            push_pair_loads(&mut plan, 16, 62);
            proof {
                lemma_pair_loads_load(16, 62);
                lemma_load_count_join(before, pair_loads(16, 62));
            }
        },
        FrameSize::Wide => {},
    }
    plan
}

/// Passes on what the answer to a message of `time` reports, and returns its data.
pub fn collect_message(
    size: FrameSize,
    progress: &mut SharedProgress<u64>,
    time: u64,
    ghosts: &Vec<(usize, usize)>,
    words: &Vec<u64>,
) -> (r: Vec<u64>)
    requires
        words@.len() == size.words() + PROGRESS_LENGTH,
        OPERATOR_COUNT <= ghosts@.len(),
        has_places(old(progress)@, ghosts@),
    ensures
        final(progress)@ == all_reported(
            old(progress)@,
            ghosts@,
            time,
            groups_from(words@, size.words(), OPERATOR_COUNT as nat),
            OPERATOR_COUNT as nat,
        ),
        r@ == all_decoded(words@.take(size.words() as int)),
        has_places(final(progress)@, ghosts@),
{
    let n: usize = size.data_words();
    let mut data: Vec<u64> = Vec::new();
    push_decoded(&mut data, words, 0, n);
    assert(words@.subrange(0, n as int) =~= words@.take(n as int));
    assert(data@ =~= all_decoded(words@.take(n as int)));
    let groups = read_groups(words, n, OPERATOR_COUNT);
    report_all(progress, ghosts, time, &groups, OPERATOR_COUNT);
    data
}

/// What each operator is said to report where there is no device: sixteen messages consumed and
/// as many produced.
pub open spec fn emulated_groups() -> Seq<ProgressGroup> {
    Seq::new(
        OPERATOR_COUNT as nat,
        |k: int| ProgressGroup { consumed: 16, produced: 16, time: 0, change: 0 },
    )
}

/// Passes on what each operator is said to report for a message of `time` where there is no
/// device, and returns the data said to come back: sixteen zeros.
pub fn collect_emulated(
    progress: &mut SharedProgress<u64>,
    time: u64,
    ghosts: &Vec<(usize, usize)>,
) -> (r: Vec<u64>)
    requires
        OPERATOR_COUNT <= ghosts@.len(),
        has_places(old(progress)@, ghosts@),
    ensures
        final(progress)@ == all_reported(
            old(progress)@,
            ghosts@,
            time,
            emulated_groups(),
            OPERATOR_COUNT as nat,
        ),
        r@ == zeros(16),
        has_places(final(progress)@, ghosts@),
{
    let mut groups: Vec<ProgressGroup> = Vec::new();
    let mut k: usize = 0;
    while k < OPERATOR_COUNT
        invariant
            k <= OPERATOR_COUNT,
            groups@.len() == k,
            forall|i: int| 0 <= i < k ==> #[trigger] groups@[i] == emulated_groups()[i],
        decreases OPERATOR_COUNT - k,
    {
        groups.push(ProgressGroup { consumed: 16, produced: 16, time: 0, change: 0 });
        k += 1;
    }
    assert(groups@ =~= emulated_groups());
    report_all(progress, ghosts, time, &groups, OPERATOR_COUNT);
    let mut data: Vec<u64> = Vec::new();
    pad(&mut data, 16);
    assert(data@ =~= zeros(16));
    data
}

/// Progress information with what the first `n` operators report in a round without messages:
/// all of it of the later ones, all but what they consumed of the others.
pub open spec fn idle_reported(
    p: ProgressContents<u64>,
    ghosts: Seq<(usize, usize)>,
    time: u64,
    groups: Seq<ProgressGroup>,
    n: nat,
) -> ProgressContents<u64>
    decreases n,
{
    if n == 0 {
        p
    } else {
        let before = idle_reported(p, ghosts, time, groups, (n - 1) as nat);
        if n <= QUIET_OPERATORS {
            released(before, ghosts[n - 1].1, time, groups[n - 1])
        } else {
            reported(before, ghosts[n - 1].1, time, groups[n - 1])
        }
    }
}

/// How many words of data are read in a round without messages: pairs of words.
pub open spec fn idle_data_words(num_data: nat) -> nat {
    2 * ((num_data + 1) / 2)
}

/// The reports in the words read in a round without messages: zeros where none were read.
pub open spec fn idle_groups(words: Seq<u64>, num_data: nat) -> Seq<ProgressGroup> {
    groups_from(
        padded(words.skip(idle_data_words(num_data) as int), PROGRESS_LENGTH as nat),
        0,
        OPERATOR_COUNT as nat,
    )
}

/// The data in the words read in a round without messages.
pub open spec fn idle_data(words: Seq<u64>, num_data: nat) -> Seq<u64> {
    all_decoded(words.take(idle_data_words(num_data) as int))
}

/// Passes on what the words read in a round without messages report, if there is data, and
/// returns what is to be sent on: the data, at the time that the first operator reports.
pub fn collect_idle(
    size: FrameSize,
    progress: &mut SharedProgress<u64>,
    ghosts: &Vec<(usize, usize)>,
    words: &Vec<u64>,
    num_data: usize,
) -> (r: Option<(u64, Vec<u64>)>)
    requires
        num_data < usize::MAX,
        words@.len() == idle_data_words(num_data as nat) + (match size {
            FrameSize::Narrow => PROGRESS_LENGTH as nat,
            FrameSize::Wide => 0,
        }),
        OPERATOR_COUNT <= ghosts@.len(),
        has_places(old(progress)@, ghosts@),
    ensures
        ({
            let data = idle_data(words@, num_data as nat);
            let groups = idle_groups(words@, num_data as nat);
            if data.len() > 0 {
                &&& final(progress)@ == idle_reported(
                    old(progress)@,
                    ghosts@,
                    groups[0].time,
                    groups,
                    OPERATOR_COUNT as nat,
                )
                &&& session_view(r) == Some((groups[0].time, data))
            } else {
                &&& final(progress)@ == old(progress)@
                &&& r is None
            }
        }),
        has_places(final(progress)@, ghosts@),
{
    assert(words.len() == words@.len());
    let n: usize = 2 * ((num_data + 1) / 2);
    let mut data: Vec<u64> = Vec::new();
    push_decoded(&mut data, words, 0, n);
    assert(words@.subrange(0, n as int) =~= words@.take(n as int));
    assert(data@ =~= idle_data(words@, num_data as nat));
    if data.len() == 0 {
        return None;
    }
    let mut reports: Vec<u64> = Vec::new();
    let mut i: usize = n;
    while i < words.len()
        invariant
            n <= i <= words@.len(),
            reports@ == words@.subrange(n as int, i as int),
        decreases words@.len() - i,
    {
        reports.push(words[i]);
        assert(reports@ =~= words@.subrange(n as int, i + 1));
        i += 1;
    }
    assert(reports@ =~= words@.skip(n as int));
    pad(&mut reports, PROGRESS_LENGTH);
    let groups = read_groups(&reports, 0, OPERATOR_COUNT);
    let time: u64 = groups[0].time;
    let ghost start = progress@;
    let mut k: usize = 0;
    while k < OPERATOR_COUNT
        invariant
            k <= OPERATOR_COUNT <= ghosts@.len(),
            groups@.len() == OPERATOR_COUNT,
            has_places(progress@, ghosts@),
            progress@ == idle_reported(start, ghosts@, time, groups@, k as nat),
        decreases OPERATOR_COUNT - k,
    {
        assert(has_place(progress@, ghosts@[k as int].1));
        let ghost before = progress@;
        if k < QUIET_OPERATORS {
            release(progress, ghosts[k].1, time, &groups[k]);
        } else {
            report(progress, ghosts[k].1, time, &groups[k]);
        }
        proof {
            assert forall|m: int| 0 <= m < ghosts@.len() implies has_place(
                progress@,
                (#[trigger] ghosts@[m]).1,
            ) by {
                assert(has_place(before, ghosts@[m].1));
            }
        }
        k += 1;
    }
    Some((time, data))
}

/// What is to be done with the memory in a round: for each message in turn, or once, where there
/// is none.
pub open spec fn round_plans(
    size: FrameSize,
    frontiers: Seq<Seq<u64>>,
    messages: Seq<(u64, Seq<u64>)>,
    num_data: nat,
) -> Seq<Seq<Access>> {
    if messages.len() == 0 {
        seq![idle_plan(size, idle_frame(size, frontiers), num_data)]
    } else {
        messages.map_values(
            |m: (u64, Seq<u64>)| message_plan(size, message_frame(size, frontiers, m.1)),
        )
    }
}

/// How many words the plan of a round reads each time.
pub open spec fn round_loads(size: FrameSize, idle: bool, num_data: nat) -> nat {
    if !idle {
        size.words() + PROGRESS_LENGTH as nat
    } else {
        idle_data_words(num_data) + (match size {
            FrameSize::Narrow => PROGRESS_LENGTH as nat,
            FrameSize::Wide => 0,
        })
    }
}

/// What is to be done with the memory in a round. Each message fills a frame at least.
pub fn plan_round(
    size: FrameSize,
    frontiers: &Vec<MutableAntichain<u64>>,
    messages: &Vec<(u64, Vec<u64>)>,
    num_data: usize,
) -> (r: Vec<Vec<Access>>)
    requires
        size.carries(frontiers_of(frontiers@)),
        forall|k: int|
            0 <= k < messages@.len() ==> size.words() <= (#[trigger] messages@[k]).1@.len(),
        num_data < usize::MAX,
    ensures
        plan_views(r@) == round_plans(
            size,
            frontiers_of(frontiers@),
            message_views(messages@),
            num_data as nat,
        ),
        forall|k: int|
            0 <= k < r@.len() ==> load_count((#[trigger] r@[k])@) == round_loads(
                size,
                messages@.len() == 0,
                num_data as nat,
            ),
{
    let ghost all = frontiers_of(frontiers@);
    let ghost views = message_views(messages@);
    let mut r: Vec<Vec<Access>> = Vec::new();
    if messages.len() == 0 {
        let frame = frame_idle(size, frontiers);
        r.push(plan_idle(size, &frame, num_data));
        assert(plan_views(r@) =~= round_plans(size, all, views, num_data as nat));
        return r;
    }
    let mut i: usize = 0;
    while i < messages.len()
        invariant
            i <= messages@.len(),
            0 < messages@.len(),
            all == frontiers_of(frontiers@),
            views == message_views(messages@),
            size.carries(all),
            forall|k: int|
                0 <= k < messages@.len() ==> size.words() <= (#[trigger] messages@[k]).1@.len(),
            r@.len() == i,
            forall|k: int|
                0 <= k < i ==> (#[trigger] r@[k])@ == message_plan(
                    size,
                    message_frame(size, all, views[k].1),
                ) && load_count(r@[k]@) == round_loads(size, false, num_data as nat),
        decreases messages@.len() - i,
    {
        assert(views[i as int].1 == messages@[i as int].1@);
        let frame = frame_message(size, frontiers, &messages[i].1);
        r.push(plan_message(size, &frame));
        i += 1;
    }
    assert(plan_views(r@) =~= round_plans(size, all, views, num_data as nat));
    r
}

/// Progress information with what the answers to the first `n` messages report.
pub open spec fn round_reported(
    size: FrameSize,
    p: ProgressContents<u64>,
    ghosts: Seq<(usize, usize)>,
    messages: Seq<(u64, Seq<u64>)>,
    answers: Seq<Seq<u64>>,
    n: nat,
) -> ProgressContents<u64>
    decreases n,
{
    if n == 0 {
        p
    } else {
        all_reported(
            round_reported(size, p, ghosts, messages, answers, (n - 1) as nat),
            ghosts,
            messages[n - 1].0,
            groups_from(answers[n - 1], size.words(), OPERATOR_COUNT as nat),
            OPERATOR_COUNT as nat,
        )
    }
}

/// What is to be sent on for each message: the data of its answer, at its time.
pub open spec fn round_sessions(
    size: FrameSize,
    messages: Seq<(u64, Seq<u64>)>,
    answers: Seq<Seq<u64>>,
) -> Seq<(u64, Seq<u64>)> {
    Seq::new(
        messages.len(),
        |k: int| (messages[k].0, all_decoded(answers[k].take(size.words() as int))),
    )
}

/// Passes on what was read in a round, and returns what is to be sent on.
pub fn collect_round(
    size: FrameSize,
    progress: &mut SharedProgress<u64>,
    ghosts: &Vec<(usize, usize)>,
    messages: &Vec<(u64, Vec<u64>)>,
    answers: &Vec<Vec<u64>>,
    num_data: usize,
) -> (r: Vec<(u64, Vec<u64>)>)
    requires
        has_places(old(progress)@, ghosts@),
        OPERATOR_COUNT <= ghosts@.len(),
        num_data < usize::MAX,
        messages@.len() == 0 ==> answers@.len() == 1,
        messages@.len() > 0 ==> answers@.len() == messages@.len(),
        forall|k: int|
            0 <= k < answers@.len() ==> (#[trigger] answers@[k])@.len() == round_loads(
                size,
                messages@.len() == 0,
                num_data as nat,
            ),
    ensures
        has_places(final(progress)@, ghosts@),
        messages@.len() == 0 ==> {
            let data = idle_data(answers@[0]@, num_data as nat);
            let groups = idle_groups(answers@[0]@, num_data as nat);
            if data.len() > 0 {
                &&& final(progress)@ == idle_reported(
                    old(progress)@,
                    ghosts@,
                    groups[0].time,
                    groups,
                    OPERATOR_COUNT as nat,
                )
                &&& message_views(r@) == seq![(groups[0].time, data)]
            } else {
                &&& final(progress)@ == old(progress)@
                &&& r@.len() == 0
            }
        },
        messages@.len() > 0 ==> {
            &&& final(progress)@ == round_reported(
                size,
                old(progress)@,
                ghosts@,
                message_views(messages@),
                word_views(answers@),
                messages@.len(),
            )
            &&& message_views(r@) == round_sessions(
                size,
                message_views(messages@),
                word_views(answers@),
            )
        },
{
    let ghost views = message_views(messages@);
    let ghost words = word_views(answers@);
    let ghost start = progress@;
    let mut r: Vec<(u64, Vec<u64>)> = Vec::new();
    if messages.len() == 0 {
        assert(answers@[0]@.len() == round_loads(size, true, num_data as nat));
        match collect_idle(size, progress, ghosts, &answers[0], num_data) {
            Some(session) => {
                r.push(session);
                assert(message_views(r@) =~= seq![(session.0, session.1@)]);
            },
            None => {},
        }
        return r;
    }
    let mut i: usize = 0;
    while i < messages.len()
        invariant
            i <= messages@.len(),
            0 < messages@.len() == answers@.len(),
            OPERATOR_COUNT <= ghosts@.len(),
            has_places(progress@, ghosts@),
            views == message_views(messages@),
            words == word_views(answers@),
            forall|k: int|
                0 <= k < answers@.len() ==> (#[trigger] answers@[k])@.len() == round_loads(
                    size,
                    false,
                    num_data as nat,
                ),
            progress@ == round_reported(size, start, ghosts@, views, words, i as nat),
            r@.len() == i,
            forall|k: int|
                0 <= k < i ==> (#[trigger] r@[k]).0 == views[k].0 && r@[k].1@ == all_decoded(
                    words[k].take(size.words() as int),
                ),
        decreases messages@.len() - i,
    {
        let time: u64 = messages[i].0;
        assert(views[i as int].0 == time);
        assert(words[i as int] == answers@[i as int]@);
        let data = collect_message(size, progress, time, ghosts, &answers[i]);
        r.push((time, data));
        i += 1;
    }
    assert(message_views(r@) =~= round_sessions(size, views, words));
    r
}

/// Progress information with what is said of the first `n` messages where there is no device.
pub open spec fn emulated_reported(
    p: ProgressContents<u64>,
    ghosts: Seq<(usize, usize)>,
    messages: Seq<(u64, Seq<u64>)>,
    n: nat,
) -> ProgressContents<u64>
    decreases n,
{
    if n == 0 {
        p
    } else {
        all_reported(
            emulated_reported(p, ghosts, messages, (n - 1) as nat),
            ghosts,
            messages[n - 1].0,
            emulated_groups(),
            OPERATOR_COUNT as nat,
        )
    }
}

/// Passes on what is said of each message of a round where there is no device, and returns what
/// is to be sent on: sixteen zeros for each message.
pub fn emulate_round(
    progress: &mut SharedProgress<u64>,
    ghosts: &Vec<(usize, usize)>,
    messages: &Vec<(u64, Vec<u64>)>,
) -> (r: Vec<(u64, Vec<u64>)>)
    requires
        has_places(old(progress)@, ghosts@),
        OPERATOR_COUNT <= ghosts@.len(),
    ensures
        has_places(final(progress)@, ghosts@),
        final(progress)@ == emulated_reported(
            old(progress)@,
            ghosts@,
            message_views(messages@),
            messages@.len(),
        ),
        message_views(r@) == message_views(messages@).map_values(
            |m: (u64, Seq<u64>)| (m.0, zeros(16)),
        ),
{
    let ghost views = message_views(messages@);
    let ghost start = progress@;
    let mut r: Vec<(u64, Vec<u64>)> = Vec::new();
    let mut i: usize = 0;
    while i < messages.len()
        invariant
            i <= messages@.len(),
            OPERATOR_COUNT <= ghosts@.len(),
            has_places(progress@, ghosts@),
            views == message_views(messages@),
            progress@ == emulated_reported(start, ghosts@, views, i as nat),
            r@.len() == i,
            forall|k: int|
                0 <= k < i ==> (#[trigger] r@[k]).0 == views[k].0 && r@[k].1@ == zeros(16),
        decreases messages@.len() - i,
    {
        let time: u64 = messages[i].0;
        assert(views[i as int].0 == time);
        let data = collect_emulated(progress, time, ghosts);
        r.push((time, data));
        i += 1;
    }
    assert(message_views(r@) =~= views.map_values(|m: (u64, Seq<u64>)| (m.0, zeros(16))));
    r
}

/// Running operators on the device.
pub trait FpgaWrapperPCI<TOuter: Timestamp, TInner: Refines<TOuter>>: Host<TOuter, TInner> {
    /// Puts the operators on the device, and the operator that stands for them, into a scope, behind
    /// `stream`.
    fn fpga_wrapper_pci(
        &mut self,
        stream: Source,
        num_operators: usize,
        identifiers: &Vec<usize>,
        peers: usize,
    ) -> (r: (Registered, WrapperState))
        requires
            old(self).scope().child_count + num_operators + 1 <= usize::MAX,
            num_operators + 1 <= identifiers@.len(),
        ensures
            registered_with(
                &old(self).scope(),
                &final(self).scope(),
                &r.0,
                stream,
                name_list("Filter"@, num_operators as nat),
                identifiers@,
                peers,
                false,
            ),
            old(self).scope().wf() ==> final(self).scope().wf(),
            old(self).scope().is_dense() ==> final(self).scope().is_dense(),
            r.1.wf(),
            r.1.ghost_indexes@ == numbered(r.0.ghosts@),
            r.1.is_fresh(),
    ;
}

impl<TOuter: Timestamp, TInner: Refines<TOuter>> FpgaWrapperPCI<TOuter, TInner> for SubgraphBuilder<
    TOuter,
    TInner,
> {
    fn fpga_wrapper_pci(
        &mut self,
        stream: Source,
        num_operators: usize,
        identifiers: &Vec<usize>,
        peers: usize,
    ) -> (r: (Registered, WrapperState)) {
        register_filters(self, stream, num_operators, identifiers, peers)
    }
}

proof fn lemma_pairs_in_area(offset: usize, n: nat, size: nat)
    requires
        offset + 2 * n <= size,
        size <= usize::MAX,
    ensures
        in_area(pair_loads(offset, n), size),
    decreases n,
{
    if n > 0 {
        lemma_pairs_in_area(offset, (n - 1) as nat, size);
    }
}

/// The words of the memory that frames and answers of this size take.
pub open spec fn area_of(size: FrameSize) -> nat {
    size.words() + PROGRESS_LENGTH as nat
}

/// A message touches no more of the memory than frames and answers take.
pub proof fn law_message_in_area(size: FrameSize, frame: Seq<u64>)
    requires
        frame.len() == FRONTIER_LENGTH + size.words(),
    ensures
        in_area(message_plan(size, frame), area_of(size)),
{
    let head = pair_stores(frame).push(Access::Fence);
    let data = pair_loads(0, size.words() / 2);
    let reports = pair_loads(size.words() as usize, 62);
    assert(in_area(head, area_of(size)));
    lemma_pairs_in_area(0, size.words() / 2, area_of(size));
    lemma_pairs_in_area(size.words() as usize, 62, area_of(size));
    lemma_in_area_join(head, data, area_of(size));
    lemma_in_area_join(head + data, reports, area_of(size));
}

/// The words of the memory that a round without messages takes: those of frames and answers,
/// and as many as are asked for.
pub open spec fn idle_area_of(size: FrameSize, num_data: nat) -> nat {
    if idle_data_words(num_data) <= area_of(size) {
        area_of(size)
    } else {
        idle_data_words(num_data)
    }
}

/// A round without messages touches no more of the memory than frames and answers take, and
/// the words of data that are asked for.
pub proof fn law_idle_in_area(size: FrameSize, frame: Seq<u64>, num_data: nat)
    requires
        frame.len() == FRONTIER_LENGTH + size.words(),
        num_data < usize::MAX,
    ensures
        in_area(idle_plan(size, frame, num_data), idle_area_of(size, num_data)),
{
    let area = idle_area_of(size, num_data);
    let head = pair_stores(frame).push(Access::Fence);
    let data = pair_loads(0, (num_data + 1) / 2);
    assert(in_area(head, area));
    lemma_pairs_in_area(0, (num_data + 1) / 2, area);
    lemma_in_area_join(head, data, area);
    match size {
        FrameSize::Narrow => {
            lemma_pairs_in_area(16, 62, area);
            lemma_in_area_join(head + data, pair_loads(16, 62), area);
        },
        FrameSize::Wide => {
            lemma_in_area_join(head + data, Seq::empty(), area);
        },
    }
}

/// Data that a device hands back as it is comes back as it was sent, where each value has its
/// highest bit clear.
pub proof fn law_frame_round_trip(size: FrameSize, frontiers: Seq<Seq<u64>>, data: Seq<u64>)
    requires
        data.len() == size.words(),
        forall|i: int| 0 <= i < data.len() ==> #[trigger] data[i] < 0x8000_0000_0000_0000,
    ensures
        all_decoded(
            message_frame(size, frontiers, data).skip(FRONTIER_LENGTH as int),
        ) == data,
{
    law_data_round_trip(data, 0);
    assert(data.take(size.words() as int) =~= data);
    assert(message_frame(size, frontiers, data).skip(FRONTIER_LENGTH as int) =~= padded(
        data_words(data),
        0,
    ));
}

/// What a round with messages passes on of a node: for each time, what the answers to the
/// messages of that time report as consumed and as produced; and what the answers report on the
/// capabilities of the node. Counts are in two's complement.
pub proof fn law_round_counts(
    size: FrameSize,
    p: ProgressContents<u64>,
    ghosts: Seq<(usize, usize)>,
    messages: Seq<(u64, Seq<u64>)>,
    answers: Seq<Seq<u64>>,
    n: nat,
    k: int,
    t: u64,
)
    requires
        n <= messages.len(),
        n <= answers.len(),
        31 <= ghosts.len(),
        0 <= k < 31,
        numbers_nodes(ghosts),
        forall|j: int| 0 <= j < n ==> (#[trigger] answers[j]).len() == size.words() + 4 * 31,
        forall|j: int| 0 <= j < 31 ==> is_tidy(p, (#[trigger] ghosts[j]).1),
    ensures
        ({
            let q = round_reported(size, p, ghosts, messages, answers, n);
            let node = ghosts[k].1;
            let at = size.words() + 4 * k;
            &&& count(q.wrapper_consumeds[node][0], t) == wrapped(
                count(p.wrapper_consumeds[node][0], t) + sum_over(
                    n,
                    |j: int|
                        if messages[j].0 == t {
                            signed(answers[j][at])
                        } else {
                            0
                        },
                ),
            )
            &&& count(q.wrapper_produceds[node][0], t) == wrapped(
                count(p.wrapper_produceds[node][0], t) + sum_over(
                    n,
                    |j: int|
                        if messages[j].0 == t {
                            signed(answers[j][at + 1])
                        } else {
                            0
                        },
                ),
            )
            &&& count(q.wrapper_internals[node][0], t) == wrapped(
                count(p.wrapper_internals[node][0], t) + sum_over(
                    n,
                    |j: int|
                        if answers[j][at + 2] == t {
                            signed(answers[j][at + 3])
                        } else {
                            0
                        },
                ),
            )
            &&& q.frontiers == p.frontiers
            &&& q.consumeds == p.consumeds
            &&& q.internals == p.internals
            &&& q.produceds == p.produceds
            &&& q.wrapper_frontiers == p.wrapper_frontiers
        }),
    decreases n,
{
    lemma_round_tidy(size, p, ghosts, messages, answers, n);
    let node = ghosts[k].1;
    let at = size.words() + 4 * k;
    if n > 0 {
        let m = (n - 1) as nat;
        law_round_counts(size, p, ghosts, messages, answers, m, k, t);
        lemma_round_tidy(size, p, ghosts, messages, answers, m);
        let before = round_reported(size, p, ghosts, messages, answers, m);
        let words = answers[n - 1];
        let groups = groups_from(words, size.words() as nat, 31 as nat);
        let q = all_reported(before, ghosts, messages[n - 1].0, groups, 31 as nat);
        assert(is_tidy(before, ghosts[k].1));
        law_reports_read(words, size.words() as nat, 31 as nat, k);
        law_reports_passed_on(before, ghosts, messages[n - 1].0, groups, 31 as nat, k);
        let f = |j: int|
            if messages[j].0 == t {
                signed(answers[j][at])
            } else {
                0
            };
        let g = |j: int|
            if messages[j].0 == t {
                signed(answers[j][at + 1])
            } else {
                0
            };
        let h = |j: int|
            if answers[j][at + 2] == t {
                signed(answers[j][at + 3])
            } else {
                0
            };
        lemma_counts_add(
            before.wrapper_consumeds[node],
            q.wrapper_consumeds[node],
            count(p.wrapper_consumeds[node][0], t) as int,
            sum_over(m, f),
            messages[n - 1].0,
            groups[k].consumed as int,
            t,
        );
        lemma_counts_add(
            before.wrapper_produceds[node],
            q.wrapper_produceds[node],
            count(p.wrapper_produceds[node][0], t) as int,
            sum_over(m, g),
            messages[n - 1].0,
            groups[k].produced as int,
            t,
        );
        lemma_counts_add(
            before.wrapper_internals[node],
            q.wrapper_internals[node],
            count(p.wrapper_internals[node][0], t) as int,
            sum_over(m, h),
            groups[k].time,
            groups[k].change as int,
            t,
        );
    }
}

proof fn lemma_round_tidy(
    size: FrameSize,
    p: ProgressContents<u64>,
    ghosts: Seq<(usize, usize)>,
    messages: Seq<(u64, Seq<u64>)>,
    answers: Seq<Seq<u64>>,
    n: nat,
)
    requires
        31 <= ghosts.len(),
        forall|j: int| 0 <= j < 31 ==> is_tidy(p, (#[trigger] ghosts[j]).1),
    ensures
        forall|j: int|
            0 <= j < 31 ==> is_tidy(
                round_reported(size, p, ghosts, messages, answers, n),
                (#[trigger] ghosts[j]).1,
            ),
    decreases n,
{
    if n > 0 {
        let m = (n - 1) as nat;
        lemma_round_tidy(size, p, ghosts, messages, answers, m);
        let before = round_reported(size, p, ghosts, messages, answers, m);
        assert forall|j: int| 0 <= j < 31 implies is_tidy(
            round_reported(size, p, ghosts, messages, answers, n),
            (#[trigger] ghosts[j]).1,
        ) by {
            lemma_stays_tidy(
                before,
                ghosts,
                messages[n - 1].0,
                groups_from(answers[n - 1], size.words() as nat, 31 as nat),
                31 as nat,
                ghosts[j].1,
            );
        }
    }
}

/// The answer to each message is sent on at the time of the message: the halves of those of the
/// words of data that are not zero.
pub proof fn law_round_sessions(
    size: FrameSize,
    messages: Seq<(u64, Seq<u64>)>,
    answers: Seq<Seq<u64>>,
    k: int,
)
    requires
        0 <= k < messages.len(),
    ensures
        round_sessions(size, messages, answers).len() == messages.len(),
        round_sessions(size, messages, answers)[k] == (
            messages[k].0,
            answers[k].take(size.words() as int).filter(|w: u64| w != 0).map_values(|w: u64| w / 2),
        ),
{
    law_words_read(answers[k].take(size.words() as int));
}

/// What a frame says: at the index of each operator, its least time as twice the time and one more,
/// or zero where the frontier of the operator, or of the one before it in its pair, is empty; a
/// zero; and the records, each as twice its value and one more, or zeros where there is no message.
pub proof fn law_frame_words(
    size: FrameSize,
    frontiers: Seq<Seq<u64>>,
    data: Seq<u64>,
    i: int,
)
    requires
        size.carries(frontiers),
        size.words() <= data.len(),
        0 <= i < 32 + size.words(),
        i < 31 && frontiers[i].len() > 0 ==> frontiers[i][0] < 0x8000_0000_0000_0000,
        i >= 32 ==> data[i - 32] < 0x8000_0000_0000_0000,
    ensures
        size.words() == (match size {
            FrameSize::Narrow => 16nat,
            FrameSize::Wide => 1024nat,
        }),
        message_frame(size, frontiers, data).len() == 32 + size.words(),
        idle_frame(size, frontiers).len() == 32 + size.words(),
        ({
            let word = message_frame(size, frontiers, data)[i];
            let idle_word = idle_frame(size, frontiers)[i];
            if i >= 32 {
                &&& word == 2 * data[i - 32] + 1
                &&& idle_word == 0
            } else if i == 31 || frontiers[i].len() == 0 || i % 2 == 1 && frontiers[i - 1].len()
                == 0 {
                &&& word == 0
                &&& idle_word == 0
            } else {
                &&& word == 2 * frontiers[i][0] + 1
                &&& idle_word == 2 * frontiers[i][0] + 1
            }
        }),
{
    if i >= 32 {
        law_word_arithmetic(data[i - 32], 0);
        assert(message_frame(size, frontiers, data)[i] == all_encoded(
            data.take(size.words() as int),
        )[i - 32]);
    } else if i < 31 && frontiers[i].len() > 0 {
        law_word_arithmetic(frontiers[i][0], 0);
    }
}

proof fn lemma_pair_memory(memory: Map<int, u64>, words: Seq<u64>, n: nat, slot: int)
    requires
        n <= words.len() / 2,
        words.len() <= usize::MAX,
    ensures
        loaded_slots(pair_stores(words).take(n as int)) == Seq::<int>::empty(),
        0 <= slot < 2 * n ==> memory_after(memory, pair_stores(words).take(n as int))[slot]
            == words[slot],
        !(0 <= slot < 2 * n) ==> memory_after(memory, pair_stores(words).take(n as int))[slot]
            == memory[slot],
    decreases n,
{
    let all = pair_stores(words).take(n as int);
    if n > 0 {
        lemma_pair_memory(memory, words, (n - 1) as nat, slot);
        assert(all.drop_last() =~= pair_stores(words).take(n - 1));
        assert(all.last() == pair_stores(words)[n - 1]);
        assert(loaded_slots(all) =~= Seq::<int>::empty());
    }
}

proof fn lemma_pair_slots(memory: Map<int, u64>, offset: usize, n: nat, j: int)
    requires
        offset + 2 * n <= usize::MAX,
    ensures
        pair_loads(offset, n).len() == 2 * n,
        loaded_slots(pair_loads(offset, n)).len() == 2 * n,
        0 <= j < 2 * n ==> loaded_slots(pair_loads(offset, n))[j] == offset + j,
        0 <= j < n ==> pair_loads(offset, n)[2 * j + 1] == Access::Fence,
        memory_after(memory, pair_loads(offset, n)) == memory,
    decreases n,
{
    if n > 0 {
        let k = (n - 1) as nat;
        let before = pair_loads(offset, k);
        let pair = Access::LoadPair { slot: (offset + 2 * k) as usize };
        lemma_pair_slots(memory, offset, k, j);
        lemma_fence(memory, before.push(pair));
        assert(before.push(pair).drop_last() =~= before);
        let slots = loaded_slots(before.push(pair));
        assert(slots == loaded_slots(before) + seq![offset + 2 * k, offset + 2 * k + 1]);
    }
}

/// Sending a frame puts each of its words into the slot with its index. Then the answer is read
/// from the first slot on, word after word: the data, and four words for each of 31 operators.
/// There is a fence behind the frame and behind each pair of words read.
pub proof fn law_frame_exchanged(
    size: FrameSize,
    frame: Seq<u64>,
    memory: Map<int, u64>,
    i: int,
    j: int,
)
    requires
        frame.len() == 32 + size.words(),
        0 <= i < frame.len(),
        0 <= j < size.words() + 124,
    ensures
        memory_after(memory, message_plan(size, frame))[i] == frame[i],
        loaded_slots(message_plan(size, frame)).len() == size.words() + 124,
        loaded_slots(message_plan(size, frame))[j] == j,
        message_plan(size, frame)[frame.len() as int / 2] == Access::Fence,
        message_plan(size, frame).len() == frame.len() / 2 + 1 + size.words() + 124,
        j < (size.words() + 124) / 2 ==> message_plan(size, frame)[frame.len() as int / 2 + 2 * j
            + 2] == Access::Fence,
{
    let half = frame.len() / 2;
    let write = pair_stores(frame).push(Access::Fence);
    let w = size.words();
    let first = pair_loads(0, w / 2);
    let second = pair_loads(w as usize, 62);
    assert(pair_stores(frame).take(half as int) =~= pair_stores(frame));
    lemma_pair_memory(memory, frame, half, i);
    lemma_fence(memory, pair_stores(frame));
    let after = memory_after(memory, write);
    lemma_plans_join(memory, write + first, second);
    lemma_plans_join(memory, write, first);
    lemma_pair_slots(after, 0, w / 2, j);
    lemma_pair_slots(after, w as usize, 62, j - w);
    lemma_pair_slots(after, w as usize, 62, j - w / 2);
    let slots = loaded_slots(write + first + second);
    assert(slots =~= loaded_slots(first) + loaded_slots(second));
    if j < (w + 124) / 2 {
        let at = half + 2 * j + 2;
        if j < w / 2 {
            assert((write + first + second)[at] == first[2 * j + 1]);
        } else {
            assert((write + first + second)[at] == second[2 * (j - w / 2) + 1]);
        }
    }
}

/// A round without messages puts each word of the frame into the slot with its index, and reads
/// data in pairs from the first slot on. Where frames are narrow, it then reads four words for each
/// of 31 operators, from the seventeenth slot on.
pub proof fn law_idle_exchanged(
    size: FrameSize,
    frame: Seq<u64>,
    num_data: nat,
    memory: Map<int, u64>,
    i: int,
    j: int,
)
    requires
        frame.len() == 32 + size.words(),
        0 <= i < frame.len(),
        num_data < usize::MAX,
    ensures
        ({
            let data = if num_data % 2 == 0 {
                num_data
            } else {
                num_data + 1
            };
            let plan = idle_plan(size, frame, num_data);
            let slots = loaded_slots(plan);
            &&& memory_after(memory, plan)[i] == frame[i]
            &&& slots.len() == data + (if size is Narrow {
                124nat
            } else {
                0
            })
            &&& 0 <= j < data ==> slots[j] == j
            &&& data <= j < slots.len() ==> slots[j] == 16 + (j - data)
        }),
{
    let half = frame.len() / 2;
    let write = pair_stores(frame).push(Access::Fence);
    let n = (num_data + 1) / 2;
    let first = pair_loads(0, n);
    let second = match size {
        FrameSize::Narrow => pair_loads(16, 62),
        FrameSize::Wide => Seq::empty(),
    };
    assert(pair_stores(frame).take(half as int) =~= pair_stores(frame));
    lemma_pair_memory(memory, frame, half, i);
    lemma_fence(memory, pair_stores(frame));
    let after = memory_after(memory, write);
    lemma_plans_join(memory, write + first, second);
    lemma_plans_join(memory, write, first);
    lemma_pair_slots(after, 0, n, j);
    lemma_pair_slots(after, 16, 62, j - 2 * n);
    let slots = loaded_slots(write + first + second);
    assert(slots =~= loaded_slots(first) + loaded_slots(second));
}

/// In a round with messages there is a plan for each of them, in their order, for a frame with its
/// data.
pub proof fn law_round_planned(
    size: FrameSize,
    frontiers: Seq<Seq<u64>>,
    messages: Seq<(u64, Seq<u64>)>,
    num_data: nat,
    k: int,
)
    requires
        0 <= k < messages.len(),
    ensures
        round_plans(size, frontiers, messages, num_data).len() == messages.len(),
        round_plans(size, frontiers, messages, num_data)[k] == message_plan(
            size,
            message_frame(size, frontiers, messages[k].1),
        ),
        round_plans(size, frontiers, Seq::empty(), num_data) == seq![
            idle_plan(size, idle_frame(size, frontiers), num_data),
        ],
{
}

/// In a round without messages data is read in pairs of words, and each report comes from the four
/// words of its operator behind the data, or is empty where none were read.
pub proof fn law_idle_words(words: Seq<u64>, num_data: nat, k: int)
    requires
        0 <= k < 31,
        words.len() == idle_data_words(num_data) || words.len() == idle_data_words(num_data) + 124,
    ensures
        idle_data_words(num_data) == (if num_data % 2 == 0 {
            num_data
        } else {
            num_data + 1
        }),
        idle_data(words, num_data) == words.take(idle_data_words(num_data) as int).filter(
            |w: u64| w != 0,
        ).map_values(|w: u64| w / 2),
        idle_groups(words, num_data).len() == 31,
        ({
            let group = idle_groups(words, num_data)[k];
            let at = idle_data_words(num_data) + 4 * k;
            if words.len() == idle_data_words(num_data) {
                group == (ProgressGroup { consumed: 0, produced: 0, time: 0, change: 0 })
            } else {
                &&& group.consumed == signed(words[at])
                &&& group.produced == signed(words[at + 1])
                &&& group.time == words[at + 2]
                &&& group.change == signed(words[at + 3])
            }
        }),
{
    let rest = words.skip(idle_data_words(num_data) as int);
    let all = padded(rest, PROGRESS_LENGTH as nat);
    law_words_read(words.take(idle_data_words(num_data) as int));
    law_reports_read(all, 0, 31, k);
    if words.len() > idle_data_words(num_data) {
        assert(all == rest);
    }
}

/// In a round without messages what the first twenty operators consumed is not passed on; all else
/// is, each report to its own node.
pub proof fn law_idle_reports_passed_on(
    p: ProgressContents<u64>,
    ghosts: Seq<(usize, usize)>,
    time: u64,
    groups: Seq<ProgressGroup>,
    n: nat,
    k: int,
)
    requires
        0 <= k < n <= ghosts.len(),
        n <= groups.len(),
        numbers_nodes(ghosts),
        is_tidy(p, ghosts[k].1),
    ensures
        ({
            let q = idle_reported(p, ghosts, time, groups, n);
            let node = ghosts[k].1;
            &&& k < 20 ==> q.wrapper_consumeds[node] == p.wrapper_consumeds[node]
            &&& k >= 20 ==> counts_more(
                p.wrapper_consumeds[node],
                q.wrapper_consumeds[node],
                time,
                groups[k].consumed as int,
            )
            &&& counts_more(
                p.wrapper_produceds[node],
                q.wrapper_produceds[node],
                time,
                groups[k].produced as int,
            )
            &&& counts_more(
                p.wrapper_internals[node],
                q.wrapper_internals[node],
                groups[k].time,
                groups[k].change as int,
            )
            &&& q.frontiers == p.frontiers
            &&& q.consumeds == p.consumeds
            &&& q.internals == p.internals
            &&& q.produceds == p.produceds
            &&& q.wrapper_frontiers == p.wrapper_frontiers
        }),
    decreases n,
{
    let node = ghosts[k].1;
    let before = idle_reported(p, ghosts, time, groups, (n - 1) as nat);
    if k == n - 1 {
        assert forall|j: int| 0 <= j < n - 1 implies (#[trigger] ghosts[j]).1 != node by {
            assert(ghosts[j].1 != ghosts[k].1);
        }
        lemma_idle_spares(p, ghosts, time, groups, (n - 1) as nat, node);
        law_report_passed_on(before, node, time, groups[k]);
    } else {
        law_idle_reports_passed_on(p, ghosts, time, groups, (n - 1) as nat, k);
        assert(ghosts[k].1 != ghosts[n - 1].1);
    }
}

proof fn lemma_idle_spares(
    p: ProgressContents<u64>,
    ghosts: Seq<(usize, usize)>,
    time: u64,
    groups: Seq<ProgressGroup>,
    n: nat,
    node: usize,
)
    requires
        n <= ghosts.len(),
        forall|k: int| 0 <= k < n ==> (#[trigger] ghosts[k]).1 != node,
    ensures
        ({
            let q = idle_reported(p, ghosts, time, groups, n);
            &&& q.wrapper_consumeds[node] == p.wrapper_consumeds[node]
            &&& q.wrapper_produceds[node] == p.wrapper_produceds[node]
            &&& q.wrapper_internals[node] == p.wrapper_internals[node]
            &&& q.wrapper_consumeds.contains_key(node) == p.wrapper_consumeds.contains_key(node)
            &&& q.wrapper_produceds.contains_key(node) == p.wrapper_produceds.contains_key(node)
            &&& q.wrapper_internals.contains_key(node) == p.wrapper_internals.contains_key(node)
            &&& q.frontiers == p.frontiers
            &&& q.consumeds == p.consumeds
            &&& q.internals == p.internals
            &&& q.produceds == p.produceds
            &&& q.wrapper_frontiers == p.wrapper_frontiers
        }),
    decreases n,
{
    if n > 0 {
        lemma_idle_spares(p, ghosts, time, groups, (n - 1) as nat, node);
        assert(ghosts[n - 1].1 != node);
    }
}

/// Without a device each message counts as sixteen records that each operator consumed and
/// produced at the time of the message, and as no change of capabilities.
pub proof fn law_emulated_round_counts(
    p: ProgressContents<u64>,
    ghosts: Seq<(usize, usize)>,
    messages: Seq<(u64, Seq<u64>)>,
    n: nat,
    k: int,
    t: u64,
)
    requires
        n <= messages.len(),
        31 <= ghosts.len(),
        0 <= k < 31,
        numbers_nodes(ghosts),
        forall|j: int| 0 <= j < 31 ==> is_tidy(p, (#[trigger] ghosts[j]).1),
    ensures
        ({
            let q = emulated_reported(p, ghosts, messages, n);
            let node = ghosts[k].1;
            let sent = sum_over(
                n,
                |j: int|
                    if messages[j].0 == t {
                        16int
                    } else {
                        0
                    },
            );
            &&& count(q.wrapper_consumeds[node][0], t) == wrapped(
                count(p.wrapper_consumeds[node][0], t) + sent,
            )
            &&& count(q.wrapper_produceds[node][0], t) == wrapped(
                count(p.wrapper_produceds[node][0], t) + sent,
            )
            &&& count(q.wrapper_internals[node][0], t) == count(p.wrapper_internals[node][0], t)
            &&& forall|j: int| 0 <= j < 31 ==> is_tidy(q, (#[trigger] ghosts[j]).1)
        }),
    decreases n,
{
    let node = ghosts[k].1;
    if n > 0 {
        let m = (n - 1) as nat;
        law_emulated_round_counts(p, ghosts, messages, m, k, t);
        let before = emulated_reported(p, ghosts, messages, m);
        let time = messages[n - 1].0;
        let groups = emulated_groups();
        let q = all_reported(before, ghosts, time, groups, 31);
        law_reports_passed_on(before, ghosts, time, groups, 31, k);
        let f = |j: int|
            if messages[j].0 == t {
                16int
            } else {
                0
            };
        lemma_counts_add(
            before.wrapper_consumeds[node],
            q.wrapper_consumeds[node],
            count(p.wrapper_consumeds[node][0], t) as int,
            sum_over(m, f),
            time,
            16,
            t,
        );
        lemma_counts_add(
            before.wrapper_produceds[node],
            q.wrapper_produceds[node],
            count(p.wrapper_produceds[node][0], t) as int,
            sum_over(m, f),
            time,
            16,
            t,
        );
        assert forall|j: int| 0 <= j < 31 implies is_tidy(q, (#[trigger] ghosts[j]).1) by {
            lemma_stays_tidy(before, ghosts, time, groups, 31, ghosts[j].1);
        }
    }
}

/// A frame carries frontiers that are all there and not empty.
pub proof fn law_full_frontiers_carried(size: FrameSize, frontiers: Seq<Seq<u64>>)
    requires
        31 <= frontiers.len(),
        forall|i: int| 0 <= i < 31 ==> (#[trigger] frontiers[i]).len() > 0,
    ensures
        size.carries(frontiers),
{
}

/// A wide frame also carries frontiers that are all empty.
pub proof fn law_empty_frontiers_carried(frontiers: Seq<Seq<u64>>)
    requires
        31 <= frontiers.len(),
        forall|i: int| 0 <= i < 31 ==> (#[trigger] frontiers[i]).len() == 0,
    ensures
        FrameSize::Wide.carries(frontiers),
{
}

} // verus!
