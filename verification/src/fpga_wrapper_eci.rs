//! Running operators on a device that is coherent with the caches of the host: frontiers, data
//! and reports go through two cache lines, in turns.

use vstd::prelude::*;

use crate::access::{
    fenced_loads, fenced_stores, in_area, is_fenced, law_loads_counted, law_loads_read,
    law_stores_write, lemma_fence, lemma_fenced_join, lemma_fenced_line, lemma_fenced_lines, lemma_in_area_join,
    lemma_in_area_lines, lemma_load_count_join, lemma_load_count_loads, lemma_load_count_stores,
    lemma_plans_join, line_touched, load_count, loaded_slots, memory_after, plan_views, push_loads,
    push_stores, slots_loaded, stores, Access,
};
use crate::device::{
    all_reported, counts_more, encoded_groups_from, frontiers_of, groups_from, has_place,
    has_places, is_tidy, law_report_passed_on, law_reports_passed_on, law_reports_read,
    lemma_counts_add, lemma_stays_tidy, numbers_nodes, read_encoded_groups, read_groups, release,
    released, report_all, same_but_for, signed, ProgressGroup, WrapperState,
};
use crate::change_batch::{count, wrapped};
use crate::emulation::{emulate, emulated, is_word, law_answer_emulated};
use crate::fpga_wrapper::{message_views, session_view};
use crate::frontier::MutableAntichain;
use crate::location::Source;
use crate::naming::name_list;
use crate::order::{Refines, Timestamp};
use crate::registration::{numbered, register_filters, registered_with, Host, Registered};
use crate::shared_progress::{ProgressContents, SharedProgress};
use crate::subgraph_builder::SubgraphBuilder;
use crate::sums::sum_over;
use crate::words::{
    all_decoded, all_encoded, all_frontier_words, data_words, encode, encoded,
    law_data_round_trip, law_frontier_at_index, law_word_arithmetic, law_words_read,
    lemma_frontier_count, pad, padded, push_decoded, word_views, zeros,
};

verus! {

/// Words in a cache line.
pub const CACHE_LINE_SIZE: usize = 16;

/// How many operators the device runs.
#[derive(Clone, Copy, Debug, PartialEq, Eq, Structural)]
pub enum Layout {
    /// One.
    One,
    /// Four.
    Four,
    /// Fifteen.
    Fifteen,
    /// Sixteen.
    Sixteen,
    /// Twenty.
    Twenty,
    /// Thirty-two.
    ThirtyTwo,
}

impl Layout {
    /// How many operators the device runs.
    pub open spec fn nodes(self) -> nat {
        match self {
            Layout::One => 1,
            Layout::Four => 4,
            Layout::Fifteen => 15,
            Layout::Sixteen => 16,
            Layout::Twenty => 20,
            Layout::ThirtyTwo => 32,
        }
    }

    /// Whether frontiers fill both lines, so that data goes out through the first one.
    pub open spec fn is_wide(self) -> bool {
        self is Twenty || self is ThirtyTwo
    }

    /// How many frontiers go into the first line.
    pub open spec fn first_count(self) -> nat {
        match self {
            Layout::Four => 4,
            Layout::Fifteen => 15,
            _ => 16,
        }
    }

    /// Whether the lines change places from round to round.
    pub open spec fn alternates(self) -> bool {
        self is Fifteen || self is Sixteen || self is Twenty
    }

    /// Words for frontiers in a round without messages.
    pub open spec fn frontier_length(self) -> nat {
        if self.is_wide() {
            32
        } else {
            16
        }
    }

    /// Words of reports in a round without messages.
    pub open spec fn progress_length(self) -> nat {
        match self {
            Layout::One => 0,
            Layout::Four => 16,
            Layout::Fifteen => 64,
            Layout::Sixteen => 64,
            Layout::Twenty => 80,
            Layout::ThirtyTwo => 128,
        }
    }

    /// How many operators the device runs.
    pub fn node_count(self) -> (r: usize)
        ensures
            r == self.nodes(),
    {
        match self {
            Layout::One => 1,
            Layout::Four => 4,
            Layout::Fifteen => 15,
            Layout::Sixteen => 16,
            Layout::Twenty => 20,
            Layout::ThirtyTwo => 32,
        }
    }

    /// Whether frontiers fill both lines.
    pub fn wide(self) -> (r: bool)
        ensures
            r == self.is_wide(),
    {
        match self {
            Layout::Twenty => true,
            Layout::ThirtyTwo => true,
            _ => false,
        }
    }

    /// How many frontiers go into the first line.
    pub fn first(self) -> (r: usize)
        ensures
            r == self.first_count(),
    {
        match self {
            Layout::Four => 4,
            Layout::Fifteen => 15,
            _ => 16,
        }
    }

    /// Words for frontiers and words of reports in a round without messages. A device with one
    /// operator has no such rounds.
    pub fn get_length(self) -> (r: (usize, usize))
        requires
            !(self is One),
        ensures
            r.0 == self.frontier_length(),
            r.1 == self.progress_length(),
    {
        match self {
            Layout::ThirtyTwo => (32, 128),
            Layout::Twenty => (32, 80),
            Layout::Four => (16, 16),
            _ => (16, 64),
        }
    }
}

/// Which line comes first.
pub struct LineSwitch {
    /// How many rounds there were, where the lines change places.
    pub counter: i32,
}

impl LineSwitch {
    /// Where the two lines of a round start. Where they change places, the second line of the
    /// memory comes first in every other round.
    pub fn get_offset(&mut self, layout: Layout) -> (r: (usize, usize))
        requires
            layout.alternates() ==> 0 <= old(self).counter < i32::MAX,
        ensures
            r == (if layout.alternates() && old(self).counter % 2 != 0 {
                (CACHE_LINE_SIZE, 0usize)
            } else {
                (0usize, CACHE_LINE_SIZE)
            }),
            final(self).counter == old(self).counter + (if layout.alternates() {
                1int
            } else {
                0
            }),
    {
        match layout {
            Layout::Fifteen | Layout::Sixteen | Layout::Twenty => {
                let swapped = self.counter % 2 != 0;
                self.counter += 1;
                if swapped {
                    (CACHE_LINE_SIZE, 0)
                } else {
                    (0, CACHE_LINE_SIZE)
                }
            },
            _ => (0, CACHE_LINE_SIZE),
        }
    }
}

/// The store of one frontier into a line: its least time into its slot. An empty frontier puts a
/// zero into the first slot and leaves its own alone.
pub open spec fn frontier_store(frontier: Seq<u64>, line: usize, i: int) -> Access {
    if frontier.len() == 0 {
        Access::Store { slot: line, word: 0 }
    } else {
        Access::Store { slot: (line + i) as usize, word: encoded(frontier[0]) }
    }
}

/// The stores of the first `n` frontiers into a line.
pub open spec fn frontier_stores(frontiers: Seq<Seq<u64>>, line: usize, n: nat) -> Seq<Access> {
    Seq::new(n, |i: int| frontier_store(frontiers[i], line, i))
}

/// How many of the frontiers `from` to `to` are not empty.
pub open spec fn filled(frontiers: Seq<Seq<u64>>, from: nat, to: nat) -> nat
    decreases to,
{
    if to <= from {
        0
    } else {
        filled(frontiers, from, (to - 1) as nat) + (if frontiers[to - 1].len() == 0 {
            0nat
        } else {
            1
        })
    }
}

/// The stores of the frontiers `from` to `to` into a line, one slot behind the other. An empty
/// frontier puts a zero where the next one goes.
pub open spec fn packed_stores(frontiers: Seq<Seq<u64>>, line: usize, from: nat, to: nat) -> Seq<
    Access,
>
    decreases to,
{
    if to <= from {
        Seq::empty()
    } else {
        let slot = (line + filled(frontiers, from, (to - 1) as nat)) as usize;
        let frontier = frontiers[to - 1];
        packed_stores(frontiers, line, from, (to - 1) as nat).push(
            Access::Store {
                slot,
                word: if frontier.len() == 0 {
                    0
                } else {
                    encoded(frontier[0])
                },
            },
        )
    }
}

/// The words of data in a line: zeros where there is none.
pub open spec fn line_words(data: Seq<u64>) -> Seq<u64> {
    if data.len() == 0 {
        zeros(CACHE_LINE_SIZE as nat)
    } else {
        all_encoded(data.take(CACHE_LINE_SIZE as int))
    }
}

/// What is to be done with the lines to send a message: frontiers, then data.
pub open spec fn write_plan(
    layout: Layout,
    frontiers: Seq<Seq<u64>>,
    data: Seq<u64>,
    line_1: usize,
    line_2: usize,
) -> Seq<Access> {
    let first = frontier_stores(frontiers, line_1, layout.first_count());
    if layout.is_wide() {
        let packed = packed_stores(frontiers, line_2, 16, layout.nodes());
        let rest = if layout is Twenty {
            stores((line_2 + filled(frontiers, 16, 20)) as usize, zeros(12))
        } else {
            Seq::empty()
        };
        first.push(Access::Fence) + (packed + rest).push(Access::Fence) + fenced_stores(
            line_1,
            line_words(data),
        )
    } else {
        (first + stores(
            (line_1 + layout.first_count()) as usize,
            zeros((16 - layout.first_count()) as nat),
        )).push(Access::Fence) + fenced_stores(line_2, line_words(data))
    }
}

/// Adds the stores of the first `n` frontiers into a line.
fn push_frontier_stores(
    plan: &mut Vec<Access>,
    frontiers: &Vec<MutableAntichain<u64>>,
    line: usize,
    n: usize,
)
    requires
        n <= frontiers@.len(),
        line + n <= usize::MAX,
    ensures
        final(plan)@ == old(plan)@ + frontier_stores(frontiers_of(frontiers@), line, n as nat),
{
    let ghost start = plan@;
    let ghost all = frontiers_of(frontiers@);
    let mut i: usize = 0;
    assert(start + frontier_stores(all, line, 0) =~= start);
    while i < n
        invariant
            i <= n <= frontiers@.len(),
            line + n <= usize::MAX,
            all == frontiers_of(frontiers@),
            plan@ == start + frontier_stores(all, line, i as nat),
        decreases n - i,
    {
        let frontier = frontiers[i].frontier();
        if frontier.len() == 0 {
            plan.push(Access::Store { slot: line, word: 0 });
        } else {
            plan.push(Access::Store { slot: line + i, word: encode(frontier[0]) });
        }
        assert(plan@ =~= start + frontier_stores(all, line, (i + 1) as nat));
        i += 1;
    }
}

/// No more frontiers are filled than there are.
proof fn lemma_filled(frontiers: Seq<Seq<u64>>, from: nat, to: nat)
    requires
        from <= to,
    ensures
        filled(frontiers, from, to) <= to - from,
    decreases to,
{
    if from < to {
        lemma_filled(frontiers, from, (to - 1) as nat);
    }
}

/// Adds the stores of the frontiers from the seventeenth to `to` into a line, and returns how
/// many of them were not empty.
fn push_packed_stores(
    plan: &mut Vec<Access>,
    frontiers: &Vec<MutableAntichain<u64>>,
    line: usize,
    to: usize,
) -> (r: usize)
    requires
        16 <= to <= frontiers@.len(),
        line + to <= usize::MAX,
    ensures
        final(plan)@ == old(plan)@ + packed_stores(
            frontiers_of(frontiers@),
            line,
            16,
            to as nat,
        ),
        r == filled(frontiers_of(frontiers@), 16, to as nat),
{
    let ghost start = plan@;
    let ghost all = frontiers_of(frontiers@);
    let mut next: usize = 0;
    let mut i: usize = 16;
    assert(start + packed_stores(all, line, 16, 16) =~= start);
    while i < to
        invariant
            16 <= i <= to <= frontiers@.len(),
            line + to <= usize::MAX,
            all == frontiers_of(frontiers@),
            next == filled(all, 16, i as nat),
            next <= i - 16,
            plan@ == start + packed_stores(all, line, 16, i as nat),
        decreases to - i,
    {
        let frontier = frontiers[i].frontier();
        assert(frontier@ == all[i as int]);
        if frontier.len() == 0 {
            plan.push(Access::Store { slot: line + next, word: 0 });
        } else {
            plan.push(Access::Store { slot: line + next, word: encode(frontier[0]) });
            next += 1;
        }
        assert(plan@ =~= start + packed_stores(all, line, 16, (i + 1) as nat));
        i += 1;
    }
    next
}

/// Adds as many stores of zeros as `n`, from `offset` on.
fn push_zero_stores(plan: &mut Vec<Access>, offset: usize, n: usize)
    requires
        offset + n <= usize::MAX,
    ensures
        final(plan)@ == old(plan)@ + stores(offset, zeros(n as nat)),
{
    let ghost start = plan@;
    let mut i: usize = 0;
    assert(start + stores(offset, zeros(0)) =~= start);
    while i < n
        invariant
            i <= n,
            offset + n <= usize::MAX,
            plan@ == start + stores(offset, zeros(i as nat)),
        decreases n - i,
    {
        plan.push(Access::Store { slot: offset + i, word: 0 });
        assert(plan@ =~= start + stores(offset, zeros((i + 1) as nat)));
        i += 1;
    }
}

/// Adds stores of data into a line, and a fence.
fn push_data_stores(plan: &mut Vec<Access>, line: usize, data: &Vec<u64>)
    requires
        data@.len() == 0 || data@.len() >= CACHE_LINE_SIZE,
        line + CACHE_LINE_SIZE <= usize::MAX,
    ensures
        final(plan)@ == old(plan)@ + fenced_stores(line, line_words(data@)),
{
    let ghost start = plan@;
    if data.len() == 0 {
        push_zero_stores(plan, line, CACHE_LINE_SIZE);
    } else {
        let ghost taken = data@.take(CACHE_LINE_SIZE as int);
        let mut i: usize = 0;
        assert(start + stores(line, all_encoded(taken.take(0))) =~= start);
        while i < CACHE_LINE_SIZE
            invariant
                i <= CACHE_LINE_SIZE <= data@.len(),
                line + CACHE_LINE_SIZE <= usize::MAX,
                taken == data@.take(CACHE_LINE_SIZE as int),
                plan@ == start + stores(line, all_encoded(taken.take(i as int))),
            decreases CACHE_LINE_SIZE - i,
        {
            plan.push(Access::Store { slot: line + i, word: encode(data[i]) });
            assert(plan@ =~= start + stores(line, all_encoded(taken.take(i + 1))));
            i += 1;
        }
        assert(taken.take(i as int) =~= taken);
    }
    plan.push(Access::Fence);
    assert(plan@ =~= start + fenced_stores(line, line_words(data@)));
}

/// What is to be done with the lines to send a message.
pub fn write_data(
    layout: Layout,
    frontiers: &Vec<MutableAntichain<u64>>,
    data: &Vec<u64>,
    line_1: usize,
    line_2: usize,
) -> (r: Vec<Access>)
    requires
        layout.first_count() <= frontiers@.len(),
        layout.is_wide() ==> layout.nodes() <= frontiers@.len(),
        data@.len() == 0 || data@.len() >= CACHE_LINE_SIZE,
        line_1 <= CACHE_LINE_SIZE,
        line_2 <= CACHE_LINE_SIZE,
    ensures
        r@ == write_plan(layout, frontiers_of(frontiers@), data@, line_1, line_2),
{
    let ghost all = frontiers_of(frontiers@);
    let mut plan: Vec<Access> = Vec::new();
    let first: usize = layout.first();
    push_frontier_stores(&mut plan, frontiers, line_1, first);
    assert(plan@ =~= frontier_stores(all, line_1, first as nat));
    if layout.wide() {
        plan.push(Access::Fence);
        let ghost head = plan@;
        let nodes: usize = layout.node_count();
        let next: usize = push_packed_stores(&mut plan, frontiers, line_2, nodes);
        let ghost packed = packed_stores(all, line_2, 16, nodes as nat);
        proof {
            lemma_filled(all, 16, nodes as nat);
        }
        match layout {
            Layout::Twenty => {
                push_zero_stores(&mut plan, line_2 + next, 12);
            },
            _ => {},
        }
        let ghost rest = if layout is Twenty {
            stores((line_2 + next) as usize, zeros(12))
        } else {
            Seq::empty()
        };
        plan.push(Access::Fence);
        assert(plan@ =~= head + (packed + rest).push(Access::Fence));
        push_data_stores(&mut plan, line_1, data);
        assert(plan@ =~= write_plan(layout, all, data@, line_1, line_2));
    } else {
        push_zero_stores(&mut plan, line_1 + first, 16 - first);
        plan.push(Access::Fence);
        push_data_stores(&mut plan, line_2, data);
        assert(plan@ =~= write_plan(layout, all, data@, line_1, line_2));
    }
    plan
}

/// How many words of reports are in line `k` of the answer to a message: four for each of up to
/// four operators.
pub open spec fn report_words(layout: Layout, k: nat) -> nat {
    if layout.nodes() >= 4 * k + 4 {
        16
    } else if layout.nodes() <= 4 * k {
        0
    } else {
        (4 * (layout.nodes() - 4 * k)) as nat
    }
}

/// The line that holds data of an answer.
pub open spec fn answer_line(layout: Layout, line_1: usize, line_2: usize) -> usize {
    if layout.is_wide() {
        line_2
    } else {
        line_1
    }
}

/// The line that holds part `k` of the reports of an answer: the lines take turns, from the one
/// that does not hold data on.
pub open spec fn report_line(layout: Layout, line_1: usize, line_2: usize, k: nat) -> usize {
    if (k % 2 == 0) == layout.is_wide() {
        line_1
    } else {
        line_2
    }
}

/// Loads of the first `n` parts of the reports of an answer.
pub open spec fn report_loads(layout: Layout, line_1: usize, line_2: usize, n: nat) -> Seq<Access>
    decreases n,
{
    if n == 0 {
        Seq::empty()
    } else {
        report_loads(layout, line_1, line_2, (n - 1) as nat) + fenced_loads(
            report_line(layout, line_1, line_2, (n - 1) as nat),
            report_words(layout, (n - 1) as nat),
        )
    }
}

/// How many parts the reports of an answer come in.
pub open spec fn report_parts(layout: Layout) -> nat {
    (layout.nodes() + 3) / 4
}

/// What is to be done with the lines to read the answer to a message: data, then reports.
pub open spec fn read_plan(layout: Layout, line_1: usize, line_2: usize) -> Seq<Access> {
    fenced_loads(answer_line(layout, line_1, line_2), CACHE_LINE_SIZE as nat) + report_loads(
        layout,
        line_1,
        line_2,
        report_parts(layout),
    )
}

/// What is to be done with the lines to read the answer to a message. As many words are read as
/// data and reports take.
pub fn plan_read(layout: Layout, line_1: usize, line_2: usize) -> (r: Vec<Access>)
    requires
        line_1 <= CACHE_LINE_SIZE,
        line_2 <= CACHE_LINE_SIZE,
    ensures
        r@ == read_plan(layout, line_1, line_2),
        load_count(r@) == CACHE_LINE_SIZE + 4 * layout.nodes(),
{
    let wide = layout.wide();
    let nodes: usize = layout.node_count();
    let mut plan: Vec<Access> = Vec::new();
    push_loads(
        &mut plan,
        if wide {
            line_2
        } else {
            line_1
        },
        CACHE_LINE_SIZE,
    );
    let ghost head = fenced_loads(
        answer_line(layout, line_1, line_2),
        CACHE_LINE_SIZE as nat,
    );
    assert(plan@ =~= head);
    proof {
        lemma_load_count_loads(answer_line(layout, line_1, line_2), CACHE_LINE_SIZE as nat);
        assert(plan@ =~= head + report_loads(layout, line_1, line_2, 0));
    }
    let parts: usize = (nodes + 3) / 4;
    let mut k: usize = 0;
    while k < parts
        invariant
            k <= parts,
            parts == report_parts(layout),
            nodes == layout.nodes(),
            nodes <= 32,
            wide == layout.is_wide(),
            line_1 <= CACHE_LINE_SIZE,
            line_2 <= CACHE_LINE_SIZE,
            plan@ == head + report_loads(layout, line_1, line_2, k as nat),
            load_count(plan@) == CACHE_LINE_SIZE + (if 4 * k <= nodes {
                16 * k
            } else {
                4 * nodes
            }),
        decreases parts - k,
    {
        let line: usize = if (k % 2 == 0) == wide {
            line_1
        } else {
            line_2
        };
        let words: usize = if nodes >= 4 * k + 4 {
            16
        } else if nodes <= 4 * k {
            0
        } else {
            4 * (nodes - 4 * k)
        };
        let ghost before = plan@;
        push_loads(&mut plan, line, words);
        proof {
            assert(plan@ =~= head + report_loads(layout, line_1, line_2, (k + 1) as nat));
            lemma_load_count_join(before, fenced_loads(line, words as nat));
            lemma_load_count_loads(line, words as nat);
        }
        k += 1;
    }
    plan
}

/// Passes on what the answer to a message of `time` reports, and returns its data.
pub fn read_data(
    layout: Layout,
    progress: &mut SharedProgress<u64>,
    time: u64,
    ghosts: &Vec<(usize, usize)>,
    words: &Vec<u64>,
) -> (r: Vec<u64>)
    requires
        words@.len() == CACHE_LINE_SIZE + 4 * layout.nodes(),
        layout.nodes() <= ghosts@.len(),
        has_places(old(progress)@, ghosts@),
    ensures
        final(progress)@ == all_reported(
            old(progress)@,
            ghosts@,
            time,
            groups_from(words@, CACHE_LINE_SIZE as nat, layout.nodes()),
            layout.nodes(),
        ),
        r@ == all_decoded(words@.subrange(0, CACHE_LINE_SIZE as int)),
        has_places(final(progress)@, ghosts@),
{
    let nodes: usize = layout.node_count();
    let mut data: Vec<u64> = Vec::new();
    push_decoded(&mut data, words, 0, CACHE_LINE_SIZE);
    assert(data@ =~= all_decoded(words@.subrange(0, CACHE_LINE_SIZE as int)));
    let groups = read_groups(words, CACHE_LINE_SIZE, nodes);
    report_all(progress, ghosts, time, &groups, nodes);
    data
}

/// The frame of a round without messages: the frontiers, then zeros.
pub open spec fn idle_frame(layout: Layout, frontiers: Seq<Seq<u64>>, num_data: nat) -> Seq<u64> {
    padded(all_frontier_words(frontiers), num_data + layout.frontier_length())
}

/// The frame of a round without messages.
pub fn frame_idle(layout: Layout, state: &WrapperState, num_data: usize) -> (r: Vec<u64>)
    requires
        !(layout is One),
        num_data + layout.frontier_length() <= usize::MAX,
        all_frontier_words(frontiers_of(state.frontier@)).len() <= num_data
            + layout.frontier_length(),
    ensures
        r@ == idle_frame(layout, frontiers_of(state.frontier@), num_data as nat),
        r@.len() == num_data + layout.frontier_length(),
{
    let (frontier_length, _) = layout.get_length();
    let mut words: Vec<u64> = Vec::new();
    state.push_frontiers(&mut words);
    assert(words@ =~= all_frontier_words(frontiers_of(state.frontier@)));
    pad(&mut words, num_data + frontier_length);
    words
}

/// The exchange of the first `n` lines of data: each goes out through one line and comes back
/// through the other.
pub open spec fn batch_plan(
    layout: Layout,
    data: Seq<u64>,
    line_1: usize,
    line_2: usize,
    n: nat,
) -> Seq<Access>
    decreases n,
{
    if n == 0 {
        Seq::empty()
    } else {
        let (out, back) = if layout.is_wide() {
            (line_1, line_2)
        } else {
            (line_2, line_1)
        };
        batch_plan(layout, data, line_1, line_2, (n - 1) as nat) + (fenced_stores(
            out,
            data.subrange(16 * (n - 1), 16 * n as int),
        ) + fenced_loads(back, CACHE_LINE_SIZE as nat))
    }
}

/// Loads of the first `n` lines of reports in a round without messages.
pub open spec fn summary_plan(layout: Layout, line_1: usize, line_2: usize, n: nat) -> Seq<Access>
    decreases n,
{
    if n == 0 {
        Seq::empty()
    } else {
        summary_plan(layout, line_1, line_2, (n - 1) as nat) + fenced_loads(
            report_line(layout, line_1, line_2, (n - 1) as nat),
            CACHE_LINE_SIZE as nat,
        )
    }
}

/// The stores of the frontiers in a round without messages.
pub open spec fn idle_frontiers(layout: Layout, frame: Seq<u64>, line_1: usize, line_2: usize) -> Seq<
    Access,
> {
    if layout.is_wide() {
        fenced_stores(line_1, frame.subrange(0, 16)) + fenced_stores(
            line_2,
            frame.subrange(16, 32),
        )
    } else {
        fenced_stores(line_1, frame.subrange(0, 16))
    }
}

/// What is to be done with the lines in a round without messages.
pub open spec fn communication_plan(
    layout: Layout,
    frame: Seq<u64>,
    num_data: nat,
    line_1: usize,
    line_2: usize,
) -> Seq<Access> {
    idle_frontiers(layout, frame, line_1, line_2) + batch_plan(
        layout,
        frame.skip(layout.frontier_length() as int),
        line_1,
        line_2,
        num_data / 16,
    ) + summary_plan(layout, line_1, line_2, layout.progress_length() / 16)
}

/// What is to be done with the lines in a round without messages. As many words are read as
/// whole lines of data and the reports take.
pub fn fpga_communication(
    layout: Layout,
    frame: &Vec<u64>,
    num_data: usize,
    line_1: usize,
    line_2: usize,
) -> (r: Vec<Access>)
    requires
        !(layout is One),
        frame@.len() == num_data + layout.frontier_length(),
        line_1 <= CACHE_LINE_SIZE,
        line_2 <= CACHE_LINE_SIZE,
    ensures
        r@ == communication_plan(layout, frame@, num_data as nat, line_1, line_2),
        load_count(r@) == 16 * (num_data as nat / 16) + layout.progress_length(),
{
    let wide = layout.wide();
    let (frontier_length, progress_length) = layout.get_length();
    let ghost data = frame@.skip(layout.frontier_length() as int);
    let mut plan: Vec<Access> = Vec::new();
    push_stores(&mut plan, line_1, frame, 0, 16);
    proof {
        lemma_load_count_stores(line_1, frame@.subrange(0, 16));
        assert(plan@ =~= fenced_stores(line_1, frame@.subrange(0, 16)));
    }
    if wide {
        let ghost before = plan@;
        push_stores(&mut plan, line_2, frame, 16, 32);
        proof {
            lemma_load_count_stores(line_2, frame@.subrange(16, 32));
            lemma_load_count_join(before, fenced_stores(line_2, frame@.subrange(16, 32)));
        }
    }
    let ghost head = idle_frontiers(layout, frame@, line_1, line_2);
    assert(plan@ =~= head);
    let (out, back): (usize, usize) = if wide {
        (line_1, line_2)
    } else {
        (line_2, line_1)
    };
    let batches: usize = num_data / 16;
    let mut k: usize = 0;
    assert(plan@ =~= head + batch_plan(layout, data, line_1, line_2, 0));
    assert(frame.len() == frame@.len());
    while k < batches
        invariant
            k <= batches,
            batches == num_data / 16,
            frame@.len() == num_data + frontier_length,
            frame@.len() <= usize::MAX,
            frontier_length == layout.frontier_length(),
            data == frame@.skip(layout.frontier_length() as int),
            wide == layout.is_wide(),
            (out, back) == (if layout.is_wide() {
                (line_1, line_2)
            } else {
                (line_2, line_1)
            }),
            out <= CACHE_LINE_SIZE,
            back <= CACHE_LINE_SIZE,
            plan@ == head + batch_plan(layout, data, line_1, line_2, k as nat),
            load_count(plan@) == 16 * k,
        decreases batches - k,
    {
        let ghost before = plan@;
        let from: usize = frontier_length + 16 * k;
        push_stores(&mut plan, out, frame, from, from + 16);
        push_loads(&mut plan, back, CACHE_LINE_SIZE);
        proof {
            let part = frame@.subrange(from as int, from + 16);
            assert(part =~= data.subrange(16 * k, 16 * (k + 1)));
            let step = fenced_stores(out, part) + fenced_loads(back, CACHE_LINE_SIZE as nat);
            assert(plan@ =~= before + step);
            assert(plan@ =~= head + batch_plan(layout, data, line_1, line_2, (k + 1) as nat));
            lemma_load_count_join(before, step);
            lemma_load_count_join(
                fenced_stores(out, part),
                fenced_loads(back, CACHE_LINE_SIZE as nat),
            );
            lemma_load_count_stores(out, part);
            lemma_load_count_loads(back, CACHE_LINE_SIZE as nat);
        }
        k += 1;
    }
    let ghost body = plan@;
    let lines: usize = progress_length / 16;
    let mut m: usize = 0;
    assert(plan@ =~= body + summary_plan(layout, line_1, line_2, 0));
    while m < lines
        invariant
            m <= lines,
            lines <= 8,
            wide == layout.is_wide(),
            line_1 <= CACHE_LINE_SIZE,
            line_2 <= CACHE_LINE_SIZE,
            plan@ == body + summary_plan(layout, line_1, line_2, m as nat),
            load_count(plan@) == 16 * batches + 16 * m,
        decreases lines - m,
    {
        let ghost before = plan@;
        let line: usize = if (m % 2 == 0) == wide {
            line_1
        } else {
            line_2
        };
        push_loads(&mut plan, line, CACHE_LINE_SIZE);
        proof {
            assert(plan@ =~= body + summary_plan(layout, line_1, line_2, (m + 1) as nat));
            lemma_load_count_join(before, fenced_loads(line, CACHE_LINE_SIZE as nat));
            lemma_load_count_loads(line, CACHE_LINE_SIZE as nat);
        }
        m += 1;
    }
    plan
}

/// The answer in a round without messages, made up of the words that were read: data that does
/// not fill a line is not exchanged, and reads as zeros.
pub open spec fn idle_answer(words: Seq<u64>, num_data: nat) -> Seq<u64> {
    let whole = (16 * (num_data / 16)) as int;
    padded(words.take(whole), num_data) + words.skip(whole)
}

/// The answer in a round without messages.
pub fn run(layout: Layout, words: &Vec<u64>, num_data: usize) -> (r: Vec<u64>)
    requires
        words@.len() == 16 * (num_data as nat / 16) + layout.progress_length(),
    ensures
        r@ == idle_answer(words@, num_data as nat),
        r@.len() == num_data + layout.progress_length(),
{
    let whole: usize = 16 * (num_data / 16);
    let mut r: Vec<u64> = Vec::new();
    let mut i: usize = 0;
    while i < whole
        invariant
            i <= whole <= words@.len(),
            r@ == words@.take(i as int),
        decreases whole - i,
    {
        r.push(words[i]);
        assert(words@.take(i + 1) =~= words@.take(i as int).push(words@[i as int]));
        i += 1;
    }
    pad(&mut r, num_data);
    let ghost front = r@;
    assert(r@ =~= front + words@.subrange(whole as int, whole as int));
    while i < words.len()
        invariant
            whole <= i <= words@.len(),
            r@ == front + words@.subrange(whole as int, i as int),
        decreases words@.len() - i,
    {
        r.push(words[i]);
        assert(r@ =~= front + words@.subrange(whole as int, i + 1));
        i += 1;
    }
    assert(words@.subrange(whole as int, i as int) =~= words@.skip(whole as int));
    r
}

/// The reports of the nodes in the answer of a round without messages.
pub open spec fn idle_groups(answer: Seq<u64>, num_data: nat, nodes: nat) -> Seq<ProgressGroup> {
    encoded_groups_from(answer, num_data, nodes)
}

/// What is to be sent on in a round without messages: data, if there is any, at the time that
/// the last node reports.
pub open spec fn idle_session(answer: Seq<u64>, num_data: nat, nodes: nat) -> Option<
    (u64, Seq<u64>),
> {
    let data = all_decoded(answer.take(num_data as int));
    if data.len() > 0 {
        Some((idle_groups(answer, num_data, nodes).last().time, data))
    } else {
        None
    }
}

/// Progress information with what the last node reports in a round without messages, if there
/// is data.
pub open spec fn idle_progress(
    p: ProgressContents<u64>,
    ghosts: Seq<(usize, usize)>,
    answer: Seq<u64>,
    num_data: nat,
) -> ProgressContents<u64> {
    let last = idle_groups(answer, num_data, ghosts.len()).last();
    if all_decoded(answer.take(num_data as int)).len() > 0 {
        released(p, ghosts.last().1, last.time, last)
    } else {
        p
    }
}

/// Passes on what the answer of a round without messages reports, and returns what is to be
/// sent on.
pub fn collect_idle(
    progress: &mut SharedProgress<u64>,
    ghosts: &Vec<(usize, usize)>,
    answer: &Vec<u64>,
    num_data: usize,
) -> (r: Option<(u64, Vec<u64>)>)
    requires
        0 < ghosts@.len(),
        num_data + 4 * ghosts@.len() <= answer@.len(),
        has_places(old(progress)@, ghosts@),
    ensures
        final(progress)@ == idle_progress(old(progress)@, ghosts@, answer@, num_data as nat),
        session_view(r) == idle_session(
            answer@,
            num_data as nat,
            ghosts@.len(),
        ),
        has_places(final(progress)@, ghosts@),
{
    let mut data: Vec<u64> = Vec::new();
    push_decoded(&mut data, answer, 0, num_data);
    assert(answer@.subrange(0, num_data as int) =~= answer@.take(num_data as int));
    assert(data@ =~= all_decoded(answer@.take(num_data as int)));
    let nodes: usize = ghosts.len();
    let groups = read_encoded_groups(answer, num_data, nodes);
    if data.len() > 0 {
        let last = groups[nodes - 1];
        let ghost before = progress@;
        assert(has_place(before, ghosts@[nodes - 1].1));
        release(progress, ghosts[nodes - 1].1, last.time, &last);
        proof {
            assert forall|k: int| 0 <= k < ghosts@.len() implies has_place(
                progress@,
                (#[trigger] ghosts@[k]).1,
            ) by {
                assert(has_place(before, ghosts@[k].1));
            }
        }
        Some((last.time, data))
    } else {
        None
    }
}

/// Whether an access reads nothing.
pub open spec fn is_store(access: Access) -> bool {
    !(access is Load) && !(access is LoadPair)
}

proof fn lemma_stores_load_nothing(plan: Seq<Access>)
    requires
        forall|i: int| 0 <= i < plan.len() ==> is_store(#[trigger] plan[i]),
    ensures
        load_count(plan) == 0,
    decreases plan.len(),
{
    if plan.len() > 0 {
        let before = plan.drop_last();
        assert forall|i: int| 0 <= i < before.len() implies is_store(#[trigger] before[i]) by {
            assert(before[i] == plan[i]);
        }
        lemma_stores_load_nothing(before);
        assert(is_store(plan[plan.len() - 1]));
    }
}

/// Packing frontiers into a line is storing alone.
proof fn lemma_packed_stores_only(frontiers: Seq<Seq<u64>>, line: usize, to: nat)
    ensures
        forall|i: int|
            0 <= i < packed_stores(frontiers, line, 16, to).len() ==> is_store(
                #[trigger] packed_stores(frontiers, line, 16, to)[i],
            ),
    decreases to,
{
    if to > 16 {
        lemma_packed_stores_only(frontiers, line, (to - 1) as nat);
        let before = packed_stores(frontiers, line, 16, (to - 1) as nat);
        let plan = packed_stores(frontiers, line, 16, to);
        assert(plan.drop_last() =~= before);
        assert forall|i: int| 0 <= i < plan.len() implies is_store(#[trigger] plan[i]) by {
            if i < before.len() {
                assert(is_store(before[i]));
                assert(plan[i] == before[i]);
            }
        }
    }
}

/// What is to be done with the lines for a message: send it, and read its answer.
pub open spec fn message_plan(
    layout: Layout,
    frontiers: Seq<Seq<u64>>,
    data: Seq<u64>,
    line_1: usize,
    line_2: usize,
) -> Seq<Access> {
    write_plan(layout, frontiers, data, line_1, line_2) + read_plan(layout, line_1, line_2)
}

/// What is to be done with the lines in a round: for each message in turn, or once, where there
/// is none.
pub open spec fn round_plans(
    layout: Layout,
    frontiers: Seq<Seq<u64>>,
    messages: Seq<(u64, Seq<u64>)>,
    num_data: nat,
    line_1: usize,
    line_2: usize,
) -> Seq<Seq<Access>> {
    if messages.len() == 0 {
        seq![
            communication_plan(
                layout,
                idle_frame(layout, frontiers, num_data),
                num_data,
                line_1,
                line_2,
            ),
        ]
    } else {
        messages.map_values(
            |m: (u64, Seq<u64>)| message_plan(layout, frontiers, m.1, line_1, line_2),
        )
    }
}

/// Whether a round can be planned: there are frontiers and words enough for each message, or,
/// where there is no message, room for the frontiers.
pub open spec fn plannable(
    layout: Layout,
    frontiers: Seq<Seq<u64>>,
    messages: Seq<(u64, Seq<u64>)>,
    num_data: nat,
) -> bool {
    if messages.len() == 0 {
        &&& !(layout is One)
        &&& num_data + layout.frontier_length() <= usize::MAX
        &&& all_frontier_words(frontiers).len() <= num_data + layout.frontier_length()
    } else {
        &&& layout.first_count() <= frontiers.len()
        &&& layout.is_wide() ==> layout.nodes() <= frontiers.len()
        &&& forall|k: int|
            0 <= k < messages.len() ==> (#[trigger] messages[k]).1.len() == 0
                || messages[k].1.len() >= CACHE_LINE_SIZE
    }
}

/// How many words the plan of a round reads each time.
pub open spec fn round_loads(layout: Layout, idle: bool, num_data: nat) -> nat {
    if idle {
        16 * (num_data / 16) + layout.progress_length()
    } else {
        CACHE_LINE_SIZE as nat + 4 * layout.nodes()
    }
}

/// Sending a message reads nothing.
proof fn lemma_write_loads(
    layout: Layout,
    frontiers: Seq<Seq<u64>>,
    data: Seq<u64>,
    line_1: usize,
    line_2: usize,
)
    ensures
        load_count(write_plan(layout, frontiers, data, line_1, line_2)) == 0,
{
    let plan = write_plan(layout, frontiers, data, line_1, line_2);
    lemma_packed_stores_only(frontiers, line_2, layout.nodes());
    assert forall|i: int| 0 <= i < plan.len() implies is_store(#[trigger] plan[i]) by {}
    lemma_stores_load_nothing(plan);
}

/// What is to be done with the lines in a round.
pub fn plan_round(
    layout: Layout,
    state: &WrapperState,
    messages: &Vec<(u64, Vec<u64>)>,
    num_data: usize,
    line_1: usize,
    line_2: usize,
) -> (r: Vec<Vec<Access>>)
    requires
        plannable(
            layout,
            frontiers_of(state.frontier@),
            message_views(messages@),
            num_data as nat,
        ),
        line_1 <= CACHE_LINE_SIZE,
        line_2 <= CACHE_LINE_SIZE,
    ensures
        plan_views(r@) == round_plans(
            layout,
            frontiers_of(state.frontier@),
            message_views(messages@),
            num_data as nat,
            line_1,
            line_2,
        ),
        forall|k: int|
            0 <= k < r@.len() ==> load_count((#[trigger] r@[k])@) == round_loads(
                layout,
                messages@.len() == 0,
                num_data as nat,
            ),
{
    let ghost frontiers = frontiers_of(state.frontier@);
    let ghost views = message_views(messages@);
    let mut r: Vec<Vec<Access>> = Vec::new();
    if messages.len() == 0 {
        let frame = frame_idle(layout, state, num_data);
        r.push(fpga_communication(layout, &frame, num_data, line_1, line_2));
        assert(plan_views(r@) =~= round_plans(
            layout,
            frontiers,
            views,
            num_data as nat,
            line_1,
            line_2,
        ));
        return r;
    }
    let mut i: usize = 0;
    while i < messages.len()
        invariant
            i <= messages@.len(),
            0 < messages@.len(),
            frontiers == frontiers_of(state.frontier@),
            views == message_views(messages@),
            plannable(layout, frontiers, views, num_data as nat),
            line_1 <= CACHE_LINE_SIZE,
            line_2 <= CACHE_LINE_SIZE,
            r@.len() == i,
            forall|k: int|
                0 <= k < i ==> (#[trigger] r@[k])@ == message_plan(
                    layout,
                    frontiers,
                    views[k].1,
                    line_1,
                    line_2,
                ) && load_count(r@[k]@) == round_loads(layout, false, num_data as nat),
        decreases messages@.len() - i,
    {
        assert(views[i as int].1 == messages@[i as int].1@);
        let mut plan = write_data(layout, &state.frontier, &messages[i].1, line_1, line_2);
        let mut read = plan_read(layout, line_1, line_2);
        let ghost written = plan@;
        let ghost asked = read@;
        plan.append(&mut read);
        proof {
            lemma_write_loads(layout, frontiers, views[i as int].1, line_1, line_2);
            lemma_load_count_join(written, asked);
            assert(plan@ =~= message_plan(layout, frontiers, views[i as int].1, line_1, line_2));
        }
        r.push(plan);
        i += 1;
    }
    assert(plan_views(r@) =~= round_plans(
        layout,
        frontiers,
        views,
        num_data as nat,
        line_1,
        line_2,
    ));
    r
}

/// Progress information with what the answers to the first `n` messages report.
pub open spec fn round_reported(
    layout: Layout,
    p: ProgressContents<u64>,
    ghosts: Seq<(usize, usize)>,
    messages: Seq<(u64, Seq<u64>)>,
    answers: Seq<Seq<u64>>,
    n: nat,
) -> ProgressContents<u64>
    decreases n,
{
    if n == 0 {
        p
    } else {
        all_reported(
            round_reported(layout, p, ghosts, messages, answers, (n - 1) as nat),
            ghosts,
            messages[n - 1].0,
            groups_from(answers[n - 1], CACHE_LINE_SIZE as nat, layout.nodes()),
            layout.nodes(),
        )
    }
}

/// What is to be sent on for each message: the data of its answer, at its time.
pub open spec fn round_sessions(messages: Seq<(u64, Seq<u64>)>, answers: Seq<Seq<u64>>) -> Seq<
    (u64, Seq<u64>),
> {
    Seq::new(
        messages.len(),
        |k: int| (messages[k].0, all_decoded(answers[k].take(CACHE_LINE_SIZE as int))),
    )
}

/// Passes on what was read in a round, and returns what is to be sent on.
pub fn collect_round(
    layout: Layout,
    progress: &mut SharedProgress<u64>,
    ghosts: &Vec<(usize, usize)>,
    messages: &Vec<(u64, Vec<u64>)>,
    answers: &Vec<Vec<u64>>,
    num_data: usize,
) -> (r: Vec<(u64, Vec<u64>)>)
    requires
        has_places(old(progress)@, ghosts@),
        0 < ghosts@.len(),
        messages@.len() == 0 ==> answers@.len() == 1 && 4 * ghosts@.len()
            <= layout.progress_length(),
        messages@.len() > 0 ==> answers@.len() == messages@.len() && layout.nodes()
            <= ghosts@.len(),
        forall|k: int|
            0 <= k < answers@.len() ==> (#[trigger] answers@[k])@.len() == round_loads(
                layout,
                messages@.len() == 0,
                num_data as nat,
            ),
    ensures
        has_places(final(progress)@, ghosts@),
        messages@.len() == 0 ==> {
            let answer = idle_answer(answers@[0]@, num_data as nat);
            &&& final(progress)@ == idle_progress(
                old(progress)@,
                ghosts@,
                answer,
                num_data as nat,
            )
            &&& message_views(r@) == (match idle_session(answer, num_data as nat, ghosts@.len()) {
                Some(session) => seq![session],
                None => Seq::empty(),
            })
        },
        messages@.len() > 0 ==> {
            &&& final(progress)@ == round_reported(
                layout,
                old(progress)@,
                ghosts@,
                message_views(messages@),
                word_views(answers@),
                messages@.len(),
            )
            &&& message_views(r@) == round_sessions(
                message_views(messages@),
                word_views(answers@),
            )
        },
{
    let ghost views = message_views(messages@);
    let ghost words = word_views(answers@);
    let ghost start = progress@;
    let mut r: Vec<(u64, Vec<u64>)> = Vec::new();
    if messages.len() == 0 {
        assert(answers@[0]@.len() == round_loads(layout, true, num_data as nat));
        let answer = run(layout, &answers[0], num_data);
        let session = collect_idle(progress, ghosts, &answer, num_data);
        match session {
            Some(session) => {
                r.push(session);
                assert(message_views(r@) =~= seq![(session.0, session.1@)]);
            },
            None => {
                assert(message_views(r@) =~= Seq::empty());
            },
        }
        return r;
    }
    let mut i: usize = 0;
    while i < messages.len()
        invariant
            i <= messages@.len(),
            0 < messages@.len() == answers@.len(),
            layout.nodes() <= ghosts@.len(),
            has_places(progress@, ghosts@),
            views == message_views(messages@),
            words == word_views(answers@),
            forall|k: int|
                0 <= k < answers@.len() ==> (#[trigger] answers@[k])@.len() == round_loads(
                    layout,
                    false,
                    num_data as nat,
                ),
            progress@ == round_reported(layout, start, ghosts@, views, words, i as nat),
            r@.len() == i,
            forall|k: int|
                0 <= k < i ==> (#[trigger] r@[k]).0 == views[k].0 && r@[k].1@ == all_decoded(
                    words[k].take(CACHE_LINE_SIZE as int),
                ),
        decreases messages@.len() - i,
    {
        let time: u64 = messages[i].0;
        assert(views[i as int].0 == time);
        assert(words[i as int] == answers@[i as int]@);
        let data = read_data(layout, progress, time, ghosts, &answers[i]);
        assert(words[i as int].subrange(0, CACHE_LINE_SIZE as int) =~= words[i as int].take(
            CACHE_LINE_SIZE as int,
        ));
        r.push((time, data));
        i += 1;
    }
    assert(message_views(r@) =~= round_sessions(views, words));
    r
}

/// Words for frontiers that the emulated device expects.
pub open spec fn emulated_frontiers(num_operators: nat) -> nat {
    num_operators / 16 + 16
}

/// Words of reports in the answer of the emulated device.
pub open spec fn emulated_reports(num_operators: nat) -> nat {
    (num_operators * 4) / 16 + 16
}

/// The words of a frame that hold data.
pub open spec fn emulated_data(input: Seq<u64>, num_data: nat, num_operators: nat) -> Seq<u64> {
    let from = emulated_frontiers(num_operators);
    if num_data == 0 {
        Seq::empty()
    } else {
        input.subrange(from as int, (from + num_data) as int)
    }
}

/// Whether the emulated device accepts a frame: frontiers and reports have room, the words of
/// the frontiers are all the same, each word stands for a value or for the lack of one, and no
/// word that is read is missing.
pub open spec fn acceptable(input: Seq<u64>, num_data: nat, num_operators: nat) -> bool {
    let from = emulated_frontiers(num_operators);
    &&& 0 < input.len()
    &&& num_operators <= input.len()
    &&& num_data > 0 ==> from + num_data <= input.len()
    &&& num_operators <= from
    &&& 4 * num_operators <= emulated_reports(num_operators)
    &&& num_data + emulated_reports(num_operators) <= usize::MAX
    &&& forall|i: int|
        0 <= i < num_operators ==> is_word(#[trigger] input[i]) && input[i] == input[0]
    &&& forall|i: int| from <= i < from + num_data ==> is_word(#[trigger] input[i])
}

/// Whether the emulated device accepts a frame.
pub fn check_input(input_arr: &Vec<u64>, num_data: usize, num_operators: usize) -> (r: bool)
    ensures
        r == acceptable(input_arr@, num_data as nat, num_operators as nat),
{
    if num_operators > 32 || input_arr.len() == 0 || num_operators > input_arr.len() {
        return false;
    }
    let from: usize = num_operators / 16 + 16;
    let reports: usize = (num_operators * 4) / 16 + 16;
    if num_data > 0 && (from > input_arr.len() || num_data > input_arr.len() - from) {
        return false;
    }
    if num_data > usize::MAX - reports || num_operators > from || 4 * num_operators > reports {
        return false;
    }
    let mut i: usize = 0;
    while i < num_operators
        invariant
            i <= num_operators <= input_arr@.len(),
            0 < input_arr@.len(),
            forall|k: int|
                0 <= k < i ==> is_word(#[trigger] input_arr@[k]) && input_arr@[k] == input_arr@[0],
        decreases num_operators - i,
    {
        if !(input_arr[i] == 0 || input_arr[i] % 2 == 1) || input_arr[i] != input_arr[0] {
            assert(!(is_word(input_arr@[i as int]) && input_arr@[i as int] == input_arr@[0]));
            return false;
        }
        i += 1;
    }
    let mut j: usize = 0;
    while j < num_data
        invariant
            j <= num_data,
            num_data > 0 ==> from + num_data <= input_arr@.len(),
            input_arr@.len() <= usize::MAX,
            from == emulated_frontiers(num_operators as nat),
            forall|k: int| from <= k < from + j ==> is_word(#[trigger] input_arr@[k]),
        decreases num_data - j,
    {
        let word: u64 = input_arr[from + j];
        if !(word == 0 || word % 2 == 1) {
            assert(!is_word(input_arr@[from + j]));
            return false;
        }
        j += 1;
    }
    true
}

/// The answer of a device that filters, worked out on the host.
pub fn generate_fpga_output(input_arr: &Vec<u64>, num_data: usize, num_operators: usize) -> (r: Vec<
    u64,
>)
    requires
        acceptable(input_arr@, num_data as nat, num_operators as nat),
    ensures
        r@ == emulated(
            emulated_data(input_arr@, num_data as nat, num_operators as nat),
            num_operators as nat,
            num_data as nat + emulated_reports(num_operators as nat),
        ),
{
    let frontier_length: usize = num_operators / 16 + 16;
    let progress_length: usize = (num_operators * 4) / 16 + 16;
    assert(input_arr.len() == input_arr@.len());
    if num_data == 0 {
        assert(input_arr@.subrange(0, 0) =~= Seq::<u64>::empty());
        return emulate(input_arr, 0, 0, num_operators, progress_length);
    }
    emulate(
        input_arr,
        frontier_length,
        frontier_length + num_data,
        num_operators,
        num_data + progress_length,
    )
}

/// Running operators on the device.
pub trait FpgaWrapperECI<TOuter: Timestamp, TInner: Refines<TOuter>>: Host<TOuter, TInner> {
    /// Puts the operators on the device, and the operator that stands for them, into a scope, behind
    /// `stream`.
    fn fpga_wrapper_eci(
        &mut self,
        stream: Source,
        num_operators: usize,
        identifiers: &Vec<usize>,
        peers: usize,
    ) -> (r: (Registered, WrapperState))
        requires
            old(self).scope().child_count + num_operators + 1 <= usize::MAX,
            num_operators + 1 <= identifiers@.len(),
        ensures
            registered_with(
                &old(self).scope(),
                &final(self).scope(),
                &r.0,
                stream,
                name_list("Filter"@, num_operators as nat),
                identifiers@,
                peers,
                false,
            ),
            old(self).scope().wf() ==> final(self).scope().wf(),
            old(self).scope().is_dense() ==> final(self).scope().is_dense(),
            r.1.wf(),
            r.1.ghost_indexes@ == numbered(r.0.ghosts@),
            r.1.is_fresh(),
    ;
}

impl<TOuter: Timestamp, TInner: Refines<TOuter>> FpgaWrapperECI<TOuter, TInner> for SubgraphBuilder<
    TOuter,
    TInner,
> {
    fn fpga_wrapper_eci(
        &mut self,
        stream: Source,
        num_operators: usize,
        identifiers: &Vec<usize>,
        peers: usize,
    ) -> (r: (Registered, WrapperState)) {
        register_filters(self, stream, num_operators, identifiers, peers)
    }
}

/// The words of the two lines.
pub const AREA: usize = 32;

/// Frontiers that are packed into a line stay in it.
proof fn lemma_packed_in_area(frontiers: Seq<Seq<u64>>, line: usize, to: nat)
    requires
        16 <= to <= 32,
        line <= CACHE_LINE_SIZE,
    ensures
        in_area(packed_stores(frontiers, line, 16, to), AREA as nat),
    decreases to,
{
    if to > 16 {
        lemma_packed_in_area(frontiers, line, (to - 1) as nat);
        lemma_filled(frontiers, 16, (to - 1) as nat);
    }
}

/// Sending a message touches the two lines alone.
pub proof fn law_write_in_lines(
    layout: Layout,
    frontiers: Seq<Seq<u64>>,
    data: Seq<u64>,
    line_1: usize,
    line_2: usize,
)
    requires
        line_1 <= CACHE_LINE_SIZE,
        line_2 <= CACHE_LINE_SIZE,
        data.len() == 0 || data.len() >= CACHE_LINE_SIZE,
    ensures
        in_area(write_plan(layout, frontiers, data, line_1, line_2), AREA as nat),
{
    let first = frontier_stores(frontiers, line_1, layout.first_count());
    assert(in_area(first, AREA as nat));
    lemma_in_area_lines(line_1, line_words(data), 0, AREA as nat);
    lemma_in_area_lines(line_2, line_words(data), 0, AREA as nat);
    if layout.is_wide() {
        let packed = packed_stores(frontiers, line_2, 16, layout.nodes());
        lemma_packed_in_area(frontiers, line_2, layout.nodes());
        lemma_filled(frontiers, 16, 20);
        let rest = if layout is Twenty {
            stores((line_2 + filled(frontiers, 16, 20)) as usize, zeros(12))
        } else {
            Seq::empty()
        };
        lemma_in_area_lines(
            (line_2 + filled(frontiers, 16, 20)) as usize,
            zeros(12),
            0,
            AREA as nat,
        );
        lemma_in_area_join(packed, rest, AREA as nat);
        lemma_in_area_join(
            first.push(Access::Fence),
            (packed + rest).push(Access::Fence),
            AREA as nat,
        );
        lemma_in_area_join(
            first.push(Access::Fence) + (packed + rest).push(Access::Fence),
            fenced_stores(line_1, line_words(data)),
            AREA as nat,
        );
    } else {
        let at = (line_1 + layout.first_count()) as usize;
        let blank = zeros((16 - layout.first_count()) as nat);
        lemma_in_area_lines(at, blank, 0, AREA as nat);
        lemma_in_area_join(first, stores(at, blank), AREA as nat);
        lemma_in_area_join(
            (first + stores(at, blank)).push(Access::Fence),
            fenced_stores(line_2, line_words(data)),
            AREA as nat,
        );
    }
}

proof fn lemma_reports_in_area(layout: Layout, line_1: usize, line_2: usize, n: nat)
    requires
        line_1 <= CACHE_LINE_SIZE,
        line_2 <= CACHE_LINE_SIZE,
    ensures
        in_area(report_loads(layout, line_1, line_2, n), AREA as nat),
        in_area(summary_plan(layout, line_1, line_2, n), AREA as nat),
    decreases n,
{
    if n > 0 {
        let k = (n - 1) as nat;
        let line = report_line(layout, line_1, line_2, k);
        lemma_reports_in_area(layout, line_1, line_2, k);
        lemma_in_area_lines(line, Seq::empty(), report_words(layout, k), AREA as nat);
        lemma_in_area_lines(line, Seq::empty(), CACHE_LINE_SIZE as nat, AREA as nat);
        lemma_in_area_join(
            report_loads(layout, line_1, line_2, k),
            fenced_loads(line, report_words(layout, k)),
            AREA as nat,
        );
        lemma_in_area_join(
            summary_plan(layout, line_1, line_2, k),
            fenced_loads(line, CACHE_LINE_SIZE as nat),
            AREA as nat,
        );
    }
}

/// Reading the answer to a message touches the two lines alone.
pub proof fn law_read_in_lines(layout: Layout, line_1: usize, line_2: usize)
    requires
        line_1 <= CACHE_LINE_SIZE,
        line_2 <= CACHE_LINE_SIZE,
    ensures
        in_area(read_plan(layout, line_1, line_2), AREA as nat),
{
    let line = answer_line(layout, line_1, line_2);
    lemma_in_area_lines(line, Seq::empty(), CACHE_LINE_SIZE as nat, AREA as nat);
    lemma_reports_in_area(layout, line_1, line_2, report_parts(layout));
    lemma_in_area_join(
        fenced_loads(line, CACHE_LINE_SIZE as nat),
        report_loads(layout, line_1, line_2, report_parts(layout)),
        AREA as nat,
    );
}

proof fn lemma_batches_in_area(
    layout: Layout,
    data: Seq<u64>,
    line_1: usize,
    line_2: usize,
    n: nat,
)
    requires
        line_1 <= CACHE_LINE_SIZE,
        line_2 <= CACHE_LINE_SIZE,
        16 * n <= data.len(),
    ensures
        in_area(batch_plan(layout, data, line_1, line_2, n), AREA as nat),
    decreases n,
{
    if n > 0 {
        let k = (n - 1) as nat;
        let (out, back) = if layout.is_wide() {
            (line_1, line_2)
        } else {
            (line_2, line_1)
        };
        let part = data.subrange(16 * (n - 1), 16 * n as int);
        lemma_batches_in_area(layout, data, line_1, line_2, k);
        lemma_in_area_lines(out, part, 0, AREA as nat);
        lemma_in_area_lines(back, Seq::empty(), CACHE_LINE_SIZE as nat, AREA as nat);
        lemma_in_area_join(
            fenced_stores(out, part),
            fenced_loads(back, CACHE_LINE_SIZE as nat),
            AREA as nat,
        );
        lemma_in_area_join(
            batch_plan(layout, data, line_1, line_2, k),
            fenced_stores(out, part) + fenced_loads(back, CACHE_LINE_SIZE as nat),
            AREA as nat,
        );
    }
}

/// A round without messages touches the two lines alone.
pub proof fn law_communication_in_lines(
    layout: Layout,
    frame: Seq<u64>,
    num_data: nat,
    line_1: usize,
    line_2: usize,
)
    requires
        frame.len() == num_data + layout.frontier_length(),
        line_1 <= CACHE_LINE_SIZE,
        line_2 <= CACHE_LINE_SIZE,
    ensures
        in_area(communication_plan(layout, frame, num_data, line_1, line_2), AREA as nat),
{
    let data = frame.skip(layout.frontier_length() as int);
    let head = idle_frontiers(layout, frame, line_1, line_2);
    let body = batch_plan(layout, data, line_1, line_2, num_data / 16);
    let tail = summary_plan(layout, line_1, line_2, layout.progress_length() / 16);
    lemma_in_area_lines(line_1, frame.subrange(0, 16), 0, AREA as nat);
    if layout.is_wide() {
        lemma_in_area_lines(line_2, frame.subrange(16, 32), 0, AREA as nat);
        lemma_in_area_join(
            fenced_stores(line_1, frame.subrange(0, 16)),
            fenced_stores(line_2, frame.subrange(16, 32)),
            AREA as nat,
        );
    }
    lemma_batches_in_area(layout, data, line_1, line_2, num_data / 16);
    lemma_reports_in_area(layout, line_1, line_2, layout.progress_length() / 16);
    lemma_in_area_join(head, body, AREA as nat);
    lemma_in_area_join(head + body, tail, AREA as nat);
}

/// Whatever a round has to do, it touches the two lines alone.
pub proof fn law_round_in_lines(
    layout: Layout,
    frontiers: Seq<Seq<u64>>,
    messages: Seq<(u64, Seq<u64>)>,
    num_data: nat,
    line_1: usize,
    line_2: usize,
    k: int,
)
    requires
        plannable(layout, frontiers, messages, num_data),
        line_1 <= CACHE_LINE_SIZE,
        line_2 <= CACHE_LINE_SIZE,
        0 <= k < round_plans(layout, frontiers, messages, num_data, line_1, line_2).len(),
    ensures
        in_area(
            round_plans(layout, frontiers, messages, num_data, line_1, line_2)[k],
            AREA as nat,
        ),
{
    if messages.len() == 0 {
        law_communication_in_lines(
            layout,
            idle_frame(layout, frontiers, num_data),
            num_data,
            line_1,
            line_2,
        );
    } else {
        let data = messages[k].1;
        law_write_in_lines(layout, frontiers, data, line_1, line_2);
        law_read_in_lines(layout, line_1, line_2);
        lemma_in_area_join(
            write_plan(layout, frontiers, data, line_1, line_2),
            read_plan(layout, line_1, line_2),
            AREA as nat,
        );
    }
}

/// A line of data that a device hands back as it is holds the data that was sent, where each
/// value has its highest bit clear.
pub proof fn law_line_round_trip(data: Seq<u64>)
    requires
        data.len() == 0 || data.len() >= CACHE_LINE_SIZE,
        forall|i: int| 0 <= i < data.len() ==> #[trigger] data[i] < 0x8000_0000_0000_0000,
    ensures
        all_decoded(line_words(data)) == (if data.len() == 0 {
            data
        } else {
            data.take(CACHE_LINE_SIZE as int)
        }),
{
    let sent = if data.len() == 0 {
        data
    } else {
        data.take(CACHE_LINE_SIZE as int)
    };
    assert forall|i: int| 0 <= i < sent.len() implies #[trigger] sent[i]
        < 0x8000_0000_0000_0000 by {
        assert(sent[i] == data[i]);
    }
    law_data_round_trip(sent, CACHE_LINE_SIZE as nat);
    assert(padded(data_words(sent), CACHE_LINE_SIZE as nat) =~= line_words(data));
}

/// The sizes of each layout. In a round without messages, frontiers and reports take whole lines:
/// one word for each frontier and four for each report.
pub proof fn law_layout_sizes(layout: Layout)
    ensures
        layout.nodes() == (match layout {
            Layout::One => 1nat,
            Layout::Four => 4,
            Layout::Fifteen => 15,
            Layout::Sixteen => 16,
            Layout::Twenty => 20,
            Layout::ThirtyTwo => 32,
        }),
        layout.is_wide() <==> layout.nodes() > 16,
        layout.first_count() == (if layout.nodes() == 4 || layout.nodes() == 15 {
            layout.nodes()
        } else {
            16
        }),
        layout.alternates() <==> 4 < layout.nodes() < 32,
        layout.nodes() > 1 ==> layout.frontier_length() == 16 * ((layout.nodes() + 15) / 16),
        layout.nodes() > 1 ==> layout.progress_length() == 16 * ((4 * layout.nodes() + 15) / 16),
        layout.nodes() == 1 ==> layout.progress_length() == 0,
{
}

/// Where the words of reports come from, up to part `n`.
proof fn lemma_reports_slots(layout: Layout, line_1: usize, line_2: usize, n: nat, m: int)
    requires
        line_1 <= CACHE_LINE_SIZE,
        line_2 <= CACHE_LINE_SIZE,
    ensures
        loaded_slots(report_loads(layout, line_1, line_2, n)).len() == (if 4 * n
            <= layout.nodes() {
            16 * n
        } else {
            4 * layout.nodes()
        }),
        0 <= m < loaded_slots(report_loads(layout, line_1, line_2, n)).len() ==> loaded_slots(
            report_loads(layout, line_1, line_2, n),
        )[m] == m % 16 + (if ((m / 16) % 2 == 0) == (layout.nodes() > 16) {
            line_1
        } else {
            line_2
        }),
        memory_after(Map::<int, u64>::empty(), report_loads(layout, line_1, line_2, n)) == Map::<
            int,
            u64,
        >::empty(),
    decreases n,
{
    let none = Map::<int, u64>::empty();
    if n > 0 {
        let k = (n - 1) as nat;
        lemma_reports_slots(layout, line_1, line_2, k, m);
        let before = report_loads(layout, line_1, line_2, k);
        let line = report_line(layout, line_1, line_2, k);
        let words = report_words(layout, k);
        lemma_plans_join(none, before, fenced_loads(line, words));
        law_loads_read(none, line, words);
        let had = loaded_slots(before).len();
        if had <= m < had + words {
            assert(loaded_slots(fenced_loads(line, words))[m - had] == line + (m - had));
            assert(had == 16 * k);
            assert(m / 16 == k);
            assert(m % 16 == m - had);
        }
    }
}

proof fn lemma_answer_slot(layout: Layout, line_1: usize, line_2: usize, j: int)
    requires
        line_1 <= CACHE_LINE_SIZE,
        line_2 <= CACHE_LINE_SIZE,
    ensures
        loaded_slots(read_plan(layout, line_1, line_2)).len() == 16 + 4 * layout.nodes(),
        0 <= j < 16 + 4 * layout.nodes() ==> loaded_slots(read_plan(layout, line_1, line_2))[j] == j
            % 16 + (if ((j / 16) % 2 == 0) == (layout.nodes() > 16) {
            line_2
        } else {
            line_1
        }),
{
    let none = Map::<int, u64>::empty();
    let head_line = answer_line(layout, line_1, line_2);
    let head = fenced_loads(head_line, CACHE_LINE_SIZE as nat);
    let parts = report_parts(layout);
    let rest = report_loads(layout, line_1, line_2, parts);
    lemma_plans_join(none, head, rest);
    law_loads_read(none, head_line, CACHE_LINE_SIZE as nat);
    lemma_reports_slots(layout, line_1, line_2, parts, j - 16);
    let slots = loaded_slots(head + rest);
    assert(slots.len() == 16 + 4 * layout.nodes());
    if 0 <= j < 16 {
        assert(slots[j] == loaded_slots(head)[j]);
        assert(j / 16 == 0 && j % 16 == j);
    } else if 16 <= j < slots.len() {
        assert(slots[j] == loaded_slots(rest)[j - 16]);
        assert((j - 16) / 16 == j / 16 - 1);
        assert((j - 16) % 16 == j % 16);
    }
}

/// The two lines take turns in an answer: word `j` of it comes from the line that data came from
/// if it is in a line of words with an even number, and from the other line if not. So no line is
/// read twice in a row, where the lines differ.
pub proof fn law_lines_take_turns(layout: Layout, line_1: usize, line_2: usize, j: int)
    requires
        line_1 <= CACHE_LINE_SIZE,
        line_2 <= CACHE_LINE_SIZE,
    ensures
        ({
            let slots = loaded_slots(read_plan(layout, line_1, line_2));
            let (data_line, other_line) = if layout.nodes() > 16 {
                (line_2, line_1)
            } else {
                (line_1, line_2)
            };
            &&& slots.len() == 16 + 4 * layout.nodes()
            &&& 0 <= j < slots.len() ==> slots[j] == j % 16 + (if (j / 16) % 2 == 0 {
                data_line
            } else {
                other_line
            })
            &&& line_1 != line_2 && 0 <= j && j + 16 < slots.len() ==> slots[j] != slots[j + 16]
        }),
{
    lemma_answer_slot(layout, line_1, line_2, j);
    lemma_answer_slot(layout, line_1, line_2, j + 16);
    assert((j + 16) / 16 == j / 16 + 1);
}

/// In an answer each line read is fenced off from the next.
pub proof fn law_answer_fenced(layout: Layout, line_1: usize, line_2: usize)
    requires
        line_1 == 0 || line_1 == CACHE_LINE_SIZE,
        line_2 == 0 || line_2 == CACHE_LINE_SIZE,
    ensures
        is_fenced(read_plan(layout, line_1, line_2)),
        read_plan(layout, line_1, line_2).last() == Access::Fence,
{
    let head_line = answer_line(layout, line_1, line_2);
    let parts = report_parts(layout);
    lemma_reports_fenced(layout, line_1, line_2, parts);
    lemma_fenced_lines(head_line, Seq::empty(), CACHE_LINE_SIZE as nat);
    lemma_fenced_join(
        fenced_loads(head_line, CACHE_LINE_SIZE as nat),
        report_loads(layout, line_1, line_2, parts),
    );
    assert(report_loads(layout, line_1, line_2, parts).len() > 0);
}

proof fn lemma_reports_fenced(layout: Layout, line_1: usize, line_2: usize, n: nat)
    requires
        line_1 <= CACHE_LINE_SIZE,
        line_2 <= CACHE_LINE_SIZE,
        line_1 % 16 == 0,
        line_2 % 16 == 0,
    ensures
        is_fenced(report_loads(layout, line_1, line_2, n)),
        n > 0 ==> report_loads(layout, line_1, line_2, n).last() == Access::Fence,
        is_fenced(summary_plan(layout, line_1, line_2, n)),
        n > 0 ==> summary_plan(layout, line_1, line_2, n).last() == Access::Fence,
    decreases n,
{
    if n > 0 {
        let k = (n - 1) as nat;
        lemma_reports_fenced(layout, line_1, line_2, k);
        let line = report_line(layout, line_1, line_2, k);
        lemma_fenced_lines(line, Seq::empty(), report_words(layout, k));
        lemma_fenced_lines(line, Seq::empty(), CACHE_LINE_SIZE as nat);
        lemma_fenced_join(
            report_loads(layout, line_1, line_2, k),
            fenced_loads(line, report_words(layout, k)),
        );
        lemma_fenced_join(
            summary_plan(layout, line_1, line_2, k),
            fenced_loads(line, CACHE_LINE_SIZE as nat),
        );
    }
}

/// What the stores of frontiers leave in a line.
proof fn lemma_frontier_memory(
    memory: Map<int, u64>,
    frontiers: Seq<Seq<u64>>,
    line: usize,
    n: nat,
    slot: int,
)
    requires
        n <= frontiers.len(),
        line + n <= usize::MAX,
    ensures
        ({
            let after = memory_after(memory, frontier_stores(frontiers, line, n));
            let i = slot - line;
            &&& 1 <= i < n && frontiers[i].len() > 0 ==> after[slot] == encoded(frontiers[i][0])
            &&& 1 <= i < n && frontiers[i].len() == 0 ==> after[slot] == memory[slot]
            &&& i == 0 && n > 0 && (exists|j: int|
                0 <= j < n && (#[trigger] frontiers[j]).len() == 0) ==> after[slot] == 0
            &&& i == 0 && n > 0 && (forall|j: int|
                0 <= j < n ==> (#[trigger] frontiers[j]).len() > 0) ==> after[slot] == encoded(
                frontiers[0][0],
            )
            &&& !(0 <= i < n) ==> after[slot] == memory[slot]
        }),
    decreases n,
{
    if n > 0 {
        let k = (n - 1) as nat;
        let all = frontier_stores(frontiers, line, n);
        lemma_frontier_memory(memory, frontiers, line, k, slot);
        assert(all.drop_last() =~= frontier_stores(frontiers, line, k));
        assert(all.last() == frontier_store(frontiers[k as int], line, k as int));
        assert(frontiers[k as int] == frontiers[n - 1]);
        let i = slot - line;
        if i == 0 {
            if exists|j: int| 0 <= j < n && (#[trigger] frontiers[j]).len() == 0 {
                let j = choose|j: int| 0 <= j < n && (#[trigger] frontiers[j]).len() == 0;
                if frontiers[n - 1].len() > 0 {
                    assert(0 <= j < k && frontiers[j].len() == 0);
                }
            }
        }
    }
}

/// The words of data in a line.
proof fn lemma_line_word(data: Seq<u64>, i: int)
    requires
        data.len() == 0 || data.len() >= CACHE_LINE_SIZE,
        0 <= i < 16,
        data.len() > 0 ==> data[i] < 0x8000_0000_0000_0000,
    ensures
        line_words(data).len() == 16,
        line_words(data)[i] == (if data.len() == 0 {
            0
        } else {
            2 * data[i] + 1
        }),
{
    if data.len() > 0 {
        law_word_arithmetic(data[i], 0);
    }
}

/// What a message leaves in the lines of a device with up to sixteen operators: in the first the
/// least times of the frontiers, each at the index of its operator, and zeros behind them; in the
/// second the records, each as twice its value and one more, or zeros where there is none. The
/// first word of the first line is zero where one of the frontiers is empty.
pub proof fn law_narrow_message_written(
    layout: Layout,
    frontiers: Seq<Seq<u64>>,
    data: Seq<u64>,
    line_1: usize,
    line_2: usize,
    memory: Map<int, u64>,
    i: int,
)
    requires
        layout.nodes() <= 16,
        layout.first_count() <= frontiers.len(),
        data.len() == 0 || data.len() >= 16,
        line_1 == 0 && line_2 == 16 || line_1 == 16 && line_2 == 0,
        0 <= i < 16,
        data.len() > 0 ==> data[i] < 0x8000_0000_0000_0000,
        i < layout.first_count() && frontiers[i].len() > 0 ==> frontiers[i][0]
            < 0x8000_0000_0000_0000,
    ensures
        ({
            let after = memory_after(
                memory,
                write_plan(layout, frontiers, data, line_1, line_2),
            );
            &&& after[line_2 + i] == (if data.len() == 0 {
                0
            } else {
                2 * data[i] + 1
            })
            &&& i >= layout.first_count() ==> after[line_1 + i] == 0
            &&& 0 < i < layout.first_count() && frontiers[i].len() > 0 ==> after[line_1 + i] == 2
                * frontiers[i][0] + 1
            &&& 0 < i < layout.first_count() && frontiers[i].len() == 0 ==> after[line_1 + i]
                == memory[line_1 + i]
            &&& i == 0 && (forall|j: int|
                0 <= j < layout.first_count() ==> (#[trigger] frontiers[j]).len() > 0)
                ==> after[line_1 + i] == 2 * frontiers[0][0] + 1
            &&& i == 0 && (exists|j: int|
                0 <= j < layout.first_count() && (#[trigger] frontiers[j]).len() == 0)
                ==> after[line_1 + i] == 0
        }),
{
    let n = layout.first_count();
    let first = frontier_stores(frontiers, line_1, n);
    let rest = stores((line_1 + n) as usize, zeros((16 - n) as nat));
    let data_part = fenced_stores(line_2, line_words(data));
    let m1 = memory_after(memory, first);
    let m2 = memory_after(m1, rest);
    lemma_line_word(data, i);
    lemma_plans_join(memory, (first + rest).push(Access::Fence), data_part);
    lemma_fence(memory, first + rest);
    lemma_plans_join(memory, first, rest);
    law_stores_write(m2, line_2, line_words(data), line_2 + i);
    law_stores_write(m2, line_2, line_words(data), line_1 + i);
    law_stores_write(m1, (line_1 + n) as usize, zeros((16 - n) as nat), line_1 + i);
    lemma_frontier_memory(memory, frontiers, line_1, n, line_1 + i);
    if i < n && frontiers[i].len() > 0 {
        law_word_arithmetic(frontiers[i][0], 0);
    }
}

/// How many of the frontiers from the seventeenth on, up to number `to`, are not empty.
pub open spec fn held_before(frontiers: Seq<Seq<u64>>, to: int) -> int {
    frontiers.subrange(16, to).filter(|f: Seq<u64>| f.len() > 0).len() as int
}

proof fn lemma_filled_is(frontiers: Seq<Seq<u64>>, to: nat)
    requires
        16 <= to <= frontiers.len(),
    ensures
        filled(frontiers, 16, to) == held_before(frontiers, to as int),
    decreases to,
{
    reveal(Seq::filter);
    if to > 16 {
        lemma_filled_is(frontiers, (to - 1) as nat);
        let all = frontiers.subrange(16, to as int);
        assert(all.drop_last() =~= frontiers.subrange(16, to - 1));
        assert(all.last() == frontiers[to - 1]);
    }
}

/// What the stores of packed frontiers leave in a line.
proof fn lemma_packed_memory(
    memory: Map<int, u64>,
    frontiers: Seq<Seq<u64>>,
    line: usize,
    to: nat,
    i: int,
    slot: int,
)
    requires
        16 <= to <= frontiers.len(),
        line + to <= usize::MAX,
    ensures
        ({
            let after = memory_after(memory, packed_stores(frontiers, line, 16, to));
            &&& 16 <= i < to && frontiers[i].len() > 0 ==> {
                &&& filled(frontiers, 16, i as nat) < filled(frontiers, 16, to)
                &&& after[line + filled(frontiers, 16, i as nat)] == encoded(frontiers[i][0])
            }
            &&& 16 <= i < to && (forall|j: int|
                i <= j < to ==> (#[trigger] frontiers[j]).len() == 0) ==> {
                &&& filled(frontiers, 16, i as nat) == filled(frontiers, 16, to)
                &&& after[line + filled(frontiers, 16, i as nat)] == 0
            }
            &&& !(line <= slot < line + (to - 16)) ==> after[slot] == memory[slot]
        }),
    decreases to,
{
    if to > 16 {
        let k = (to - 1) as nat;
        lemma_packed_memory(memory, frontiers, line, k, i, slot);
        assert(frontiers[to - 1] == frontiers[k as int]);
        lemma_filled(frontiers, 16, k);
        let all = packed_stores(frontiers, line, 16, to);
        assert(all.drop_last() =~= packed_stores(frontiers, line, 16, k));
    }
}

/// What a message leaves in the lines of a device with more than sixteen operators: in the first
/// line the records; in the second the least times of the frontiers from the seventeenth on, one
/// behind the other, without those of empty frontiers. Before the records, the first line held the
/// least times of the first sixteen frontiers.
pub proof fn law_wide_message_written(
    layout: Layout,
    frontiers: Seq<Seq<u64>>,
    data: Seq<u64>,
    line_1: usize,
    line_2: usize,
    memory: Map<int, u64>,
    i: int,
)
    requires
        layout.nodes() > 16,
        layout.nodes() <= frontiers.len(),
        data.len() == 0 || data.len() >= 16,
        line_1 == 0 && line_2 == 16 || line_1 == 16 && line_2 == 0,
        0 <= i < layout.nodes(),
        i < 16 && data.len() > 0 ==> data[i] < 0x8000_0000_0000_0000,
        frontiers[i].len() > 0 ==> frontiers[i][0] < 0x8000_0000_0000_0000,
    ensures
        ({
            let plan = write_plan(layout, frontiers, data, line_1, line_2);
            let after = memory_after(memory, plan);
            let early = memory_after(memory, plan.take(17));
            &&& i < 16 ==> after[line_1 + i] == (if data.len() == 0 {
                0
            } else {
                2 * data[i] + 1
            })
            &&& i >= 16 && frontiers[i].len() > 0 ==> after[line_2 + held_before(frontiers, i)] == 2
                * frontiers[i][0] + 1
            &&& 0 < i < 16 && frontiers[i].len() > 0 ==> early[line_1 + i] == 2 * frontiers[i][0]
                + 1
            &&& 0 < i < 16 && frontiers[i].len() == 0 ==> early[line_1 + i] == memory[line_1 + i]
            &&& i >= 16 && (forall|j: int|
                i <= j < layout.nodes() ==> (#[trigger] frontiers[j]).len() == 0) ==> after[line_2
                + held_before(frontiers, i)] == 0
            &&& i == 0 && (forall|j: int|
                0 <= j < 16 ==> (#[trigger] frontiers[j]).len() > 0) ==> early[line_1 as int] == 2
                * frontiers[0][0] + 1
            &&& i == 0 && (exists|j: int|
                0 <= j < 16 && (#[trigger] frontiers[j]).len() == 0) ==> early[line_1 as int] == 0
            &&& plan[16] == Access::Fence
            &&& layout is Twenty && i < 12 ==> after[line_2 + held_before(frontiers, 20) + i] == 0
        }),
{
    let first = frontier_stores(frontiers, line_1, 16);
    let head = first.push(Access::Fence);
    let nodes = layout.nodes();
    let packed = packed_stores(frontiers, line_2, 16, nodes);
    let gap = (line_2 + filled(frontiers, 16, 20)) as usize;
    let rest = if layout is Twenty {
        stores(gap, zeros(12))
    } else {
        Seq::empty()
    };
    let middle = (packed + rest).push(Access::Fence);
    let data_part = fenced_stores(line_1, line_words(data));
    let plan = head + middle + data_part;
    let m1 = memory_after(memory, head);
    let m2 = memory_after(m1, packed);
    let m3 = memory_after(m2, rest);
    lemma_fence(memory, first);
    lemma_plans_join(memory, head + middle, data_part);
    lemma_plans_join(memory, head, middle);
    lemma_fence(m1, packed + rest);
    lemma_plans_join(m1, packed, rest);
    assert(plan.take(17) =~= head);
    assert(plan[16] == head[16]);
    lemma_filled(frontiers, 16, nodes);
    lemma_frontier_memory(memory, frontiers, line_1, 16, line_1 + i);
    if frontiers[i].len() > 0 {
        law_word_arithmetic(frontiers[i][0], 0);
    }
    if i < 16 {
        lemma_line_word(data, i);
        law_stores_write(m3, line_1, line_words(data), line_1 + i);
    }
    lemma_line_length(data);
    if i >= 16 && frontiers[i].len() > 0 {
        let slot = line_2 + filled(frontiers, 16, i as nat);
        lemma_filled_is(frontiers, i as nat);
        lemma_filled(frontiers, 16, i as nat);
        lemma_packed_memory(m1, frontiers, line_2, nodes, i, slot);
        if layout is Twenty {
            law_stores_write(m2, gap, zeros(12), slot);
        }
        law_stores_write(m3, line_1, line_words(data), slot);
    }
    if i >= 16 && (forall|j: int|
        i <= j < layout.nodes() ==> (#[trigger] frontiers[j]).len() == 0) {
        let slot = line_2 + filled(frontiers, 16, i as nat);
        lemma_filled_is(frontiers, i as nat);
        lemma_filled(frontiers, 16, i as nat);
        lemma_packed_memory(m1, frontiers, line_2, nodes, i, slot);
        if layout is Twenty {
            law_stores_write(m2, gap, zeros(12), slot);
        }
        law_stores_write(m3, line_1, line_words(data), slot);
    }
    if layout is Twenty && i < 12 {
        lemma_filled_is(frontiers, 20);
        law_stores_write(m2, gap, zeros(12), gap + i);
        law_stores_write(m3, line_1, line_words(data), gap + i);
    }
}

proof fn lemma_line_length(data: Seq<u64>)
    requires
        data.len() == 0 || data.len() >= CACHE_LINE_SIZE,
    ensures
        line_words(data).len() == 16,
{
}

proof fn lemma_packed_slots(frontiers: Seq<Seq<u64>>, line: usize, to: nat)
    requires
        16 <= to <= 32,
        line == 0 || line == 16,
    ensures
        forall|k: int|
            0 <= k < packed_stores(frontiers, line, 16, to).len() ==> {
                let access = #[trigger] packed_stores(frontiers, line, 16, to)[k];
                access is Store && line <= access->Store_slot < line + (to - 16)
            },
    decreases to,
{
    if to > 16 {
        lemma_packed_slots(frontiers, line, (to - 1) as nat);
        lemma_filled(frontiers, 16, (to - 1) as nat);
    }
}

/// Sending a message and reading its answer, each line that is written or read is fenced off from
/// the next.
pub proof fn law_message_fenced(
    layout: Layout,
    frontiers: Seq<Seq<u64>>,
    data: Seq<u64>,
    line_1: usize,
    line_2: usize,
)
    requires
        line_1 == 0 || line_1 == CACHE_LINE_SIZE,
        line_2 == 0 || line_2 == CACHE_LINE_SIZE,
        data.len() == 0 || data.len() >= CACHE_LINE_SIZE,
    ensures
        is_fenced(message_plan(layout, frontiers, data, line_1, line_2)),
        message_plan(layout, frontiers, data, line_1, line_2).last() == Access::Fence,
{
    let n = layout.first_count();
    let first = frontier_stores(frontiers, line_1, n);
    let read = read_plan(layout, line_1, line_2);
    let write = write_plan(layout, frontiers, data, line_1, line_2);
    law_answer_fenced(layout, line_1, line_2);
    lemma_line_length(data);
    lemma_fenced_lines(line_1, line_words(data), 0);
    lemma_fenced_lines(line_2, line_words(data), 0);
    if layout.is_wide() {
        let packed = packed_stores(frontiers, line_2, 16, layout.nodes());
        let rest = if layout is Twenty {
            stores((line_2 + filled(frontiers, 16, 20)) as usize, zeros(12))
        } else {
            Seq::empty()
        };
        let middle = (packed + rest).push(Access::Fence);
        lemma_packed_slots(frontiers, line_2, layout.nodes());
        lemma_filled(frontiers, 16, 20);
        lemma_fenced_line(first.push(Access::Fence), line_1 as int / 16, false);
        assert forall|k: int| 0 <= k < middle.len() && #[trigger] middle[k] != Access::Fence implies {
            &&& line_touched(middle[k]) == line_2 as int / 16
            &&& slots_loaded(middle[k]).len() == 0
        } by {
            if k < packed.len() {
                assert(middle[k] == packed[k]);
            } else if k < packed.len() + rest.len() {
                assert(middle[k] == rest[k - packed.len()]);
            }
        }
        lemma_fenced_line(middle, line_2 as int / 16, false);
        lemma_fenced_join(first.push(Access::Fence), middle);
        lemma_fenced_join(
            first.push(Access::Fence) + middle,
            fenced_stores(line_1, line_words(data)),
        );
    } else {
        let rest = stores((line_1 + n) as usize, zeros((16 - n) as nat));
        lemma_fenced_line((first + rest).push(Access::Fence), line_1 as int / 16, false);
        lemma_fenced_join(
            (first + rest).push(Access::Fence),
            fenced_stores(line_2, line_words(data)),
        );
    }
    assert(write.last() == Access::Fence);
    lemma_fenced_join(write, read);
    assert(read.len() > 0);
}

/// Sending a message and reading its answer writes what sending writes, and reads what reading
/// reads.
pub proof fn law_message_then_answer(
    layout: Layout,
    frontiers: Seq<Seq<u64>>,
    data: Seq<u64>,
    line_1: usize,
    line_2: usize,
    memory: Map<int, u64>,
)
    requires
        line_1 <= CACHE_LINE_SIZE,
        line_2 <= CACHE_LINE_SIZE,
    ensures
        loaded_slots(message_plan(layout, frontiers, data, line_1, line_2)) == loaded_slots(
            read_plan(layout, line_1, line_2),
        ),
        memory_after(memory, message_plan(layout, frontiers, data, line_1, line_2))
            == memory_after(memory, write_plan(layout, frontiers, data, line_1, line_2)),
{
    let write = write_plan(layout, frontiers, data, line_1, line_2);
    let read = read_plan(layout, line_1, line_2);
    lemma_plans_join(memory, write, read);
    lemma_write_loads(layout, frontiers, data, line_1, line_2);
    law_loads_counted(write);
    assert(loaded_slots(write) =~= Seq::<int>::empty());
    assert(loaded_slots(write) + loaded_slots(read) =~= loaded_slots(read));
    lemma_reading_keeps(memory_after(memory, write), layout, line_1, line_2, report_parts(layout));
    let head = fenced_loads(answer_line(layout, line_1, line_2), CACHE_LINE_SIZE as nat);
    let m = memory_after(memory, write);
    lemma_plans_join(m, head, report_loads(layout, line_1, line_2, report_parts(layout)));
    law_loads_read(m, answer_line(layout, line_1, line_2), CACHE_LINE_SIZE as nat);
}

proof fn lemma_reading_keeps(
    memory: Map<int, u64>,
    layout: Layout,
    line_1: usize,
    line_2: usize,
    n: nat,
)
    requires
        line_1 <= CACHE_LINE_SIZE,
        line_2 <= CACHE_LINE_SIZE,
    ensures
        memory_after(memory, report_loads(layout, line_1, line_2, n)) == memory,
        memory_after(memory, summary_plan(layout, line_1, line_2, n)) == memory,
    decreases n,
{
    if n > 0 {
        let k = (n - 1) as nat;
        let line = report_line(layout, line_1, line_2, k);
        lemma_reading_keeps(memory, layout, line_1, line_2, k);
        lemma_plans_join(
            memory,
            report_loads(layout, line_1, line_2, k),
            fenced_loads(line, report_words(layout, k)),
        );
        lemma_plans_join(
            memory,
            summary_plan(layout, line_1, line_2, k),
            fenced_loads(line, CACHE_LINE_SIZE as nat),
        );
        law_loads_read(memory, line, report_words(layout, k));
        law_loads_read(memory, line, CACHE_LINE_SIZE as nat);
    }
}

proof fn lemma_summary_slots(layout: Layout, line_1: usize, line_2: usize, n: nat, m: int)
    requires
        line_1 <= CACHE_LINE_SIZE,
        line_2 <= CACHE_LINE_SIZE,
    ensures
        loaded_slots(summary_plan(layout, line_1, line_2, n)).len() == 16 * n,
        0 <= m < 16 * n ==> loaded_slots(summary_plan(layout, line_1, line_2, n))[m] == m % 16 + (if (
        (m / 16) % 2 == 0) == (layout.nodes() > 16) {
            line_1
        } else {
            line_2
        }),
    decreases n,
{
    let none = Map::<int, u64>::empty();
    if n > 0 {
        let k = (n - 1) as nat;
        let line = report_line(layout, line_1, line_2, k);
        lemma_summary_slots(layout, line_1, line_2, k, m);
        lemma_plans_join(
            none,
            summary_plan(layout, line_1, line_2, k),
            fenced_loads(line, CACHE_LINE_SIZE as nat),
        );
        law_loads_read(none, line, CACHE_LINE_SIZE as nat);
        if 16 * k <= m < 16 * n {
            assert(loaded_slots(fenced_loads(line, CACHE_LINE_SIZE as nat))[m - 16 * k] == line + (m
                - 16 * k));
            assert(m / 16 == k);
        }
    }
}

/// The exchange of one line of data.
proof fn lemma_exchange(out: usize, back: usize, words: Seq<u64>, memory: Map<int, u64>, i: int)
    requires
        out <= CACHE_LINE_SIZE,
        back <= CACHE_LINE_SIZE,
        words.len() == 16,
        0 <= i < 16,
    ensures
        ({
            let plan = fenced_stores(out, words) + fenced_loads(back, CACHE_LINE_SIZE as nat);
            &&& plan.len() == 34
            &&& loaded_slots(plan).len() == 16
            &&& loaded_slots(plan)[i] == back + i
            &&& memory_after(memory, plan)[out + i] == words[i]
        }),
{
    let write = fenced_stores(out, words);
    let read = fenced_loads(back, CACHE_LINE_SIZE as nat);
    lemma_plans_join(memory, write, read);
    law_stores_write(memory, out, words, out + i);
    law_loads_read(memory_after(memory, write), back, CACHE_LINE_SIZE as nat);
    assert(loaded_slots(write) + loaded_slots(read) =~= loaded_slots(read));
}

proof fn lemma_batch_slots(
    layout: Layout,
    data: Seq<u64>,
    line_1: usize,
    line_2: usize,
    n: nat,
    m: int,
    memory: Map<int, u64>,
)
    requires
        line_1 <= CACHE_LINE_SIZE,
        line_2 <= CACHE_LINE_SIZE,
        16 * n <= data.len(),
    ensures
        batch_plan(layout, data, line_1, line_2, n).len() == 34 * n,
        loaded_slots(batch_plan(layout, data, line_1, line_2, n)).len() == 16 * n,
        0 <= m < 16 * n ==> loaded_slots(batch_plan(layout, data, line_1, line_2, n))[m] == m % 16
            + (if layout.nodes() > 16 {
            line_2
        } else {
            line_1
        }),
        n > 0 && 0 <= m < 16 ==> memory_after(
            memory,
            batch_plan(layout, data, line_1, line_2, n),
        )[m + (if layout.nodes() > 16 {
            line_1
        } else {
            line_2
        })] == data[16 * (n - 1) + m],
    decreases n,
{
    if n > 0 {
        let k = (n - 1) as nat;
        let (out, back) = if layout.is_wide() {
            (line_1, line_2)
        } else {
            (line_2, line_1)
        };
        let before = batch_plan(layout, data, line_1, line_2, k);
        let words = data.subrange(16 * (n - 1), 16 * n as int);
        let next = fenced_stores(out, words) + fenced_loads(back, CACHE_LINE_SIZE as nat);
        lemma_batch_slots(layout, data, line_1, line_2, k, m, memory);
        lemma_plans_join(memory, before, next);
        lemma_exchange(out, back, words, memory_after(memory, before), m % 16);
        if 0 <= m < 16 {
            assert(m % 16 == m);
            assert(words[m] == data[16 * (n - 1) + m]);
        }
        if 16 * k <= m < 16 * n {
            assert(m % 16 == m - 16 * k);
            assert(loaded_slots(before + next)[m] == loaded_slots(next)[m - 16 * k]);
        } else if 0 <= m < 16 * k {
            assert(loaded_slots(before + next)[m] == loaded_slots(before)[m]);
        }
    }
}

/// In a round without messages all data comes back through one line, and the lines of reports take
/// turns after that, from the other one on.
pub proof fn law_idle_round_read(
    layout: Layout,
    frame: Seq<u64>,
    num_data: nat,
    line_1: usize,
    line_2: usize,
    j: int,
)
    requires
        layout.nodes() > 1,
        frame.len() == num_data + layout.frontier_length(),
        line_1 <= CACHE_LINE_SIZE,
        line_2 <= CACHE_LINE_SIZE,
    ensures
        ({
            let slots = loaded_slots(communication_plan(layout, frame, num_data, line_1, line_2));
            let whole = 16 * (num_data / 16);
            let (data_line, other_line) = if layout.nodes() > 16 {
                (line_2, line_1)
            } else {
                (line_1, line_2)
            };
            &&& slots.len() == whole + 16 * ((4 * layout.nodes() + 15) / 16)
            &&& 0 <= j < whole ==> slots[j] == data_line + j % 16
            &&& whole <= j < slots.len() ==> slots[j] == j % 16 + (if ((j - whole) / 16) % 2 == 0 {
                other_line
            } else {
                data_line
            })
        }),
{
    let none = Map::<int, u64>::empty();
    let n = num_data / 16;
    let first = idle_frontiers(layout, frame, line_1, line_2);
    let data = frame.skip(layout.frontier_length() as int);
    let middle = batch_plan(layout, data, line_1, line_2, n);
    let last = summary_plan(layout, line_1, line_2, layout.progress_length() / 16);
    lemma_plans_join(none, first + middle, last);
    lemma_plans_join(none, first, middle);
    lemma_batch_slots(layout, data, line_1, line_2, n, j, none);
    lemma_summary_slots(
        layout,
        line_1,
        line_2,
        layout.progress_length() / 16,
        j - 16 * (num_data / 16),
    );
    law_stores_write(none, line_1, frame.subrange(0, 16), 0);
    if layout.is_wide() {
        law_stores_write(none, line_2, frame.subrange(16, 32), 0);
        lemma_plans_join(
            none,
            fenced_stores(line_1, frame.subrange(0, 16)),
            fenced_stores(line_2, frame.subrange(16, 32)),
        );
    }
    assert(loaded_slots(first) =~= Seq::<int>::empty());
    let whole = 16 * (num_data / 16) as int;
    assert((j - whole) % 16 == j % 16);
}

proof fn lemma_batch_prefix(
    layout: Layout,
    data: Seq<u64>,
    line_1: usize,
    line_2: usize,
    k: nat,
    n: nat,
)
    requires
        k <= n,
        16 * n <= data.len(),
        line_1 <= CACHE_LINE_SIZE,
        line_2 <= CACHE_LINE_SIZE,
    ensures
        batch_plan(layout, data, line_1, line_2, n).len() == 34 * n,
        batch_plan(layout, data, line_1, line_2, n).take(34 * k as int) == batch_plan(
            layout,
            data,
            line_1,
            line_2,
            k,
        ),
    decreases n,
{
    let none = Map::<int, u64>::empty();
    lemma_batch_slots(layout, data, line_1, line_2, n, 0, none);
    if k < n {
        lemma_batch_prefix(layout, data, line_1, line_2, k, (n - 1) as nat);
        assert(batch_plan(layout, data, line_1, line_2, n).take(34 * k as int) =~= batch_plan(
            layout,
            data,
            line_1,
            line_2,
            (n - 1) as nat,
        ).take(34 * k as int));
    } else {
        assert(batch_plan(layout, data, line_1, line_2, n).take(34 * k as int) =~= batch_plan(
            layout,
            data,
            line_1,
            line_2,
            k,
        ));
    }
}

/// In a round without messages the frontiers go out first: the first line of the frame into the
/// first line, and, where there are more than sixteen operators, the second into the second. Then
/// each further line of the frame goes out through the line that data does not come back through.
pub proof fn law_idle_round_written(
    layout: Layout,
    frame: Seq<u64>,
    num_data: nat,
    line_1: usize,
    line_2: usize,
    memory: Map<int, u64>,
    k: nat,
    i: int,
)
    requires
        layout.nodes() > 1,
        frame.len() == num_data + layout.frontier_length(),
        line_1 == 0 && line_2 == 16 || line_1 == 16 && line_2 == 0,
        0 < k <= num_data / 16,
        0 <= i < 16,
    ensures
        ({
            let plan = communication_plan(layout, frame, num_data, line_1, line_2);
            if layout.nodes() > 16 {
                &&& memory_after(memory, plan.take(34))[line_1 + i] == frame[i]
                &&& memory_after(memory, plan.take(34))[line_2 + i] == frame[16 + i]
                &&& memory_after(memory, plan.take((34 + 34 * k) as int))[line_1 + i] == frame[32
                    + 16 * (k - 1) + i]
            } else {
                &&& memory_after(memory, plan.take(17))[line_1 + i] == frame[i]
                &&& memory_after(memory, plan.take((17 + 34 * k) as int))[line_2 + i] == frame[16
                    + 16 * (k - 1) + i]
            }
        }),
{
    let n = num_data / 16;
    let first = idle_frontiers(layout, frame, line_1, line_2);
    let data = frame.skip(layout.frontier_length() as int);
    let middle = batch_plan(layout, data, line_1, line_2, n);
    let last = summary_plan(layout, line_1, line_2, layout.progress_length() / 16);
    let plan = first + middle + last;
    lemma_batch_prefix(layout, data, line_1, line_2, k, n);
    let part = batch_plan(layout, data, line_1, line_2, k);
    let head = frame.subrange(0, 16);
    let m1 = memory_after(memory, fenced_stores(line_1, head));
    law_stores_write(memory, line_1, head, line_1 + i);
    let m2 = memory_after(memory, first);
    lemma_plans_join(memory, first, part);
    lemma_batch_slots(layout, data, line_1, line_2, k, i, m2);
    assert(data[16 * (k - 1) + i] == frame[layout.frontier_length() + 16 * (k - 1) + i]);
    if layout.is_wide() {
        let tail = frame.subrange(16, 32);
        lemma_plans_join(memory, fenced_stores(line_1, head), fenced_stores(line_2, tail));
        law_stores_write(m1, line_2, tail, line_2 + i);
        law_stores_write(m1, line_2, tail, line_1 + i);
        assert(plan.take(34) =~= first);
        assert(plan.take((34 + 34 * k) as int) =~= first + middle.take(34 * k as int));
    } else {
        assert(plan.take(17) =~= first);
        assert(plan.take((17 + 34 * k) as int) =~= first + middle.take(34 * k as int));
    }
}

/// The frame of a round without messages has, where no frontier has more than one time, the word
/// of each frontier at its index, and zeros behind them.
pub proof fn law_idle_frame(layout: Layout, frontiers: Seq<Seq<u64>>, num_data: nat, k: int)
    requires
        forall|i: int| 0 <= i < frontiers.len() ==> (#[trigger] frontiers[i]).len() <= 1,
        frontiers.len() <= num_data + layout.frontier_length(),
        0 <= k < num_data + layout.frontier_length(),
        k < frontiers.len() && frontiers[k].len() == 1 ==> frontiers[k][0] < 0x8000_0000_0000_0000,
    ensures
        idle_frame(layout, frontiers, num_data).len() == num_data + layout.frontier_length(),
        idle_frame(layout, frontiers, num_data)[k] == (if k >= frontiers.len()
            || frontiers[k].len() == 0 {
            0
        } else {
            2 * frontiers[k][0] + 1
        }),
{
    if frontiers.len() > 0 {
        if k < frontiers.len() {
            law_frontier_at_index(frontiers, k);
        } else {
            lemma_frontier_count(frontiers);
        }
    }
}

/// The answer of a round without messages is what was read: data in its place, zeros where less
/// than a line of it was missing, and reports behind it.
pub proof fn law_idle_answer(words: Seq<u64>, num_data: nat, i: int)
    requires
        16 * (num_data / 16) <= words.len(),
    ensures
        ({
            let whole = 16 * (num_data / 16);
            let answer = idle_answer(words, num_data);
            &&& answer.len() == num_data + (words.len() - whole)
            &&& 0 <= i < whole ==> answer[i] == words[i]
            &&& whole <= i < num_data ==> answer[i] == 0
            &&& num_data <= i < answer.len() ==> answer[i] == words[whole + (i - num_data)]
        }),
{
}

/// In a round without messages data is sent on if there is any, at the time in the report of the
/// last node; and only then is passed on what that node produced at that time, and what happened
/// to its capabilities.
pub proof fn law_idle_answer_collected(
    p: ProgressContents<u64>,
    ghosts: Seq<(usize, usize)>,
    answer: Seq<u64>,
    num_data: nat,
)
    requires
        0 < ghosts.len(),
        num_data + 4 * ghosts.len() <= answer.len(),
        is_tidy(p, ghosts.last().1),
    ensures
        ({
            let data = answer.take(num_data as int).filter(|w: u64| w != 0).map_values(
                |w: u64| w / 2,
            );
            let at = num_data + 4 * (ghosts.len() - 1);
            let time = answer[at + 2] / 2;
            let q = idle_progress(p, ghosts, answer, num_data);
            let node = ghosts[ghosts.len() - 1].1;
            if data.len() > 0 {
                &&& idle_session(answer, num_data, ghosts.len()) == Some((time, data))
                &&& same_but_for(p, q, node)
                &&& q.wrapper_consumeds == p.wrapper_consumeds
                &&& counts_more(
                    p.wrapper_produceds[node],
                    q.wrapper_produceds[node],
                    time,
                    signed(answer[at + 1]),
                )
                &&& counts_more(
                    p.wrapper_internals[node],
                    q.wrapper_internals[node],
                    time,
                    signed(answer[at + 3]),
                )
            } else {
                &&& idle_session(answer, num_data, ghosts.len()) is None
                &&& q == p
            }
        }),
{
    let n = ghosts.len();
    law_words_read(answer.take(num_data as int));
    law_reports_read(answer, num_data, n, n - 1);
    let last = idle_groups(answer, num_data, n).last();
    law_report_passed_on(p, ghosts.last().1, last.time, last);
}

/// What a round with messages passes on of a node: for each time, what the answers to the
/// messages of that time report as consumed and as produced; and what the answers report on the
/// capabilities of the node. Counts are in two's complement.
pub proof fn law_round_counts(
    layout: Layout,
    p: ProgressContents<u64>,
    ghosts: Seq<(usize, usize)>,
    messages: Seq<(u64, Seq<u64>)>,
    answers: Seq<Seq<u64>>,
    n: nat,
    k: int,
    t: u64,
)
    requires
        n <= messages.len(),
        n <= answers.len(),
        layout.nodes() <= ghosts.len(),
        0 <= k < layout.nodes(),
        numbers_nodes(ghosts),
        forall|j: int| 0 <= j < n ==> (#[trigger] answers[j]).len() == 16 + 4 * layout.nodes(),
        forall|j: int| 0 <= j < layout.nodes() ==> is_tidy(p, (#[trigger] ghosts[j]).1),
    ensures
        ({
            let q = round_reported(layout, p, ghosts, messages, answers, n);
            let node = ghosts[k].1;
            let at = 16 + 4 * k;
            &&& count(q.wrapper_consumeds[node][0], t) == wrapped(
                count(p.wrapper_consumeds[node][0], t) + sum_over(
                    n,
                    |j: int|
                        if messages[j].0 == t {
                            signed(answers[j][at])
                        } else {
                            0
                        },
                ),
            )
            &&& count(q.wrapper_produceds[node][0], t) == wrapped(
                count(p.wrapper_produceds[node][0], t) + sum_over(
                    n,
                    |j: int|
                        if messages[j].0 == t {
                            signed(answers[j][at + 1])
                        } else {
                            0
                        },
                ),
            )
            &&& count(q.wrapper_internals[node][0], t) == wrapped(
                count(p.wrapper_internals[node][0], t) + sum_over(
                    n,
                    |j: int|
                        if answers[j][at + 2] == t {
                            signed(answers[j][at + 3])
                        } else {
                            0
                        },
                ),
            )
            &&& q.frontiers == p.frontiers
            &&& q.consumeds == p.consumeds
            &&& q.internals == p.internals
            &&& q.produceds == p.produceds
            &&& q.wrapper_frontiers == p.wrapper_frontiers
        }),
    decreases n,
{
    lemma_round_tidy(layout, p, ghosts, messages, answers, n);
    let node = ghosts[k].1;
    let at = 16 + 4 * k;
    if n > 0 {
        let m = (n - 1) as nat;
        law_round_counts(layout, p, ghosts, messages, answers, m, k, t);
        lemma_round_tidy(layout, p, ghosts, messages, answers, m);
        let before = round_reported(layout, p, ghosts, messages, answers, m);
        let words = answers[n - 1];
        let groups = groups_from(words, 16 as nat, layout.nodes() as nat);
        let q = all_reported(before, ghosts, messages[n - 1].0, groups, layout.nodes() as nat);
        assert(is_tidy(before, ghosts[k].1));
        law_reports_read(words, 16 as nat, layout.nodes() as nat, k);
        law_reports_passed_on(before, ghosts, messages[n - 1].0, groups, layout.nodes() as nat, k);
        let f = |j: int|
            if messages[j].0 == t {
                signed(answers[j][at])
            } else {
                0
            };
        let g = |j: int|
            if messages[j].0 == t {
                signed(answers[j][at + 1])
            } else {
                0
            };
        let h = |j: int|
            if answers[j][at + 2] == t {
                signed(answers[j][at + 3])
            } else {
                0
            };
        lemma_counts_add(
            before.wrapper_consumeds[node],
            q.wrapper_consumeds[node],
            count(p.wrapper_consumeds[node][0], t) as int,
            sum_over(m, f),
            messages[n - 1].0,
            groups[k].consumed as int,
            t,
        );
        lemma_counts_add(
            before.wrapper_produceds[node],
            q.wrapper_produceds[node],
            count(p.wrapper_produceds[node][0], t) as int,
            sum_over(m, g),
            messages[n - 1].0,
            groups[k].produced as int,
            t,
        );
        lemma_counts_add(
            before.wrapper_internals[node],
            q.wrapper_internals[node],
            count(p.wrapper_internals[node][0], t) as int,
            sum_over(m, h),
            groups[k].time,
            groups[k].change as int,
            t,
        );
    }
}

proof fn lemma_round_tidy(
    layout: Layout,
    p: ProgressContents<u64>,
    ghosts: Seq<(usize, usize)>,
    messages: Seq<(u64, Seq<u64>)>,
    answers: Seq<Seq<u64>>,
    n: nat,
)
    requires
        layout.nodes() <= ghosts.len(),
        forall|j: int| 0 <= j < layout.nodes() ==> is_tidy(p, (#[trigger] ghosts[j]).1),
    ensures
        forall|j: int|
            0 <= j < layout.nodes() ==> is_tidy(
                round_reported(layout, p, ghosts, messages, answers, n),
                (#[trigger] ghosts[j]).1,
            ),
    decreases n,
{
    if n > 0 {
        let m = (n - 1) as nat;
        lemma_round_tidy(layout, p, ghosts, messages, answers, m);
        let before = round_reported(layout, p, ghosts, messages, answers, m);
        assert forall|j: int| 0 <= j < layout.nodes() implies is_tidy(
            round_reported(layout, p, ghosts, messages, answers, n),
            (#[trigger] ghosts[j]).1,
        ) by {
            lemma_stays_tidy(
                before,
                ghosts,
                messages[n - 1].0,
                groups_from(answers[n - 1], 16 as nat, layout.nodes() as nat),
                layout.nodes() as nat,
                ghosts[j].1,
            );
        }
    }
}

/// The answer to each message is sent on at the time of the message: the halves of those of the
/// first sixteen words that are not zero.
pub proof fn law_round_sessions(
    messages: Seq<(u64, Seq<u64>)>,
    answers: Seq<Seq<u64>>,
    k: int,
)
    requires
        0 <= k < messages.len(),
    ensures
        round_sessions(messages, answers).len() == messages.len(),
        round_sessions(messages, answers)[k] == (
            messages[k].0,
            answers[k].take(16).filter(|w: u64| w != 0).map_values(|w: u64| w / 2),
        ),
{
    law_words_read(answers[k].take(16));
}

/// In a round with messages there is a plan for each of them, in their order, which sends its
/// frontiers and data and reads its answer.
pub proof fn law_round_planned(
    layout: Layout,
    frontiers: Seq<Seq<u64>>,
    messages: Seq<(u64, Seq<u64>)>,
    num_data: nat,
    line_1: usize,
    line_2: usize,
    k: int,
)
    requires
        0 <= k < messages.len(),
    ensures
        ({
            let plans = round_plans(layout, frontiers, messages, num_data, line_1, line_2);
            &&& plans.len() == messages.len()
            &&& plans[k] == write_plan(layout, frontiers, messages[k].1, line_1, line_2)
                + read_plan(layout, line_1, line_2)
        }),
{
}

/// In a round without messages there is one plan.
pub proof fn law_idle_round_planned(
    layout: Layout,
    frontiers: Seq<Seq<u64>>,
    num_data: nat,
    line_1: usize,
    line_2: usize,
)
    ensures
        round_plans(layout, frontiers, Seq::empty(), num_data, line_1, line_2) == seq![
            communication_plan(
                layout,
                idle_frame(layout, frontiers, num_data),
                num_data,
                line_1,
                line_2,
            ),
        ],
{
}

/// The frames that the emulated device accepts: of up to four operators, with as many equal words
/// in front as there are operators, and with data, if there is any, from the seventeenth word on.
/// Each of these words is odd or zero.
pub proof fn law_frames_accepted(input: Seq<u64>, num_data: nat, num_operators: nat)
    ensures
        acceptable(input, num_data, num_operators) <==> {
            &&& num_operators <= 4
            &&& input.len() >= 1
            &&& input.len() >= num_operators
            &&& num_data == 0 || input.len() >= 16 + num_data
            &&& num_data + 16 + num_operators / 4 <= usize::MAX
            &&& forall|i: int| 0 <= i < num_operators ==> #[trigger] input[i] == input[0]
            &&& forall|i: int|
                0 <= i < num_operators ==> (#[trigger] input[i]) % 2 == 1 || input[i] == 0
            &&& forall|i: int|
                16 <= i < 16 + num_data ==> (#[trigger] input[i]) % 2 == 1 || input[i] == 0
        },
{
    if num_operators <= 4 {
        assert(num_operators / 16 == 0);
    }
}

/// The emulated device hands its data back, reports of each operator how many words hold a value
/// and how many of them one that is five or more, and leaves the rest zero.
pub proof fn law_device_emulated(input: Seq<u64>, num_data: nat, num_operators: nat, i: int)
    requires
        acceptable(input, num_data, num_operators),
    ensures
        ({
            let data = Seq::new(num_data, |j: int| input[16 + j]);
            let answer = emulated(
                emulated_data(input, num_data, num_operators),
                num_operators,
                num_data + emulated_reports(num_operators),
            );
            let valid = data.filter(|w: u64| w % 2 == 1).len();
            let passing = data.filter(|w: u64| w % 2 == 1 && w / 2 >= 5).len();
            &&& answer.len() == num_data + 16 + num_operators / 4
            &&& 0 <= i < num_data ==> answer[i] == input[16 + i]
            &&& 0 <= i < num_operators ==> {
                &&& answer[num_data + 4 * i] == valid
                &&& answer[num_data + 4 * i + 1] == passing
                &&& answer[num_data + 4 * i + 2] == 0
                &&& answer[num_data + 4 * i + 3] == 0
            }
            &&& num_data + 4 * num_operators <= i < answer.len() ==> answer[i] == 0
        }),
{
    law_frames_accepted(input, num_data, num_operators);
    let data = Seq::new(num_data, |j: int| input[16 + j]);
    assert(emulated_data(input, num_data, num_operators) =~= data);
    law_answer_emulated(data, num_operators, num_data + emulated_reports(num_operators), i);
    law_answer_emulated(
        data,
        num_operators,
        num_data + emulated_reports(num_operators),
        i - num_data - 4 * num_operators,
    );
}

/// The frame of a round without messages starts with the words of the frontiers, and zeros follow.
pub proof fn law_idle_frame_parts(layout: Layout, frontiers: Seq<Seq<u64>>, num_data: nat)
    requires
        all_frontier_words(frontiers).len() <= num_data + layout.frontier_length(),
    ensures
        ({
            let words = all_frontier_words(frontiers);
            let frame = idle_frame(layout, frontiers, num_data);
            &&& frame.len() == num_data + layout.frontier_length()
            &&& frame.take(words.len() as int) == words
            &&& forall|i: int| words.len() <= i < frame.len() ==> #[trigger] frame[i] == 0
        }),
{
    let words = all_frontier_words(frontiers);
    let frame = idle_frame(layout, frontiers, num_data);
    assert(frame.take(words.len() as int) =~= words);
}

/// A round can be planned for messages that are empty or fill a line, where there are frontiers
/// enough, and for no message, where the frontiers have room.
pub proof fn law_plannable(
    layout: Layout,
    frontiers: Seq<Seq<u64>>,
    messages: Seq<(u64, Seq<u64>)>,
    num_data: nat,
)
    ensures
        messages.len() > 0 && frontiers.len() >= 16 && frontiers.len() >= layout.nodes() && (forall|
            k: int,
        |
            0 <= k < messages.len() ==> (#[trigger] messages[k]).1.len() == 0
                || messages[k].1.len() >= 16) ==> plannable(layout, frontiers, messages, num_data),
        messages.len() == 0 && layout.nodes() > 1 && num_data + 32 <= usize::MAX
            && all_frontier_words(frontiers).len() <= num_data + 16 ==> plannable(
            layout,
            frontiers,
            messages,
            num_data,
        ),
{
}

} // verus!
