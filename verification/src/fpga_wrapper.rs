//! Running operators on a device that shares two cache lines with the host: a message goes out
//! as one frame of words, and the answer comes back as another.

use std::collections::VecDeque;

use vstd::prelude::*;

use crate::access::{
    fenced_loads, fenced_stores, in_area, is_fenced, law_loads_read, law_stores_write,
    lemma_fenced_join, lemma_fenced_lines, lemma_in_area_join, lemma_in_area_lines,
    lemma_load_count_join, lemma_load_count_loads, lemma_load_count_stores, lemma_plans_join,
    load_count, loaded_slots, memory_after, push_loads, push_stores, Access,
};
use crate::device::{
    all_reported, counts_more, encoded_groups_from, frontiers_of, has_place, has_places, is_tidy,
    law_report_passed_on, law_reports_passed_on, law_reports_read, numbers_nodes,
    read_encoded_groups, release, released, report_all, same_but_for, signed, ProgressGroup,
    WrapperState,
};
use crate::emulation::{
    emulate, emulated, emulated_groups, is_word, law_answer_emulated, law_emulated_counts,
    lemma_counts_data, lemma_groups_len, passing_count, passing_values, valid_count,
};
use crate::location::Source;
use crate::naming::{law_names_numbered, name_list, numbered_names, texts};
use crate::order::{Refines, Timestamp};
use crate::registration::{
    lemma_run_distinct, numbered, register, registered_with, Host, Registered,
};
use crate::shared_progress::{ProgressContents, SharedProgress};
use crate::subgraph_builder::SubgraphBuilder;
use crate::words::{
    all_decoded, all_frontier_words, data_words, law_data_round_trip, law_frontier_at_index,
    law_words_read, law_words_written, lemma_frontier_count, pad, padded, push_decoded,
    push_encoded,
};

verus! {

/// Words of data in a frame.
pub const NUMBER_OF_INPUTS: usize = 16;

/// Filters on the device.
pub const NUMBER_OF_FILTER_OPERATORS: usize = 1;

/// Maps on the device.
pub const NUMBER_OF_MAP_OPERATORS: usize = 0;

/// Operators on the device.
pub const OPERATOR_COUNT: usize = NUMBER_OF_FILTER_OPERATORS + NUMBER_OF_MAP_OPERATORS;

/// Words of a frame that hold its time and the frontiers.
pub const FRONTIER_LENGTH: usize = 24;

/// Words of a frame that goes out.
pub const MAX_LENGTH_IN: usize = 40;

/// Words of an answer that hold data.
pub const DATA_LENGTH: usize = 16;

/// The word of an answer at which the reports of the nodes start.
pub const PROGRESS_START_INDEX: usize = 16;

/// Words of an answer.
pub const MAX_LENGTH_OUT: usize = 97;

/// The word of an answer that holds its time.
pub const TIME_INDEX: usize = 96;

/// Words of the shared memory that are in use.
pub const USED_CACHE_SIZE: usize = 32;

/// The time of a frame that carries no message.
pub const NO_MESSAGE: u64 = u64::MAX;

/// Frames on their way.
pub struct HardwareCommon {
    /// Frames that wait to go out.
    pub i_queue: VecDeque<[u64; MAX_LENGTH_IN]>,
    /// Frames that went out and were not answered for.
    pub h_queue: VecDeque<[u64; MAX_LENGTH_IN]>,
    /// Answers that were not collected.
    pub o_queue: VecDeque<[u64; MAX_LENGTH_OUT]>,
}

/// The frame of a message.
pub open spec fn message_frame(time: u64, frontiers: Seq<Seq<u64>>, data: Seq<u64>) -> Seq<u64> {
    padded(
        padded(seq![time] + all_frontier_words(frontiers), FRONTIER_LENGTH as nat) + data_words(
            data,
        ),
        MAX_LENGTH_IN as nat,
    )
}

/// The frame of a round without messages, which carries the frontiers alone.
pub open spec fn idle_frame(frontiers: Seq<Seq<u64>>) -> Seq<u64> {
    padded(seq![NO_MESSAGE] + all_frontier_words(frontiers), MAX_LENGTH_IN as nat)
}

/// Whether a message with as many words of data as `n` fits into a frame.
pub open spec fn fits_frame(frontiers: Seq<Seq<u64>>, n: nat) -> bool {
    let head = padded(
        seq![0u64] + all_frontier_words(frontiers),
        FRONTIER_LENGTH as nat,
    ).len();
    head + (if n == 0 {
        1
    } else {
        n
    }) <= MAX_LENGTH_IN
}

/// Whether `input` is a frame that the emulated device accepts: the words of the frontiers are
/// all the same, and each word stands for a value or for the lack of one.
pub open spec fn acceptable(input: Seq<u64>) -> bool {
    &&& forall|i: int|
        1 <= i < 1 + OPERATOR_COUNT ==> is_word(#[trigger] input[i]) && input[i] == input[1]
    &&& forall|i: int|
        FRONTIER_LENGTH <= i < FRONTIER_LENGTH + NUMBER_OF_INPUTS ==> is_word(#[trigger] input[i])
}

/// The words of data in a frame.
pub open spec fn frame_data(input: Seq<u64>) -> Seq<u64> {
    input.subrange(FRONTIER_LENGTH as int, FRONTIER_LENGTH + NUMBER_OF_INPUTS)
}

/// What is to be done with the shared memory to send a frame: the first line takes what follows
/// the time, the second line takes the data.
pub open spec fn send_plan(input: Seq<u64>) -> Seq<Access> {
    fenced_stores(0, input.subrange(1, 17)) + fenced_stores(
        16,
        input.subrange(FRONTIER_LENGTH as int, FRONTIER_LENGTH + 16),
    )
}

/// What is to be done with the shared memory to read an answer.
pub open spec fn read_plan() -> Seq<Access> {
    fenced_loads(0, 16) + fenced_loads(16, 16)
}

/// The words of an array.
fn words_of<const N: usize>(a: &[u64; N]) -> (r: Vec<u64>)
    ensures
        r@ == a@,
{
    let mut r: Vec<u64> = Vec::new();
    let mut i: usize = 0;
    while i < N
        invariant
            i <= N,
            a@.len() == N,
            r@ == a@.take(i as int),
        decreases N - i,
    {
        r.push(a[i]);
        assert(a@.take(i + 1) =~= a@.take(i as int).push(a@[i as int]));
        i += 1;
    }
    assert(a@.take(i as int) =~= a@);
    r
}

/// An array of words.
fn array_of<const N: usize>(v: &Vec<u64>) -> (r: [u64; N])
    requires
        v@.len() == N,
    ensures
        r@ == v@,
{
    let mut r: [u64; N] = [0; N];
    let mut i: usize = 0;
    while i < N
        invariant
            i <= N,
            v@.len() == N,
            forall|k: int| 0 <= k < i ==> #[trigger] r@[k] == v@[k],
        decreases N - i,
    {
        r[i] = v[i];
        i += 1;
    }
    assert(r@ =~= v@);
    r
}

/// Whether the emulated device accepts a frame.
pub fn check_input(input_arr: &[u64; MAX_LENGTH_IN]) -> (r: bool)
    ensures
        r == acceptable(input_arr@),
{
    let mut i: usize = 1;
    while i < 1 + OPERATOR_COUNT
        invariant
            1 <= i <= 1 + OPERATOR_COUNT,
            forall|k: int|
                1 <= k < i ==> is_word(#[trigger] input_arr@[k]) && input_arr@[k] == input_arr@[1],
        decreases 1 + OPERATOR_COUNT - i,
    {
        if !(input_arr[i] == 0 || input_arr[i] % 2 == 1) || input_arr[i] != input_arr[1] {
            assert(!(is_word(input_arr@[i as int]) && input_arr@[i as int] == input_arr@[1]));
            return false;
        }
        i += 1;
    }
    let mut j: usize = FRONTIER_LENGTH;
    while j < FRONTIER_LENGTH + NUMBER_OF_INPUTS
        invariant
            FRONTIER_LENGTH <= j <= FRONTIER_LENGTH + NUMBER_OF_INPUTS,
            forall|k: int| FRONTIER_LENGTH <= k < j ==> is_word(#[trigger] input_arr@[k]),
        decreases FRONTIER_LENGTH + NUMBER_OF_INPUTS - j,
    {
        if !(input_arr[j] == 0 || input_arr[j] % 2 == 1) {
            assert(!is_word(input_arr@[j as int]));
            return false;
        }
        j += 1;
    }
    true
}

/// The answer of a device that filters, worked out on the host.
pub fn generate_fpga_output(input_arr: [u64; MAX_LENGTH_IN]) -> (r: [u64; MAX_LENGTH_OUT])
    requires
        acceptable(input_arr@),
    ensures
        r@ == emulated(frame_data(input_arr@), OPERATOR_COUNT as nat, MAX_LENGTH_OUT as nat),
{
    let words = words_of(&input_arr);
    let answer = emulate(
        &words,
        FRONTIER_LENGTH,
        FRONTIER_LENGTH + NUMBER_OF_INPUTS,
        OPERATOR_COUNT,
        MAX_LENGTH_OUT,
    );
    proof {
        let data = frame_data(input_arr@);
        lemma_groups_len(
            valid_count(data) as u64,
            passing_count(data) as u64,
            OPERATOR_COUNT as nat,
        );
    }
    array_of(&answer)
}

/// What is to be done with the shared memory to send a frame.
pub fn send_to_fpga(input_arr: &[u64; MAX_LENGTH_IN]) -> (r: Vec<Access>)
    ensures
        r@ == send_plan(input_arr@),
        load_count(r@) == 0,
{
    let words = words_of(input_arr);
    let mut plan: Vec<Access> = Vec::new();
    push_stores(&mut plan, 0, &words, 1, 17);
    push_stores(&mut plan, 16, &words, FRONTIER_LENGTH, FRONTIER_LENGTH + 16);
    proof {
        let first = fenced_stores(0, words@.subrange(1, 17));
        let second = fenced_stores(
            16,
            words@.subrange(FRONTIER_LENGTH as int, FRONTIER_LENGTH + 16),
        );
        assert(plan@ =~= first + second);
        lemma_load_count_join(first, second);
        lemma_load_count_stores(0, words@.subrange(1, 17));
        lemma_load_count_stores(
            16,
            words@.subrange(FRONTIER_LENGTH as int, FRONTIER_LENGTH + 16),
        );
    }
    plan
}

/// What is to be done with the shared memory to read an answer.
pub fn read_from_fpga() -> (r: Vec<Access>)
    ensures
        r@ == read_plan(),
        load_count(r@) == USED_CACHE_SIZE,
{
    let mut plan: Vec<Access> = Vec::new();
    push_loads(&mut plan, 0, 16);
    push_loads(&mut plan, 16, 16);
    proof {
        assert(plan@ =~= read_plan());
        lemma_load_count_join(fenced_loads(0, 16), fenced_loads(16, 16));
        lemma_load_count_loads(0, 16);
        lemma_load_count_loads(16, 16);
    }
    plan
}

/// The answer in the words that were read from the shared memory.
pub fn read_answer(words: &Vec<u64>) -> (r: [u64; MAX_LENGTH_OUT])
    requires
        words@.len() == USED_CACHE_SIZE,
    ensures
        r@ == padded(words@, MAX_LENGTH_OUT as nat),
{
    let mut answer: Vec<u64> = Vec::new();
    let mut i: usize = 0;
    while i < words.len()
        invariant
            i <= words@.len(),
            answer@ == words@.take(i as int),
        decreases words@.len() - i,
    {
        answer.push(words[i]);
        assert(words@.take(i + 1) =~= words@.take(i as int).push(words@[i as int]));
        i += 1;
    }
    assert(words@.take(i as int) =~= words@);
    pad(&mut answer, MAX_LENGTH_OUT);
    array_of(&answer)
}

impl HardwareCommon {
    /// Nothing on its way.
    pub fn new() -> (r: Self)
        ensures
            r.i_queue@.len() == 0,
            r.h_queue@.len() == 0,
            r.o_queue@.len() == 0,
    {
        HardwareCommon {
            i_queue: VecDeque::new(),
            h_queue: VecDeque::new(),
            o_queue: VecDeque::new(),
        }
    }

    /// Takes note of a frame that went out, and of its answer, which gets the time of the frame.
    /// No other frame may wait to go out, and no answer may wait to be collected.
    pub fn send_input(&mut self, input: [u64; MAX_LENGTH_IN], answer: [u64; MAX_LENGTH_OUT])
        requires
            old(self).i_queue@.len() == 0,
            old(self).o_queue@.len() == 0,
        ensures
            final(self).i_queue == old(self).i_queue,
            final(self).h_queue@ == old(self).h_queue@.push(input),
            final(self).o_queue@.len() == 1,
            final(self).o_queue@[0]@ == answer@.update(TIME_INDEX as int, input@[0]),
    {
        self.h_queue.push_back(input);
        let mut stamped = answer;
        stamped[TIME_INDEX] = input[0];
        assert(stamped@ =~= answer@.update(TIME_INDEX as int, input@[0]));
        self.o_queue.push_back(stamped);
    }

    /// Takes out the first answer.
    pub fn check_output(&mut self) -> (r: Option<[u64; MAX_LENGTH_OUT]>)
        ensures
            final(self).i_queue == old(self).i_queue,
            final(self).h_queue == old(self).h_queue,
            match r {
                None => old(self).o_queue@.len() == 0 && final(self).o_queue == old(self).o_queue,
                Some(answer) => {
                    &&& old(self).o_queue@.len() > 0
                    &&& answer == old(self).o_queue@[0]
                    &&& final(self).o_queue@ == old(self).o_queue@.drop_first()
                },
            },
    {
        if self.o_queue.len() == 0 {
            return None;
        }
        self.o_queue.pop_front()
    }
}

/// The frame of a message.
pub fn frame_message(state: &WrapperState, time: u64, data: &Vec<u64>) -> (r: [u64; MAX_LENGTH_IN])
    requires
        fits_frame(frontiers_of(state.frontier@), data@.len()),
    ensures
        r@ == message_frame(time, frontiers_of(state.frontier@), data@),
{
    let mut words: Vec<u64> = Vec::new();
    words.push(time);
    state.push_frontiers(&mut words);
    assert(words@ =~= seq![time] + all_frontier_words(frontiers_of(state.frontier@)));
    pad(&mut words, FRONTIER_LENGTH);
    let ghost head = words@;
    if data.len() == 0 {
        words.push(0);
    } else {
        push_encoded(&mut words, data);
    }
    assert(words@ =~= head + data_words(data@));
    pad(&mut words, MAX_LENGTH_IN);
    array_of(&words)
}

/// The frame of a round without messages.
pub fn frame_idle(state: &WrapperState) -> (r: [u64; MAX_LENGTH_IN])
    requires
        1 + all_frontier_words(frontiers_of(state.frontier@)).len() <= MAX_LENGTH_IN,
    ensures
        r@ == idle_frame(frontiers_of(state.frontier@)),
{
    let mut words: Vec<u64> = Vec::new();
    words.push(NO_MESSAGE);
    state.push_frontiers(&mut words);
    assert(words@ =~= seq![NO_MESSAGE] + all_frontier_words(frontiers_of(state.frontier@)));
    pad(&mut words, MAX_LENGTH_IN);
    array_of(&words)
}

/// Data as a message carries it.
pub open spec fn message_views(messages: Seq<(u64, Vec<u64>)>) -> Seq<(u64, Seq<u64>)> {
    messages.map_values(|m: (u64, Vec<u64>)| (m.0, m.1@))
}

/// The frames of a round: one for each message, or one that carries no message.
pub open spec fn round_frames(
    frontiers: Seq<Seq<u64>>,
    messages: Seq<(u64, Seq<u64>)>,
) -> Seq<Seq<u64>> {
    if messages.len() == 0 {
        seq![idle_frame(frontiers)]
    } else {
        messages.map_values(|m: (u64, Seq<u64>)| message_frame(m.0, frontiers, m.1))
    }
}

/// What each frame holds.
pub open spec fn frame_views(frames: Seq<[u64; MAX_LENGTH_IN]>) -> Seq<Seq<u64>> {
    frames.map_values(|f: [u64; MAX_LENGTH_IN]| f@)
}

/// The frames of a round: one for each message, or one that carries no message.
pub fn frame_round(state: &WrapperState, messages: &Vec<(u64, Vec<u64>)>) -> (r: Vec<
    [u64; MAX_LENGTH_IN],
>)
    requires
        forall|k: int|
            0 <= k < messages@.len() ==> fits_frame(
                frontiers_of(state.frontier@),
                (#[trigger] messages@[k]).1@.len(),
            ),
        1 + all_frontier_words(frontiers_of(state.frontier@)).len() <= MAX_LENGTH_IN,
    ensures
        frame_views(r@) == round_frames(frontiers_of(state.frontier@), message_views(messages@)),
{
    let ghost frontiers = frontiers_of(state.frontier@);
    let ghost views = message_views(messages@);
    let mut r: Vec<[u64; MAX_LENGTH_IN]> = Vec::new();
    if messages.len() == 0 {
        r.push(frame_idle(state));
        assert(frame_views(r@) =~= seq![idle_frame(frontiers)]);
        return r;
    }
    let mut i: usize = 0;
    while i < messages.len()
        invariant
            i <= messages@.len(),
            frontiers == frontiers_of(state.frontier@),
            forall|k: int|
                0 <= k < messages@.len() ==> fits_frame(
                    frontiers,
                    (#[trigger] messages@[k]).1@.len(),
                ),
            r@.len() == i,
            forall|k: int|
                0 <= k < i ==> (#[trigger] r@[k])@ == message_frame(
                    messages@[k].0,
                    frontiers,
                    messages@[k].1@,
                ),
        decreases messages@.len() - i,
    {
        assert(fits_frame(frontiers, messages@[i as int].1@.len()));
        r.push(frame_message(state, messages[i].0, &messages[i].1));
        i += 1;
    }
    assert(frame_views(r@) =~= round_frames(frontiers, views));
    r
}

/// The reports of the nodes in an answer.
pub open spec fn answer_groups(answer: Seq<u64>, nodes: nat) -> Seq<ProgressGroup> {
    encoded_groups_from(answer, PROGRESS_START_INDEX as nat, nodes)
}

/// The data in an answer.
pub open spec fn answer_data(answer: Seq<u64>) -> Seq<u64> {
    all_decoded(answer.subrange(0, DATA_LENGTH as int))
}

/// What is to be sent on from an answer, and at what time: to a message, its data; in a round
/// without messages the data, if there is any, at the time that the last node reports.
pub open spec fn answer_session(answer: Seq<u64>, nodes: nat) -> Option<(u64, Seq<u64>)> {
    let data = answer_data(answer);
    if answer[TIME_INDEX as int] != NO_MESSAGE {
        Some((answer[TIME_INDEX as int], data))
    } else if data.len() > 0 {
        Some((answer_groups(answer, nodes)[nodes - 1].time, data))
    } else {
        None
    }
}

/// Progress information with what an answer reports: of each node for the time of a message; in
/// a round without messages of the last node, if there is data.
pub open spec fn answer_progress(
    p: ProgressContents<u64>,
    ghosts: Seq<(usize, usize)>,
    answer: Seq<u64>,
) -> ProgressContents<u64> {
    let groups = answer_groups(answer, ghosts.len());
    if answer[TIME_INDEX as int] != NO_MESSAGE {
        all_reported(p, ghosts, answer[TIME_INDEX as int], groups, ghosts.len())
    } else if answer_data(answer).len() > 0 {
        released(p, ghosts.last().1, groups.last().time, groups.last())
    } else {
        p
    }
}

/// What is to be sent on.
pub open spec fn session_view(session: Option<(u64, Vec<u64>)>) -> Option<(u64, Seq<u64>)> {
    match session {
        Some((time, data)) => Some((time, data@)),
        None => None,
    }
}

/// Passes on what an answer reports, and returns what is to be sent on.
pub fn collect_answer(
    progress: &mut SharedProgress<u64>,
    ghosts: &Vec<(usize, usize)>,
    answer: &[u64; MAX_LENGTH_OUT],
) -> (r: Option<(u64, Vec<u64>)>)
    requires
        0 < ghosts@.len(),
        PROGRESS_START_INDEX + 4 * ghosts@.len() <= MAX_LENGTH_OUT,
        has_places(old(progress)@, ghosts@),
    ensures
        final(progress)@ == answer_progress(old(progress)@, ghosts@, answer@),
        session_view(r) == answer_session(answer@, ghosts@.len()),
        has_places(final(progress)@, ghosts@),
{
    let words = words_of(answer);
    let mut data: Vec<u64> = Vec::new();
    push_decoded(&mut data, &words, 0, DATA_LENGTH);
    assert(data@ =~= answer_data(answer@));
    let nodes: usize = ghosts.len();
    let groups = read_encoded_groups(&words, PROGRESS_START_INDEX, nodes);
    let time: u64 = words[TIME_INDEX];
    if time != NO_MESSAGE {
        report_all(progress, ghosts, time, &groups, nodes);
        Some((time, data))
    } else if data.len() > 0 {
        let last = groups[nodes - 1];
        let ghost before = progress@;
        assert(has_place(before, ghosts@[nodes - 1].1));
        release(progress, ghosts[nodes - 1].1, last.time, &last);
        proof {
            assert forall|k: int| 0 <= k < ghosts@.len() implies has_place(
                progress@,
                (#[trigger] ghosts@[k]).1,
            ) by {
                assert(has_place(before, ghosts@[k].1));
            }
        }
        Some((last.time, data))
    } else {
        None
    }
}

/// What answers hold.
pub open spec fn answer_views(answers: Seq<[u64; MAX_LENGTH_OUT]>) -> Seq<Seq<u64>> {
    answers.map_values(|a: [u64; MAX_LENGTH_OUT]| a@)
}

/// Progress information with what each of `answers` reports.
pub open spec fn all_collected(
    p: ProgressContents<u64>,
    ghosts: Seq<(usize, usize)>,
    answers: Seq<Seq<u64>>,
) -> ProgressContents<u64>
    decreases answers.len(),
{
    if answers.len() == 0 {
        p
    } else {
        all_collected(answer_progress(p, ghosts, answers[0]), ghosts, answers.drop_first())
    }
}

/// What is to be sent on from each of `answers`.
pub open spec fn all_sessions(answers: Seq<Seq<u64>>, nodes: nat) -> Seq<(u64, Seq<u64>)>
    decreases answers.len(),
{
    if answers.len() == 0 {
        Seq::empty()
    } else {
        let rest = all_sessions(answers.drop_first(), nodes);
        match answer_session(answers[0], nodes) {
            Some(session) => seq![session] + rest,
            None => rest,
        }
    }
}

/// Takes out all answers, together with the frames they answer; passes on what they report;
/// and returns what is to be sent on, and how many answers there were.
pub fn collect(
    hc: &mut HardwareCommon,
    progress: &mut SharedProgress<u64>,
    ghosts: &Vec<(usize, usize)>,
) -> (r: (Vec<(u64, Vec<u64>)>, usize))
    requires
        0 < ghosts@.len(),
        PROGRESS_START_INDEX + 4 * ghosts@.len() <= MAX_LENGTH_OUT,
        has_places(old(progress)@, ghosts@),
        old(hc).o_queue@.len() <= old(hc).h_queue@.len(),
    ensures
        final(hc).i_queue == old(hc).i_queue,
        final(hc).h_queue@ == old(hc).h_queue@.skip(old(hc).o_queue@.len() as int),
        final(hc).o_queue@.len() == 0,
        final(progress)@ == all_collected(
            old(progress)@,
            ghosts@,
            answer_views(old(hc).o_queue@),
        ),
        message_views(r.0@) == all_sessions(answer_views(old(hc).o_queue@), ghosts@.len()),
        r.1 == old(hc).o_queue@.len(),
        has_places(final(progress)@, ghosts@),
{
    let ghost goal = all_collected(progress@, ghosts@, answer_views(hc.o_queue@));
    let ghost sessions = all_sessions(answer_views(hc.o_queue@), ghosts@.len());
    let ghost frames = hc.h_queue@;
    let total: usize = hc.o_queue.len();
    let mut r: Vec<(u64, Vec<u64>)> = Vec::new();
    let mut count: usize = 0;
    assert(frames.skip(0) =~= frames);
    assert(message_views(r@) + sessions =~= sessions);
    while hc.o_queue.len() > 0
        invariant
            0 < ghosts@.len(),
            PROGRESS_START_INDEX + 4 * ghosts@.len() <= MAX_LENGTH_OUT,
            has_places(progress@, ghosts@),
            hc.i_queue == old(hc).i_queue,
            count + hc.o_queue@.len() == total,
            total <= frames.len(),
            hc.h_queue@ == frames.skip(count as int),
            all_collected(progress@, ghosts@, answer_views(hc.o_queue@)) == goal,
            message_views(r@) + all_sessions(answer_views(hc.o_queue@), ghosts@.len()) == sessions,
        decreases hc.o_queue@.len(),
    {
        let ghost waiting = hc.o_queue@;
        let ghost sent = message_views(r@);
        if let Some(answer) = hc.check_output() {
            proof {
                assert(answer_views(waiting)[0] == answer@);
                assert(answer_views(waiting).drop_first() =~= answer_views(waiting.drop_first()));
            }
            hc.h_queue.pop_front();
            assert(hc.h_queue@ =~= frames.skip(count + 1));
            count += 1;
            match collect_answer(progress, ghosts, &answer) {
                Some(session) => {
                    let ghost view = (session.0, session.1@);
                    let ghost rest = all_sessions(
                        answer_views(waiting).drop_first(),
                        ghosts@.len(),
                    );
                    r.push(session);
                    assert(message_views(r@) =~= sent.push(view));
                    assert(message_views(r@) + rest =~= sent + (seq![view] + rest));
                },
                None => {},
            }
        }
    }
    proof {
        assert(answer_views(hc.o_queue@).len() == 0);
        assert(message_views(r@) + Seq::<(u64, Seq<u64>)>::empty() =~= message_views(r@));
    }
    (r, count)
}

/// How many frames went out and were not collected, as the operator that sends them and the one
/// that collects the answers share it.
pub struct Outstanding {
    /// The number.
    pub counter: u64,
}

impl Outstanding {
    /// Takes note of `inputs` frames that went out. Then the collector is to be scheduled; the
    /// operator itself has nothing left to do.
    pub fn schedule_operator(&mut self, inputs: u64) -> (r: bool)
        requires
            old(self).counter + inputs <= u64::MAX,
        ensures
            final(self).counter == old(self).counter + inputs,
            !r,
    {
        self.counter += inputs;
        false
    }

    /// Takes note of `consumed` answers that were collected. Returns whether the collector is
    /// to be scheduled again, and whether it is incomplete: both while answers are due.
    pub fn schedule_collector(&mut self, consumed: u64) -> (r: (bool, bool))
        requires
            consumed <= old(self).counter,
        ensures
            final(self).counter == old(self).counter - consumed,
            r.0 == (old(self).counter > consumed),
            r.1 == (old(self).counter > consumed),
    {
        let again = self.counter - consumed > 0;
        if again {
            self.counter -= consumed;
        } else {
            self.counter = 0;
        }
        (again, self.counter != 0)
    }
}

/// The names of the operators on the device.
pub open spec fn wrapper_names() -> Seq<Seq<char>> {
    name_list("Filter"@, NUMBER_OF_FILTER_OPERATORS as nat) + name_list(
        "Map"@,
        NUMBER_OF_MAP_OPERATORS as nat,
    )
}

/// Running operators on the device.
pub trait FpgaWrapper<TOuter: Timestamp, TInner: Refines<TOuter>>: Host<TOuter, TInner> {
    /// Puts the operators on the device, the operator that stands for them and the one that collects
    /// answers into a scope, behind `stream`.
    fn fpga_wrapper(
        &mut self,
        stream: Source,
        identifiers: &Vec<usize>,
        peers: usize,
    ) -> (r: (Registered, WrapperState))
        requires
            old(self).scope().child_count + OPERATOR_COUNT + 2 <= usize::MAX,
            OPERATOR_COUNT + 2 <= identifiers@.len(),
        ensures
            registered_with(
                &old(self).scope(),
                &final(self).scope(),
                &r.0,
                stream,
                wrapper_names(),
                identifiers@,
                peers,
                true,
            ),
            old(self).scope().wf() ==> final(self).scope().wf(),
            old(self).scope().is_dense() ==> final(self).scope().is_dense(),
            r.1.wf(),
            r.1.ghost_indexes@ == numbered(r.0.ghosts@),
            r.1.is_fresh(),
    ;
}

impl<TOuter: Timestamp, TInner: Refines<TOuter>> FpgaWrapper<TOuter, TInner> for SubgraphBuilder<
    TOuter,
    TInner,
> {
    fn fpga_wrapper(
        &mut self,
        stream: Source,
        identifiers: &Vec<usize>,
        peers: usize,
    ) -> (r: (Registered, WrapperState)) {
        let mut names = numbered_names("Filter", NUMBER_OF_FILTER_OPERATORS);
        let mut maps = numbered_names("Map", NUMBER_OF_MAP_OPERATORS);
        let ghost filters = names@;
        let ghost others = maps@;
        names.append(&mut maps);
        proof {
            assert(texts(names@) =~= texts(filters) + texts(others));
            assert(texts(names@) == wrapper_names());
        }
        let registered = register(self, stream, &names, identifiers, peers, true);
        proof {
            lemma_run_distinct(old(self).child_count, names@.len());
        }
        let state = WrapperState::new(&registered.ghosts);
        assert(state.ghost_indexes@ =~= numbered(registered.ghosts@));
        (registered, state)
    }
}

/// A message survives the way to the device and back: where the frontiers and the data fit into
/// a frame and each value has its highest bit clear, the frame starts with the time of the
/// message and its words of data hold the data.
pub proof fn law_frame_round_trip(time: u64, frontiers: Seq<Seq<u64>>, data: Seq<u64>)
    requires
        all_frontier_words(frontiers).len() < FRONTIER_LENGTH,
        data.len() <= NUMBER_OF_INPUTS,
        forall|i: int| 0 <= i < data.len() ==> #[trigger] data[i] < 0x8000_0000_0000_0000,
    ensures
        message_frame(time, frontiers, data).len() == MAX_LENGTH_IN,
        message_frame(time, frontiers, data)[0] == time,
        all_decoded(frame_data(message_frame(time, frontiers, data))) == data,
{
    let head = padded(seq![time] + all_frontier_words(frontiers), FRONTIER_LENGTH as nat);
    let frame = message_frame(time, frontiers, data);
    assert(head.len() == FRONTIER_LENGTH);
    assert(frame_data(frame) =~= padded(data_words(data), NUMBER_OF_INPUTS as nat));
    law_data_round_trip(data, NUMBER_OF_INPUTS as nat);
}

/// The emulated device hands messages through: its answer to the frame of a message leads to
/// the same data being sent on at the same time, and reports that the first node consumed each
/// value and produced those that pass the filter.
pub proof fn law_message_echoed(time: u64, frontiers: Seq<Seq<u64>>, data: Seq<u64>, nodes: nat)
    requires
        time != NO_MESSAGE,
        all_frontier_words(frontiers).len() < FRONTIER_LENGTH,
        data.len() <= NUMBER_OF_INPUTS,
        0 < nodes,
        forall|i: int| 0 <= i < data.len() ==> #[trigger] data[i] < 0x8000_0000_0000_0000,
    ensures
        ({
            let frame = message_frame(time, frontiers, data);
            let answer = emulated(
                frame_data(frame),
                OPERATOR_COUNT as nat,
                MAX_LENGTH_OUT as nat,
            ).update(TIME_INDEX as int, frame[0]);
            &&& answer_session(answer, nodes) == Some((time, data))
            &&& answer_groups(answer, nodes)[0].consumed == data.len()
            &&& answer_groups(answer, nodes)[0].produced == passing_values(data)
        }),
{
    let frame = message_frame(time, frontiers, data);
    law_frame_round_trip(time, frontiers, data);
    let words = frame_data(frame);
    let answer = emulated(words, OPERATOR_COUNT as nat, MAX_LENGTH_OUT as nat);
    let valid = valid_count(words);
    let passing = passing_count(words);
    lemma_groups_len(valid as u64, passing as u64, OPERATOR_COUNT as nat);
    let stamped = answer.update(TIME_INDEX as int, frame[0]);
    assert(stamped.subrange(0, DATA_LENGTH as int) =~= words);
    let head = padded(seq![time] + all_frontier_words(frontiers), FRONTIER_LENGTH as nat);
    assert(head.len() == FRONTIER_LENGTH);
    assert(words =~= padded(data_words(data), NUMBER_OF_INPUTS as nat));
    lemma_counts_data(data, NUMBER_OF_INPUTS as nat);
    law_emulated_counts(words);
    let groups = emulated_groups(valid as u64, passing as u64, OPERATOR_COUNT as nat);
    assert(emulated_groups(valid as u64, passing as u64, 0) + seq![
        valid as u64,
        passing as u64,
        0u64,
        0u64,
    ] == groups);
    assert(stamped[PROGRESS_START_INDEX as int] == groups[0]);
    assert(stamped[PROGRESS_START_INDEX + 1] == groups[1]);
}

/// Sending a frame and reading its answer touch the two lines alone.
pub proof fn law_plans_in_lines(input: Seq<u64>)
    requires
        input.len() == MAX_LENGTH_IN,
    ensures
        in_area(send_plan(input), USED_CACHE_SIZE as nat),
        in_area(read_plan(), USED_CACHE_SIZE as nat),
{
    let frontiers = input.subrange(1, 17);
    let data = input.subrange(FRONTIER_LENGTH as int, FRONTIER_LENGTH + 16);
    lemma_in_area_lines(0, frontiers, 16, USED_CACHE_SIZE as nat);
    lemma_in_area_lines(16, data, 16, USED_CACHE_SIZE as nat);
    lemma_in_area_join(
        fenced_stores(0, frontiers),
        fenced_stores(16, data),
        USED_CACHE_SIZE as nat,
    );
    lemma_in_area_join(fenced_loads(0, 16), fenced_loads(16, 16), USED_CACHE_SIZE as nat);
}

/// What a frame says, where no frontier has more than one time: first the time of the message, or
/// the largest word where there is none; then the frontier of each node, as twice the time and one
/// more, or zero where it is empty; zeros up to word 24; then the records, each as twice its value
/// and one more; and zeros.
pub proof fn law_frame_words(time: u64, frontiers: Seq<Seq<u64>>, data: Seq<u64>, i: int)
    requires
        frontiers.len() <= 23,
        data.len() <= 16,
        forall|k: int| 0 <= k < frontiers.len() ==> (#[trigger] frontiers[k]).len() <= 1,
        forall|k: int|
            0 <= k < frontiers.len() && (#[trigger] frontiers[k]).len() == 1 ==> frontiers[k][0]
                < 0x8000_0000_0000_0000,
        forall|k: int| 0 <= k < data.len() ==> #[trigger] data[k] < 0x8000_0000_0000_0000,
        0 <= i < 40,
    ensures
        fits_frame(frontiers, data.len()),
        message_frame(time, frontiers, data).len() == 40,
        idle_frame(frontiers).len() == 40,
        ({
            let word = message_frame(time, frontiers, data)[i];
            let idle_word = idle_frame(frontiers)[i];
            if i == 0 {
                &&& word == time
                &&& idle_word == u64::MAX
            } else if i < 24 {
                let expected = if i > frontiers.len() || frontiers[i - 1].len() == 0 {
                    0int
                } else {
                    2 * frontiers[i - 1][0] + 1
                };
                &&& word == expected
                &&& idle_word == expected
            } else {
                &&& word == (if i - 24 < data.len() {
                    2 * data[i - 24] + 1
                } else {
                    0
                })
                &&& idle_word == 0
            }
        }),
{
    let words = all_frontier_words(frontiers);
    lemma_frontier_count(frontiers);
    if 1 <= i <= frontiers.len() {
        law_frontier_at_index(frontiers, i - 1);
    }
    law_words_written(data);
    let head = padded(seq![time] + words, FRONTIER_LENGTH as nat);
    assert(head.len() == 24);
    let all = head + data_words(data);
    assert(padded(all, 40).len() == 40);
    if i < 24 {
        assert(padded(all, 40)[i] == head[i]);
    } else if data.len() > 0 && i - 24 < data.len() {
        assert(padded(all, 40)[i] == data_words(data)[i - 24]);
    }
}

/// Where a frontier has more than one time, its words follow one another; the frame still starts
/// with the time of the message, goes on with the words of the frontiers, and has its records from
/// word 24 on.
pub proof fn law_frame_parts(time: u64, frontiers: Seq<Seq<u64>>, data: Seq<u64>)
    requires
        all_frontier_words(frontiers).len() < 24,
        data.len() <= 16,
    ensures
        ({
            let words = all_frontier_words(frontiers);
            let frame = message_frame(time, frontiers, data);
            let idle = idle_frame(frontiers);
            &&& frame.len() == 40
            &&& idle.len() == 40
            &&& frame[0] == time
            &&& idle[0] == u64::MAX
            &&& frame.subrange(1, (1 + words.len()) as int) == words
            &&& idle.subrange(1, (1 + words.len()) as int) == words
            &&& forall|i: int| 1 + words.len() <= i < 24 ==> #[trigger] frame[i] == 0
            &&& forall|i: int| 1 + words.len() <= i < 40 ==> #[trigger] idle[i] == 0
            &&& frame.subrange(24, (24 + data_words(data).len()) as int) == data_words(data)
            &&& forall|i: int| 24 + data_words(data).len() <= i < 40 ==> #[trigger] frame[i] == 0
        }),
{
    let words = all_frontier_words(frontiers);
    let frame = message_frame(time, frontiers, data);
    let idle = idle_frame(frontiers);
    let head = padded(seq![time] + words, FRONTIER_LENGTH as nat);
    assert(head.len() == 24);
    assert(frame.subrange(1, (1 + words.len()) as int) =~= words);
    assert(idle.subrange(1, (1 + words.len()) as int) =~= words);
    assert(frame.subrange(24, (24 + data_words(data).len()) as int) =~= data_words(data));
}

/// Sending a frame puts words 1 to 16 of it into the first line and words 24 to 39 into the second.
/// The answer is read from the first line and then from the second, word after word. The lines are
/// fenced off from one another.
pub proof fn law_frame_exchanged(input: Seq<u64>, memory: Map<int, u64>, i: int)
    requires
        input.len() == 40,
        0 <= i < 16,
    ensures
        memory_after(memory, send_plan(input))[i] == input[1 + i],
        memory_after(memory, send_plan(input))[16 + i] == input[24 + i],
        loaded_slots(send_plan(input)) == Seq::<int>::empty(),
        loaded_slots(read_plan()) == Seq::new(32, |j: int| j),
        memory_after(memory, read_plan()) == memory,
        is_fenced(send_plan(input)),
        is_fenced(read_plan()),
        send_plan(input).last() == Access::Fence,
        read_plan().last() == Access::Fence,
{
    let first = input.subrange(1, 17);
    let second = input.subrange(24, 40);
    let m1 = memory_after(memory, fenced_stores(0, first));
    lemma_plans_join(memory, fenced_stores(0, first), fenced_stores(16, second));
    law_stores_write(memory, 0, first, i);
    law_stores_write(m1, 16, second, i);
    law_stores_write(m1, 16, second, 16 + i);
    assert(loaded_slots(send_plan(input)) =~= Seq::<int>::empty());
    lemma_plans_join(memory, fenced_loads(0, 16), fenced_loads(16, 16));
    law_loads_read(memory, 0, 16);
    law_loads_read(memory, 16, 16);
    assert(loaded_slots(read_plan()) =~= Seq::new(32, |j: int| j));
    lemma_fenced_lines(0, first, 16);
    lemma_fenced_lines(16, second, 16);
    lemma_fenced_join(fenced_stores(0, first), fenced_stores(16, second));
    lemma_fenced_join(fenced_loads(0, 16), fenced_loads(16, 16));
}

/// The frames that the emulated device accepts: the word of the one frontier, and each word of
/// data, is odd or zero.
pub proof fn law_frames_accepted(input: Seq<u64>)
    requires
        input.len() == 40,
    ensures
        acceptable(input) <==> {
            &&& input[1] % 2 == 1 || input[1] == 0
            &&& forall|i: int| 24 <= i < 40 ==> (#[trigger] input[i]) % 2 == 1 || input[i] == 0
        },
{
}

/// The emulated device hands the sixteen words of data of a frame back, and reports from word 16 on
/// how many of them hold a value and how many one that is five or more.
pub proof fn law_device_emulated(input: Seq<u64>, i: int)
    requires
        input.len() == 40,
        0 <= i < 97,
    ensures
        ({
            let data = input.subrange(24, 40);
            let answer = emulated(frame_data(input), OPERATOR_COUNT as nat, MAX_LENGTH_OUT as nat);
            &&& answer.len() == 97
            &&& i < 16 ==> answer[i] == input[24 + i]
            &&& i == 16 ==> answer[i] == data.filter(|w: u64| w % 2 == 1).len()
            &&& i == 17 ==> answer[i] == data.filter(|w: u64| w % 2 == 1 && w / 2 >= 5).len()
            &&& i >= 18 ==> answer[i] == 0
        }),
{
    let data = frame_data(input);
    assert(data =~= input.subrange(24, 40));
    law_answer_emulated(data, 1, 97, i);
    law_answer_emulated(data, 1, 97, 0);
    law_answer_emulated(data, 1, 97, i - 20);
}

/// What is collected from an answer. If it answers a message, data is sent on at the time of the
/// message, and each node is told all that its four words report. If not, data is sent on, if there
/// is any, at the time that the last node reports, half of its third word; and the last node alone
/// is told what it produced at that time and what happened to its capabilities.
pub proof fn law_answer_collected(
    p: ProgressContents<u64>,
    ghosts: Seq<(usize, usize)>,
    answer: Seq<u64>,
    k: int,
)
    requires
        0 < ghosts.len(),
        16 + 4 * ghosts.len() <= 97,
        answer.len() == 97,
        numbers_nodes(ghosts),
        0 <= k < ghosts.len(),
        forall|j: int| 0 <= j < ghosts.len() ==> is_tidy(p, (#[trigger] ghosts[j]).1),
    ensures
        ({
            let data = answer.take(16).filter(|w: u64| w != 0).map_values(|w: u64| w / 2);
            let n = ghosts.len() as int;
            let q = answer_progress(p, ghosts, answer);
            let session = answer_session(answer, ghosts.len());
            let last = ghosts[n - 1].1;
            let late = answer[16 + 4 * (n - 1) + 2] / 2;
            let node = ghosts[k].1;
            let at = 16 + 4 * k;
            if answer[96] != u64::MAX {
                &&& session == Some((answer[96], data))
                &&& counts_more(
                    p.wrapper_consumeds[node],
                    q.wrapper_consumeds[node],
                    answer[96],
                    signed(answer[at]),
                )
                &&& counts_more(
                    p.wrapper_produceds[node],
                    q.wrapper_produceds[node],
                    answer[96],
                    signed(answer[at + 1]),
                )
                &&& counts_more(
                    p.wrapper_internals[node],
                    q.wrapper_internals[node],
                    answer[at + 2] / 2,
                    signed(answer[at + 3]),
                )
                &&& q.frontiers == p.frontiers
                &&& q.consumeds == p.consumeds
                &&& q.internals == p.internals
                &&& q.produceds == p.produceds
                &&& q.wrapper_frontiers == p.wrapper_frontiers
            } else if data.len() > 0 {
                &&& session == Some((late, data))
                &&& same_but_for(p, q, last)
                &&& q.wrapper_consumeds == p.wrapper_consumeds
                &&& counts_more(
                    p.wrapper_produceds[last],
                    q.wrapper_produceds[last],
                    late,
                    signed(answer[16 + 4 * (n - 1) + 1]),
                )
                &&& counts_more(
                    p.wrapper_internals[last],
                    q.wrapper_internals[last],
                    late,
                    signed(answer[16 + 4 * (n - 1) + 3]),
                )
            } else {
                &&& session is None
                &&& q == p
            }
        }),
{
    let n = ghosts.len();
    let groups = answer_groups(answer, n);
    assert(answer.subrange(0, 16) =~= answer.take(16));
    law_words_read(answer.take(16));
    law_reports_read(answer, 16, n, k);
    law_reports_read(answer, 16, n, n - 1);
    if answer[96] != u64::MAX {
        law_reports_passed_on(p, ghosts, answer[96], groups, n, k);
    } else {
        assert(is_tidy(p, ghosts[n - 1].1));
        law_report_passed_on(p, ghosts[n - 1].1, groups[n - 1].time, groups[n - 1]);
    }
}

/// Answers are collected in their order: those of some answers and then of others are those of all.
/// An answer alone is collected as such.
pub proof fn law_collected_in_turn(
    p: ProgressContents<u64>,
    ghosts: Seq<(usize, usize)>,
    first: Seq<Seq<u64>>,
    second: Seq<Seq<u64>>,
    answer: Seq<u64>,
)
    ensures
        all_collected(p, ghosts, first + second) == all_collected(
            all_collected(p, ghosts, first),
            ghosts,
            second,
        ),
        all_sessions(first + second, ghosts.len()) == all_sessions(first, ghosts.len())
            + all_sessions(second, ghosts.len()),
        all_collected(p, ghosts, seq![answer]) == answer_progress(p, ghosts, answer),
        all_sessions(seq![answer], ghosts.len()) == (match answer_session(answer, ghosts.len()) {
            Some(session) => seq![session],
            None => Seq::empty(),
        }),
        all_collected(p, ghosts, Seq::empty()) == p,
        all_sessions(Seq::empty(), ghosts.len()) == Seq::<(u64, Seq<u64>)>::empty(),
    decreases first.len(),
{
    let n = ghosts.len();
    reveal_with_fuel(all_collected, 2);
    reveal_with_fuel(all_sessions, 2);
    assert(seq![answer].drop_first() =~= Seq::<Seq<u64>>::empty());
    match answer_session(answer, n) {
        Some(session) => {
            assert(all_sessions(seq![answer], n) =~= seq![session]);
        },
        None => {},
    }
    if first.len() == 0 {
        assert(first + second =~= second);
        assert(all_sessions(first, n) + all_sessions(second, n) =~= all_sessions(second, n));
    } else {
        assert((first + second).drop_first() =~= first.drop_first() + second);
        law_collected_in_turn(
            answer_progress(p, ghosts, first[0]),
            ghosts,
            first.drop_first(),
            second,
            answer,
        );
        assert(all_sessions(first + second, n) =~= all_sessions(first, n) + all_sessions(second, n));
    }
}

/// In a round there is a frame for each message, in their order, or one without a message where
/// there is none.
pub proof fn law_round_framed(
    frontiers: Seq<Seq<u64>>,
    messages: Seq<(u64, Seq<u64>)>,
    k: int,
)
    requires
        0 <= k < messages.len(),
    ensures
        round_frames(frontiers, messages).len() == messages.len(),
        round_frames(frontiers, messages)[k] == message_frame(
            messages[k].0,
            frontiers,
            messages[k].1,
        ),
        round_frames(frontiers, Seq::empty()) == seq![idle_frame(frontiers)],
{
}

/// One operator on the device filters, and none maps.
pub proof fn law_operators_named()
    ensures
        wrapper_names() == seq!["Filter"@.push('1')],
{
    law_names_numbered("Filter"@, 1, 0);
    assert(wrapper_names() =~= seq!["Filter"@.push('1')]);
}

/// Messages, frames, answers and what is sent on are taken as they are, in their order.
pub proof fn law_taken_as_they_are(
    messages: Seq<(u64, Vec<u64>)>,
    frames: Seq<[u64; MAX_LENGTH_IN]>,
    answers: Seq<[u64; MAX_LENGTH_OUT]>,
    session: Option<(u64, Vec<u64>)>,
    k: int,
)
    ensures
        message_views(messages).len() == messages.len(),
        0 <= k < messages.len() ==> message_views(messages)[k] == (messages[k].0, messages[k].1@),
        frame_views(frames).len() == frames.len(),
        0 <= k < frames.len() ==> frame_views(frames)[k] == frames[k]@,
        answer_views(answers).len() == answers.len(),
        0 <= k < answers.len() ==> answer_views(answers)[k] == answers[k]@,
        session is None <==> session_view(session) is None,
        session matches Some(sent) ==> session_view(session) == Some((sent.0, sent.1@)),
{
}

} // verus!
