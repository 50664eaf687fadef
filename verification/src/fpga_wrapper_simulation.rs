//! Running operators on a device that is only simulated: one frame carries all messages of a
//! round.

use vstd::prelude::*;

use crate::device::{frontiers_of, WrapperState};
use crate::fpga_wrapper::message_views;
use crate::location::Source;
use crate::naming::texts;
use crate::order::{Refines, Timestamp};
use crate::registration::{
    lemma_run_distinct, numbered, register, registered_with, Host, Registered,
};
use crate::subgraph_builder::SubgraphBuilder;
use crate::words::{
    all_frontier_words, data_words, law_words_written, pad, padded, push_encoded, zeros,
};

verus! {

/// The first word of a frame: the lines that it fills.
pub const ALL_LENGTH: u64 = 4;

/// Words of a frame before the messages.
pub const INFO_LENGTH: usize = 24;

/// Words of a frame at least.
pub const MAX_LENGTH: usize = 32;

/// The words of one message: its time, the length of its data, and the data.
pub open spec fn message_words(time: u64, data: Seq<u64>) -> Seq<u64> {
    seq![time, data.len() as u64] + data_words(data)
}

/// The words of each message in turn.
pub open spec fn all_message_words(messages: Seq<(u64, Seq<u64>)>) -> Seq<u64>
    decreases messages.len(),
{
    if messages.len() == 0 {
        Seq::empty()
    } else {
        all_message_words(messages.drop_last()) + message_words(
            messages.last().0,
            messages.last().1,
        )
    }
}

/// The frame of a round: frontiers, then messages.
pub open spec fn round_frame(
    frontiers: Seq<Seq<u64>>,
    messages: Seq<(u64, Seq<u64>)>,
) -> Seq<u64> {
    padded(
        padded(seq![ALL_LENGTH] + all_frontier_words(frontiers), INFO_LENGTH as nat)
            + all_message_words(messages),
        MAX_LENGTH as nat,
    )
}

/// The frame of a round.
pub fn frame_round(state: &WrapperState, messages: &Vec<(u64, Vec<u64>)>) -> (r: Vec<u64>)
    ensures
        r@ == round_frame(frontiers_of(state.frontier@), message_views(messages@)),
{
    let ghost views = message_views(messages@);
    let mut words: Vec<u64> = Vec::new();
    words.push(ALL_LENGTH);
    state.push_frontiers(&mut words);
    assert(words@ =~= seq![ALL_LENGTH] + all_frontier_words(frontiers_of(state.frontier@)));
    pad(&mut words, INFO_LENGTH);
    let ghost head = words@;
    let mut i: usize = 0;
    assert(words@ =~= head + all_message_words(views.take(0)));
    while i < messages.len()
        invariant
            i <= messages@.len(),
            views == message_views(messages@),
            words@ == head + all_message_words(views.take(i as int)),
        decreases messages@.len() - i,
    {
        let ghost before = words@;
        let data = &messages[i].1;
        words.push(messages[i].0);
        words.push(data.len() as u64);
        if data.len() == 0 {
            words.push(0);
        } else {
            push_encoded(&mut words, data);
        }
        proof {
            assert(words@ =~= before + message_words(views[i as int].0, views[i as int].1));
            assert(views.take(i + 1).drop_last() =~= views.take(i as int));
            assert(words@ =~= head + all_message_words(views.take(i + 1)));
        }
        i += 1;
    }
    assert(views.take(i as int) =~= views);
    pad(&mut words, MAX_LENGTH);
    words
}

/// The answer to a frame: the start of the frame, fixed reports of two operators, and one word
/// of data.
pub open spec fn simulated_answer(frame: Seq<u64>) -> Seq<u64> {
    frame.take(4) + seq![1u64, 0, 1, 1, 0, 1, 3] + zeros(12)
}

/// The answer to a frame.
pub fn simulate(frame: &Vec<u64>) -> (r: Vec<u64>)
    requires
        4 <= frame@.len(),
    ensures
        r@ == simulated_answer(frame@),
        r@.len() == 23,
{
    let mut r: Vec<u64> = Vec::new();
    r.push(frame[0]);
    r.push(frame[1]);
    r.push(frame[2]);
    r.push(frame[3]);
    r.push(1);
    r.push(0);
    r.push(1);
    r.push(1);
    r.push(0);
    r.push(1);
    r.push(3);
    assert(r@ =~= frame@.take(4) + seq![1u64, 0, 1, 1, 0, 1, 3]);
    pad(&mut r, 23);
    r
}

/// The names of the operators on the device.
pub open spec fn simulation_names() -> Seq<Seq<char>> {
    seq!["Filter"@, "Map"@, "Aggregate"@]
}

/// Running operators on the simulated device.
pub trait FpgaWrapperSimulation<TOuter: Timestamp, TInner: Refines<TOuter>>: Host<TOuter, TInner> {
    /// Puts the operators on the device, and the operator that stands for them, into a scope, behind
    /// `stream`.
    fn fpga_wrapper_simulation(
        &mut self,
        stream: Source,
        identifiers: &Vec<usize>,
        peers: usize,
    ) -> (r: (Registered, WrapperState))
        requires
            old(self).scope().child_count + 4 <= usize::MAX,
            4 <= identifiers@.len(),
        ensures
            registered_with(
                &old(self).scope(),
                &final(self).scope(),
                &r.0,
                stream,
                simulation_names(),
                identifiers@,
                peers,
                false,
            ),
            old(self).scope().wf() ==> final(self).scope().wf(),
            old(self).scope().is_dense() ==> final(self).scope().is_dense(),
            r.1.wf(),
            r.1.ghost_indexes@ == numbered(r.0.ghosts@),
            r.1.is_fresh(),
    ;
}

impl<TOuter: Timestamp, TInner: Refines<TOuter>> FpgaWrapperSimulation<
    TOuter,
    TInner,
> for SubgraphBuilder<TOuter, TInner> {
    fn fpga_wrapper_simulation(
        &mut self,
        stream: Source,
        identifiers: &Vec<usize>,
        peers: usize,
    ) -> (r: (Registered, WrapperState)) {
        let mut names: Vec<String> = Vec::new();
        names.push("Filter".to_string());
        names.push("Map".to_string());
        names.push("Aggregate".to_string());
        assert(texts(names@) =~= simulation_names());
        let registered = register(self, stream, &names, identifiers, peers, false);
        proof {
            lemma_run_distinct(old(self).child_count, names@.len());
        }
        let state = WrapperState::new(&registered.ghosts);
        assert(state.ghost_indexes@ =~= numbered(registered.ghosts@));
        (registered, state)
    }
}

/// The words of messages follow one another: those of some messages and then of others are those of
/// all. A message alone takes a word for its time, one for the number of its records, and one for
/// each record, or a zero where there is none.
pub proof fn law_messages_in_turn(
    first: Seq<(u64, Seq<u64>)>,
    second: Seq<(u64, Seq<u64>)>,
    time: u64,
    data: Seq<u64>,
)
    requires
        forall|i: int| 0 <= i < data.len() ==> #[trigger] data[i] < 0x8000_0000_0000_0000,
        data.len() <= u64::MAX,
    ensures
        all_message_words(first + second) == all_message_words(first) + all_message_words(second),
        ({
            let words = all_message_words(seq![(time, data)]);
            &&& words[0] == time
            &&& words[1] == data.len()
            &&& data.len() == 0 ==> words.len() == 3 && words[2] == 0
            &&& data.len() > 0 ==> words.len() == 2 + data.len()
            &&& forall|i: int| 0 <= i < data.len() ==> #[trigger] words[2 + i] == 2 * data[i] + 1
        }),
    decreases second.len(),
{
    reveal_with_fuel(all_message_words, 2);
    let one = seq![(time, data)];
    assert(one.drop_last() =~= Seq::<(u64, Seq<u64>)>::empty());
    law_words_written(data);
    let words = all_message_words(one);
    assert(words =~= message_words(time, data));
    assert forall|i: int| 0 <= i < data.len() implies #[trigger] words[2 + i] == 2 * data[i]
        + 1 by {
        assert(words[2 + i] == data_words(data)[i]);
        assert(data[i] < 0x8000_0000_0000_0000);
    }
    if second.len() == 0 {
        assert(first + second =~= first);
        assert(all_message_words(first) + Seq::<u64>::empty() =~= all_message_words(first));
    } else {
        assert((first + second).drop_last() =~= first + second.drop_last());
        law_messages_in_turn(first, second.drop_last(), time, data);
        assert(all_message_words(first + second) =~= all_message_words(first) + all_message_words(
            second,
        ));
    }
}

/// The frame of a round starts with the number four. The words of the frontiers follow, then zeros
/// up to word 24, then the words of the messages, and zeros up to word 32.
pub proof fn law_round_frame(frontiers: Seq<Seq<u64>>, messages: Seq<(u64, Seq<u64>)>)
    requires
        all_frontier_words(frontiers).len() < 24,
    ensures
        ({
            let frame = round_frame(frontiers, messages);
            let head = all_frontier_words(frontiers);
            let body = all_message_words(messages);
            &&& frame[0] == 4
            &&& frame.subrange(1, (1 + head.len()) as int) == head
            &&& forall|i: int| 1 + head.len() <= i < 24 ==> #[trigger] frame[i] == 0
            &&& frame.subrange(24, (24 + body.len()) as int) == body
            &&& forall|i: int| 24 + body.len() <= i < 32 ==> #[trigger] frame[i] == 0
            &&& frame.len() == (if body.len() <= 8 {
                32
            } else {
                24 + body.len()
            })
        }),
{
    let frame = round_frame(frontiers, messages);
    let head = all_frontier_words(frontiers);
    let body = all_message_words(messages);
    assert(padded(seq![4u64] + head, 24).len() == 24);
    assert(frame.subrange(1, (1 + head.len()) as int) =~= head);
    assert(frame.subrange(24, (24 + body.len()) as int) =~= body);
}

/// The simulated device repeats the first four words of a frame; what it says after that depends on
/// no frame.
pub proof fn law_answer_simulated(frame: Seq<u64>, other: Seq<u64>)
    requires
        4 <= frame.len(),
        4 <= other.len(),
    ensures
        simulated_answer(frame).len() == 23,
        simulated_answer(frame).take(4) == frame.take(4),
        simulated_answer(frame).skip(4) == simulated_answer(other).skip(4),
        simulated_answer(frame).subrange(4, 11) == seq![1u64, 0, 1, 1, 0, 1, 3],
        forall|i: int| 11 <= i < 23 ==> #[trigger] simulated_answer(frame)[i] == 0,
{
    assert(simulated_answer(frame).take(4) =~= frame.take(4));
    assert(simulated_answer(frame).skip(4) =~= simulated_answer(other).skip(4));
    assert(simulated_answer(frame).subrange(4, 11) =~= seq![1u64, 0, 1, 1, 0, 1, 3]);
}

/// The simulated device filters, maps and aggregates.
pub proof fn law_operators_named()
    ensures
        simulation_names().len() == 3,
        simulation_names()[0] == "Filter"@,
        simulation_names()[1] == "Map"@,
        simulation_names()[2] == "Aggregate"@,
{
}

} // verus!
