//! What there is to log about a scope and its operators.

use vstd::prelude::*;

verus! {

/// An operator was added to a scope.
#[derive(Debug, PartialEq, Eq)]
pub struct OperatesEvent {
    /// Worker-unique identifier of the operator.
    pub id: usize,
    /// Indexes that lead to the operator from the root.
    pub addr: Vec<usize>,
    /// Name of the operator.
    pub name: String,
}

impl View for OperatesEvent {
    type V = (usize, Seq<usize>, Seq<char>);

    open spec fn view(&self) -> (usize, Seq<usize>, Seq<char>) {
        (self.id, self.addr@, self.name@)
    }
}

/// What each of `events` tells.
pub open spec fn event_views(events: Seq<OperatesEvent>) -> Seq<(usize, Seq<usize>, Seq<char>)> {
    events.map_values(|e: OperatesEvent| e@)
}

/// Frontier changes wait for an operator.
#[derive(Clone, Copy, Debug, PartialEq, Eq, Structural)]
pub struct PushProgressEvent {
    /// Worker-unique identifier of the operator.
    pub op_id: usize,
}

/// Whether something starts or stops.
#[derive(Clone, Copy, Debug, PartialEq, Eq, Structural)]
pub enum StartStop {
    /// It starts.
    Start,
    /// It stops.
    Stop,
}

/// An operator starts or stops to work.
#[derive(Clone, Copy, Debug, PartialEq, Eq, Structural)]
pub struct ScheduleEvent {
    /// Worker-unique identifier of the operator.
    pub id: usize,
    /// Whether it starts or stops.
    pub start_stop: StartStop,
}

/// An operator was closed.
#[derive(Clone, Copy, Debug, PartialEq, Eq, Structural)]
pub struct ShutdownEvent {
    /// Worker-unique identifier of the operator.
    pub id: usize,
}

/// Anything there is to log about an operator once it was added.
#[derive(Clone, Copy, Debug, PartialEq, Eq, Structural)]
pub enum OperatorEvent {
    /// Frontier changes wait for it.
    PushProgress(PushProgressEvent),
    /// It starts or stops to work.
    Schedule(ScheduleEvent),
    /// It was closed.
    Shutdown(ShutdownEvent),
}

/// The address of child `index` of the scope at `path`.
pub fn child_address(path: &Vec<usize>, index: usize) -> (r: Vec<usize>)
    ensures
        r@ == path@.push(index),
{
    let mut r = path.clone();
    assert(r@ =~= path@);
    r.push(index);
    r
}

/// Events are taken as they are, in their order: by identifier, address and name.
pub proof fn law_events_as_they_are(events: Seq<OperatesEvent>, k: int)
    ensures
        event_views(events).len() == events.len(),
        0 <= k < events.len() ==> event_views(events)[k] == (
            events[k].id,
            events[k].addr@,
            events[k].name@,
        ),
{
}

} // verus!
