//! How an event travels down the stack of interaction modes: the mode on top
//! answers first, and the modes below hear it in turn until one stops it.

use vstd::prelude::*;

verus! {

/// What a mode does with an event it heard as a member of the stack.
#[derive(Debug)]
pub enum EventAction<M> {
    /// Let the mode below hear it too.
    Continue,
    /// Stop here.
    Done,
    /// Push a new mode, and stop.
    Push(M),
}

/// What the mode on top does with an event.
#[derive(Debug)]
pub enum TopAction<M> {
    /// Act as a member of the stack would.
    Do(EventAction<M>),
    /// Hear the event as a member of the stack first.
    AsEvent,
    /// Leave the stack.
    Pop,
    /// Leave the stack in favour of a new mode.
    Swap(M),
}

impl<M> TopAction<M> {
    #[allow(non_snake_case)]
    pub fn continue_() -> (t: TopAction<M>)
        ensures
            t matches TopAction::Do(EventAction::Continue),
    {
        TopAction::Do(EventAction::Continue)
    }

    pub fn done() -> (t: TopAction<M>)
        ensures
            t matches TopAction::Do(EventAction::Done),
    {
        TopAction::Do(EventAction::Done)
    }

    pub fn push(m: M) -> (t: TopAction<M>)
        ensures
            t matches TopAction::Do(EventAction::Push(x)) && x == m,
    {
        TopAction::Do(EventAction::Push(m))
    }

    pub fn swap(m: M) -> (t: TopAction<M>)
        ensures
            t matches TopAction::Swap(x) && x == m,
    {
        TopAction::Swap(m)
    }
}

impl<M> EventAction<M> {
    pub fn push(m: M) -> (e: EventAction<M>)
        ensures
            e matches EventAction::Push(x) && x == m,
    {
        EventAction::Push(m)
    }
}

/// What the stack does next with an event.
#[derive(Debug)]
pub enum Step<M> {
    /// Let the mode at this position (counted from the bottom) hear it.
    Ask(usize),
    /// Pop the top mode; the event is handled.
    Pop,
    /// Pop the top mode and push this one; the event is handled.
    Swap(M),
    /// Push this mode; the event is handled.
    Push(M),
    /// The event is handled.
    Stop,
}

/// The step after the mode at `ix` answered `reply` as a member of the stack.
pub open spec fn after_layer_spec<M>(ix: usize, reply: EventAction<M>) -> Step<M> {
    match reply {
        EventAction::Continue => if ix == 0 {
            Step::Stop
        } else {
            Step::Ask((ix - 1) as usize)
        },
        EventAction::Done => Step::Stop,
        EventAction::Push(m) => Step::Push(m),
    }
}

/// The step after the mode at `ix` answered `reply` as a member of the stack:
/// on `Continue` the mode below hears the event (none does below the bottom),
/// on `Done` the event is handled, and a pushed mode goes on top.
pub fn after_layer<M>(ix: usize, reply: EventAction<M>) -> (s: Step<M>)
    ensures
        s == after_layer_spec(ix, reply),
        reply is Done ==> s is Stop,
        reply is Continue && ix == 0 ==> s is Stop,
        reply is Continue && ix > 0 ==> (s matches Step::Ask(next) && next + 1 == ix),
        reply matches EventAction::Push(m) ==> (s matches Step::Push(x) && x == m),
{
    match reply {
        EventAction::Continue => if ix == 0 {
            Step::Stop
        } else {
            Step::Ask(ix - 1)
        },
        EventAction::Done => Step::Stop,
        EventAction::Push(m) => Step::Push(m),
    }
}

/// The step after the top of a stack of `len` modes answered `reply`, as
/// `after_top` computes it.
pub open spec fn top_step<M>(len: usize, reply: TopAction<M>) -> Step<M> {
    match reply {
        TopAction::Do(ea) => after_layer_spec((len - 1) as usize, ea),
        TopAction::AsEvent => Step::Ask((len - 1) as usize),
        TopAction::Pop => Step::Pop,
        TopAction::Swap(m) => Step::Swap(m),
    }
}

/// The step after the top of a stack of `len` modes answered `reply`: an
/// action goes on as the top's answer as a member would; `AsEvent` lets the
/// top hear the event as a member; `Pop` and `Swap` replace the top.
pub fn after_top<M>(len: usize, reply: TopAction<M>) -> (s: Step<M>)
    requires
        len > 0,
    ensures
        s == match reply {
            TopAction::Do(ea) => after_layer_spec((len - 1) as usize, ea),
            TopAction::AsEvent => Step::Ask((len - 1) as usize),
            TopAction::Pop => Step::Pop,
            TopAction::Swap(m) => Step::Swap(m),
        },
        reply matches TopAction::Do(EventAction::Done) ==> s is Stop,
        reply is AsEvent ==> (s matches Step::Ask(top) && top + 1 == len),
        (reply matches TopAction::Do(EventAction::Continue)) && len > 1 ==> (s matches Step::Ask(next)
            && next + 2 == len),
{
    match reply {
        TopAction::Do(ea) => after_layer(len - 1, ea),
        TopAction::AsEvent => Step::Ask(len - 1),
        TopAction::Pop => Step::Pop,
        TopAction::Swap(m) => Step::Swap(m),
    }
}

/// A mode that answers `Done`, wherever it stands in the stack, ends the
/// event's walk: no mode below it hears the event.
pub proof fn law_done_ends_walk<M>(ix: usize)
    ensures
        after_layer_spec(ix, EventAction::<M>::Done) is Stop,
        forall|len: usize| len > 0 ==> #[trigger] top_step(len, TopAction::<M>::Do(EventAction::Done)) is Stop,
{
}

/// A mode that answers `Continue` passes the event to the mode just below
/// it, and the bottom mode's `Continue` ends the walk.
pub proof fn law_continue_passes_down<M>(ix: usize)
    ensures
        ix > 0 ==> after_layer_spec(ix, EventAction::<M>::Continue) == Step::<M>::Ask((ix - 1) as usize),
        ix == 0 ==> after_layer_spec(ix, EventAction::<M>::Continue) is Stop,
{
}

/// Every mode asked after the top sits below the one asked before it, so an
/// event reaches each mode at most once as a member and its walk ends.
pub proof fn law_walk_descends<M>(ix: usize, reply: EventAction<M>)
    ensures
        after_layer_spec(ix, reply) matches Step::Ask(next) ==> next < ix,
{
}

} // verus!
