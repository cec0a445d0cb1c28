//! What an evaluation over a log takes in, counts and journals.
use crate::engine::EngineView;
use crate::number::Real;
use crate::replay::ReplayView;
use crate::types::EventView;
use vstd::prelude::*;

verus! {

/// An event behind the end is not taken in, and ends the evaluation; one at the end still is.
pub proof fn law_evaluations_end_behind_their_end<R: Real>(
    replay: ReplayView<R>,
    e: EventView<R>,
    end: u64,
)
    requires
        replay.end_ns == Some(end),
    ensures
        e.recv_ns > end ==> replay.stepped(e).0 == replay && replay.stepped(e).1 is Ok
            && replay.stepped(e).1->Ok_0 is None,
        e.recv_ns <= end && replay.stepped(e).1 is Ok ==> replay.stepped(e).1->Ok_0 is Some,
{
}

/// An event before the start is taken in as the engine without models takes it in; it is neither counted
/// nor journaled. From the start on the models speak, every sample is counted, and what the engine
/// journals is journaled.
pub proof fn law_evaluations_start_at_their_start<R: Real>(replay: ReplayView<R>, e: EventView<R>)
    requires
        replay.end_ns is Some ==> e.recv_ns <= replay.end_ns->0,
        replay.engine.models.len() == 0,
        replay.engine.after(e).1 is Ok,
        (EngineView { models: replay.models, ..replay.engine }).after(e).1 is Ok,
    ensures
        ({
            let (after, r) = replay.stepped(e);
            let early = replay.start_ns is Some && e.recv_ns < replay.start_ns->0;
            let speaking = EngineView { models: replay.models, ..replay.engine };
            let (engine, out) = speaking.after(e);
            &&& r is Ok
            &&& r->Ok_0 is Some
            &&& early ==> {
                &&& after.engine == replay.engine.after(e).0
                &&& after.models == replay.models
                &&& after.samples == replay.samples
                &&& r->Ok_0->0.len() == 0
            }
            &&& !early ==> {
                &&& after.engine == engine
                &&& r->Ok_0->0 == out->Ok_0.1
                &&& after.samples == if out->Ok_0.0 is Some {
                    replay.samples.wrapping_add(1)
                } else {
                    replay.samples
                }
            }
        }),
{
}

} // verus!
