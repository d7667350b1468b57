//! What follows the engine's step in a scan cycle.
//!
//! A cycle reads the coils, lets the engine step, and then tells the
//! handlers. Reading and stepping are the host's to do, under the access
//! that it has to the engine. What is done with the result of the step is
//! decided here: a failed step is reported and nothing else happens; after
//! a step that succeeded the changed coils are dispatched, the
//! cycle-complete handler is told, and the outputs are handed back as the
//! engine gave them.

use vstd::prelude::*;
use crate::callbacks::{dispatch_plan, CallbackManager, DeliveryView, Selector};
use crate::diff::{compute_diff, diff_of};
use crate::error::{EngineFailure, EngineStage, Error, Result};
use crate::states::{sorted_entries, StateMap};

verus! {

/// The coil-change calls that a cycle gives rise to: none where the step
/// failed; else the dispatch plan for the difference between the coils
/// before the step and the outputs of the step, the changed coils taken in
/// ascending name order.
pub open spec fn cycle_plan(
    targets: Seq<Selector>,
    before: Map<Seq<char>, bool>,
    stepped: std::result::Result<StateMap, String>,
) -> Seq<DeliveryView> {
    match stepped {
        Ok(outputs) => dispatch_plan(targets, sorted_entries(diff_of(before, outputs@))),
        Err(_) => Seq::empty(),
    }
}

/// Completes a scan cycle. `before` holds the coils as they were read
/// before the step, `stepped` what the engine's step returned: the coils
/// after it, or the engine's message where it failed.
///
/// Where the step failed, the failure is returned as an error of the
/// engine's step, and no handler is called. Where it succeeded, the calls
/// of the cycle's plan are made in the order of the plan, then the
/// cycle-complete handler, if there is one, is called with the outputs, and
/// the outputs are returned unchanged.
pub fn complete_cycle<H: Fn(&str, bool, bool), C: Fn(&StateMap)>(
    callbacks: &CallbackManager<H, C>,
    before: &StateMap,
    stepped: std::result::Result<StateMap, String>,
) -> (r: Result<StateMap>)
    ensures
        match stepped {
            Ok(outputs) => {
                &&& r == Ok::<StateMap, Error>(outputs)
                &&& callbacks.cycle_handler() matches Some(handler) ==> call_ensures(
                    handler,
                    (&outputs,),
                    (),
                )
            },
            Err(message) => r == Err::<StateMap, Error>(
                Error::VM(EngineFailure { stage: EngineStage::Step, message }),
            ),
        },
        callbacks.delivered(cycle_plan(callbacks.targets(), before@, stepped)),
{
    match stepped {
        Ok(outputs) => {
            let changes = compute_diff(before, &outputs);
            proof {
                use_type_invariant(&changes);
                changes.lemma_entries();
            }
            if !changes.is_empty() {
                callbacks.trigger_coil_changes(&changes);
            }
            callbacks.trigger_cycle_complete(&outputs);
            Ok(outputs)
        },
        Err(message) => Err(Error::from_engine_failure(EngineStage::Step, message)),
    }
}

} // verus!
