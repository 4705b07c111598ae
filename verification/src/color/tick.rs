//! Per-tick orchestration of the detection loop.
//!
//! Each tick drains one frame from the input channel, hands it to the
//! inference collaborator, and publishes the suppressed detections into the
//! output channel. The collaborator (model loading and tensor execution)
//! lives with the caller; this module holds the verified half of the tick:
//! given the raw candidate buffer the collaborator produced for a frame, it
//! runs the suppression engine into a pre-allocated batch inside the output
//! channel's write slot and commits it, so the consumer sees the batch only
//! after it is complete.

use vstd::prelude::*;

use crate::color::bounds::Bounds;
use crate::color::image::ScaleMessage;
use crate::color::utils::detections_match;
use crate::color::utils::nms_tensor;
use crate::color::utils::spec_accepted;
use crate::color::utils::spec_candidates;
use crate::color::utils::wf_candidates;
use crate::config::SCORE_SCALE;
use crate::config::STREAM_CAPACITY;
use crate::utils::stream::Stream;
use crate::utils::stream::StreamError;

verus! {

/// Runs the suppression engine over one tick's raw output and publishes the
/// resulting batch into `output` through the acquire-and-commit path: the
/// batch already resident in the write slot is cleared and refilled in
/// place, so no per-tick allocation is needed once the channel has cycled.
/// Fails with `Full`, publishing nothing and changing nothing, when the
/// channel has no free slot — a flow-control signal for the caller, not a
/// fault.
pub fn publish_detections(
    output: &mut Stream<Bounds>,
    data: &Vec<i64>,
    num_boxes: usize,
    num_params: usize,
    message: &ScaleMessage,
    confidence_threshold: i64,
    nms_threshold: i64,
) -> (r: Result<(), StreamError>)
    requires
        old(output).wf(),
        num_params >= 5,
        num_boxes * num_params <= data@.len(),
        wf_candidates(spec_candidates(data@, num_boxes as int, num_params as int)),
        message.s_width > 0,
        message.s_height > 0,
        0 <= nms_threshold <= SCORE_SCALE,
    ensures
        final(output).wf(),
        old(output)@.len() == STREAM_CAPACITY - 1 ==> r == Result::<(), StreamError>::Err(
            StreamError::Full,
        ) && final(output)@ == old(output)@,
        old(output)@.len() < STREAM_CAPACITY - 1 ==> r == Result::<(), StreamError>::Ok(()) && {
            &&& final(output)@.len() == old(output)@.len() + 1
            &&& final(output)@.drop_last() == old(output)@
            &&& detections_match(
                final(output)@.last()@,
                spec_accepted(
                    data@,
                    num_boxes as int,
                    num_params as int,
                    confidence_threshold,
                    nms_threshold,
                ),
                *message,
            )
        },
{
    let ghost pre = *output;
    proof {
        pre.lemma_count_bound();
    }
    match output.get_write_mut() {
        Err(e) => Err(e),
        Ok(slot) => {
            let present = match slot {
                Some(_) => true,
                None => false,
            };
            if !present {
                *slot = Some(Bounds::new());
            }
            match slot {
                Some(batch) => {
                    nms_tensor(
                        data,
                        num_boxes,
                        num_params,
                        batch,
                        message,
                        confidence_threshold,
                        nms_threshold,
                    );
                },
                None => {},
            }
            let committed = output.commit_write();
            proof {
                assert(committed is Ok);
                assert(output@.drop_last() =~= pre@);
            }
            Ok(())
        },
    }
}

} // verus!
