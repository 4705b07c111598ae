use perple::color::bounds::Bounds;
use perple::color::image::ScaleMessage;
use perple::color::tick::publish_detections;
use perple::color::utils::apply_nms;
use perple::color::utils::intersection;
use perple::color::utils::nms_tensor;
use perple::color::utils::process_detections;
use perple::color::utils::signed_area;
use perple::color::utils::sort_candidates;
use perple::color::utils::suppresses;
use perple::color::utils::to_bounds;
use perple::color::utils::union_area;
use perple::color::utils::Candidate;
use perple::config::DETECTIONS_CAPACITY;
use perple::utils::stream::Stream;
use perple::utils::stream::StreamError;

fn cand(x1: i64, y1: i64, x2: i64, y2: i64, confidence: i64) -> Candidate {
    Candidate { x1, y1, x2, y2, confidence }
}

fn square_message(size: u32) -> ScaleMessage {
    ScaleMessage { o_width: size, o_height: size, s_width: size, s_height: size }
}

#[test]
fn geometry_of_overlapping_boxes() {
    let a = cand(0, 0, 10, 10, 0);
    let b = cand(5, 5, 15, 15, 0);
    assert_eq!(signed_area(&a), 100);
    assert_eq!(intersection(&a, &b), 25);
    assert_eq!(union_area(&a, &b), 175);
    // IoU is 25/175 ~ 0.1428...: threshold 0.14 suppresses, 0.15 does not.
    assert!(suppresses(&a, &b, 140_000));
    assert!(!suppresses(&a, &b, 150_000));
    // Disjoint boxes never suppress each other, whatever the threshold.
    let far = cand(500, 500, 600, 600, 0);
    assert_eq!(intersection(&a, &far), 0);
    assert!(!suppresses(&a, &far, 0));
}

#[test]
fn overlapping_pair_keeps_only_the_higher_confidence() {
    // IoU(A, B) ~ 0.805, above the 0.7 threshold: only A survives.
    let data: Vec<i64> = vec![
        10, 10, 100, 100, 900_000, // A, confidence 0.9
        15, 15, 105, 105, 800_000, // B, confidence 0.8
    ];
    let dets = process_detections(&data, 2, 5, 640, 640, 640, 640, 500_000, 700_000);
    assert_eq!(dets.len(), 1);
    assert_eq!(dets[0].bbox.x1, 10);
    assert_eq!(dets[0].bbox.y1, 10);
    assert_eq!(dets[0].bbox.x2, 100);
    assert_eq!(dets[0].bbox.y2, 100);
    assert_eq!(dets[0].confidence, 900_000);
    assert_eq!(dets[0].class_id, 0);
    assert_eq!(dets[0].class_name, "person");
}

#[test]
fn distant_pair_is_fully_retained_and_ranked() {
    // The lower-confidence box comes first in the buffer; the result is
    // still ranked by confidence descending, and both survive.
    let data: Vec<i64> = vec![
        500, 500, 600, 600, 800_000, //
        10, 10, 100, 100, 900_000,
    ];
    let dets = process_detections(&data, 2, 5, 640, 640, 640, 640, 500_000, 700_000);
    assert_eq!(dets.len(), 2);
    assert_eq!(dets[0].confidence, 900_000);
    assert_eq!(dets[0].bbox.x1, 10);
    assert_eq!(dets[1].confidence, 800_000);
    assert_eq!(dets[1].bbox.x1, 500);
}

#[test]
fn below_threshold_candidate_never_appears() {
    // Confidence 0.4 against a threshold of 0.5: dropped whatever its box.
    let data: Vec<i64> = vec![10, 10, 400, 400, 400_000];
    let dets = process_detections(&data, 1, 5, 640, 640, 640, 640, 500_000, 700_000);
    assert_eq!(dets.len(), 0);
}

#[test]
fn degenerate_area_candidate_never_appears() {
    // Zero-width and inverted boxes are suppressed without being accepted.
    let data: Vec<i64> = vec![
        50, 50, 50, 200, 900_000, // zero width
        80, 80, 20, 90, 950_000, // inverted in x
    ];
    let dets = process_detections(&data, 1, 5, 640, 640, 640, 640, 500_000, 700_000);
    assert_eq!(dets.len(), 0);
    let dets2 = process_detections(&data, 2, 5, 640, 640, 640, 640, 500_000, 700_000);
    assert_eq!(dets2.len(), 0);
}

#[test]
fn rescales_model_box_to_source_image() {
    // Model box [0,0,320,320] on a 640x640 input, source 1280x1280:
    // the detection comes out as [0,0,640,640].
    let data: Vec<i64> = vec![0, 0, 320, 320, 900_000];
    let dets = process_detections(&data, 1, 5, 1280, 1280, 640, 640, 500_000, 700_000);
    assert_eq!(dets.len(), 1);
    assert_eq!(dets[0].bbox.x1, 0);
    assert_eq!(dets[0].bbox.y1, 0);
    assert_eq!(dets[0].bbox.x2, 640);
    assert_eq!(dets[0].bbox.y2, 640);
}

#[test]
fn output_is_capped_and_ranked() {
    // 40 disjoint, acceptable candidates: only the 32 best come out,
    // ranked by confidence descending.
    let mut data: Vec<i64> = Vec::new();
    for i in 0..40i64 {
        data.extend_from_slice(&[i * 100, 0, i * 100 + 50, 50, 500_000 + i * 1_000]);
    }
    let dets = process_detections(&data, 40, 5, 640, 640, 640, 640, 100_000, 700_000);
    assert_eq!(dets.len(), DETECTIONS_CAPACITY);
    assert_eq!(dets[0].confidence, 539_000);
    assert_eq!(dets[DETECTIONS_CAPACITY - 1].confidence, 508_000);
    for w in dets.windows(2) {
        assert!(w[0].confidence >= w[1].confidence);
    }
}

#[test]
fn apply_nms_is_greedy_in_the_given_order() {
    // apply_nms takes the order as given: a lower-confidence box listed
    // first wins against a later overlapping one.
    let low = cand(10, 10, 100, 100, 600_000);
    let high = cand(12, 12, 102, 102, 950_000);
    let out = apply_nms(vec![low, high], 500_000, 700_000, 8);
    assert_eq!(out.len(), 1);
    assert_eq!(out[0].confidence, 600_000);
    // Sorting first restores the ranked behaviour.
    let mut v = vec![low, high];
    sort_candidates(&mut v);
    let ranked = apply_nms(v, 500_000, 700_000, 8);
    assert_eq!(ranked.len(), 1);
    assert_eq!(ranked[0].confidence, 950_000);
}

#[test]
fn apply_nms_respects_the_capacity() {
    let a = cand(0, 0, 50, 50, 900_000);
    let b = cand(500, 0, 550, 50, 800_000);
    let out = apply_nms(vec![a, b], 100_000, 700_000, 1);
    assert_eq!(out.len(), 1);
    assert_eq!(out[0].confidence, 900_000);
}

#[test]
fn wider_records_use_only_the_first_five_columns() {
    // Records of seven values: the trailing columns are carried in the
    // buffer but play no part in the decision.
    let data: Vec<i64> = vec![
        10, 10, 100, 100, 900_000, 1, 2, //
        15, 15, 105, 105, 800_000, 3, 4,
    ];
    let dets = process_detections(&data, 2, 7, 640, 640, 640, 640, 500_000, 700_000);
    assert_eq!(dets.len(), 1);
    assert_eq!(dets[0].confidence, 900_000);
}

#[test]
fn overlapped_degenerate_box_counts_as_suppressed() {
    let solid = cand(0, 0, 100, 100, 900_000);
    let flat = cand(10, 10, 90, 10, 800_000);
    // The flat box overlaps nothing area-wise but is inside the solid one:
    // it is marked suppressed rather than accepted, whatever the threshold.
    assert_eq!(signed_area(&flat), 0);
    assert!(!suppresses(&solid, &flat, 0));
    let inside = cand(10, 10, 10, 90, 800_000);
    assert_eq!(intersection(&solid, &inside), 0);
    let out = apply_nms(vec![solid, flat, inside], 500_000, 700_000, 8);
    assert_eq!(out.len(), 1);
    assert_eq!(out[0].confidence, 900_000);
}

#[test]
fn to_bounds_matches_process_detections() {
    let data: Vec<i64> = vec![
        10, 10, 100, 100, 900_000, //
        15, 15, 105, 105, 800_000,
    ];
    let message = ScaleMessage { o_width: 1280, o_height: 640, s_width: 640, s_height: 640 };
    let dets = to_bounds(&data, 2, 5, &message, 500_000, 700_000);
    assert_eq!(dets.len(), 1);
    // The x axis doubles, the y axis is unchanged.
    assert_eq!(dets[0].bbox.x1, 20);
    assert_eq!(dets[0].bbox.y1, 10);
    assert_eq!(dets[0].bbox.x2, 200);
    assert_eq!(dets[0].bbox.y2, 100);
}

#[test]
fn nms_tensor_refills_the_batch() {
    let mut batch = Bounds::new();
    // Leave stale contents behind to show the refill clears them.
    assert!(batch.push(perple::color::bounds::Detection::default()));
    assert!(batch.push(perple::color::bounds::Detection::default()));
    let data: Vec<i64> = vec![
        10, 10, 100, 100, 900_000, //
        15, 15, 105, 105, 800_000,
    ];
    let message = square_message(640);
    nms_tensor(&data, 2, 5, &mut batch, &message, 500_000, 700_000);
    assert_eq!(batch.len(), 1);
    match batch.first() {
        Some(d) => {
            assert_eq!(d.confidence, 900_000);
            assert_eq!(d.bbox.x1, 10);
            assert_eq!(d.class_name, "person");
        }
        None => panic!("the batch holds one detection"),
    }
}

#[test]
fn publish_delivers_batches_through_the_channel() {
    let mut out: Stream<Bounds> = Stream::new();
    let data: Vec<i64> = vec![10, 10, 100, 100, 900_000];
    let message = square_message(640);
    assert_eq!(publish_detections(&mut out, &data, 1, 5, &message, 500_000, 700_000), Ok(()));
    match out.read() {
        Some(batch) => {
            assert_eq!(batch.len(), 1);
            match batch.first() {
                Some(d) => assert_eq!(d.confidence, 900_000),
                None => panic!("the batch holds one detection"),
            }
        }
        None => panic!("one batch was published"),
    }
    assert!(!out.has_data());
}

#[test]
fn publish_reports_full_without_losing_batches() {
    let mut out: Stream<Bounds> = Stream::new();
    let data: Vec<i64> = vec![10, 10, 100, 100, 900_000];
    let message = square_message(640);
    for _ in 0..15 {
        assert_eq!(
            publish_detections(&mut out, &data, 1, 5, &message, 500_000, 700_000),
            Ok(())
        );
    }
    assert_eq!(
        publish_detections(&mut out, &data, 1, 5, &message, 500_000, 700_000),
        Err(StreamError::Full)
    );
    let mut delivered: usize = 0;
    while let Some(batch) = out.read() {
        assert_eq!(batch.len(), 1);
        delivered += 1;
    }
    assert_eq!(delivered, 15);
}
