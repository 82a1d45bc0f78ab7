use nms::bbox::BBox;
use nms::bbox::Ratio;
use nms::nms::Detection;
use nms::nms::NmsError;
use nms::nms::nms;

fn bb(left: u32, top: u32, width: u32, height: u32) -> BBox {
    BBox { left, top, width, height }
}

fn det(b: BBox, confidence: Option<u32>) -> Detection {
    Detection { bbox: b, confidence }
}

// Confidence scores are fixed-point with three decimal places: 0.9 -> 900.

#[test]
fn geometry_area_and_intersection() {
    let a = bb(0, 0, 10, 10);
    let b = bb(5, 0, 10, 10);
    assert_eq!(a.area(), 100);
    assert_eq!(b.area(), 100);
    // Overlap strip is 5 wide and 10 tall.
    assert_eq!(a.intersection_area(&b), 50);
    assert_eq!(b.intersection_area(&a), 50);
    // Disjoint boxes.
    let c = bb(100, 100, 10, 10);
    assert_eq!(a.intersection_area(&c), 0);
    // Containment: the whole smaller box.
    let d = bb(2, 2, 3, 3);
    assert_eq!(a.intersection_area(&d), 9);
}

#[test]
fn scenario_two_boxes_suppressed_at_low_threshold() {
    // overlap(A, B) = 50 / min(100, 100) = 0.5 > 0.3: B is suppressed.
    let a = bb(0, 0, 10, 10);
    let b = bb(5, 0, 10, 10);
    let dets = vec![det(a, Some(900)), det(b, Some(800))];
    let out = nms(&dets, Ratio { num: 3, den: 10 }, None).unwrap();
    assert_eq!(out, vec![a]);
}

#[test]
fn scenario_two_boxes_kept_at_high_threshold() {
    // overlap 0.5 <= 0.6: both kept, highest confidence first.
    let a = bb(0, 0, 10, 10);
    let b = bb(5, 0, 10, 10);
    let dets = vec![det(a, Some(900)), det(b, Some(800))];
    let out = nms(&dets, Ratio { num: 6, den: 10 }, None).unwrap();
    assert_eq!(out, vec![a, b]);
}

#[test]
fn scenario_score_filter_runs_before_suppression() {
    // A's score 0.4 < 0.5 is filtered out; B survives alone.
    let a = bb(0, 0, 10, 10);
    let b = bb(100, 100, 10, 10);
    let dets = vec![det(a, Some(400)), det(b, Some(900))];
    let out = nms(&dets, Ratio { num: 3, den: 10 }, Some(500)).unwrap();
    assert_eq!(out, vec![b]);
}

#[test]
fn scenario_unscored_survives_score_threshold() {
    // A has no score, so the score threshold does not touch it; B's 0.2 < 0.5
    // drops it before suppression.
    let a = bb(0, 0, 10, 10);
    let b = bb(100, 100, 10, 10);
    let dets = vec![det(a, None), det(b, Some(200))];
    let out = nms(&dets, Ratio { num: 3, den: 10 }, Some(500)).unwrap();
    assert_eq!(out, vec![a]);
}

#[test]
fn scenario_unscored_survives_even_when_overlapping() {
    // Same as above but the boxes overlap by 0.5 > 0.3: B is already gone by
    // score, so A is kept alone either way.
    let a = bb(0, 0, 10, 10);
    let b = bb(5, 0, 10, 10);
    let dets = vec![det(a, None), det(b, Some(200))];
    let out = nms(&dets, Ratio { num: 3, den: 10 }, Some(500)).unwrap();
    assert_eq!(out, vec![a]);
}

#[test]
fn empty_input_gives_empty_output() {
    let dets: Vec<Detection> = Vec::new();
    let out = nms(&dets, Ratio { num: 0, den: 1 }, None).unwrap();
    assert_eq!(out, Vec::<BBox>::new());
    let out = nms(&dets, Ratio { num: 5, den: 10 }, Some(100)).unwrap();
    assert_eq!(out, Vec::<BBox>::new());
}

#[test]
fn invalid_threshold_is_rejected() {
    let dets = vec![det(bb(0, 0, 10, 10), Some(900))];
    let r = nms(&dets, Ratio { num: 1, den: 0 }, None);
    assert_eq!(r, Err(NmsError::InvalidThreshold));
}

#[test]
fn single_detection_always_kept() {
    let a = bb(3, 4, 5, 6);
    let dets = vec![det(a, Some(1))];
    let out = nms(&dets, Ratio { num: 0, den: 1 }, None).unwrap();
    assert_eq!(out, vec![a]);
}

#[test]
fn identical_boxes_keep_only_first_below_threshold_one() {
    // All three boxes coincide: pairwise overlap is 1.0, above any
    // threshold below one, so only the first in rank order survives.
    let a = bb(0, 0, 10, 10);
    let dets = vec![det(a, Some(500)), det(a, Some(500)), det(a, Some(500))];
    let out = nms(&dets, Ratio { num: 99, den: 100 }, None).unwrap();
    assert_eq!(out, vec![a]);
}

#[test]
fn identical_boxes_all_kept_at_threshold_one() {
    // Suppression needs overlap strictly greater than the threshold, and
    // overlap never exceeds one, so a threshold of one keeps everything.
    let a = bb(0, 0, 10, 10);
    let dets = vec![det(a, Some(500)), det(a, Some(500)), det(a, Some(500))];
    let out = nms(&dets, Ratio { num: 1, den: 1 }, None).unwrap();
    assert_eq!(out, vec![a, a, a]);
}

#[test]
fn zero_area_boxes_never_suppress() {
    // Degenerate boxes have overlap zero by definition, so both stay.
    let a = bb(0, 0, 0, 10);
    let dets = vec![det(a, Some(900)), det(a, Some(800))];
    let out = nms(&dets, Ratio { num: 0, den: 1 }, None).unwrap();
    assert_eq!(out, vec![a, a]);
}

#[test]
fn output_is_rank_order_not_input_order() {
    // The lower-confidence detection comes first in the input but last in
    // the output.
    let a = bb(0, 0, 10, 10);
    let b = bb(100, 100, 10, 10);
    let dets = vec![det(a, Some(100)), det(b, Some(900))];
    let out = nms(&dets, Ratio { num: 3, den: 10 }, None).unwrap();
    assert_eq!(out, vec![b, a]);
}

#[test]
fn ties_keep_input_order() {
    let a = bb(0, 0, 10, 10);
    let b = bb(100, 100, 10, 10);
    let c = bb(200, 200, 10, 10);
    let dets = vec![det(a, Some(500)), det(b, Some(500)), det(c, Some(500))];
    let out = nms(&dets, Ratio { num: 0, den: 1 }, None).unwrap();
    assert_eq!(out, vec![a, b, c]);
}

#[test]
fn unscored_rank_after_scored_ties_in_input_order() {
    let a = bb(0, 0, 10, 10);
    let b = bb(100, 100, 10, 10);
    let c = bb(200, 200, 10, 10);
    let dets = vec![det(a, None), det(b, Some(1)), det(c, None)];
    let out = nms(&dets, Ratio { num: 0, den: 1 }, None).unwrap();
    assert_eq!(out, vec![b, a, c]);
}

#[test]
fn score_equal_to_threshold_is_kept() {
    // Only scores strictly below the threshold are dropped.
    let a = bb(0, 0, 10, 10);
    let dets = vec![det(a, Some(500))];
    let out = nms(&dets, Ratio { num: 0, den: 1 }, Some(500)).unwrap();
    assert_eq!(out, vec![a]);
}

#[test]
fn overlap_equal_to_threshold_is_kept() {
    // overlap(A, B) is exactly 0.5 and the threshold is 1/2: not strictly
    // greater, so B stays.
    let a = bb(0, 0, 10, 10);
    let b = bb(5, 0, 10, 10);
    let dets = vec![det(a, Some(900)), det(b, Some(800))];
    let out = nms(&dets, Ratio { num: 1, den: 2 }, None).unwrap();
    assert_eq!(out, vec![a, b]);
}

#[test]
fn smaller_box_contained_in_kept_box_is_suppressed() {
    // Min-area normalization: the small box is fully inside the big one, so
    // its overlap is 1.0 whatever the area ratio.
    let big = bb(0, 0, 100, 100);
    let small = bb(10, 10, 5, 5);
    let dets = vec![det(big, Some(900)), det(small, Some(800))];
    let out = nms(&dets, Ratio { num: 9, den: 10 }, None).unwrap();
    assert_eq!(out, vec![big]);
}

#[test]
fn idempotence_on_concrete_input() {
    // Rerunning on the output (as unscored detections) changes nothing.
    let a = bb(0, 0, 10, 10);
    let b = bb(5, 0, 10, 10);
    let c = bb(100, 100, 10, 10);
    let t = Ratio { num: 6, den: 10 };
    let dets = vec![det(a, Some(900)), det(b, Some(800)), det(c, None)];
    let out = nms(&dets, t, None).unwrap();
    let again: Vec<Detection> = out.iter().map(|&x| det(x, None)).collect();
    let out2 = nms(&again, t, None).unwrap();
    assert_eq!(out2, out);
}

#[test]
fn score_threshold_monotone_on_concrete_input() {
    // All detections scored: a stricter score threshold keeps a prefix.
    let a = bb(0, 0, 10, 10);
    let b = bb(5, 0, 10, 10);
    let c = bb(100, 100, 10, 10);
    let t = Ratio { num: 6, den: 10 };
    let dets = vec![det(a, Some(900)), det(b, Some(800)), det(c, Some(300))];
    let loose = nms(&dets, t, Some(200)).unwrap();
    let strict = nms(&dets, t, Some(850)).unwrap();
    assert!(strict.len() <= loose.len());
    assert_eq!(&loose[..strict.len()], &strict[..]);
    assert_eq!(loose, vec![a, b, c]);
    assert_eq!(strict, vec![a]);
}

#[test]
fn nms_threshold_monotone_per_decision_on_concrete_input() {
    // With one kept box, raising the overlap threshold keeps at least as
    // much: at 0.3 box B falls, at 0.6 it stays.
    let a = bb(0, 0, 10, 10);
    let b = bb(5, 0, 10, 10);
    let dets = vec![det(a, Some(900)), det(b, Some(800))];
    let strict = nms(&dets, Ratio { num: 3, den: 10 }, None).unwrap();
    let loose = nms(&dets, Ratio { num: 6, den: 10 }, None).unwrap();
    assert_eq!(strict, vec![a]);
    assert_eq!(loose, vec![a, b]);
}

#[test]
fn chain_suppression_higher_threshold_can_keep_fewer() {
    // Greedy suppression is monotone in the threshold at each single
    // decision, but not in the size of the whole kept set: at the higher
    // threshold B survives and then suppresses C and D, which the lower
    // threshold had kept.
    let a = bb(0, 0, 10, 10);
    let b = bb(5, 0, 10, 10); // overlaps A by 0.5
    let c = bb(12, 2, 2, 2); // inside B, disjoint from A and D
    let d = bb(12, 6, 2, 2); // inside B, disjoint from A and C
    let dets = vec![det(a, Some(900)), det(b, Some(800)), det(c, Some(700)), det(d, Some(600))];
    let strict = nms(&dets, Ratio { num: 3, den: 10 }, None).unwrap();
    let loose = nms(&dets, Ratio { num: 6, den: 10 }, None).unwrap();
    assert_eq!(strict, vec![a, c, d]);
    assert_eq!(loose, vec![a, b]);
}

#[test]
fn determinism_repeated_runs() {
    let a = bb(0, 0, 10, 10);
    let b = bb(5, 0, 10, 10);
    let c = bb(7, 3, 10, 10);
    let t = Ratio { num: 45, den: 100 };
    let dets = vec![det(a, Some(500)), det(b, Some(500)), det(c, None)];
    let first = nms(&dets, t, Some(100)).unwrap();
    for _ in 0..10 {
        let next = nms(&dets, t, Some(100)).unwrap();
        assert_eq!(next, first);
    }
}
