//! Non-maximum suppression (NMS) for 2D detection boxes.
//!
//! A detection is an axis-aligned box together with an optional confidence
//! score. Given a sequence of detections, an overlap threshold and an
//! optional score threshold, `nms::nms` returns the boxes that survive
//! greedy suppression: detections are ranked by descending confidence
//! (unscored ones last, ties kept in input order), low-scored ones are
//! dropped up front, and a candidate is kept exactly when its overlap with
//! every already-kept box stays at or below the threshold. Overlap is the
//! intersection area divided by the smaller of the two areas, so a box
//! contained in a larger one counts as fully overlapping.
//!
//! All quantities are integers: box coordinates and extents are `u32`,
//! confidence scores are `u32` in whatever fixed-point scale the caller
//! picks, and the overlap threshold is an exact rational. This keeps every
//! comparison exact and the whole pipeline verifiable.

pub mod bbox;
pub mod laws;
pub mod nms;
