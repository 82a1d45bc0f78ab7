//! The suppression pipeline: score filtering, stable descending ranking,
//! and the greedy suppression loop, with a specification of each stage.

use vstd::prelude::*;

use crate::bbox::BBox;
use crate::bbox::Ratio;
use crate::bbox::check_overlap_exceeds;
use crate::bbox::overlap_exceeds;

verus! {

/// A detection: a box plus an optional confidence score. Scores are `u32`
/// in whatever fixed-point scale the caller picks; a detection without a
/// score ranks below every scored one and is never dropped by the score
/// threshold.
#[derive(Clone, Copy, Debug, PartialEq, Eq)]
pub struct Detection {
    pub bbox: BBox,
    pub confidence: Option<u32>,
}

/// Why a call was rejected before any processing.
#[derive(Clone, Copy, Debug, PartialEq, Eq, Structural)]
pub enum NmsError {
    /// The overlap threshold has a zero denominator, so no overlap can be
    /// compared against it (the integer analogue of a NaN threshold).
    InvalidThreshold,
}

/// Ranking key of a detection: its confidence, with "no confidence" below
/// every actual score.
pub open spec fn rank_key(d: Detection) -> int {
    match d.confidence {
        Some(c) => c as int,
        None => -1,
    }
}

/// Whether a detection passes the score threshold: with no threshold set
/// everything passes, and a detection without a score always passes. A
/// scored detection is dropped exactly when its score is strictly below the
/// threshold.
pub open spec fn passes_score(d: Detection, score_threshold: Option<u32>) -> bool {
    match score_threshold {
        None => true,
        Some(v) => match d.confidence {
            None => true,
            Some(c) => c >= v,
        },
    }
}

/// The detections that pass the score threshold, in input order.
pub open spec fn score_filter(s: Seq<Detection>, score_threshold: Option<u32>) -> Seq<Detection>
    decreases s.len(),
{
    if s.len() == 0 {
        Seq::empty()
    } else {
        let rest = score_filter(s.drop_last(), score_threshold);
        if passes_score(s.last(), score_threshold) {
            rest.push(s.last())
        } else {
            rest
        }
    }
}

/// Insert `d` into the rank-sorted sequence `r`, after every element whose
/// key is at least `d`'s and before every element whose key is below it.
/// Placing `d` after equal keys is what makes the sort stable.
pub open spec fn insert_ranked(r: Seq<Detection>, d: Detection) -> Seq<Detection>
    decreases r.len(),
{
    if r.len() == 0 {
        seq![d]
    } else if rank_key(r.last()) >= rank_key(d) {
        r.push(d)
    } else {
        insert_ranked(r.drop_last(), d).push(r.last())
    }
}

/// The detections sorted by descending confidence, unscored ones last, with
/// ties kept in input order (a stable sort, by insertion).
pub open spec fn rank(s: Seq<Detection>) -> Seq<Detection>
    decreases s.len(),
{
    if s.len() == 0 {
        Seq::empty()
    } else {
        insert_ranked(rank(s.drop_last()), s.last())
    }
}

/// A candidate survives against the kept boxes when its overlap with each
/// of them stays at or below the threshold.
pub open spec fn survives(d: Detection, kept: Seq<Detection>, t: Ratio) -> bool {
    forall|j: int| 0 <= j < kept.len() ==> !overlap_exceeds(kept[j].bbox, d.bbox, t)
}

/// The greedy suppression loop: walk the ranked candidates in order,
/// appending each one that survives against everything kept so far.
pub open spec fn greedy(s: Seq<Detection>, kept: Seq<Detection>, t: Ratio) -> Seq<Detection>
    decreases s.len(),
{
    if s.len() == 0 {
        kept
    } else if survives(s[0], kept, t) {
        greedy(s.drop_first(), kept.push(s[0]), t)
    } else {
        greedy(s.drop_first(), kept, t)
    }
}

/// The detections the whole pipeline keeps: score-filter, rank, then greedily
/// suppress.
pub open spec fn kept_detections(s: Seq<Detection>, t: Ratio, score_threshold: Option<u32>) -> Seq<
    Detection,
> {
    greedy(rank(score_filter(s, score_threshold)), Seq::empty(), t)
}

/// The boxes of a detection sequence, in order.
pub open spec fn boxes_of(s: Seq<Detection>) -> Seq<BBox> {
    s.map_values(|d: Detection| d.bbox)
}

/// What `nms` returns on valid thresholds: the boxes of the kept detections,
/// in rank order.
pub open spec fn nms_spec(s: Seq<Detection>, t: Ratio, score_threshold: Option<u32>) -> Seq<BBox> {
    boxes_of(kept_detections(s, t, score_threshold))
}

/// Runtime form of [`passes_score`].
fn check_passes_score(d: &Detection, score_threshold: Option<u32>) -> (r: bool)
    ensures
        r == passes_score(*d, score_threshold),
{
    match score_threshold {
        None => true,
        Some(v) => match d.confidence {
            None => true,
            Some(c) => c >= v,
        },
    }
}

/// Runtime test for `rank_key(a) < rank_key(b)`.
fn rank_key_lt(a: &Detection, b: &Detection) -> (r: bool)
    ensures
        r == (rank_key(*a) < rank_key(*b)),
{
    match (a.confidence, b.confidence) {
        (None, Some(_)) => true,
        (Some(ca), Some(cb)) => ca < cb,
        (_, None) => false,
    }
}

/// Non-maximum suppression.
///
/// Ranks the detections by descending confidence (unscored ones last, ties
/// in input order), drops scored detections strictly below the score
/// threshold, then keeps each candidate in rank order whose overlap with
/// every already-kept box is at most `nms_threshold`; overlap is the
/// intersection area over the smaller of the two areas. Returns the kept
/// boxes in rank order, or `InvalidThreshold` when the overlap threshold has
/// a zero denominator.
pub fn nms(
    detections: &Vec<Detection>,
    nms_threshold: Ratio,
    score_threshold: Option<u32>,
) -> (r: Result<Vec<BBox>, NmsError>)
    ensures
        nms_threshold.valid() ==> r is Ok && r->Ok_0@ == nms_spec(
            detections@,
            nms_threshold,
            score_threshold,
        ),
        !nms_threshold.valid() ==> r == Result::<Vec<BBox>, NmsError>::Err(
            NmsError::InvalidThreshold,
        ),
{
    if nms_threshold.den == 0 {
        return Err(NmsError::InvalidThreshold);
    }
    let ghost all = detections@;

    // Score filtering.
    let mut filtered: Vec<Detection> = Vec::new();
    let mut i: usize = 0;
    while i < detections.len()
        invariant
            i <= all.len(),
            all == detections@,
            filtered@ == score_filter(all.subrange(0, i as int), score_threshold),
        decreases all.len() - i,
    {
        let d = detections[i];
        if check_passes_score(&d, score_threshold) {
            filtered.push(d);
        }
        proof {
            let pre = all.subrange(0, i as int);
            let post = all.subrange(0, i + 1 as int);
            assert(post.drop_last() =~= pre);
            assert(post.last() == d);
        }
        i += 1;
    }
    proof {
        assert(all.subrange(0, all.len() as int) =~= all);
    }

    // Stable descending insertion sort by confidence.
    let mut ranked: Vec<Detection> = Vec::new();
    let mut i: usize = 0;
    while i < filtered.len()
        invariant
            i <= filtered@.len(),
            ranked@ == rank(filtered@.subrange(0, i as int)),
        decreases filtered@.len() - i,
    {
        let d = filtered[i];
        let ghost r0 = ranked@;
        proof {
            assert(r0.subrange(0, r0.len() as int) =~= r0);
            assert(r0.subrange(r0.len() as int, r0.len() as int) =~= Seq::<Detection>::empty());
            assert(insert_ranked(r0, d) + Seq::<Detection>::empty() =~= insert_ranked(r0, d));
        }
        let mut j: usize = ranked.len();
        while j > 0 && rank_key_lt(&ranked[j - 1], &d)
            invariant
                j <= r0.len(),
                ranked@ == r0,
                insert_ranked(r0, d) == insert_ranked(r0.subrange(0, j as int), d) + r0.subrange(
                    j as int,
                    r0.len() as int,
                ),
            decreases j,
        {
            proof {
                let cur = r0.subrange(0, j as int);
                assert(cur.drop_last() =~= r0.subrange(0, j - 1 as int));
                assert(cur.last() == r0[j - 1]);
                assert(insert_ranked(r0.subrange(0, j - 1 as int), d).push(r0[j - 1]) + r0.subrange(
                    j as int,
                    r0.len() as int,
                ) =~= insert_ranked(r0.subrange(0, j - 1 as int), d) + r0.subrange(
                    j - 1 as int,
                    r0.len() as int,
                ));
            }
            j -= 1;
        }
        proof {
            if j == 0 {
                assert(r0.subrange(0, 0) =~= Seq::<Detection>::empty());
                assert(insert_ranked(r0, d) =~= r0.insert(0, d));
            } else {
                let cur = r0.subrange(0, j as int);
                assert(cur.last() == r0[j - 1]);
                assert(rank_key(r0[j - 1]) >= rank_key(d));
                assert(insert_ranked(cur, d) == cur.push(d));
                assert(insert_ranked(r0, d) =~= r0.insert(j as int, d));
            }
            let pre = filtered@.subrange(0, i as int);
            let post = filtered@.subrange(0, i + 1 as int);
            assert(post.drop_last() =~= pre);
            assert(post.last() == d);
        }
        ranked.insert(j, d);
        i += 1;
    }
    proof {
        assert(filtered@.subrange(0, filtered@.len() as int) =~= filtered@);
    }

    // Greedy suppression.
    let ghost ranked_all = ranked@;
    proof {
        assert(ranked_all.subrange(0, ranked_all.len() as int) =~= ranked_all);
    }
    let mut kept: Vec<Detection> = Vec::new();
    let mut i: usize = 0;
    while i < ranked.len()
        invariant
            i <= ranked_all.len(),
            ranked@ == ranked_all,
            nms_threshold.valid(),
            greedy(ranked_all, Seq::empty(), nms_threshold) == greedy(
                ranked_all.subrange(i as int, ranked_all.len() as int),
                kept@,
                nms_threshold,
            ),
        decreases ranked_all.len() - i,
    {
        let d = ranked[i];
        let mut ok = true;
        let mut j: usize = 0;
        while j < kept.len()
            invariant
                j <= kept@.len(),
                nms_threshold.valid(),
                ok == (forall|l: int|
                    0 <= l < j ==> !overlap_exceeds(kept@[l].bbox, d.bbox, nms_threshold)),
            decreases kept@.len() - j,
        {
            if check_overlap_exceeds(&kept[j].bbox, &d.bbox, &nms_threshold) {
                ok = false;
            }
            j += 1;
        }
        proof {
            let rest = ranked_all.subrange(i as int, ranked_all.len() as int);
            assert(rest[0] == d);
            assert(ok == survives(d, kept@, nms_threshold));
            assert(rest.drop_first() =~= ranked_all.subrange(i + 1 as int, ranked_all.len() as int));
        }
        if ok {
            kept.push(d);
        }
        i += 1;
    }
    proof {
        assert(ranked_all.subrange(0, ranked_all.len() as int) =~= ranked_all);
        assert(ranked_all.subrange(ranked_all.len() as int, ranked_all.len() as int)
            =~= Seq::<Detection>::empty());
    }

    // Hand back the boxes of the kept detections, in rank order.
    let mut out: Vec<BBox> = Vec::new();
    let mut i: usize = 0;
    while i < kept.len()
        invariant
            i <= kept@.len(),
            out@ == boxes_of(kept@.subrange(0, i as int)),
        decreases kept@.len() - i,
    {
        out.push(kept[i].bbox);
        proof {
            assert(boxes_of(kept@.subrange(0, i + 1 as int)) =~= boxes_of(
                kept@.subrange(0, i as int),
            ).push(kept@[i as int].bbox));
        }
        i += 1;
    }
    proof {
        assert(kept@.subrange(0, kept@.len() as int) =~= kept@);
    }
    Ok(out)
}

} // verus!
