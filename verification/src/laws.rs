//! The laws of the pipeline, stated and proved over the specification
//! functions of [`crate::nms`].

use vstd::prelude::*;

use crate::bbox::BBox;
use crate::bbox::Ratio;
use crate::bbox::lemma_overlap_exceeds_antitone;
use crate::bbox::overlap_exceeds;
use crate::nms::Detection;
use crate::nms::boxes_of;
use crate::nms::greedy;
use crate::nms::insert_ranked;
use crate::nms::kept_detections;
use crate::nms::nms_spec;
use crate::nms::passes_score;
use crate::nms::rank;
use crate::nms::rank_key;
use crate::nms::score_filter;
use crate::nms::survives;

verus! {

/// The detections are in rank order: confidences never increase along the
/// sequence (unscored detections rank below every scored one).
pub open spec fn sorted_desc(s: Seq<Detection>) -> bool {
    forall|i: int, j: int| 0 <= i <= j < s.len() ==> rank_key(s[i]) >= rank_key(s[j])
}

/// No two detections of the sequence overlap each other above the threshold.
pub open spec fn pairwise_ok(s: Seq<Detection>, t: Ratio) -> bool {
    forall|i: int, j: int|
        0 <= i < j < s.len() ==> !overlap_exceeds(s[i].bbox, s[j].bbox, t)
}

/// The boxes as unscored detections: how a caller would feed the output of
/// one pass back into another.
pub open spec fn unscored(bs: Seq<BBox>) -> Seq<Detection> {
    bs.map_values(|b: BBox| Detection { bbox: b, confidence: None })
}

/// Empty input gives empty output, for every pair of thresholds.
pub proof fn lemma_nms_empty(t: Ratio, score_threshold: Option<u32>)
    ensures
        nms_spec(Seq::empty(), t, score_threshold) == Seq::<BBox>::empty(),
{
    assert(nms_spec(Seq::empty(), t, score_threshold) =~= Seq::<BBox>::empty());
}

/// Inserting keeps any lower bound on the keys, and grows the length by one.
proof fn lemma_insert_ranked_lower_bound(r: Seq<Detection>, d: Detection, b: int)
    requires
        forall|i: int| 0 <= i < r.len() ==> rank_key(r[i]) >= b,
        rank_key(d) >= b,
    ensures
        insert_ranked(r, d).len() == r.len() + 1,
        forall|i: int|
            0 <= i < insert_ranked(r, d).len() ==> rank_key(insert_ranked(r, d)[i]) >= b,
    decreases r.len(),
{
    if r.len() == 0 {
    } else if rank_key(r.last()) >= rank_key(d) {
    } else {
        lemma_insert_ranked_lower_bound(r.drop_last(), d, b);
    }
}

/// Inserting into a rank-sorted sequence keeps it rank-sorted.
proof fn lemma_insert_ranked_sorted(r: Seq<Detection>, d: Detection)
    requires
        sorted_desc(r),
    ensures
        insert_ranked(r, d).len() == r.len() + 1,
        sorted_desc(insert_ranked(r, d)),
    decreases r.len(),
{
    if r.len() == 0 {
    } else if rank_key(r.last()) >= rank_key(d) {
        let q = r.push(d);
        assert forall|i: int, j: int| 0 <= i <= j < q.len() implies rank_key(q[i]) >= rank_key(
            q[j],
        ) by {
            if j < r.len() {
            } else {
                assert(q[j] == d);
                if i < r.len() {
                    assert(rank_key(r[i]) >= rank_key(r[r.len() - 1]));
                }
            }
        }
    } else {
        assert(sorted_desc(r.drop_last()));
        lemma_insert_ranked_sorted(r.drop_last(), d);
        let p = insert_ranked(r.drop_last(), d);
        assert forall|i: int| 0 <= i < r.drop_last().len() implies rank_key(r.drop_last()[i])
            >= rank_key(r.last()) by {
            assert(r.drop_last()[i] == r[i]);
            assert(rank_key(r[i]) >= rank_key(r[r.len() - 1]));
        }
        lemma_insert_ranked_lower_bound(r.drop_last(), d, rank_key(r.last()));
        let q = p.push(r.last());
        assert forall|i: int, j: int| 0 <= i <= j < q.len() implies rank_key(q[i]) >= rank_key(
            q[j],
        ) by {
            if j < p.len() {
            } else {
                assert(q[j] == r.last());
            }
        }
    }
}

/// Ranking produces a rank-sorted sequence of the same length.
pub proof fn lemma_rank_sorted(s: Seq<Detection>)
    ensures
        rank(s).len() == s.len(),
        sorted_desc(rank(s)),
    decreases s.len(),
{
    if s.len() == 0 {
    } else {
        lemma_rank_sorted(s.drop_last());
        lemma_insert_ranked_sorted(rank(s.drop_last()), s.last());
    }
}

/// Ranking an already rank-sorted sequence leaves it unchanged: in
/// particular, ties and unscored runs keep their input order.
pub proof fn lemma_rank_of_sorted(s: Seq<Detection>)
    requires
        sorted_desc(s),
    ensures
        rank(s) == s,
    decreases s.len(),
{
    if s.len() == 0 {
        assert(rank(s) =~= s);
    } else {
        assert(sorted_desc(s.drop_last()));
        lemma_rank_of_sorted(s.drop_last());
        if s.len() == 1 {
            assert(rank(s) =~= s);
        } else {
            assert(rank_key(s.drop_last().last()) >= rank_key(s.last()));
            assert(rank(s) =~= s);
        }
    }
}

/// Greedy suppression of a rank-sorted candidate list produces a rank-sorted
/// kept list.
proof fn lemma_greedy_sorted(s: Seq<Detection>, kept: Seq<Detection>, t: Ratio)
    requires
        sorted_desc(kept + s),
    ensures
        sorted_desc(greedy(s, kept, t)),
    decreases s.len(),
{
    let c = kept + s;
    if s.len() == 0 {
        assert(c =~= kept);
    } else if survives(s[0], kept, t) {
        assert(kept.push(s[0]) + s.drop_first() =~= c);
        lemma_greedy_sorted(s.drop_first(), kept.push(s[0]), t);
    } else {
        let c2 = kept + s.drop_first();
        assert forall|i: int, j: int| 0 <= i <= j < c2.len() implies rank_key(c2[i]) >= rank_key(
            c2[j],
        ) by {
            let i2 = if i < kept.len() {
                i
            } else {
                i + 1
            };
            let j2 = if j < kept.len() {
                j
            } else {
                j + 1
            };
            assert(c2[i] == c[i2]);
            assert(c2[j] == c[j2]);
        }
        lemma_greedy_sorted(s.drop_first(), kept, t);
    }
}

/// Order preservation: the kept detections come out in rank order —
/// descending confidence, unscored ones last — never in raw input order
/// where that differs.
pub proof fn lemma_output_follows_rank_order(
    s: Seq<Detection>,
    t: Ratio,
    score_threshold: Option<u32>,
)
    ensures
        sorted_desc(kept_detections(s, t, score_threshold)),
{
    let ranked = rank(score_filter(s, score_threshold));
    lemma_rank_sorted(score_filter(s, score_threshold));
    assert(Seq::<Detection>::empty() + ranked =~= ranked);
    lemma_greedy_sorted(ranked, Seq::empty(), t);
}

/// Raising the overlap threshold weakens suppression at every single
/// decision: a candidate that survives a set of kept boxes at the lower
/// threshold survives the same set at the higher one. (The size of the
/// whole kept set is not monotone in the threshold, because a box kept only
/// at the higher threshold can in turn suppress later candidates.)
pub proof fn lemma_survives_monotone_threshold(
    d: Detection,
    kept: Seq<Detection>,
    t1: Ratio,
    t2: Ratio,
)
    requires
        t1.valid(),
        t2.valid(),
        t1.le(t2),
        survives(d, kept, t1),
    ensures
        survives(d, kept, t2),
{
    assert forall|j: int| 0 <= j < kept.len() implies !overlap_exceeds(
        kept[j].bbox,
        d.bbox,
        t2,
    ) by {
        lemma_overlap_exceeds_antitone(kept[j].bbox, d.bbox, t1, t2);
    }
}

/// A threshold of at least one suppresses nothing at all: overlap never
/// exceeds one, so everything that passes the score filter comes out, in
/// rank order.
pub proof fn lemma_threshold_at_least_one_keeps_everything(
    s: Seq<Detection>,
    t: Ratio,
    score_threshold: Option<u32>,
)
    requires
        t.valid(),
        t.num >= t.den,
    ensures
        kept_detections(s, t, score_threshold) == rank(score_filter(s, score_threshold)),
{
    let ranked = rank(score_filter(s, score_threshold));
    assert forall|i: int, j: int| 0 <= i < j < ranked.len() implies !overlap_exceeds(
        ranked[i].bbox,
        ranked[j].bbox,
        t,
    ) by {
        crate::bbox::lemma_threshold_at_least_one_keeps_all(ranked[i].bbox, ranked[j].bbox, t);
    }
    assert(Seq::<Detection>::empty() + ranked =~= ranked);
    lemma_greedy_keeps_all(ranked, Seq::empty(), t);
}

/// The score filter never lengthens a sequence.
proof fn lemma_score_filter_len(s: Seq<Detection>, score_threshold: Option<u32>)
    ensures
        score_filter(s, score_threshold).len() <= s.len(),
    decreases s.len(),
{
    if s.len() == 0 {
    } else {
        lemma_score_filter_len(s.drop_last(), score_threshold);
    }
}

/// Monotonicity in the overlap threshold, for up to two detections: a higher
/// threshold keeps at least as many. (On longer inputs this can fail: a box
/// kept only at the higher threshold can itself suppress several later
/// candidates that the lower threshold had kept.)
pub proof fn lemma_nms_threshold_monotone_two(
    s: Seq<Detection>,
    t1: Ratio,
    t2: Ratio,
    score_threshold: Option<u32>,
)
    requires
        t1.valid(),
        t2.valid(),
        t1.le(t2),
        s.len() <= 2,
    ensures
        nms_spec(s, t1, score_threshold).len() <= nms_spec(s, t2, score_threshold).len(),
{
    lemma_score_filter_len(s, score_threshold);
    lemma_rank_sorted(score_filter(s, score_threshold));
    let rk = rank(score_filter(s, score_threshold));
    assert(rk.len() <= 2);
    if rk.len() == 0 {
    } else {
        let e: Seq<Detection> = Seq::empty();
        assert(survives(rk[0], e, t1));
        assert(survives(rk[0], e, t2));
        let k1 = e.push(rk[0]);
        let rest = rk.drop_first();
        assert(greedy(rk, e, t1) == greedy(rest, k1, t1));
        assert(greedy(rk, e, t2) == greedy(rest, k1, t2));
        if rk.len() == 1 {
            assert(rest.len() == 0);
            assert(greedy(rest, k1, t1) == k1);
            assert(greedy(rest, k1, t2) == k1);
        } else {
            assert(rest[0] == rk[1]);
            let rest2 = rest.drop_first();
            assert(rest2.len() == 0);
            assert(survives(rk[1], k1, t1) == !overlap_exceeds(rk[0].bbox, rk[1].bbox, t1)) by {
                assert(k1[0] == rk[0]);
            }
            assert(survives(rk[1], k1, t2) == !overlap_exceeds(rk[0].bbox, rk[1].bbox, t2)) by {
                assert(k1[0] == rk[0]);
            }
            lemma_overlap_exceeds_antitone(rk[0].bbox, rk[1].bbox, t1, t2);
            if survives(rk[1], k1, t2) {
                assert(greedy(rest, k1, t2) == greedy(rest2, k1.push(rk[1]), t2));
                assert(greedy(rest2, k1.push(rk[1]), t2) == k1.push(rk[1]));
                if survives(rk[1], k1, t1) {
                    assert(greedy(rest, k1, t1) == greedy(rest2, k1.push(rk[1]), t1));
                    assert(greedy(rest2, k1.push(rk[1]), t1) == k1.push(rk[1]));
                } else {
                    assert(greedy(rest, k1, t1) == greedy(rest2, k1, t1));
                    assert(greedy(rest2, k1, t1) == k1);
                }
            } else {
                assert(!survives(rk[1], k1, t1));
                assert(greedy(rest, k1, t1) == greedy(rest2, k1, t1));
                assert(greedy(rest2, k1, t1) == k1);
                assert(greedy(rest, k1, t2) == greedy(rest2, k1, t2));
                assert(greedy(rest2, k1, t2) == k1);
            }
        }
    }
}

/// Everything greedy keeps was checked against everything kept before it:
/// the kept list is pairwise below the threshold.
proof fn lemma_greedy_pairwise(s: Seq<Detection>, kept: Seq<Detection>, t: Ratio)
    requires
        pairwise_ok(kept, t),
    ensures
        pairwise_ok(greedy(s, kept, t), t),
    decreases s.len(),
{
    if s.len() == 0 {
    } else if survives(s[0], kept, t) {
        let k2 = kept.push(s[0]);
        assert forall|i: int, j: int| 0 <= i < j < k2.len() implies !overlap_exceeds(
            k2[i].bbox,
            k2[j].bbox,
            t,
        ) by {
            if j < kept.len() {
            } else {
                assert(k2[j] == s[0]);
                assert(!overlap_exceeds(kept[i].bbox, s[0].bbox, t));
            }
        }
        lemma_greedy_pairwise(s.drop_first(), k2, t);
    } else {
        lemma_greedy_pairwise(s.drop_first(), kept, t);
    }
}

/// On a candidate list that is already pairwise below the threshold, greedy
/// suppression suppresses nothing.
proof fn lemma_greedy_keeps_all(s: Seq<Detection>, kept: Seq<Detection>, t: Ratio)
    requires
        pairwise_ok(kept + s, t),
    ensures
        greedy(s, kept, t) == kept + s,
    decreases s.len(),
{
    let c = kept + s;
    if s.len() == 0 {
        assert(c =~= kept);
    } else {
        assert forall|j: int| 0 <= j < kept.len() implies !overlap_exceeds(
            kept[j].bbox,
            s[0].bbox,
            t,
        ) by {
            assert(c[j] == kept[j]);
            assert(c[kept.len() as int] == s[0]);
            assert(!overlap_exceeds(c[j].bbox, c[kept.len() as int].bbox, t));
        }
        assert(survives(s[0], kept, t));
        assert(kept.push(s[0]) + s.drop_first() =~= c);
        lemma_greedy_keeps_all(s.drop_first(), kept.push(s[0]), t);
    }
}

/// A sequence whose detections all pass the score threshold filters to
/// itself.
proof fn lemma_score_filter_all_pass(s: Seq<Detection>, score_threshold: Option<u32>)
    requires
        forall|i: int| 0 <= i < s.len() ==> passes_score(s[i], score_threshold),
    ensures
        score_filter(s, score_threshold) == s,
    decreases s.len(),
{
    if s.len() == 0 {
        assert(score_filter(s, score_threshold) =~= s);
    } else {
        assert forall|i: int| 0 <= i < s.drop_last().len() implies passes_score(
            s.drop_last()[i],
            score_threshold,
        ) by {
            assert(s.drop_last()[i] == s[i]);
        }
        lemma_score_filter_all_pass(s.drop_last(), score_threshold);
        assert(passes_score(s.last(), score_threshold));
        assert(score_filter(s, score_threshold) =~= s);
    }
}

/// Idempotence: feeding the output of one pass (as unscored detections)
/// back through the pipeline with the same thresholds returns it unchanged —
/// the kept boxes are already pairwise at or below the threshold, nothing is
/// filtered, and their order is already rank order.
pub proof fn lemma_nms_idempotent(s: Seq<Detection>, t: Ratio, score_threshold: Option<u32>)
    requires
        t.valid(),
    ensures
        nms_spec(unscored(nms_spec(s, t, score_threshold)), t, score_threshold) == nms_spec(
            s,
            t,
            score_threshold,
        ),
{
    let k = kept_detections(s, t, score_threshold);
    let out = boxes_of(k);
    let u = unscored(out);
    assert(u.len() == k.len());
    assert(forall|i: int| 0 <= i < u.len() ==> u[i].bbox == k[i].bbox);
    assert(forall|i: int| 0 <= i < u.len() ==> u[i].confidence is None);

    // Nothing is dropped by the score threshold: unscored detections pass it.
    lemma_score_filter_all_pass(u, score_threshold);

    // Ranking leaves the sequence as it is: all keys are equal.
    assert(sorted_desc(u));
    lemma_rank_of_sorted(u);

    // The kept boxes are pairwise at or below the threshold, so greedy
    // suppression keeps them all.
    lemma_greedy_pairwise(rank(score_filter(s, score_threshold)), Seq::empty(), t);
    assert(pairwise_ok(k, t));
    assert forall|i: int, j: int| 0 <= i < j < u.len() implies !overlap_exceeds(
        u[i].bbox,
        u[j].bbox,
        t,
    ) by {
        assert(!overlap_exceeds(k[i].bbox, k[j].bbox, t));
    }
    assert(Seq::<Detection>::empty() + u =~= u);
    lemma_greedy_keeps_all(u, Seq::empty(), t);
    assert(kept_detections(u, t, score_threshold) == u);
    assert(boxes_of(u) =~= out);
}

/// Every detection of the sequence carries a confidence score.
pub open spec fn all_scored(s: Seq<Detection>) -> bool {
    forall|i: int| 0 <= i < s.len() ==> s[i].confidence is Some
}

/// A sequence is a prefix of anything it extends through a middle sequence.
proof fn lemma_prefix_transitive(a: Seq<Detection>, b: Seq<Detection>, c: Seq<Detection>)
    requires
        a.is_prefix_of(b),
        b.is_prefix_of(c),
    ensures
        a.is_prefix_of(c),
{
    assert(a =~= c.subrange(0, a.len() as int));
}

/// Filtering with the stricter of two thresholds is the same whether or not
/// the weaker one ran first.
proof fn lemma_score_filter_twice(s: Seq<Detection>, v1: u32, v2: u32)
    requires
        v1 <= v2,
    ensures
        score_filter(s, Some(v2)) == score_filter(score_filter(s, Some(v1)), Some(v2)),
    decreases s.len(),
{
    if s.len() == 0 {
        assert(score_filter(s, Some(v2)) =~= score_filter(
            score_filter(s, Some(v1)),
            Some(v2),
        ));
    } else {
        lemma_score_filter_twice(s.drop_last(), v1, v2);
        let x = s.last();
        let rest1 = score_filter(s.drop_last(), Some(v1));
        if passes_score(x, Some(v1)) {
            assert(rest1.push(x).drop_last() =~= rest1);
        }
    }
}

/// Score filtering drops detections, never invents them: a lower bound on
/// the ranking keys survives it, and so does being fully scored.
proof fn lemma_score_filter_lower_bound(s: Seq<Detection>, v: u32, b: int)
    requires
        forall|i: int| 0 <= i < s.len() ==> rank_key(s[i]) >= b,
    ensures
        forall|i: int|
            0 <= i < score_filter(s, Some(v)).len() ==> rank_key(score_filter(s, Some(v))[i])
                >= b,
    decreases s.len(),
{
    if s.len() == 0 {
    } else {
        assert forall|i: int| 0 <= i < s.drop_last().len() implies rank_key(s.drop_last()[i])
            >= b by {
            assert(s.drop_last()[i] == s[i]);
        }
        lemma_score_filter_lower_bound(s.drop_last(), v, b);
        let rest = score_filter(s.drop_last(), Some(v));
        if passes_score(s.last(), Some(v)) {
            let q = rest.push(s.last());
            assert forall|i: int| 0 <= i < q.len() implies rank_key(q[i]) >= b by {
                if i < rest.len() {
                    assert(q[i] == rest[i]);
                } else {
                    assert(q[i] == s.last());
                }
            }
        }
    }
}

/// Score filtering keeps a fully scored sequence fully scored.
proof fn lemma_score_filter_all_scored(s: Seq<Detection>, v: u32)
    requires
        all_scored(s),
    ensures
        all_scored(score_filter(s, Some(v))),
    decreases s.len(),
{
    if s.len() == 0 {
    } else {
        assert forall|i: int| 0 <= i < s.drop_last().len() implies s.drop_last()[i].confidence
            is Some by {
            assert(s.drop_last()[i] == s[i]);
        }
        lemma_score_filter_all_scored(s.drop_last(), v);
    }
}

/// Ranking keeps a fully scored sequence fully scored.
proof fn lemma_rank_all_scored(s: Seq<Detection>)
    requires
        all_scored(s),
    ensures
        all_scored(rank(s)),
    decreases s.len(),
{
    if s.len() == 0 {
    } else {
        assert forall|i: int| 0 <= i < s.drop_last().len() implies s.drop_last()[i].confidence
            is Some by {
            assert(s.drop_last()[i] == s[i]);
        }
        lemma_rank_all_scored(s.drop_last());
        let r = rank(s.drop_last());
        assert(forall|i: int| 0 <= i < r.len() ==> rank_key(r[i]) >= 0);
        assert(rank_key(s.last()) >= 0);
        lemma_insert_ranked_lower_bound(r, s.last(), 0);
        let q = insert_ranked(r, s.last());
        assert forall|i: int| 0 <= i < q.len() implies q[i].confidence is Some by {
            assert(rank_key(q[i]) >= 0);
        }
    }
}

/// On fully scored sequences, score filtering commutes with inserting into a
/// rank-sorted sequence.
proof fn lemma_score_filter_insert_commute(r: Seq<Detection>, d: Detection, v: u32)
    requires
        sorted_desc(r),
        all_scored(r),
        d.confidence is Some,
    ensures
        score_filter(insert_ranked(r, d), Some(v)) == if passes_score(d, Some(v)) {
            insert_ranked(score_filter(r, Some(v)), d)
        } else {
            score_filter(r, Some(v))
        },
    decreases r.len(),
{
    if r.len() == 0 {
        let q = insert_ranked(r, d);
        assert(q == seq![d]);
        assert(q.drop_last() =~= Seq::<Detection>::empty());
        assert(q.last() == d);
        assert(score_filter(q.drop_last(), Some(v)) == Seq::<Detection>::empty());
        if passes_score(d, Some(v)) {
            assert(score_filter(q, Some(v)) == Seq::<Detection>::empty().push(d));
            assert(score_filter(r, Some(v)) == Seq::<Detection>::empty());
            assert(insert_ranked(score_filter(r, Some(v)), d) =~= Seq::<
                Detection,
            >::empty().push(d));
        } else {
            assert(score_filter(q, Some(v)) =~= score_filter(r, Some(v)));
        }
    } else if rank_key(r.last()) >= rank_key(d) {
        // `d` goes at the very end.
        let q = r.push(d);
        assert(q.drop_last() =~= r);
        if passes_score(d, Some(v)) {
            let f = score_filter(r, Some(v));
            // Every kept element ranks at least as high as `d`, so inserting
            // `d` into the filtered sequence also appends it at the end.
            assert forall|i: int| 0 <= i < r.len() implies rank_key(r[i]) >= rank_key(d) by {
                assert(rank_key(r[i]) >= rank_key(r[r.len() - 1]));
            }
            lemma_score_filter_lower_bound(r, v, rank_key(d));
            if f.len() == 0 {
                assert(insert_ranked(f, d) =~= f.push(d));
            } else {
                assert(rank_key(f.last()) >= rank_key(d));
            }
        }
    } else {
        // `d` bubbles past the last element of `r`.
        let x = r.last();
        let q = insert_ranked(r.drop_last(), d);
        assert(q.push(x).drop_last() =~= q);
        assert(sorted_desc(r.drop_last()));
        assert forall|i: int| 0 <= i < r.drop_last().len() implies r.drop_last()[i].confidence
            is Some by {
            assert(r.drop_last()[i] == r[i]);
        }
        lemma_score_filter_insert_commute(r.drop_last(), d, v);
        if passes_score(d, Some(v)) {
            if passes_score(x, Some(v)) {
                let f1 = score_filter(r.drop_last(), Some(v));
                assert(score_filter(r, Some(v)) == f1.push(x));
                assert(f1.push(x).drop_last() =~= f1);
                assert(rank_key(f1.push(x).last()) < rank_key(d));
            }
        } else {
            // `d` fails the threshold, and `x` ranks below `d`, so it fails too.
            assert(rank_key(x) < rank_key(d));
            assert(!passes_score(x, Some(v)));
        }
    }
}

/// On fully scored sequences, ranking commutes with score filtering.
proof fn lemma_rank_score_filter_commute(u: Seq<Detection>, v: u32)
    requires
        all_scored(u),
    ensures
        rank(score_filter(u, Some(v))) == score_filter(rank(u), Some(v)),
    decreases u.len(),
{
    if u.len() == 0 {
        assert(rank(score_filter(u, Some(v))) =~= score_filter(rank(u), Some(v)));
    } else {
        let x = u.last();
        assert forall|i: int| 0 <= i < u.drop_last().len() implies u.drop_last()[i].confidence
            is Some by {
            assert(u.drop_last()[i] == u[i]);
        }
        lemma_rank_score_filter_commute(u.drop_last(), v);
        lemma_rank_sorted(u.drop_last());
        lemma_rank_all_scored(u.drop_last());
        lemma_score_filter_insert_commute(rank(u.drop_last()), x, v);
        if passes_score(x, Some(v)) {
            let f1 = score_filter(u.drop_last(), Some(v));
            assert(f1.push(x).drop_last() =~= f1);
        }
    }
}

/// On a fully scored, rank-sorted sequence the score filter keeps exactly a
/// prefix: everything below the threshold sits at the end.
proof fn lemma_score_filter_sorted_prefix(r: Seq<Detection>, v: u32)
    requires
        sorted_desc(r),
        all_scored(r),
    ensures
        score_filter(r, Some(v)).is_prefix_of(r),
    decreases r.len(),
{
    if r.len() == 0 {
        assert(score_filter(r, Some(v)).is_prefix_of(r));
    } else if passes_score(r.last(), Some(v)) {
        // The lowest-ranked element passes, so everything does.
        assert forall|i: int| 0 <= i < r.len() implies passes_score(r[i], Some(v)) by {
            assert(rank_key(r[i]) >= rank_key(r[r.len() - 1]));
        }
        lemma_score_filter_all_pass(r, Some(v));
        assert(score_filter(r, Some(v)).is_prefix_of(r));
    } else {
        assert(sorted_desc(r.drop_last()));
        assert forall|i: int| 0 <= i < r.drop_last().len() implies r.drop_last()[i].confidence
            is Some by {
            assert(r.drop_last()[i] == r[i]);
        }
        lemma_score_filter_sorted_prefix(r.drop_last(), v);
        assert(r.drop_last().is_prefix_of(r));
        lemma_prefix_transitive(score_filter(r, Some(v)), r.drop_last(), r);
    }
}

/// The kept list only ever grows: what greedy suppression has kept stays
/// kept, in place, whatever candidates follow.
proof fn lemma_greedy_extends(s: Seq<Detection>, kept: Seq<Detection>, t: Ratio)
    ensures
        kept.is_prefix_of(greedy(s, kept, t)),
    decreases s.len(),
{
    if s.len() == 0 {
        assert(kept.is_prefix_of(greedy(s, kept, t)));
    } else if survives(s[0], kept, t) {
        lemma_greedy_extends(s.drop_first(), kept.push(s[0]), t);
        assert(kept.is_prefix_of(kept.push(s[0])));
        lemma_prefix_transitive(kept, kept.push(s[0]), greedy(s, kept, t));
    } else {
        lemma_greedy_extends(s.drop_first(), kept, t);
    }
}

/// Greedy suppression of a prefix of the candidates keeps a prefix of what
/// it keeps on all of them: decisions never depend on later candidates.
proof fn lemma_greedy_prefix(s1: Seq<Detection>, s2: Seq<Detection>, kept: Seq<Detection>, t: Ratio)
    requires
        s1.is_prefix_of(s2),
    ensures
        greedy(s1, kept, t).is_prefix_of(greedy(s2, kept, t)),
    decreases s1.len(),
{
    if s1.len() == 0 {
        lemma_greedy_extends(s2, kept, t);
    } else {
        assert(s1[0] == s2[0]);
        assert(s1.drop_first().is_prefix_of(s2.drop_first())) by {
            assert(s1.drop_first() =~= s2.drop_first().subrange(0, s1.len() - 1));
        }
        if survives(s1[0], kept, t) {
            lemma_greedy_prefix(s1.drop_first(), s2.drop_first(), kept.push(s1[0]), t);
        } else {
            lemma_greedy_prefix(s1.drop_first(), s2.drop_first(), kept, t);
        }
    }
}

/// Monotonicity in the score threshold, on fully scored inputs: a stricter
/// score threshold keeps a prefix of what the weaker one keeps — it removes
/// detections, never adds any. (With unscored detections in the input this
/// can fail: they pass every score threshold, and a scored detection removed
/// by the stricter filter can stop suppressing them.)
pub proof fn lemma_score_threshold_monotone(s: Seq<Detection>, t: Ratio, v1: u32, v2: u32)
    requires
        t.valid(),
        v1 <= v2,
        all_scored(s),
    ensures
        nms_spec(s, t, Some(v2)).is_prefix_of(nms_spec(s, t, Some(v1))),
        nms_spec(s, t, Some(v2)).len() <= nms_spec(s, t, Some(v1)).len(),
{
    let u1 = score_filter(s, Some(v1));
    lemma_score_filter_all_scored(s, v1);
    lemma_score_filter_twice(s, v1, v2);
    lemma_rank_score_filter_commute(u1, v2);
    lemma_rank_sorted(u1);
    lemma_rank_all_scored(u1);
    lemma_score_filter_sorted_prefix(rank(u1), v2);
    assert(rank(score_filter(s, Some(v2))).is_prefix_of(rank(u1)));
    lemma_greedy_prefix(
        rank(score_filter(s, Some(v2))),
        rank(u1),
        Seq::empty(),
        t,
    );
    let k2 = kept_detections(s, t, Some(v2));
    let k1 = kept_detections(s, t, Some(v1));
    assert(k2.is_prefix_of(k1));
    assert(boxes_of(k2) =~= boxes_of(k1).subrange(0, k2.len() as int));
}

/// No score threshold filters exactly like a threshold of zero: zero is
/// below or at every score, and unscored detections pass either way.
pub proof fn lemma_no_score_threshold_like_zero(s: Seq<Detection>, t: Ratio)
    ensures
        nms_spec(s, t, None) == nms_spec(s, t, Some(0)),
{
    lemma_score_filter_all_pass(s, None);
    lemma_score_filter_all_pass(s, Some(0));
}

} // verus!
