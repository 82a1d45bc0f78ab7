//! Box geometry: axis-aligned boxes, exact rational thresholds, and the
//! min-area overlap metric that drives suppression.

use vstd::prelude::*;

verus! {

/// An axis-aligned 2D box: top-left corner plus extents, in integer units.
#[derive(Clone, Copy, Debug, PartialEq, Eq, Structural)]
pub struct BBox {
    pub left: u32,
    pub top: u32,
    pub width: u32,
    pub height: u32,
}

/// An exact non-negative rational `num / den`, used for overlap thresholds.
/// A ratio is valid when its denominator is non-zero; an invalid ratio plays
/// the role a NaN threshold would play for floating-point callers and is
/// rejected before any processing.
#[derive(Clone, Copy, Debug, PartialEq, Eq, Structural)]
pub struct Ratio {
    pub num: u32,
    pub den: u32,
}

impl Ratio {
    /// A threshold can be compared against only when its denominator is non-zero.
    pub open spec fn valid(self) -> bool {
        self.den > 0
    }

    /// `self <= other` as rationals (by cross-multiplication).
    pub open spec fn le(self, other: Ratio) -> bool {
        self.num * other.den <= other.num * self.den
    }
}

/// Length of the overlap of the segments `[lo1, hi1)` and `[lo2, hi2)`.
pub open spec fn seg_overlap(lo1: int, hi1: int, lo2: int, hi2: int) -> int {
    let lo = if lo1 >= lo2 {
        lo1
    } else {
        lo2
    };
    let hi = if hi1 <= hi2 {
        hi1
    } else {
        hi2
    };
    if hi > lo {
        hi - lo
    } else {
        0
    }
}

impl BBox {
    /// Right edge (exclusive).
    pub open spec fn right(self) -> int {
        self.left + self.width
    }

    /// Bottom edge (exclusive).
    pub open spec fn bottom(self) -> int {
        self.top + self.height
    }

    /// Area of the box.
    pub open spec fn spec_area(self) -> int {
        self.width * self.height
    }

    /// Area of the box. Fits in `u64` because both extents are `u32`.
    pub fn area(&self) -> (a: u64)
        ensures
            a as int == self.spec_area(),
    {
        proof {
            assert((self.width as int) * (self.height as int) < 0x10000000000000000)
                by (nonlinear_arith)
                requires
                    self.width < 0x100000000,
                    self.height < 0x100000000,
            ;
        }
        (self.width as u64) * (self.height as u64)
    }

    /// Area of the intersection of two boxes.
    pub open spec fn spec_intersection_area(self, other: BBox) -> int {
        seg_overlap(self.left as int, self.right(), other.left as int, other.right())
            * seg_overlap(self.top as int, self.bottom(), other.top as int, other.bottom())
    }

    /// Area of the intersection of two boxes.
    pub fn intersection_area(&self, other: &BBox) -> (i: u64)
        ensures
            i as int == self.spec_intersection_area(*other),
    {
        let a_right: u64 = self.left as u64 + self.width as u64;
        let b_right: u64 = other.left as u64 + other.width as u64;
        let lo_x: u64 = if self.left >= other.left {
            self.left as u64
        } else {
            other.left as u64
        };
        let hi_x: u64 = if a_right <= b_right {
            a_right
        } else {
            b_right
        };
        let x_ov: u64 = if hi_x > lo_x {
            hi_x - lo_x
        } else {
            0
        };
        let a_bottom: u64 = self.top as u64 + self.height as u64;
        let b_bottom: u64 = other.top as u64 + other.height as u64;
        let lo_y: u64 = if self.top >= other.top {
            self.top as u64
        } else {
            other.top as u64
        };
        let hi_y: u64 = if a_bottom <= b_bottom {
            a_bottom
        } else {
            b_bottom
        };
        let y_ov: u64 = if hi_y > lo_y {
            hi_y - lo_y
        } else {
            0
        };
        proof {
            assert(x_ov <= self.width);
            assert(y_ov <= self.height);
            assert((x_ov as int) * (y_ov as int) < 0x10000000000000000) by (nonlinear_arith)
                requires
                    x_ov < 0x100000000,
                    y_ov < 0x100000000,
            ;
        }
        x_ov * y_ov
    }
}

/// The smaller of the two areas: the normalization denominator of the
/// overlap metric.
pub open spec fn min_area(a: BBox, b: BBox) -> int {
    if a.spec_area() <= b.spec_area() {
        a.spec_area()
    } else {
        b.spec_area()
    }
}

/// The suppression test: overlap of `a` and `b` is *strictly* greater than
/// `t`, where overlap is the intersection area divided by the smaller of the
/// two areas. A pair with a zero-area member never exceeds any threshold
/// (its overlap is defined as zero), and a pair whose overlap exactly equals
/// the threshold does not exceed it.
pub open spec fn overlap_exceeds(a: BBox, b: BBox, t: Ratio) -> bool {
    let m = min_area(a, b);
    m > 0 && a.spec_intersection_area(b) * t.den > t.num * m
}

/// Runtime form of [`overlap_exceeds`]. Products are taken in `u128`:
/// an intersection area fits in 64 bits and each ratio part in 32, so
/// nothing overflows.
pub fn check_overlap_exceeds(a: &BBox, b: &BBox, t: &Ratio) -> (r: bool)
    requires
        t.valid(),
    ensures
        r == overlap_exceeds(*a, *b, *t),
{
    let area_a: u64 = a.area();
    let area_b: u64 = b.area();
    let m: u64 = if area_a <= area_b {
        area_a
    } else {
        area_b
    };
    if m == 0 {
        return false;
    }
    let inter: u64 = a.intersection_area(b);
    proof {
        assert((inter as int) * (t.den as int) < 0x100000000000000000000000000000000)
            by (nonlinear_arith)
            requires
                inter < 0x10000000000000000,
                t.den < 0x100000000,
        ;
        assert((t.num as int) * (m as int) < 0x100000000000000000000000000000000)
            by (nonlinear_arith)
            requires
                t.num < 0x100000000,
                m < 0x10000000000000000,
        ;
    }
    (inter as u128) * (t.den as u128) > (t.num as u128) * (m as u128)
}

/// The intersection area is symmetric in its two boxes.
pub proof fn lemma_intersection_symmetric(a: BBox, b: BBox)
    ensures
        a.spec_intersection_area(b) == b.spec_intersection_area(a),
{
}

/// The intersection area is non-negative and never larger than either box's
/// area (so the overlap ratio never exceeds one).
pub proof fn lemma_intersection_bounds(a: BBox, b: BBox)
    ensures
        0 <= a.spec_intersection_area(b),
        a.spec_intersection_area(b) <= a.spec_area(),
        a.spec_intersection_area(b) <= b.spec_area(),
{
    let x = seg_overlap(a.left as int, a.right(), b.left as int, b.right());
    let y = seg_overlap(a.top as int, a.bottom(), b.top as int, b.bottom());
    assert(0 <= x && x <= a.width && x <= b.width);
    assert(0 <= y && y <= a.height && y <= b.height);
    assert(0 <= x * y && x * y <= a.width * a.height && x * y <= b.width * b.height)
        by (nonlinear_arith)
        requires
            0 <= x && x <= a.width && x <= b.width,
            0 <= y && y <= a.height && y <= b.height,
    ;
}

/// The suppression test is symmetric in its two boxes: which argument is the
/// candidate and which the kept box does not matter.
pub proof fn lemma_overlap_exceeds_symmetric(a: BBox, b: BBox, t: Ratio)
    ensures
        overlap_exceeds(a, b, t) == overlap_exceeds(b, a, t),
{
    lemma_intersection_symmetric(a, b);
}

/// A threshold of at least one suppresses nothing: overlap never exceeds
/// one, so it cannot strictly exceed such a threshold.
pub proof fn lemma_threshold_at_least_one_keeps_all(a: BBox, b: BBox, t: Ratio)
    requires
        t.valid(),
        t.num >= t.den,
    ensures
        !overlap_exceeds(a, b, t),
{
    let m = min_area(a, b);
    let inter = a.spec_intersection_area(b);
    lemma_intersection_bounds(a, b);
    assert(inter <= m);
    if m > 0 {
        assert(inter * t.den <= t.num * m) by (nonlinear_arith)
            requires
                0 <= inter && inter <= m,
                0 < t.den && t.den <= t.num,
        ;
    }
}

/// Raising the threshold only weakens each pairwise suppression test: a pair
/// that exceeds the higher threshold also exceeds the lower one, so a
/// candidate kept against a given set of boxes at the lower threshold is
/// kept against the same set at the higher one.
pub proof fn lemma_overlap_exceeds_antitone(a: BBox, b: BBox, t1: Ratio, t2: Ratio)
    requires
        t1.valid(),
        t2.valid(),
        t1.le(t2),
    ensures
        overlap_exceeds(a, b, t2) ==> overlap_exceeds(a, b, t1),
{
    let m = min_area(a, b);
    let inter = a.spec_intersection_area(b);
    lemma_intersection_bounds(a, b);
    if overlap_exceeds(a, b, t2) {
        assert(inter * t1.den > t1.num * m) by (nonlinear_arith)
            requires
                m > 0,
                0 < t1.den,
                0 < t2.den,
                t1.num * t2.den <= t2.num * t1.den,
                inter * t2.den > t2.num * m,
        ;
    }
}

} // verus!
