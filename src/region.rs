//! Region arithmetic: a region is the half-open box `[off[i], off[i] + size[i])`
//! in every dimension `i`. Splitting a region at the midpoint of every axis
//! gives `N` children; bit `i` of a child's index is set when the child
//! covers the upper half of dimension `i`.
use vstd::prelude::*;
use vstd::arithmetic::power2::{
    pow2,
    lemma2_to64,
    lemma_pow2_adds,
    lemma_pow2_pos,
    lemma_pow2_strictly_increases,
    lemma_pow2_unfold,
};
use vstd::bits::{lemma_usize_pow2_no_overflow, lemma_usize_shl_is_mul};
use vstd::arithmetic::div_mod::{
    lemma_basic_div,
    lemma_div_plus_one,
    lemma_hoist_over_denominator,
    lemma_mod_breakdown,
    lemma_mod_multiples_vanish,
    lemma_small_mod,
};

use crate::point::Point;
use crate::{D, N};

verus! {

/// `p` lies in the region `(off, size)`: lower bounds inclusive, upper exclusive.
pub open spec fn in_region(p: Seq<u64>, off: Seq<u64>, size: Seq<u64>) -> bool {
    forall|i: int| 0 <= i < D ==> off[i] <= #[trigger] p[i] && p[i] < off[i] + size[i]
}

/// The region has `D` dimensions and its upper corner is representable.
pub open spec fn region_fits(off: Seq<u64>, size: Seq<u64>) -> bool {
    &&& off.len() == D
    &&& size.len() == D
    &&& forall|i: int| 0 <= i < D ==> #[trigger] off[i] + size[i] <= u64::MAX
}

/// Bit `i` of `idx`.
pub open spec fn upper_bit(idx: int, i: int) -> bool {
    (idx / pow2(i as nat) as int) % 2 == 1
}

/// `p` falls in the upper half of dimension `i` of the region `(off, size)`.
pub open spec fn goes_upper(p: Seq<u64>, off: Seq<u64>, size: Seq<u64>, i: int) -> bool {
    p[i] >= off[i] + size[i] / 2
}

/// The number whose low `k` bits are `bits(0), ..., bits(k - 1)`.
pub open spec fn bits_value(bits: spec_fn(int) -> bool, k: int) -> int
    decreases k,
{
    if k <= 0 {
        0
    } else {
        bits_value(bits, k - 1) + if bits(k - 1) {
            pow2((k - 1) as nat) as int
        } else {
            0
        }
    }
}

/// The bits of `idx`, as a predicate on bit positions.
pub open spec fn bits_of(idx: int) -> spec_fn(int) -> bool {
    |i: int| upper_bit(idx, i)
}

/// For each dimension, whether `p` falls in its upper half.
pub open spec fn upper_bits(p: Seq<u64>, off: Seq<u64>, size: Seq<u64>) -> spec_fn(int) -> bool {
    |i: int| goes_upper(p, off, size, i)
}

/// Index of the child of `(off, size)` whose region holds `p`.
pub open spec fn child_index(p: Seq<u64>, off: Seq<u64>, size: Seq<u64>) -> int {
    bits_value(upper_bits(p, off, size), D as int)
}

/// Offset of child `idx` of the region `(off, size)`.
pub open spec fn child_offset(off: Seq<u64>, size: Seq<u64>, idx: int) -> Seq<u64> {
    Seq::new(
        D as nat,
        |i: int|
            if upper_bit(idx, i) {
                (off[i] + size[i] / 2) as u64
            } else {
                off[i]
            },
    )
}

/// Size of child `idx` of a region of size `size`: the lower half takes
/// `size / 2`, the upper half the rest.
pub open spec fn child_size(size: Seq<u64>, idx: int) -> Seq<u64> {
    Seq::new(
        D as nat,
        |i: int|
            if upper_bit(idx, i) {
                (size[i] - size[i] / 2) as u64
            } else {
                (size[i] / 2) as u64
            },
    )
}

/// Sum of the first `k` extents of `size`.
pub open spec fn size_sum(size: Seq<u64>, k: int) -> int
    decreases k,
{
    if k <= 0 {
        0
    } else {
        size_sum(size, k - 1) + size[k - 1]
    }
}

pub proof fn lemma_n_is_pow2()
    ensures
        N == pow2(D as nat),
        D < 64,
{
    lemma_usize_pow2_no_overflow(D as nat);
    lemma_usize_shl_is_mul(1, D);
}

pub proof fn lemma_bits_value_bound(bits: spec_fn(int) -> bool, k: int)
    requires
        k >= 0,
    ensures
        0 <= bits_value(bits, k) < pow2(k as nat),
    decreases k,
{
    lemma_pow2_pos(k as nat);
    if k > 0 {
        lemma_bits_value_bound(bits, k - 1);
        lemma_pow2_unfold(k as nat);
    }
}

/// Bit `j` of `bits_value(bits, k)` is `bits(j)`.
pub proof fn lemma_bits_value_bit(bits: spec_fn(int) -> bool, k: int, j: int)
    requires
        0 <= j < k,
    ensures
        upper_bit(bits_value(bits, k), j) == bits(j),
    decreases k,
{
    let a = bits_value(bits, k - 1);
    let t = pow2((k - 1) as nat) as int;
    let v = bits_value(bits, k);
    lemma_bits_value_bound(bits, k - 1);
    lemma_pow2_pos((k - 1) as nat);
    if j == k - 1 {
        lemma_basic_div(a, t);
        if bits(k - 1) {
            lemma_div_plus_one(a, t);
            assert(v == t + a);
        } else {
            assert(v == a);
        }
    } else {
        lemma_bits_value_bit(bits, k - 1, j);
        let d = pow2(j as nat);
        let m = pow2((k - 1 - j) as nat) as int;
        lemma_pow2_adds(j as nat, (k - 1 - j) as nat);
        assert(j as nat + (k - 1 - j) as nat == (k - 1) as nat);
        assert(t == d * m);
        lemma_pow2_unfold((k - 1 - j) as nat);
        let h = pow2((k - 2 - j) as nat) as int;
        assert(m == 2 * h);
        lemma_pow2_pos(j as nat);
        let c: int = if bits(k - 1) {
            m
        } else {
            0
        };
        assert(v == a + c * d) by (nonlinear_arith)
            requires
                v == a + (if bits(k - 1) {
                    t
                } else {
                    0
                }),
                t == d * m,
                c == (if bits(k - 1) {
                    m
                } else {
                    0
                }),
        ;
        lemma_hoist_over_denominator(a, c, d);
        let q = a / d as int;
        let hc: int = if bits(k - 1) {
            h
        } else {
            0
        };
        assert(c == 2 * hc);
        lemma_mod_multiples_vanish(hc, q, 2);
        assert(v / d as int == 2 * hc + q);
    }
}

/// Any `idx` below `2^k` is the value of its own low `k` bits.
pub proof fn lemma_bits_of(idx: int, k: int)
    requires
        idx >= 0,
        k >= 0,
    ensures
        idx % pow2(k as nat) as int == bits_value(bits_of(idx), k),
    decreases k,
{
    lemma2_to64();
    if k > 0 {
        lemma_bits_of(idx, k - 1);
        let y = pow2((k - 1) as nat) as int;
        lemma_pow2_pos((k - 1) as nat);
        lemma_pow2_unfold(k as nat);
        lemma_mod_breakdown(idx, y, 2);
        assert(y * 2 == pow2(k as nat));
        let b = (idx / y) % 2;
        assert(b == 0 || b == 1);
        if b == 1 {
            assert(y * b == y);
        } else {
            assert(y * b == 0);
        }
    }
}

pub proof fn lemma_bits_value_ext(b1: spec_fn(int) -> bool, b2: spec_fn(int) -> bool, k: int)
    requires
        forall|i: int| 0 <= i < k ==> #[trigger] b1(i) == b2(i),
    ensures
        bits_value(b1, k) == bits_value(b2, k),
    decreases k,
{
    if k > 0 {
        lemma_bits_value_ext(b1, b2, k - 1);
    }
}

/// A point of the region falls in child `child_index`, which is a valid index.
pub proof fn lemma_child_index(p: Seq<u64>, off: Seq<u64>, size: Seq<u64>)
    requires
        region_fits(off, size),
        in_region(p, off, size),
    ensures
        0 <= child_index(p, off, size) < N,
        in_region(p, child_offset(off, size, child_index(p, off, size)), child_size(size, child_index(p, off, size))),
{
    lemma_n_is_pow2();
    let ci = child_index(p, off, size);
    lemma_bits_value_bound(upper_bits(p, off, size), D as int);
    assert forall|j: int| 0 <= j < D implies upper_bit(ci, j) == goes_upper(p, off, size, j) by {
        lemma_bits_value_bit(upper_bits(p, off, size), D as int, j);
    }
}

/// A point lies in at most one child region: the one of `child_index`.
pub proof fn lemma_child_unique(p: Seq<u64>, off: Seq<u64>, size: Seq<u64>, idx: int)
    requires
        region_fits(off, size),
        0 <= idx < N,
        in_region(p, child_offset(off, size, idx), child_size(size, idx)),
    ensures
        idx == child_index(p, off, size),
{
    lemma_n_is_pow2();
    assert forall|i: int| 0 <= i < D implies #[trigger] bits_of(idx)(i) == upper_bits(p, off, size)(i) by {
        assert(child_offset(off, size, idx)[i] <= p[i]);
        assert(p[i] < child_offset(off, size, idx)[i] + child_size(size, idx)[i]);
    }
    lemma_bits_of(idx, D as int);
    lemma_small_mod(idx as nat, pow2(D as nat));
    lemma_bits_value_ext(bits_of(idx), upper_bits(p, off, size), D as int);
}

/// Children lie within their parent.
pub proof fn lemma_child_within(off: Seq<u64>, size: Seq<u64>, idx: int)
    requires
        region_fits(off, size),
    ensures
        region_fits(child_offset(off, size, idx), child_size(size, idx)),
        forall|p: Seq<u64>| #[trigger]
            in_region(p, child_offset(off, size, idx), child_size(size, idx)) ==> in_region(p, off, size),
{
    let co = child_offset(off, size, idx);
    let cs = child_size(size, idx);
    assert forall|i: int| 0 <= i < D implies off[i] <= co[i] && co[i] + cs[i] <= off[i] + size[i] by {}
    assert forall|p: Seq<u64>| #[trigger] in_region(p, co, cs) implies in_region(p, off, size) by {
        assert forall|i: int| 0 <= i < D implies off[i] <= #[trigger] p[i] && p[i] < off[i] + size[i] by {
            assert(co[i] <= p[i] && p[i] < co[i] + cs[i]);
        }
    }
}

pub proof fn lemma_size_sum_lt(a: Seq<u64>, b: Seq<u64>, k: int, j: int)
    requires
        0 <= k <= a.len(),
        k <= b.len(),
        forall|i: int| 0 <= i < k ==> a[i] <= b[i],
    ensures
        0 <= size_sum(a, k) <= size_sum(b, k),
        0 <= j < k && a[j] < b[j] ==> size_sum(a, k) < size_sum(b, k),
    decreases k,
{
    if k > 0 {
        lemma_size_sum_lt(a, b, k - 1, j);
    }
}

/// Two distinct points that share a child region make that child strictly
/// smaller than its parent: subdivision cannot go on forever.
pub proof fn lemma_child_shrinks(p: Seq<u64>, q: Seq<u64>, off: Seq<u64>, size: Seq<u64>, idx: int)
    requires
        region_fits(off, size),
        p.len() == D,
        q.len() == D,
        p != q,
        in_region(p, child_offset(off, size, idx), child_size(size, idx)),
        in_region(q, child_offset(off, size, idx), child_size(size, idx)),
    ensures
        0 <= size_sum(child_size(size, idx), D as int) < size_sum(size, D as int),
{
    let j = choose|j: int| 0 <= j < D && p[j] != q[j];
    assert(exists|j: int| 0 <= j < D && p[j] != q[j]) by {
        if forall|j: int| 0 <= j < D ==> p[j] == q[j] {
            assert(p =~= q);
        }
    }
    let cs = child_size(size, idx);
    let co = child_offset(off, size, idx);
    assert(co[j] <= p[j] && p[j] < co[j] + cs[j]);
    assert(co[j] <= q[j] && q[j] < co[j] + cs[j]);
    assert(cs[j] < size[j]);
    lemma_size_sum_lt(cs, size, D as int, j);
}

/// The region anchored at the origin.
pub open spec fn origin() -> Seq<u64> {
    Seq::new(D as nat, |i: int| 0u64)
}

/// Whether `p` lies in the region `(off, size)`.
pub fn within(p: &Point, off: &Point, size: &Point) -> (r: bool)
    requires
        region_fits(off@, size@),
    ensures
        r == in_region(p@, off@, size@),
{
    let mut i: usize = 0;
    while i < D
        invariant
            i <= D,
            region_fits(off@, size@),
            forall|j: int| 0 <= j < i ==> off@[j] <= #[trigger] p@[j] && p@[j] < off@[j] + size@[j],
        decreases D - i,
    {
        if p.0[i] < off.0[i] || p.0[i] >= off.0[i] + size.0[i] {
            return false;
        }
        i = i + 1;
    }
    true
}

/// Index and region of the child of `(off, size)` that holds `p`.
pub fn child_of(p: &Point, off: &Point, size: &Point) -> (r: (usize, Point, Point))
    requires
        region_fits(off@, size@),
    ensures
        r.0 == child_index(p@, off@, size@),
        r.0 < N,
        r.1@ == child_offset(off@, size@, r.0 as int),
        r.2@ == child_size(size@, r.0 as int),
{
    proof {
        lemma_n_is_pow2();
        lemma2_to64();
    }
    let ghost g = upper_bits(p@, off@, size@);
    let mut ci: usize = 0;
    let mut bit: usize = 1;
    let mut new_off = *off;
    let mut new_size = *size;
    let mut i: usize = 0;
    while i < D
        invariant
            i <= D,
            N == pow2(D as nat),
            D < 64,
            region_fits(off@, size@),
            p@.len() == D,
            ci == bits_value(g, i as int),
            bit == pow2(i as nat),
            new_off@.len() == D,
            new_size@.len() == D,
            forall|j: int| i <= j < D ==> #[trigger] new_off@[j] == off@[j],
            g == upper_bits(p@, off@, size@),
            forall|j: int|
                0 <= j < i ==> #[trigger] new_off@[j] == (if g(j) {
                    (off@[j] + size@[j] / 2) as u64
                } else {
                    off@[j]
                }),
            forall|j: int|
                0 <= j < i ==> #[trigger] new_size@[j] == (if g(j) {
                    (size@[j] - size@[j] / 2) as u64
                } else {
                    (size@[j] / 2) as u64
                }),
        decreases D - i,
    {
        proof {
            lemma_bits_value_bound(g, i as int);
            lemma_pow2_strictly_increases(i as nat, D as nat);
            lemma_pow2_pos(i as nat);
            lemma_pow2_unfold((i + 1) as nat);
            if i + 1 < D {
                lemma_pow2_strictly_increases((i + 1) as nat, D as nat);
            }
        }
        let half = size.0[i] / 2;
        assert(g(i as int) == (p@[i as int] >= off@[i as int] + half));
        if p.0[i] >= off.0[i] + half {
            ci = ci + bit;
            new_off.0[i] = off.0[i] + half;
            new_size.0[i] = size.0[i] - half;
        } else {
            new_size.0[i] = half;
        }
        bit = bit * 2;
        i = i + 1;
    }
    proof {
        lemma_bits_value_bound(g, D as int);
        assert forall|j: int| 0 <= j < D implies upper_bit(ci as int, j) == g(j) by {
            lemma_bits_value_bit(g, D as int, j);
        }
        assert(new_off@ =~= child_offset(off@, size@, ci as int));
        assert(new_size@ =~= child_size(size@, ci as int));
    }
    (ci, new_off, new_size)
}

/// The region of child `idx` of `(off, size)`.
pub fn child_region(off: &Point, size: &Point, idx: usize) -> (r: (Point, Point))
    requires
        region_fits(off@, size@),
        idx < N,
    ensures
        r.0@ == child_offset(off@, size@, idx as int),
        r.1@ == child_size(size@, idx as int),
{
    proof {
        lemma_n_is_pow2();
        lemma2_to64();
    }
    let mut bit: usize = 1;
    let mut new_off = *off;
    let mut new_size = *size;
    let mut i: usize = 0;
    while i < D
        invariant
            i <= D,
            N == pow2(D as nat),
            D < 64,
            idx < N,
            region_fits(off@, size@),
            bit == pow2(i as nat),
            new_off@.len() == D,
            new_size@.len() == D,
            forall|j: int| i <= j < D ==> #[trigger] new_off@[j] == off@[j],
            forall|j: int|
                0 <= j < i ==> #[trigger] new_off@[j] == child_offset(off@, size@, idx as int)[j],
            forall|j: int| 0 <= j < i ==> #[trigger] new_size@[j] == child_size(size@, idx as int)[j],
        decreases D - i,
    {
        proof {
            lemma_pow2_strictly_increases(i as nat, D as nat);
            lemma_pow2_pos(i as nat);
            lemma_pow2_unfold((i + 1) as nat);
            if i + 1 < D {
                lemma_pow2_strictly_increases((i + 1) as nat, D as nat);
            }
        }
        let half = size.0[i] / 2;
        assert(upper_bit(idx as int, i as int) == ((idx / bit) % 2 == 1));
        if (idx / bit) % 2 == 1 {
            new_off.0[i] = off.0[i] + half;
            new_size.0[i] = size.0[i] - half;
        } else {
            new_size.0[i] = half;
        }
        bit = bit * 2;
        i = i + 1;
    }
    proof {
        assert(new_off@ =~= child_offset(off@, size@, idx as int));
        assert(new_size@ =~= child_size(size@, idx as int));
    }
    (new_off, new_size)
}

/// An axis-aligned query box `[min[i], max[i])` in every dimension `i`.
#[derive(Debug, Clone, Copy)]
pub struct Rectangle {
    pub min: Point,
    pub max: Point,
}

impl Rectangle {
    /// The box with corners `min` (inclusive) and `max` (exclusive).
    pub fn new(min: Point, max: Point) -> (r: Rectangle)
        ensures
            r.min@ == min@,
            r.max@ == max@,
    {
        Rectangle { min, max }
    }

    /// `p` lies inside the box.
    pub open spec fn holds(self, p: Seq<u64>) -> bool {
        forall|i: int| 0 <= i < D ==> self.min@[i] <= #[trigger] p[i] && p[i] < self.max@[i]
    }

    /// The box and the region `(off, size)` share some point.
    pub open spec fn meets(self, off: Seq<u64>, size: Seq<u64>) -> bool {
        forall|i: int|
            0 <= i < D ==> self.min@[i] < #[trigger] off[i] + size[i] && off[i] < self.max@[i]
                && self.min@[i] < self.max@[i] && 0 < size[i]
    }

    /// Whether `p` lies inside the box.
    pub fn contains(&self, p: &Point) -> (r: bool)
        ensures
            r == self.holds(p@),
    {
        let mut i: usize = 0;
        while i < D
            invariant
                i <= D,
                forall|j: int| 0 <= j < i ==> self.min@[j] <= #[trigger] p@[j] && p@[j] < self.max@[j],
            decreases D - i,
        {
            if p.0[i] < self.min.0[i] || p.0[i] >= self.max.0[i] {
                return false;
            }
            i = i + 1;
        }
        true
    }

    /// Whether the box and the region `(off, size)` share some point.
    pub fn overlaps(&self, off: &Point, size: &Point) -> (r: bool)
        requires
            region_fits(off@, size@),
        ensures
            r == self.meets(off@, size@),
    {
        let mut i: usize = 0;
        while i < D
            invariant
                i <= D,
                region_fits(off@, size@),
                forall|j: int|
                    0 <= j < i ==> self.min@[j] < #[trigger] off@[j] + size@[j] && off@[j] < self.max@[j]
                        && self.min@[j] < self.max@[j] && 0 < size@[j],
            decreases D - i,
        {
            let top = off.0[i] + size.0[i];
            if !(self.min.0[i] < top && off.0[i] < self.max.0[i] && self.min.0[i] < self.max.0[i]
                && 0 < size.0[i]) {
                return false;
            }
            i = i + 1;
        }
        true
    }
}

/// A point of a region that the box does not meet is outside the box.
pub proof fn lemma_no_meet(rect: Rectangle, off: Seq<u64>, size: Seq<u64>, p: Seq<u64>)
    requires
        in_region(p, off, size),
        rect.holds(p),
    ensures
        rect.meets(off, size),
{
    assert forall|i: int| 0 <= i < D implies rect.min@[i] < #[trigger] off[i] + size[i] && off[i]
        < rect.max@[i] && rect.min@[i] < rect.max@[i] && 0 < size[i] by {
        assert(off[i] <= p[i] && p[i] < off[i] + size[i]);
        assert(rect.min@[i] <= p[i] && p[i] < rect.max@[i]);
    }
}

} // verus!
