//! Points with integer coordinates, used both as item locations and as the
//! offsets and sizes of regions.
use vstd::prelude::*;

use crate::D;
use crate::tree::Locatable;

verus! {

/// A point with `D` unsigned integer coordinates.
#[derive(Debug, Clone, Copy)]
pub struct Point(pub [u64; D]);

impl View for Point {
    type V = Seq<u64>;

    open spec fn view(&self) -> Seq<u64> {
        self.0@
    }
}

impl Point {
    /// The point with the given coordinates.
    pub fn new(point: [u64; D]) -> (r: Point)
        ensures
            r@ == point@,
    {
        Point(point)
    }

    /// The origin.
    pub fn zero() -> (r: Point)
        ensures
            r@ == Seq::new(D as nat, |i: int| 0u64),
    {
        Self::from(0)
    }

    /// The point whose coordinates all equal `default`.
    pub fn from(default: u64) -> (r: Point)
        ensures
            r@ == Seq::new(D as nat, |i: int| default),
    {
        let a: [u64; D] = [default; D];
        let r = Point(a);
        assert(r@ =~= Seq::new(D as nat, |i: int| default));
        r
    }

    /// Elementwise quotient by `rhs`, whose coordinates must not be zero.
    pub fn div(&self, rhs: &Point) -> (r: Point)
        requires
            forall|i: int| 0 <= i < D ==> #[trigger] rhs@[i] != 0,
        ensures
            r@ == Seq::new(D as nat, |i: int| (self@[i] / rhs@[i]) as u64),
    {
        let mut result = Point::zero();
        let mut i: usize = 0;
        while i < D
            invariant
                i <= D,
                result@.len() == D,
                forall|j: int| 0 <= j < D ==> #[trigger] rhs@[j] != 0,
                forall|j: int| 0 <= j < i ==> #[trigger] result@[j] == self@[j] / rhs@[j],
            decreases D - i,
        {
            let a = self.0[i];
            let b = rhs.0[i];
            assert(b == rhs@[i as int]);
            result.0[i] = a / b;
            assert(result@[i as int] == self@[i as int] / rhs@[i as int]);
            i = i + 1;
        }
        assert(result@ =~= Seq::new(D as nat, |i: int| (self@[i] / rhs@[i]) as u64));
        result
    }

    /// Every coordinate divided by `rhs`, which must not be zero.
    pub fn div_scalar(&self, rhs: u64) -> (r: Point)
        requires
            rhs != 0,
        ensures
            r@ == Seq::new(D as nat, |i: int| (self@[i] / rhs) as u64),
    {
        let mut result = Point::zero();
        let mut i: usize = 0;
        while i < D
            invariant
                i <= D,
                result@.len() == D,
                rhs != 0,
                forall|j: int| 0 <= j < i ==> #[trigger] result@[j] == self@[j] / rhs,
            decreases D - i,
        {
            let a = self.0[i];
            result.0[i] = a / rhs;
            assert(result@[i as int] == self@[i as int] / rhs);
            i = i + 1;
        }
        assert(result@ =~= Seq::new(D as nat, |i: int| (self@[i] / rhs) as u64));
        result
    }

    /// Every coordinate multiplied by `rhs`; the products must fit in `u64`.
    pub fn mul(&self, rhs: u64) -> (r: Point)
        requires
            forall|i: int| 0 <= i < D ==> #[trigger] self@[i] * rhs <= u64::MAX,
        ensures
            r@ == Seq::new(D as nat, |i: int| (self@[i] * rhs) as u64),
    {
        let mut result = Point::zero();
        let mut i: usize = 0;
        while i < D
            invariant
                i <= D,
                result@.len() == D,
                forall|j: int| 0 <= j < D ==> #[trigger] self@[j] * rhs <= u64::MAX,
                forall|j: int| 0 <= j < i ==> #[trigger] result@[j] == self@[j] * rhs,
            decreases D - i,
        {
            assert(self@[i as int] * rhs <= u64::MAX);
            let a = self.0[i];
            result.0[i] = a * rhs;
            assert(result@[i as int] == self@[i as int] * rhs);
            i = i + 1;
        }
        assert(result@ =~= Seq::new(D as nat, |i: int| (self@[i] * rhs) as u64));
        result
    }

    /// Coordinate `i`.
    pub fn get(&self, i: usize) -> (r: u64)
        requires
            i < D,
        ensures
            r == self@[i as int],
    {
        self.0[i]
    }
}

impl PartialEq for Point {
    fn eq(&self, other: &Point) -> (r: bool)
        ensures
            r == (self@ == other@),
    {
        let mut i: usize = 0;
        while i < D
            invariant
                i <= D,
                self@.len() == D,
                other@.len() == D,
                forall|j: int| 0 <= j < i ==> self@[j] == other@[j],
            decreases D - i,
        {
            if self.0[i] != other.0[i] {
                return false;
            }
            i = i + 1;
        }
        assert(self@ =~= other@);
        true
    }
}

impl vstd::std_specs::cmp::PartialEqSpecImpl for Point {
    open spec fn obeys_eq_spec() -> bool {
        true
    }

    open spec fn eq_spec(&self, other: &Point) -> bool {
        self@ == other@
    }
}

impl Locatable for Point {
    open spec fn location(&self) -> Seq<u64> {
        self@
    }

    fn position(&self) -> (r: &Point) {
        self
    }
}

} // verus!
