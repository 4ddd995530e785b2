use vstd::prelude::*;

verus! {

/// Coordinates are carried as the bit patterns of IEEE-754 binary64 values, so
/// that they are stored in the packed buffer exactly as given. Only their order
/// matters to the index, and for values that are not NaN that order is the
/// order of the sign-magnitude integer below.
pub const SIGN_BIT: u64 = 0x8000_0000_0000_0000;

/// Bit pattern of positive infinity.
pub const POS_INFINITY: u64 = 0x7ff0_0000_0000_0000;

/// Bit pattern of negative infinity.
pub const NEG_INFINITY: u64 = 0xfff0_0000_0000_0000;

/// The position of a coordinate on the number line: its magnitude bits, negated
/// when the sign bit is set (both zeros map to 0).
pub open spec fn coord_key(b: u64) -> int {
    if b < SIGN_BIT {
        b as int
    } else {
        -((b - SIGN_BIT) as int)
    }
}

/// The smaller of two coordinates, the first one on a tie.
pub open spec fn coord_min(a: u64, b: u64) -> u64 {
    if coord_key(b) < coord_key(a) {
        b
    } else {
        a
    }
}

/// The larger of two coordinates, the first one on a tie.
pub open spec fn coord_max(a: u64, b: u64) -> u64 {
    if coord_key(b) > coord_key(a) {
        b
    } else {
        a
    }
}

pub fn key_of(b: u64) -> (r: i64)
    ensures
        r as int == coord_key(b),
{
    if b < SIGN_BIT {
        b as i64
    } else {
        -((b - SIGN_BIT) as i64)
    }
}

/// Whether coordinate `a` lies at or below coordinate `b`.
pub fn coord_le(a: u64, b: u64) -> (r: bool)
    ensures
        r == (coord_key(a) <= coord_key(b)),
{
    key_of(a) <= key_of(b)
}

pub fn min_coord(a: u64, b: u64) -> (r: u64)
    ensures
        r == coord_min(a, b),
{
    if key_of(b) < key_of(a) {
        b
    } else {
        a
    }
}

pub fn max_coord(a: u64, b: u64) -> (r: u64)
    ensures
        r == coord_max(a, b),
{
    if key_of(b) > key_of(a) {
        b
    } else {
        a
    }
}

/// An axis-aligned box, its four coordinates given as binary64 bit patterns.
#[derive(Clone, Copy, Debug, PartialEq, Eq, Structural)]
pub struct Rect {
    pub min_x: u64,
    pub min_y: u64,
    pub max_x: u64,
    pub max_y: u64,
}

/// Standard box overlap: the boxes share at least one point (edges count).
pub open spec fn intersects(a: Rect, q: Rect) -> bool {
    &&& coord_key(a.min_x) <= coord_key(q.max_x)
    &&& coord_key(a.max_x) >= coord_key(q.min_x)
    &&& coord_key(a.min_y) <= coord_key(q.max_y)
    &&& coord_key(a.max_y) >= coord_key(q.min_y)
}

/// The element-wise min/max aggregate of two boxes.
pub open spec fn union(a: Rect, b: Rect) -> Rect {
    Rect {
        min_x: coord_min(a.min_x, b.min_x),
        min_y: coord_min(a.min_y, b.min_y),
        max_x: coord_max(a.max_x, b.max_x),
        max_y: coord_max(a.max_y, b.max_y),
    }
}

/// Whether `outer` covers `inner` on both axes.
pub open spec fn contains(outer: Rect, inner: Rect) -> bool {
    &&& coord_key(outer.min_x) <= coord_key(inner.min_x)
    &&& coord_key(outer.min_y) <= coord_key(inner.min_y)
    &&& coord_key(outer.max_x) >= coord_key(inner.max_x)
    &&& coord_key(outer.max_y) >= coord_key(inner.max_y)
}

/// The box that bounds nothing: it is the identity of `union`.
pub open spec fn empty_rect() -> Rect {
    Rect { min_x: POS_INFINITY, min_y: POS_INFINITY, max_x: NEG_INFINITY, max_y: NEG_INFINITY }
}

impl Rect {
    pub fn new(min_x: u64, min_y: u64, max_x: u64, max_y: u64) -> (r: Rect)
        ensures
            r == (Rect { min_x, min_y, max_x, max_y }),
    {
        Rect { min_x, min_y, max_x, max_y }
    }

    /// Whether this box overlaps `q`.
    pub fn intersects(&self, q: &Rect) -> (r: bool)
        ensures
            r == intersects(*self, *q),
    {
        coord_le(self.min_x, q.max_x) && coord_le(q.min_x, self.max_x) && coord_le(
            self.min_y,
            q.max_y,
        ) && coord_le(q.min_y, self.max_y)
    }

    /// The element-wise min/max aggregate of this box and `b`.
    pub fn union(&self, b: &Rect) -> (r: Rect)
        ensures
            r == union(*self, *b),
    {
        Rect {
            min_x: min_coord(self.min_x, b.min_x),
            min_y: min_coord(self.min_y, b.min_y),
            max_x: max_coord(self.max_x, b.max_x),
            max_y: max_coord(self.max_y, b.max_y),
        }
    }
}

pub proof fn lemma_union_contains(a: Rect, b: Rect)
    ensures
        contains(union(a, b), a),
        contains(union(a, b), b),
{
}

/// A box that covers one meeting `q` meets `q` too.
pub proof fn lemma_contains_intersects(outer: Rect, inner: Rect, q: Rect)
    requires
        contains(outer, inner),
        intersects(inner, q),
    ensures
        intersects(outer, q),
{
}

} // verus!
