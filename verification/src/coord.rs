use vstd::prelude::*;

verus! {

/// Access to the two coordinates of a planar value.
pub trait Coord: Sized + Copy {
    /// The x coordinate, as a mathematical integer.
    spec fn spec_x(&self) -> int;

    /// The y coordinate, as a mathematical integer.
    spec fn spec_y(&self) -> int;

    fn x(&self) -> (r: i32)
        ensures
            r as int == self.spec_x(),
    ;

    fn y(&self) -> (r: i32)
        ensures
            r as int == self.spec_y(),
    ;
}

/// A planar point: two independent 32-bit integer coordinates.
#[derive(Clone, Copy, Debug, PartialEq, Eq, Structural)]
pub struct Point {
    pub x: i32,
    pub y: i32,
}

impl Point {
    pub fn new(x: i32, y: i32) -> (p: Point)
        ensures
            p.x == x,
            p.y == y,
    {
        Point { x, y }
    }
}

impl Coord for Point {
    open spec fn spec_x(&self) -> int {
        self.x as int
    }

    open spec fn spec_y(&self) -> int {
        self.y as int
    }

    fn x(&self) -> (r: i32) {
        self.x
    }

    fn y(&self) -> (r: i32) {
        self.y
    }
}

/// Width of one packed coordinate field.
pub const POINT_BITDEPTH: u32 = 15;

/// Largest raw value of one packed field: fifteen set bits.
pub const MAX_POINT_VALUE: u32 = 0x7FFF;

/// Bias added to a coordinate so that signed values land in an unsigned field.
pub const POINT_OFFSET: u32 = MAX_POINT_VALUE / 2;

/// Mask of the X field: bits 15 through 29 of the packed word.
pub const X_BITMASK: u32 = 0x3FFF_8000;

/// Mask of the Y field: the low fifteen bits of the packed word.
pub const Y_BITMASK: u32 = 0x7FFF;

/// The biased raw field for one coordinate; out-of-range coordinates wrap.
pub open spec fn encode_coord(c: i32) -> u32 {
    vstd::wrapping::u32_specs::wrapping_add(c as u32, POINT_OFFSET)
}

/// The packed word holding both biased coordinate fields.
pub open spec fn word_of(x: i32, y: i32) -> u32 {
    ((encode_coord(x) << POINT_BITDEPTH) & X_BITMASK) | (encode_coord(y) & Y_BITMASK)
}

/// The x coordinate stored in a packed word.
pub open spec fn decode_x(w: u32) -> int {
    ((w & X_BITMASK) >> POINT_BITDEPTH) - POINT_OFFSET
}

/// The y coordinate stored in a packed word.
pub open spec fn decode_y(w: u32) -> int {
    (w & Y_BITMASK) - POINT_OFFSET
}

/// Decoding a packed word recovers both coordinates exactly, for every
/// coordinate whose magnitude stays below half the representable range.
/// Outside that range the biased value overflows its fifteen-bit field and
/// corrupts the neighbouring field; no such promise is made there.
pub proof fn lemma_encode_decode(x: i32, y: i32)
    requires
        -16383 <= x <= 16383,
        -16383 <= y <= 16383,
    ensures
        decode_x(word_of(x, y)) == x as int,
        decode_y(word_of(x, y)) == y as int,
{
    assert(decode_x(word_of(x, y)) == x as int && decode_y(word_of(x, y)) == y as int)
        by (bit_vector)
        requires
            -16383 <= x <= 16383 && -16383 <= y <= 16383,
    ;
}

/// A packed point: one unsigned 32-bit word holding both biased coordinates.
#[derive(Clone, Copy, Debug, PartialEq, Eq, Structural)]
pub struct BitPoint(pub u32);

impl BitPoint {
    /// Packs the two coordinates into one word. A coordinate whose biased
    /// value needs more than fifteen bits is not rejected: its high bits are
    /// masked away and may bleed into the other field.
    pub fn new(x: i32, y: i32) -> (p: BitPoint)
        ensures
            p.0 == word_of(x, y),
    {
        let xb = (#[verifier::truncate] (x as u32)).wrapping_add(POINT_OFFSET);
        let yb = (#[verifier::truncate] (y as u32)).wrapping_add(POINT_OFFSET);
        BitPoint(((xb << POINT_BITDEPTH) & X_BITMASK) | (yb & Y_BITMASK))
    }

    pub fn from_raw(raw: u32) -> (p: BitPoint)
        ensures
            p.0 == raw,
    {
        BitPoint(raw)
    }

    pub fn to_raw(self) -> (raw: u32)
        ensures
            raw == self.0,
    {
        self.0
    }
}

impl Coord for BitPoint {
    open spec fn spec_x(&self) -> int {
        decode_x(self.0)
    }

    open spec fn spec_y(&self) -> int {
        decode_y(self.0)
    }

    fn x(&self) -> (r: i32) {
        let w = self.0;
        let val = (w & X_BITMASK) >> POINT_BITDEPTH;
        proof {
            assert((w & X_BITMASK) >> POINT_BITDEPTH <= 0x7FFF) by (bit_vector);
        }
        val as i32 - (POINT_OFFSET as i32)
    }

    fn y(&self) -> (r: i32) {
        let w = self.0;
        let val = w & Y_BITMASK;
        proof {
            assert(w & Y_BITMASK <= 0x7FFF) by (bit_vector);
        }
        val as i32 - (POINT_OFFSET as i32)
    }
}

impl From<BitPoint> for Point {
    /// Unpacks a word into a planar point.
    fn from(p: BitPoint) -> (r: Point) {
        Point::new(p.x(), p.y())
    }
}

impl vstd::std_specs::convert::FromSpecImpl<BitPoint> for Point {
    open spec fn obeys_from_spec() -> bool {
        true
    }

    open spec fn from_spec(p: BitPoint) -> Point {
        Point { x: decode_x(p.0) as i32, y: decode_y(p.0) as i32 }
    }
}

impl From<Point> for BitPoint {
    /// Packs a planar point into a word.
    fn from(p: Point) -> (r: BitPoint) {
        BitPoint::new(p.x, p.y)
    }
}

impl vstd::std_specs::convert::FromSpecImpl<Point> for BitPoint {
    open spec fn obeys_from_spec() -> bool {
        true
    }

    open spec fn from_spec(p: Point) -> BitPoint {
        BitPoint(word_of(p.x, p.y))
    }
}

} // verus!
