use vstd::prelude::*;
use vstd::std_specs::convert::FromSpec;
use crate::binary32::{
    binary32_of_i32, binary32_of_int, binary32_to_i32, encodes_integer, exact_in_binary32,
    i32_of_binary32, lemma_round_trip, rounded_integer,
};

verus! {

/// A width and a height (or any two-dimensional extent). Each component is
/// the IEEE-754 binary32 encoding of a single-precision number; any encoding
/// is allowed, negative values, zeros, infinities and NaNs included.
#[derive(Clone, Copy, Debug)]
pub struct Dimensions {
    pub x: u32,
    pub y: u32,
}

impl Dimensions {
    /// Both integers converted to binary32, rounded to nearest with ties to even.
    pub fn new(x: i32, y: i32) -> (r: Dimensions)
        ensures
            r.x == binary32_of_int(x as int),
            r.y == binary32_of_int(y as int),
            encodes_integer(r.x, rounded_integer(x as int)),
            encodes_integer(r.y, rounded_integer(y as int)),
    {
        Dimensions { x: binary32_of_i32(x), y: binary32_of_i32(y) }
    }

    /// The components given by their encodings.
    pub fn from_bits(x: u32, y: u32) -> (r: Dimensions)
        ensures
            r.x == x,
            r.y == y,
    {
        Dimensions { x, y }
    }

    /// One encoding used for both components.
    pub fn splat(value: u32) -> (r: Dimensions)
        ensures
            r.x == value,
            r.y == value,
    {
        Dimensions { x: value, y: value }
    }

    /// The encoding of `x`.
    pub fn width(&self) -> (r: u32)
        ensures
            r == self.x,
    {
        self.x
    }

    /// The encoding of `y`.
    pub fn height(&self) -> (r: u32)
        ensures
            r == self.y,
    {
        self.y
    }

    /// `x` rounded toward zero to an `i32` (saturating; zero for NaN).
    pub fn i32_width(&self) -> (r: i32)
        ensures
            r == i32_of_binary32(self.x),
    {
        binary32_to_i32(self.x)
    }

    /// `y` rounded toward zero to an `i32` (saturating; zero for NaN).
    pub fn i32_height(&self) -> (r: i32)
        ensures
            r == i32_of_binary32(self.y),
    {
        binary32_to_i32(self.y)
    }

    /// Both components positive zero.
    pub fn zero() -> (r: Dimensions)
        ensures
            r.x == 0,
            r.y == 0,
    {
        Dimensions { x: 0, y: 0 }
    }
}

/// The integer broadcast to both components, converted as by [`Dimensions::new`].
impl From<i32> for Dimensions {
    fn from(value: i32) -> (r: Dimensions) {
        let v = binary32_of_i32(value);
        Dimensions { x: v, y: v }
    }
}

impl vstd::std_specs::convert::FromSpecImpl<i32> for Dimensions {
    open spec fn obeys_from_spec() -> bool {
        true
    }

    open spec fn from_spec(value: i32) -> Dimensions {
        Dimensions { x: binary32_of_int(value as int), y: binary32_of_int(value as int) }
    }
}

/// The pair `(x, y)`, converted as by [`Dimensions::new`].
impl From<(i32, i32)> for Dimensions {
    fn from(value: (i32, i32)) -> (r: Dimensions) {
        Dimensions { x: binary32_of_i32(value.0), y: binary32_of_i32(value.1) }
    }
}

impl vstd::std_specs::convert::FromSpecImpl<(i32, i32)> for Dimensions {
    open spec fn obeys_from_spec() -> bool {
        true
    }

    open spec fn from_spec(value: (i32, i32)) -> Dimensions {
        Dimensions { x: binary32_of_int(value.0 as int), y: binary32_of_int(value.1 as int) }
    }
}

/// The dimensions converted from the integer zero are the zero dimensions:
/// both components are positive zero, the encoding `0`, which is also the
/// encoding of the single-precision literal `0.0`.
pub proof fn lemma_zero_from_integer_zero()
    ensures
        <Dimensions as FromSpec<i32>>::from_spec(0i32) == (Dimensions { x: 0, y: 0 }),
        <Dimensions as FromSpec<(i32, i32)>>::from_spec((0i32, 0i32)) == (Dimensions {
            x: 0,
            y: 0,
        }),
{
}

/// Rebuilding a pair of integers that binary32 holds exactly from the
/// truncated width and height of the `Dimensions` made from them gives the
/// pair back.
pub proof fn lemma_pair_round_trip(a: i32, b: i32, d: Dimensions)
    requires
        exact_in_binary32(a as int),
        exact_in_binary32(b as int),
        encodes_integer(d.x, rounded_integer(a as int)),
        encodes_integer(d.y, rounded_integer(b as int)),
    ensures
        i32_of_binary32(d.x) == a,
        i32_of_binary32(d.y) == b,
{
    lemma_round_trip(a, d.x);
    lemma_round_trip(b, d.y);
}

} // verus!
