//! The fixed material colors of filled-map pixels.
use vstd::prelude::*;

verus! {

/// The brightness step of a packed map pixel.
#[derive(Debug, Clone, Copy, PartialEq, Eq, Structural)]
pub enum MapBrightness {
    Low,
    Normal,
    High,
    Lowest,
}

impl MapBrightness {
    /// The two low bits of a packed pixel that stand for this step.
    pub open spec fn spec_bits(self) -> u8 {
        match self {
            MapBrightness::Low => 0,
            MapBrightness::Normal => 1,
            MapBrightness::High => 2,
            MapBrightness::Lowest => 3,
        }
    }

    /// The two low bits of a packed pixel that stand for this step.
    pub fn bits(self) -> (bits: u8)
        ensures
            bits == self.spec_bits(),
    {
        match self {
            MapBrightness::Low => 0,
            MapBrightness::Normal => 1,
            MapBrightness::High => 2,
            MapBrightness::Lowest => 3,
        }
    }
}

/// One of the 64 fixed material colors used by filled-map pixels.
#[derive(Debug, Clone, Copy, PartialEq, Eq, Structural)]
pub struct MapColor(u8);

impl MapColor {
    #[verifier::type_invariant]
    closed spec fn well_formed(self) -> bool {
        self.0 <= 63
    }

    /// The color's number.
    pub closed spec fn spec_id(self) -> u8 {
        self.0
    }

    /// The pixel byte: the color in the six high bits, the brightness in the two low ones.
    pub open spec fn spec_packed_id(self, brightness: MapBrightness) -> int {
        self.spec_id() * 4 + brightness.spec_bits()
    }

    /// The color with the given number.
    pub fn new(id: u8) -> (color: Self)
        requires
            id <= 63,
        ensures
            color.spec_id() == id,
    {
        MapColor(id)
    }

    pub fn id(self) -> (id: u8)
        ensures
            id == self.spec_id(),
            id <= 63,
    {
        proof {
            use_type_invariant(self);
        }
        self.0
    }

    pub fn packed_id(self, brightness: MapBrightness) -> (packed: u8)
        ensures
            packed == self.spec_packed_id(brightness),
    {
        proof {
            use_type_invariant(self);
        }
        let id: u8 = self.0;
        let bits: u8 = brightness.bits();
        assert((id << 2) | bits == id * 4 + bits) by (bit_vector)
            requires
                id <= 63,
                bits <= 3,
        ;
        (id << 2) | bits
    }

    /// The transparent color.
    pub fn none() -> (color: Self)
        ensures
            color.spec_id() == 0,
    {
        MapColor(0)
    }

    pub fn plant() -> (color: Self)
        ensures
            color.spec_id() == 7,
    {
        MapColor(7)
    }

    pub fn dirt() -> (color: Self)
        ensures
            color.spec_id() == 10,
    {
        MapColor(10)
    }

    pub fn stone() -> (color: Self)
        ensures
            color.spec_id() == 11,
    {
        MapColor(11)
    }

    pub fn water() -> (color: Self)
        ensures
            color.spec_id() == 12,
    {
        MapColor(12)
    }

    pub fn color_yellow() -> (color: Self)
        ensures
            color.spec_id() == 18,
    {
        MapColor(18)
    }
}

/// A pixel byte determines both its color and its brightness.
pub proof fn law_pixel_determines_color(
    a: MapColor,
    x: MapBrightness,
    b: MapColor,
    y: MapBrightness,
)
    requires
        a.spec_packed_id(x) == b.spec_packed_id(y),
    ensures
        a == b,
        x == y,
{
}

} // verus!
