//! Colour and palettes.
//!
//! Everything here works in 8-bit sRGB, because that is what an albedo map
//! stores. A [`Ramp`] holds a handful of stops; the limited palette is where
//! the pixel-art look comes from, and it is chosen, not lost.

use vstd::prelude::*;

verus! {

/// An 8-bit sRGB colour with coverage.
#[derive(Debug, Clone, Copy, PartialEq, Eq, Structural, PartialOrd, Ord, Hash)]
pub struct Rgba {
    /// Red.
    pub r: u8,
    /// Green.
    pub g: u8,
    /// Blue.
    pub b: u8,
    /// Coverage.
    pub a: u8,
}

impl Rgba {
    /// An opaque colour.
    pub fn opaque(r: u8, g: u8, b: u8) -> (c: Self)
        ensures
            c == (Rgba { r, g, b, a: 255 }),
    {
        Rgba { r, g, b, a: 255 }
    }

    /// Opaque black.
    pub fn black() -> (c: Self)
        ensures
            c == (Rgba { r: 0, g: 0, b: 0, a: 255 }),
    {
        Self::opaque(0, 0, 0)
    }
}

/// Why a ramp was refused.
#[derive(Debug, Clone, Copy, PartialEq, Eq, Structural)]
pub enum ColorError {
    /// A ramp with one colour is a constant, and a recipe that wanted a
    /// constant should say so.
    TooFewStops { stops: usize },
}

/// A colour ramp: the palette a recipe draws from.
#[derive(Debug, PartialEq, Eq)]
pub struct Ramp {
    stops: Vec<Rgba>,
}

impl View for Ramp {
    type V = Seq<Rgba>;

    closed spec fn view(&self) -> Seq<Rgba> {
        self.stops@
    }
}

impl Ramp {
    /// A constructed ramp has at least two stops.
    #[verifier::type_invariant]
    spec fn at_least_two(&self) -> bool {
        self.stops@.len() >= 2
    }

    /// Build a ramp from its stops, darkest first by convention. Fewer than
    /// two stops are refused.
    pub fn new(stops: Vec<Rgba>) -> (r: Result<Self, ColorError>)
        ensures
            r is Ok <==> stops@.len() >= 2,
            r matches Ok(ramp) ==> ramp@ == stops@,
            r matches Err(e) ==> e == (ColorError::TooFewStops { stops: stops@.len() as usize }),
    {
        if stops.len() < 2 {
            return Err(ColorError::TooFewStops { stops: stops.len() });
        }
        Ok(Ramp { stops })
    }

    /// How many stops the ramp holds; never fewer than two.
    pub fn len(&self) -> (n: usize)
        ensures
            n == self@.len(),
            n >= 2,
    {
        proof {
            use_type_invariant(self);
        }
        self.stops.len()
    }

    /// Whether the ramp is empty. Never true for a constructed ramp.
    pub fn is_empty(&self) -> (r: bool)
        ensures
            r == (self@.len() == 0),
            !r,
    {
        proof {
            use_type_invariant(self);
        }
        self.stops.len() == 0
    }

    /// The stops.
    pub fn stops(&self) -> (r: &[Rgba])
        ensures
            r@ == self@,
    {
        self.stops.as_slice()
    }
}

} // verus!
