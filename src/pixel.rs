use vstd::prelude::*;

verus! {

/// The bytes a `Pixel`'s four one-byte channels take together; a pixel never
/// takes less.
pub const PIXEL_BYTES: usize = 4;

/// An RGBA colour with four independent 8-bit channels.
#[derive(Copy, Clone, PartialEq, Eq, Debug, Structural)]
pub struct Pixel {
    pub r: u8,
    pub g: u8,
    pub b: u8,
    pub a: u8,
}

impl Pixel {
    /// Fully transparent black, the value every cache slot starts with.
    pub open spec fn spec_zero() -> Pixel {
        Pixel { r: 0, g: 0, b: 0, a: 0 }
    }

    /// Opaque black, the pixel a decoder starts from.
    pub open spec fn spec_black() -> Pixel {
        Pixel { r: 0, g: 0, b: 0, a: 255 }
    }

    pub fn zero() -> (p: Pixel)
        ensures
            p == Pixel::spec_zero(),
    {
        Pixel { r: 0, g: 0, b: 0, a: 0 }
    }

    pub fn black() -> (p: Pixel)
        ensures
            p == Pixel::spec_black(),
    {
        Pixel { r: 0, g: 0, b: 0, a: 255 }
    }

    pub fn new(r: u8, g: u8, b: u8, a: u8) -> (p: Pixel)
        ensures
            p == (Pixel { r, g, b, a }),
    {
        Pixel { r, g, b, a }
    }

    /// The channels in R, G, B, A order.
    pub fn rgba(self) -> (out: [u8; 4])
        ensures
            out@ == seq![self.r, self.g, self.b, self.a],
    {
        let out = [self.r, self.g, self.b, self.a];
        assert(out@ =~= seq![self.r, self.g, self.b, self.a]);
        out
    }

    /// The channels in A, R, G, B order.
    pub fn argb(self) -> (out: [u8; 4])
        ensures
            out@ == seq![self.a, self.r, self.g, self.b],
    {
        let out = [self.a, self.r, self.g, self.b];
        assert(out@ =~= seq![self.a, self.r, self.g, self.b]);
        out
    }

    /// The colour channels in R, G, B order; alpha is dropped.
    pub fn rgb(self) -> (out: [u8; 3])
        ensures
            out@ == seq![self.r, self.g, self.b],
    {
        let out = [self.r, self.g, self.b];
        assert(out@ =~= seq![self.r, self.g, self.b]);
        out
    }
}

} // verus!
