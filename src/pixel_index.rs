use vstd::prelude::*;

use crate::pixel::Pixel;

verus! {

/// Number of slots in the colour cache.
pub const INDEX_SIZE: usize = 64;

/// The slot a pixel is stored in: `(3r + 5g + 7b + 11a) mod 64`.
pub open spec fn hash_of(p: Pixel) -> int {
    (3 * p.r + 5 * p.g + 7 * p.b + 11 * p.a) % 64
}

/// The cache after `p` is written into its slot.
pub open spec fn cache_insert(cache: Seq<Pixel>, p: Pixel) -> Seq<Pixel> {
    cache.update(hash_of(p), p)
}

/// The pixel that an index chunk with tag byte `chunk` names: slot `chunk mod 64`.
pub open spec fn cache_lookup(cache: Seq<Pixel>, chunk: u8) -> Pixel {
    cache[(chunk % 64) as int]
}

/// A 64-slot colour cache; its view always has 64 slots. Writes overwrite their slot unconditionally, and a
/// lookup returns whatever the slot holds.
pub struct PixelIndex {
    inner: [Pixel; INDEX_SIZE],
}

impl View for PixelIndex {
    type V = Seq<Pixel>;

    closed spec fn view(&self) -> Seq<Pixel> {
        self.inner@
    }
}

impl PixelIndex {
    /// The cache has 64 slots.
    pub proof fn lemma_slots(&self)
        ensures
            self@.len() == 64,
    {
    }

    /// A cache whose slots all hold `Pixel::spec_zero()`.
    pub fn new() -> (index: PixelIndex)
        ensures
            index@ == Seq::new(64, |_i: int| Pixel::spec_zero()),
    {
        let index = PixelIndex { inner: [Pixel::zero(); INDEX_SIZE] };
        assert(index@ =~= Seq::new(64, |_i: int| Pixel::spec_zero()));
        index
    }

    /// The pixel in slot `chunk mod 64`.
    pub fn masked_get(&self, chunk: u8) -> (p: Pixel)
        ensures
            self@.len() == 64,
            p == cache_lookup(self@, chunk),
    {
        let i = (chunk & 0x3f) as usize;
        assert(chunk & 0x3f == chunk % 64) by (bit_vector);
        self.inner[i]
    }

    /// Writes `pixel` into slot `hash_of(pixel)`.
    pub fn insert(&mut self, pixel: Pixel)
        ensures
            old(self)@.len() == 64,
            final(self)@.len() == 64,
            final(self)@ == cache_insert(old(self)@, pixel),
    {
        let i = Self::pixel_hash(pixel);
        self.inner[i] = pixel;
    }

    pub fn pixel_hash(pixel: Pixel) -> (h: usize)
        ensures
            h == hash_of(pixel),
            h < 64,
    {
        (pixel.r as usize * 3 + pixel.g as usize * 5 + pixel.b as usize * 7 + pixel.a as usize
            * 11) % INDEX_SIZE
    }
}

} // verus!
