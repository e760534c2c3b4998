//! Pixels, the pixel hash, and the 64-slot cache of recently seen pixels.
use vstd::prelude::*;

verus! {

/// An sRGBA pixel, one byte per channel.
#[derive(Clone, Copy, Debug, PartialEq, Eq, Structural)]
pub struct RgbaPixel {
    pub r: u8,
    pub g: u8,
    pub b: u8,
    pub a: u8,
}

/// The number of slots of the pixel cache.
pub const CACHE_SIZE: usize = 64;

/// The pixel hash: `(r * 3 + g * 5 + b * 7 + a * 11) % 64`.
///
/// Computing the sum with 8-bit wraparound gives the same slot, since 64 divides 256.
pub open spec fn pixel_hash(p: RgbaPixel) -> nat {
    ((p.r as nat) * 3 + (p.g as nat) * 5 + (p.b as nat) * 7 + (p.a as nat) * 11) % 64
}

/// Opaque black, the "previous pixel" both directions start from.
pub open spec fn opaque_black() -> RgbaPixel {
    RgbaPixel { r: 0, g: 0, b: 0, a: 255 }
}

/// Transparent black, which fills the encoder's cache at the start.
pub open spec fn transparent_black() -> RgbaPixel {
    RgbaPixel { r: 0, g: 0, b: 0, a: 0 }
}

impl RgbaPixel {
    /// Builds a pixel from its four channels.
    pub fn new(r: u8, g: u8, b: u8, a: u8) -> (p: RgbaPixel)
        ensures
            p == (RgbaPixel { r, g, b, a }),
    {
        RgbaPixel { r, g, b, a }
    }

    /// Builds an opaque pixel from three channels.
    pub fn opaque(r: u8, g: u8, b: u8) -> (p: RgbaPixel)
        ensures
            p == (RgbaPixel { r, g, b, a: 255 }),
    {
        RgbaPixel { r, g, b, a: 255 }
    }

    /// The cache slot of this pixel.
    pub fn index_position(&self) -> (r: u8)
        ensures
            r as nat == pixel_hash(*self),
            r < 64,
    {
        let sum: u32 = (self.r as u32) * 3 + (self.g as u32) * 5 + (self.b as u32) * 7
            + (self.a as u32) * 11;
        (sum % 64) as u8
    }
}

impl From<[u8; 4]> for RgbaPixel {
    fn from(c: [u8; 4]) -> (p: RgbaPixel) {
        RgbaPixel { r: c[0], g: c[1], b: c[2], a: c[3] }
    }
}

impl vstd::std_specs::convert::FromSpecImpl<[u8; 4]> for RgbaPixel {
    open spec fn obeys_from_spec() -> bool {
        true
    }

    open spec fn from_spec(c: [u8; 4]) -> RgbaPixel {
        RgbaPixel { r: c@[0], g: c@[1], b: c@[2], a: c@[3] }
    }
}

impl From<[u8; 3]> for RgbaPixel {
    fn from(c: [u8; 3]) -> (p: RgbaPixel) {
        RgbaPixel { r: c[0], g: c[1], b: c[2], a: 255 }
    }
}

impl vstd::std_specs::convert::FromSpecImpl<[u8; 3]> for RgbaPixel {
    open spec fn obeys_from_spec() -> bool {
        true
    }

    open spec fn from_spec(c: [u8; 3]) -> RgbaPixel {
        RgbaPixel { r: c@[0], g: c@[1], b: c@[2], a: 255 }
    }
}

impl From<(u8, u8, u8, u8)> for RgbaPixel {
    fn from(c: (u8, u8, u8, u8)) -> (p: RgbaPixel) {
        RgbaPixel { r: c.0, g: c.1, b: c.2, a: c.3 }
    }
}

impl vstd::std_specs::convert::FromSpecImpl<(u8, u8, u8, u8)> for RgbaPixel {
    open spec fn obeys_from_spec() -> bool {
        true
    }

    open spec fn from_spec(c: (u8, u8, u8, u8)) -> RgbaPixel {
        RgbaPixel { r: c.0, g: c.1, b: c.2, a: c.3 }
    }
}

impl From<(u8, u8, u8)> for RgbaPixel {
    fn from(c: (u8, u8, u8)) -> (p: RgbaPixel) {
        RgbaPixel { r: c.0, g: c.1, b: c.2, a: 255 }
    }
}

impl vstd::std_specs::convert::FromSpecImpl<(u8, u8, u8)> for RgbaPixel {
    open spec fn obeys_from_spec() -> bool {
        true
    }

    open spec fn from_spec(c: (u8, u8, u8)) -> RgbaPixel {
        RgbaPixel { r: c.0, g: c.1, b: c.2, a: 255 }
    }
}

/// The hash is a function of the pixel alone and always names a slot of the cache.
pub proof fn lemma_hash_in_range(p: RgbaPixel, q: RgbaPixel)
    ensures
        pixel_hash(p) < 64,
        p == q ==> pixel_hash(p) == pixel_hash(q),
{
}

/// A table of 64 pixels addressed by [`pixel_hash`].
pub struct PixelCache {
    slots: Vec<RgbaPixel>,
}

impl PixelCache {
    /// The 64 slots, in order.
    pub closed spec fn view(&self) -> Seq<RgbaPixel> {
        self.slots@
    }

    pub open spec fn wf(&self) -> bool {
        self@.len() == 64
    }

    fn filled(p: RgbaPixel) -> (c: PixelCache)
        ensures
            c.wf(),
            c@ == Seq::new(64, |_i: int| p),
    {
        let mut slots: Vec<RgbaPixel> = Vec::new();
        let mut i: usize = 0;
        while i < CACHE_SIZE
            invariant
                i <= 64,
                slots@ == Seq::new(i as nat, |_i: int| p),
            decreases 64 - i,
        {
            slots.push(p);
            i = i + 1;
        }
        PixelCache { slots }
    }

    /// The decoder's starting cache: every slot opaque black.
    pub fn for_decoder() -> (c: PixelCache)
        ensures
            c.wf(),
            c@ == Seq::new(64, |_i: int| opaque_black()),
    {
        PixelCache::filled(RgbaPixel { r: 0, g: 0, b: 0, a: 255 })
    }

    /// The encoder's starting cache: every slot transparent black.
    pub fn for_encoder() -> (c: PixelCache)
        ensures
            c.wf(),
            c@ == Seq::new(64, |_i: int| transparent_black()),
    {
        PixelCache::filled(RgbaPixel { r: 0, g: 0, b: 0, a: 0 })
    }

    /// The pixel held in slot `idx`.
    pub fn get(&self, idx: u8) -> (p: RgbaPixel)
        requires
            self.wf(),
            idx < 64,
        ensures
            p == self@[idx as int],
    {
        self.slots[idx as usize]
    }

    /// Stores `p` in its slot, replacing whatever was there.
    pub fn put(&mut self, p: RgbaPixel)
        requires
            old(self).wf(),
        ensures
            final(self).wf(),
            final(self)@ == old(self)@.update(pixel_hash(p) as int, p),
    {
        let idx = p.index_position();
        self.slots.set(idx as usize, p);
    }
}

} // verus!
