//! Rasterised glyph masks and the per-rasterisation cache that keeps each glyph at each
//! size from being rasterised twice. The cache is a pure lookup under a byte budget: it
//! changes how often a glyph is rasterised, never what is painted.
use vstd::prelude::*;

use std::collections::HashMap;
use std::sync::Arc;

use crate::fonts::db::FontKey;

verus! {

broadcast use vstd::std_specs::hash::group_hash_axioms;

/// What identifies one rasterised glyph: its face, its glyph id, and its size in app units.
pub type GlyphKey = (FontKey, u16, u32);

/// The integer a glyph key is stored under: face, glyph id and size side by side.
pub open spec fn key_code(key: GlyphKey) -> u128 {
    (key.0.0 as int * 0x1_0000_0000_0000 + key.1 as int * 0x1_0000_0000 + key.2 as int) as u128
}

/// Distinct glyph keys are stored under distinct integers.
pub proof fn lemma_key_code_injective(a: GlyphKey, b: GlyphKey)
    ensures
        key_code(a) == key_code(b) ==> a == b,
{
    let ca = a.0.0 as int * 0x1_0000_0000_0000 + a.1 as int * 0x1_0000_0000 + a.2 as int;
    let cb = b.0.0 as int * 0x1_0000_0000_0000 + b.1 as int * 0x1_0000_0000 + b.2 as int;
    assert(0 <= ca < 0x1_0000_0000_0000_0000_0000) by (nonlinear_arith)
        requires
            ca == a.0.0 as int * 0x1_0000_0000_0000 + a.1 as int * 0x1_0000_0000 + a.2 as int,
            a.0.0 <= u32::MAX,
            a.1 <= u16::MAX,
            a.2 <= u32::MAX,
    ;
    assert(0 <= cb < 0x1_0000_0000_0000_0000_0000) by (nonlinear_arith)
        requires
            cb == b.0.0 as int * 0x1_0000_0000_0000 + b.1 as int * 0x1_0000_0000 + b.2 as int,
            b.0.0 <= u32::MAX,
            b.1 <= u16::MAX,
            b.2 <= u32::MAX,
    ;
    if ca == cb {
        assert(a.0.0 == b.0.0 && a.1 == b.1 && a.2 == b.2) by (nonlinear_arith)
            requires
                ca == a.0.0 as int * 0x1_0000_0000_0000 + a.1 as int * 0x1_0000_0000 + a.2 as int,
                cb == b.0.0 as int * 0x1_0000_0000_0000 + b.1 as int * 0x1_0000_0000 + b.2 as int,
                ca == cb,
                a.1 <= u16::MAX,
                a.2 <= u32::MAX,
                b.1 <= u16::MAX,
                b.2 <= u32::MAX,
        ;
    }
}

/// One glyph's 8-bit alpha coverage mask, plus where it sits relative to the pen: `left`
/// is the offset from the pen to the mask's left edge, `top` the distance from the pen up
/// to the mask's top edge. A glyph with no outline is a zero-sized mask.
#[derive(Debug, Default)]
pub struct GlyphBitmap {
    /// Horizontal offset from the pen to the mask's left edge, in whole device pixels.
    pub left: i32,
    /// Distance from the pen upward to the mask's top edge, in whole device pixels.
    pub top: i32,
    /// The mask's width in pixels.
    pub width: u32,
    /// The mask's height in pixels.
    pub height: u32,
    /// Row-major coverage, one byte per pixel, `width * height` long.
    pub alpha: Vec<u8>,
}

/// The coverage byte at `(col, row)` of a `width` x `height` row-major mask: `None` out of
/// range or past the end of the data.
pub open spec fn coverage_spec(width: u32, height: u32, alpha: Seq<u8>, col: u32, row: u32) -> Option<u8> {
    if col >= width || row >= height {
        None
    } else if row * width + col < alpha.len() {
        Some(alpha[row * width + col])
    } else {
        None
    }
}

impl GlyphBitmap {
    /// The coverage byte at `(col, row)`, or `None` if either is out of range or the mask's
    /// data is shorter than its declared size.
    pub fn coverage(&self, col: u32, row: u32) -> (r: Option<u8>)
        ensures
            r == coverage_spec(self.width, self.height, self.alpha@, col, row),
    {
        if col >= self.width || row >= self.height {
            return None;
        }
        let r64 = row as u64;
        let w64 = self.width as u64;
        assert(r64 * w64 <= 0xFFFF_FFFE_0000_0001u64) by (nonlinear_arith)
            requires
                r64 <= u32::MAX,
                w64 <= u32::MAX,
        ;
        let index: u64 = r64 * w64 + (col as u64);
        if index < self.alpha.len() as u64 {
            Some(self.alpha[index as usize])
        } else {
            None
        }
    }

    /// How many bytes this bitmap costs the cache.
    pub fn byte_size(&self) -> (r: usize)
        ensures
            r == self.alpha@.len(),
    {
        self.alpha.len()
    }
}

/// The largest total mask payload a [`GlyphCache`] holds, in bytes.
pub const MAX_CACHE_BYTES: usize = 16777216;

/// A second handle to the same shared bitmap (`Arc::clone`).
#[verifier::external_body]
fn share(handle: &Arc<GlyphBitmap>) -> (r: Arc<GlyphBitmap>)
    ensures
        r == *handle,
{
    Arc::clone(handle)
}

/// Per-rasterisation store of rasterised glyph masks, under a byte budget.
pub struct GlyphCache {
    map: HashMap<u128, Arc<GlyphBitmap>>,
    bytes: usize,
}

impl GlyphCache {
    /// The stored masks, by key code.
    pub closed spec fn entries(&self) -> Map<u128, GlyphBitmap> {
        Map::new(|k: u128| self.map@.contains_key(k), |k: u128| *self.map@[k])
    }

    /// The bytes charged against the budget so far.
    pub closed spec fn spec_bytes(&self) -> nat {
        self.bytes as nat
    }

    /// The cache's invariant: the budget is never exceeded.
    pub open spec fn wf(&self) -> bool {
        self.spec_bytes() <= MAX_CACHE_BYTES
    }

    /// An empty cache.
    pub fn new() -> (c: GlyphCache)
        ensures
            c.wf(),
            c.entries() == Map::<u128, GlyphBitmap>::empty(),
            c.spec_bytes() == 0,
    {
        let c = GlyphCache { map: HashMap::new(), bytes: 0 };
        proof {
            assert(c.entries() =~= Map::<u128, GlyphBitmap>::empty());
        }
        c
    }

    /// Looks `key` up, returning a shared handle to its mask if it is already rasterised.
    pub fn get(&self, key: &GlyphKey) -> (r: Option<Arc<GlyphBitmap>>)
        ensures
            r matches Some(h) ==> self.entries().contains_key(key_code(*key)) && *h
                == self.entries()[key_code(*key)],
            r is None ==> !self.entries().contains_key(key_code(*key)),
    {
        let code: u128 = (key.0.0 as u128) * 0x1_0000_0000_0000u128 + (key.1 as u128)
            * 0x1_0000_0000u128 + (key.2 as u128);
        proof {
            assert((key.0.0 as u128) * 0x1_0000_0000_0000u128 <= 0xFFFF_FFFF_0000_0000_0000u128)
                by (nonlinear_arith)
                requires
                    key.0.0 <= u32::MAX,
            ;
            assert((key.1 as u128) * 0x1_0000_0000u128 <= 0xFFFF_0000_0000u128) by (nonlinear_arith)
                requires
                    key.1 <= u16::MAX,
            ;
        }
        match self.map.get(&code) {
            Some(h) => Some(share(h)),
            None => None,
        }
    }

    /// Stores `bitmap` under `key` unless that would exceed the byte budget, and returns
    /// the shared handle either way, so the caller can paint with it regardless.
    pub fn insert(&mut self, key: GlyphKey, bitmap: GlyphBitmap) -> (r: Arc<GlyphBitmap>)
        requires
            old(self).wf(),
        ensures
            final(self).wf(),
            *r == bitmap,
            old(self).spec_bytes() + bitmap.alpha@.len() <= MAX_CACHE_BYTES ==> final(self).entries()
                == old(self).entries().insert(key_code(key), bitmap) && final(self).spec_bytes()
                == old(self).spec_bytes() + bitmap.alpha@.len(),
            old(self).spec_bytes() + bitmap.alpha@.len() > MAX_CACHE_BYTES ==> final(self).entries()
                == old(self).entries() && final(self).spec_bytes() == old(self).spec_bytes(),
    {
        let handle = Arc::new(bitmap);
        let cost = handle.byte_size();
        let code: u128 = (key.0.0 as u128) * 0x1_0000_0000_0000u128 + (key.1 as u128)
            * 0x1_0000_0000u128 + (key.2 as u128);
        proof {
            assert((key.0.0 as u128) * 0x1_0000_0000_0000u128 <= 0xFFFF_FFFF_0000_0000_0000u128)
                by (nonlinear_arith)
                requires
                    key.0.0 <= u32::MAX,
            ;
            assert((key.1 as u128) * 0x1_0000_0000u128 <= 0xFFFF_0000_0000u128) by (nonlinear_arith)
                requires
                    key.1 <= u16::MAX,
            ;
        }
        if cost <= MAX_CACHE_BYTES - self.bytes {
            self.bytes = self.bytes + cost;
            self.map.insert(code, share(&handle));
            proof {
                assert(self.entries() =~= old(self).entries().insert(key_code(key), bitmap));
            }
        }
        handle
    }
}

/// A lookup after an insert that fit the budget finds the mask just inserted under its
/// key, and finds for every other key exactly what it found before.
pub proof fn lemma_insert_then_get(
    before: GlyphCache,
    after: GlyphCache,
    key: GlyphKey,
    bitmap: GlyphBitmap,
    other: GlyphKey,
)
    requires
        after.entries() == before.entries().insert(key_code(key), bitmap),
    ensures
        after.entries().contains_key(key_code(key)),
        after.entries()[key_code(key)] == bitmap,
        other != key ==> after.entries().contains_key(key_code(other)) == before.entries().contains_key(
            key_code(other),
        ),
        other != key && before.entries().contains_key(key_code(other)) ==> after.entries()[key_code(other)]
            == before.entries()[key_code(other)],
{
    lemma_key_code_injective(key, other);
}

} // verus!
