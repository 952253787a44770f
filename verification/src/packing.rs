//! Bit-packed slot metadata and slot addresses.
//!
//! A `Meta` record describes one storage cell of a page: whether it is
//! occupied, which physical cell holds its value, and its current generation.
//! An `Index` addresses one slot of the whole map: a position within a page
//! and a page number. Both are packed into 32 bits; packing is lossless for
//! values within the documented field widths, and the constructors demand
//! in-range inputs rather than truncating silently.

use vstd::prelude::*;

verus! {

/// Number of storage cells in one page; in-page positions occupy 12 bits.
pub const PAGE_SIZE: u16 = 4096;

/// Upper bound (exclusive) on page numbers; page numbers occupy 20 bits.
pub const MAX_PAGES: u32 = 0x100000;

/// The generation a counter wraps to; it never validates a live key.
pub const INVALID_GENERATION: u16 = 0;

/// One metadata record, packed into 32 bits:
/// bit 0 is the active flag, bits 1..=12 the physical cell index,
/// bits 13..=28 the generation; the top three bits stay clear.
#[derive(Clone, Copy)]
pub struct Meta {
    bits: u32,
}

impl Meta {
    /// Whether the described cell holds a live value.
    pub closed spec fn spec_active(self) -> bool {
        self.bits & 1 == 1
    }

    /// The physical storage cell holding the slot's value.
    pub closed spec fn spec_index(self) -> u16 {
        ((self.bits >> 1) & 0xfff) as u16
    }

    /// The slot's current generation.
    pub closed spec fn spec_generation(self) -> u16 {
        ((self.bits >> 13) & 0xffff) as u16
    }

    /// The physical cell index always fits in its 12-bit field.
    pub proof fn lemma_index_in_range(self)
        ensures
            self.spec_index() < PAGE_SIZE,
    {
        let b = self.bits;
        assert((b >> 1) & 0xfff < 4096) by (bit_vector);
    }

    pub fn new(active: bool, index: u16, generation: u16) -> (m: Meta)
        requires
            index < PAGE_SIZE,
        ensures
            m.spec_active() == active,
            m.spec_index() == index,
            m.spec_generation() == generation,
    {
        let a: u32 = if active {
            1
        } else {
            0
        };
        let bits: u32 = ((generation as u32) << 13) | ((index as u32) << 1) | a;
        proof {
            let g = generation as u32;
            let i = index as u32;
            assert((((g << 13) | (i << 1) | a) & 1 == 1) == (a == 1) && (((g << 13) | (i << 1) | a)
                >> 1) & 0xfff == i && (((g << 13) | (i << 1) | a) >> 13) & 0xffff == g)
                by (bit_vector)
                requires
                    i < 4096,
                    g < 0x10000,
                    a == 0 || a == 1,
            ;
        }
        Meta { bits }
    }

    pub fn active(&self) -> (r: bool)
        ensures
            r == self.spec_active(),
    {
        self.bits & 1 == 1
    }

    pub fn index(&self) -> (r: u16)
        ensures
            r == self.spec_index(),
            r < PAGE_SIZE,
    {
        proof {
            self.lemma_index_in_range();
        }
        ((self.bits >> 1) & 0xfff) as u16
    }

    pub fn generation(&self) -> (r: u16)
        ensures
            r == self.spec_generation(),
    {
        proof {
            let b = self.bits;
            assert((b >> 13) & 0xffff < 0x10000) by (bit_vector);
        }
        ((self.bits >> 13) & 0xffff) as u16
    }
}

/// A packed slot address: bits 0..=11 the in-page position, bits 12..=31 the
/// page number.
#[derive(Clone, Copy)]
pub struct Index {
    bits: u32,
}

impl Index {
    /// The position of the slot within its page.
    pub closed spec fn spec_slot(self) -> u16 {
        (self.bits & 0xfff) as u16
    }

    /// The number of the page the slot belongs to.
    pub closed spec fn spec_page(self) -> u32 {
        self.bits >> 12
    }

    /// Both fields always fit their widths.
    pub proof fn lemma_fields_in_range(self)
        ensures
            self.spec_slot() < PAGE_SIZE,
            self.spec_page() < MAX_PAGES,
    {
        let b = self.bits;
        assert(b & 0xfff < 4096 && b >> 12 < 0x100000) by (bit_vector);
    }

    /// An address is determined by its two fields.
    pub proof fn lemma_address_determined(self, other: Index)
        requires
            self.spec_slot() == other.spec_slot(),
            self.spec_page() == other.spec_page(),
        ensures
            self == other,
    {
        let a = self.bits;
        let b = other.bits;
        assert(a == b) by (bit_vector)
            requires
                (a & 0xfff) as u16 == (b & 0xfff) as u16,
                a >> 12 == b >> 12,
        ;
    }

    pub fn new(meta_idx: u16, page: u32) -> (idx: Index)
        requires
            meta_idx < PAGE_SIZE,
            page < MAX_PAGES,
        ensures
            idx.spec_slot() == meta_idx,
            idx.spec_page() == page,
    {
        let bits: u32 = (meta_idx as u32) | (page << 12);
        proof {
            let i = meta_idx as u32;
            let p = page;
            assert((i | (p << 12)) & 0xfff == i && (i | (p << 12)) >> 12 == p) by (bit_vector)
                requires
                    i < 4096,
                    p < 0x100000,
            ;
        }
        Index { bits }
    }

    pub fn meta_idx(&self) -> (r: u16)
        ensures
            r == self.spec_slot(),
            r < PAGE_SIZE,
    {
        proof {
            self.lemma_fields_in_range();
        }
        (self.bits & 0xfff) as u16
    }

    pub fn page(&self) -> (r: u32)
        ensures
            r == self.spec_page(),
            r < MAX_PAGES,
    {
        proof {
            self.lemma_fields_in_range();
        }
        self.bits >> 12
    }
}

impl Default for Index {
    /// The default address: slot 0 of page 0.
    fn default() -> (idx: Index)
        ensures
            idx.spec_slot() == 0,
            idx.spec_page() == 0,
    {
        Index::new(0, 0)
    }
}

} // verus!
