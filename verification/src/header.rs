//! The archive header.

use crate::layout::{header_bytes, magic, HeaderFields, HEADER_SIZE};
use crate::wire::{put_u32_le, u32_le};
use vstd::prelude::*;

verus! {

/// The fixed record at the start of an archive.
pub struct PackItHeader {
    /// Header Magic (PKIT)
    magic: [u8; 4],
    /// Header Size
    header_size: u32,
}

impl View for PackItHeader {
    type V = HeaderFields;

    closed spec fn view(&self) -> HeaderFields {
        HeaderFields { magic: self.magic@, header_size: self.header_size }
    }
}

impl PackItHeader {
    /// Every header holds the magic bytes and its own size.
    #[verifier::type_invariant]
    closed spec fn well_formed(self) -> bool {
        self.magic@ == magic() && self.header_size == HEADER_SIZE
    }

    /// The header of this format.
    pub fn new() -> (header: Self)
        ensures
            header@ == (HeaderFields { magic: magic(), header_size: HEADER_SIZE }),
    {
        PackItHeader { magic: [0x50, 0x4b, 0x49, 0x54], header_size: HEADER_SIZE }
    }

    /// The magic bytes.
    pub fn magic(&self) -> (bytes: [u8; 4])
        ensures
            bytes@ == self@.magic,
            bytes@ == magic(),
    {
        proof {
            use_type_invariant(self);
        }
        self.magic
    }

    /// The size of the header in bytes.
    pub fn header_size(&self) -> (size: u32)
        ensures
            size == self@.header_size,
            size == HEADER_SIZE,
    {
        proof {
            use_type_invariant(self);
        }
        self.header_size
    }

    /// Appends the header to `out`: the magic bytes, then the header's size.
    pub fn write(&self, out: &mut Vec<u8>)
        ensures
            final(out)@ == old(out)@ + self@.magic + u32_le(self@.header_size),
            final(out)@ == old(out)@ + header_bytes(),
    {
        proof {
            use_type_invariant(self);
        }
        let ghost before = out@;
        let mut i: usize = 0;
        while i < 4
            invariant
                i <= 4,
                out@ == before + self.magic@.take(i as int),
            decreases 4 - i,
        {
            out.push(self.magic[i]);
            i += 1;
        }
        put_u32_le(out, HEADER_SIZE);
    }
}

} // verus!
