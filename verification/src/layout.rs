//! The archive as a sequence of bytes.
//!
//! An archive is an eight-byte header followed by zero or more entries, back
//! to back, with no padding between them and nothing after the last one. All
//! integers are little-endian.
//!
//! | offset | field         | size    |
//! |--------|---------------|---------|
//! | 0      | magic         | 4       |
//! | 4      | header size   | 4 (u32) |
//! | 8..    | entries       | varies  |
//!
//! An entry is its type (u16, always 1), the length of its name (u16), the
//! length of its content (u64), the name and the content.

use crate::wire::{u16_le, u32_le, u64_le};
use vstd::prelude::*;

verus! {

/// The size of the header in bytes, which is also the number in its second
/// field.
pub const HEADER_SIZE: u32 = 8;

/// The type of an entry that holds a regular file.
pub const ENTRY_TYPE_FILE: u16 = 1;

/// The greatest length in bytes of an entry's name.
pub const MAX_NAME_LEN: usize = 0xFFFF;

/// The size in bytes of an entry's three integer fields.
pub const ENTRY_FIELDS_SIZE: usize = 12;

/// The four bytes that open every archive: the letters `PKIT`.
pub open spec fn magic() -> Seq<u8> {
    seq![0x50u8, 0x4bu8, 0x49u8, 0x54u8]
}

/// The two fields of a header.
pub struct HeaderFields {
    pub magic: Seq<u8>,
    pub header_size: u32,
}

/// One packed file: the text of its path and its bytes.
pub struct Entry {
    pub name: Seq<u8>,
    pub content: Seq<u8>,
}

/// Whether the lengths of `entry` can be written in its two length fields.
pub open spec fn encodable(entry: Entry) -> bool {
    entry.name.len() <= MAX_NAME_LEN && entry.content.len() <= u64::MAX
}

/// The header that every archive starts with.
pub open spec fn header_bytes() -> Seq<u8> {
    magic() + u32_le(HEADER_SIZE)
}

/// What stands in an entry before its content: the three integer fields and
/// the name.
pub open spec fn entry_head(name: Seq<u8>, content_len: u64) -> Seq<u8>
    recommends
        name.len() <= MAX_NAME_LEN,
{
    u16_le(ENTRY_TYPE_FILE) + u16_le(name.len() as u16) + u64_le(content_len) + name
}

/// One entry: what stands before the content, then the content.
pub open spec fn entry_bytes(entry: Entry) -> Seq<u8>
    recommends
        encodable(entry),
{
    entry_head(entry.name, entry.content.len() as u64) + entry.content
}

/// The entries of an archive, in order.
pub open spec fn entries_bytes(entries: Seq<Entry>) -> Seq<u8>
    decreases entries.len(),
{
    if entries.len() == 0 {
        Seq::empty()
    } else {
        entries_bytes(entries.drop_last()) + entry_bytes(entries.last())
    }
}

/// A whole archive.
pub open spec fn archive_bytes(entries: Seq<Entry>) -> Seq<u8> {
    header_bytes() + entries_bytes(entries)
}

/// The header is `PKIT` followed by the number eight.
pub proof fn lemma_header_bytes()
    ensures
        header_bytes() == seq![0x50u8, 0x4bu8, 0x49u8, 0x54u8, 8u8, 0u8, 0u8, 0u8],
        header_bytes().len() == HEADER_SIZE,
{
    assert(header_bytes() =~= seq![0x50u8, 0x4bu8, 0x49u8, 0x54u8, 8u8, 0u8, 0u8, 0u8]);
}

/// An entry's length is twelve plus the lengths of its name and its content.
pub proof fn lemma_entry_len(entry: Entry)
    ensures
        entry_head(entry.name, entry.content.len() as u64).len() == ENTRY_FIELDS_SIZE
            + entry.name.len(),
        entry_bytes(entry).len() == ENTRY_FIELDS_SIZE + entry.name.len() + entry.content.len(),
{
}

} // verus!
