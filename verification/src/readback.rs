//! What a reader finds in an archive.
//!
//! Nothing here runs: the functions say how the bytes of an archive are read
//! back, field by field, and the proofs show that reading back what was
//! written gives the files that went in.

use crate::archive::{
    entries_of, lemma_entries_bytes_concat, lemma_packable_prefix, lemma_packable_prefix_fits,
    packable_prefix, SourceFile,
};
use crate::entry::name_fits;
use crate::layout::{
    archive_bytes, encodable, entries_bytes, entry_bytes, header_bytes, magic, Entry,
    HeaderFields, ENTRY_FIELDS_SIZE, ENTRY_TYPE_FILE, HEADER_SIZE,
};
use crate::wire::{
    lemma_u16_field, lemma_u32_field, lemma_u64_field, u16_from_le, u16_le, u32_from_le, u32_le,
    u64_from_le, u64_le,
};
use vstd::prelude::*;

verus! {

/// The two fields at the start of `bytes`, if there are eight bytes to read.
pub open spec fn parse_header(bytes: Seq<u8>) -> Option<HeaderFields> {
    if bytes.len() < HEADER_SIZE {
        None
    } else {
        Some(HeaderFields { magic: bytes.take(4), header_size: u32_from_le(bytes.skip(4)) })
    }
}

/// The entries that `bytes` hold back to back, if they hold nothing else:
/// each entry has the type of a regular file and is as long as its two length
/// fields say, and the last one ends where `bytes` end.
pub open spec fn parse_entries(bytes: Seq<u8>) -> Option<Seq<Entry>>
    decreases bytes.len(),
{
    if bytes.len() == 0 {
        Some(Seq::empty())
    } else if bytes.len() < ENTRY_FIELDS_SIZE {
        None
    } else {
        let name_end = ENTRY_FIELDS_SIZE + u16_from_le(bytes.skip(2));
        let end = name_end + u64_from_le(bytes.skip(4));
        if u16_from_le(bytes) != ENTRY_TYPE_FILE || bytes.len() < end {
            None
        } else {
            match parse_entries(bytes.skip(end)) {
                None => None,
                Some(rest) => Some(
                    seq![
                        Entry {
                            name: bytes.subrange(ENTRY_FIELDS_SIZE as int, name_end),
                            content: bytes.subrange(name_end, end),
                        },
                    ] + rest,
                ),
            }
        }
    }
}

/// The entries of the archive `bytes`, if it is one: a header with the magic
/// bytes and its own size, then entries up to the end.
pub open spec fn parse_archive(bytes: Seq<u8>) -> Option<Seq<Entry>> {
    match parse_header(bytes) {
        None => None,
        Some(header) => if header.magic == magic() && header.header_size == HEADER_SIZE {
            parse_entries(bytes.skip(HEADER_SIZE as int))
        } else {
            None
        },
    }
}

/// Whatever follows a header, reading it back gives the magic bytes and the
/// size eight.
pub proof fn lemma_header_read_back(rest: Seq<u8>)
    ensures
        parse_header(header_bytes() + rest) == Some(
            HeaderFields { magic: magic(), header_size: HEADER_SIZE },
        ),
        (header_bytes() + rest).skip(HEADER_SIZE as int) == rest,
{
    let bytes = header_bytes() + rest;
    lemma_u32_field(HEADER_SIZE, rest);
    assert(bytes.take(4) =~= magic());
}

/// Every archive starts with a header that reads back as the magic bytes and
/// the size eight, whatever its entries are.
pub proof fn lemma_archive_header(entries: Seq<Entry>)
    ensures
        parse_header(archive_bytes(entries)) == Some(
            HeaderFields { magic: magic(), header_size: HEADER_SIZE },
        ),
{
    lemma_header_read_back(entries_bytes(entries));
}

/// Where the fields, the name and the content of an entry lie when `rest`
/// follows it.
proof fn lemma_entry_parts(entry: Entry, rest: Seq<u8>)
    requires
        encodable(entry),
    ensures
        ({
            let bytes = entry_bytes(entry) + rest;
            let name_end = ENTRY_FIELDS_SIZE + entry.name.len();
            let end = name_end + entry.content.len();
            &&& bytes.len() == end + rest.len()
            &&& u16_from_le(bytes) == ENTRY_TYPE_FILE
            &&& u16_from_le(bytes.skip(2)) == entry.name.len()
            &&& u64_from_le(bytes.skip(4)) == entry.content.len()
            &&& bytes.subrange(ENTRY_FIELDS_SIZE as int, name_end) == entry.name
            &&& bytes.subrange(name_end, end) == entry.content
            &&& bytes.skip(end) == rest
        }),
{
    let name_len = entry.name.len() as u16;
    let content_len = entry.content.len() as u64;
    let bytes = entry_bytes(entry) + rest;
    let after_fields = entry.name + entry.content + rest;
    let after_name_len = u64_le(content_len) + after_fields;
    let after_type = u16_le(name_len) + after_name_len;
    lemma_u16_field(ENTRY_TYPE_FILE, after_type);
    lemma_u16_field(name_len, after_name_len);
    lemma_u64_field(content_len, after_fields);
    lemma_joined(
        u16_le(ENTRY_TYPE_FILE),
        u16_le(name_len),
        u64_le(content_len),
        entry.name,
        entry.content,
        rest,
    );
}

/// Where each of six pieces lies in their concatenation.
proof fn lemma_joined(
    a: Seq<u8>,
    b: Seq<u8>,
    c: Seq<u8>,
    d: Seq<u8>,
    e: Seq<u8>,
    f: Seq<u8>,
)
    ensures
        ({
            let all = a + b + c + d + e + f;
            let at_b = a.len() as int;
            let at_c = at_b + b.len();
            let at_d = at_c + c.len();
            let at_e = at_d + d.len();
            let at_f = at_e + e.len();
            &&& all.len() == at_f + f.len()
            &&& all == a + (b + (c + (d + e + f)))
            &&& all.skip(at_b) == b + (c + (d + e + f))
            &&& all.skip(at_c) == c + (d + e + f)
            &&& all.subrange(at_d, at_e) == d
            &&& all.subrange(at_e, at_f) == e
            &&& all.skip(at_f) == f
        }),
{
}

/// Reading an entry that is followed by `rest` gives that entry, then what
/// reading `rest` gives.
pub proof fn lemma_entry_read_back(entry: Entry, rest: Seq<u8>)
    requires
        encodable(entry),
    ensures
        parse_entries(entry_bytes(entry) + rest) == match parse_entries(rest) {
            None => None,
            Some(others) => Some(seq![entry] + others),
        },
{
    lemma_entry_parts(entry, rest);
}

/// Reading back the entries that were written gives them again.
pub proof fn lemma_entries_read_back(entries: Seq<Entry>)
    requires
        forall|i: int| 0 <= i < entries.len() ==> encodable(#[trigger] entries[i]),
    ensures
        parse_entries(entries_bytes(entries)) == Some(entries),
    decreases entries.len(),
{
    if entries.len() > 0 {
        let first = entries[0];
        let others = entries.drop_first();
        assert(entries =~= seq![first] + others);
        lemma_entries_bytes_concat(seq![first], others);
        assert(entries_bytes(seq![first]) =~= entry_bytes(first)) by {
            reveal_with_fuel(entries_bytes, 2);
        }
        assert(forall|i: int| 0 <= i < others.len() ==> encodable(#[trigger] others[i]));
        lemma_entries_read_back(others);
        lemma_entry_read_back(first, entries_bytes(others));
    }
}

/// Reading back an archive gives the entries that were written, in order:
/// the same names and the same contents.
pub proof fn lemma_archive_read_back(entries: Seq<Entry>)
    requires
        forall|i: int| 0 <= i < entries.len() ==> encodable(#[trigger] entries[i]),
    ensures
        parse_archive(archive_bytes(entries)) == Some(entries),
{
    lemma_header_read_back(entries_bytes(entries));
    lemma_entries_read_back(entries);
}

/// An archive holds one list of entries and no other: two lists that are
/// written as the same bytes are the same list. The end of the bytes is the
/// end of the last entry, and each entry says how long it is.
pub proof fn lemma_archive_unambiguous(first: Seq<Entry>, second: Seq<Entry>)
    requires
        forall|i: int| 0 <= i < first.len() ==> encodable(#[trigger] first[i]),
        forall|i: int| 0 <= i < second.len() ==> encodable(#[trigger] second[i]),
        archive_bytes(first) == archive_bytes(second),
    ensures
        first == second,
{
    lemma_archive_read_back(first);
    lemma_archive_read_back(second);
}

/// Reading back what `encode` wrote for `files` gives one entry for each file
/// that was packed, in order, whose name is the text of the file's path and
/// whose content is the file's bytes. Where every path fits, that is every
/// file.
pub proof fn lemma_files_read_back(files: Seq<SourceFile>)
    ensures
        ({
            let packed = entries_of(files).take(packable_prefix(files) as int);
            &&& parse_archive(archive_bytes(packed)) == Some(packed)
            &&& packed.len() == packable_prefix(files) <= files.len()
            &&& forall|i: int|
                0 <= i < packed.len() ==> {
                    &&& vstd::utf8::decode_utf8((#[trigger] packed[i]).name) == files[i].path@
                    &&& packed[i].content == files[i].content@
                }
        }),
        (forall|i: int| 0 <= i < files.len() ==> name_fits(#[trigger] files[i].path@))
            ==> parse_archive(archive_bytes(entries_of(files))) == Some(entries_of(files)),
{
    let packed = entries_of(files).take(packable_prefix(files) as int);
    lemma_packable_prefix_fits(files);
    assert forall|i: int| 0 <= i < packed.len() implies encodable(#[trigger] packed[i]) by {
        vstd::std_specs::vec::axiom_spec_len(&files[i].content);
    }
    lemma_archive_read_back(packed);
    assert forall|i: int| 0 <= i < packed.len() implies vstd::utf8::decode_utf8(
        (#[trigger] packed[i]).name,
    ) == files[i].path@ by {
        vstd::utf8::encode_utf8_decode_utf8(files[i].path@);
    }
    if forall|i: int| 0 <= i < files.len() ==> name_fits(#[trigger] files[i].path@) {
        lemma_packable_prefix(files, files.len() as int);
        assert(packed =~= entries_of(files));
    }
}

/// The archive of no files is the header alone, and reading it back finds
/// no entry.
pub proof fn lemma_empty_archive()
    ensures
        archive_bytes(Seq::empty()) == header_bytes(),
        parse_archive(header_bytes()) == Some(Seq::<Entry>::empty()),
{
    lemma_archive_read_back(Seq::empty());
}

} // verus!
