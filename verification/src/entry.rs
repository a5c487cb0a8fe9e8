//! Entries: one packed file each.

use crate::layout::{entry_bytes, entry_head, Entry, ENTRY_TYPE_FILE, MAX_NAME_LEN};
use crate::wire::{put_u16_le, put_u64_le};
use vstd::prelude::*;

verus! {

/// A value that the fixed-width fields of an entry cannot hold.
#[derive(Debug, Clone, Copy, PartialEq, Eq, Structural)]
pub enum FormatError {
    /// The path's text takes `len` bytes, more than the name-length field can
    /// say.
    PathTooLong { len: usize },
}

/// The bytes that stand for the path `name` in an entry: its text in UTF-8.
pub open spec fn name_bytes(name: Seq<char>) -> Seq<u8> {
    vstd::utf8::encode_utf8(name)
}

/// The entry that packing `content` under the path `name` gives.
pub open spec fn entry_of(name: Seq<char>, content: Seq<u8>) -> Entry {
    Entry { name: name_bytes(name), content }
}

/// Whether the text of `name` is short enough for an entry: at most 65535
/// bytes.
pub open spec fn name_fits(name: Seq<char>) -> bool {
    name_bytes(name).len() <= MAX_NAME_LEN
}

/// The error for a path whose text is too long.
pub open spec fn too_long(name: Seq<char>) -> FormatError {
    FormatError::PathTooLong { len: name_bytes(name).len() as usize }
}

/// Where the file at `path` below the directory `root` is found: `root`, a
/// `/`, and `path`.
pub open spec fn located(root: Seq<char>, path: Seq<char>) -> Seq<char> {
    root + seq!['/'] + path
}

/// The path under which to open the file at `path` below `root`.
pub fn source_path(root: &str, path: &str) -> (full: String)
    ensures
        full@ == located(root@, path@),
{
    let mut full = root.to_owned();
    proof {
        reveal_strlit("/");
    }
    full.append("/");
    full.append(path);
    full
}

/// Appends `bytes` to `out`.
pub fn put_bytes(out: &mut Vec<u8>, bytes: &[u8])
    ensures
        final(out)@ == old(out)@ + bytes@,
{
    out.extend_from_slice(bytes);
}

/// The length of `name` in bytes, as the name-length field holds it.
pub fn name_len(name: &str) -> (res: Result<u16, FormatError>)
    ensures
        name_fits(name@) ==> res == Ok::<u16, FormatError>(name_bytes(name@).len() as u16),
        !name_fits(name@) ==> res == Err::<u16, FormatError>(too_long(name@)),
{
    let len = name.as_bytes().len();
    if len > MAX_NAME_LEN {
        Err(FormatError::PathTooLong { len })
    } else {
        Ok(len as u16)
    }
}

/// Appends to `out` what an entry holds before its content: type, name
/// length, content length and name. Nothing is appended when the name is too
/// long.
pub fn begin_entry(out: &mut Vec<u8>, name: &str, content_len: u64) -> (res: Result<
    (),
    FormatError,
>)
    ensures
        name_fits(name@) ==> res is Ok && final(out)@ == old(out)@ + entry_head(
            name_bytes(name@),
            content_len,
        ),
        !name_fits(name@) ==> res == Err::<(), FormatError>(too_long(name@)) && final(out)@ == old(
            out,
        )@,
{
    match name_len(name) {
        Err(e) => Err(e),
        Ok(len) => {
            put_u16_le(out, ENTRY_TYPE_FILE);
            put_u16_le(out, len);
            put_u64_le(out, content_len);
            put_bytes(out, name.as_bytes());
            Ok(())
        },
    }
}

/// Appends to `out` the entry for a file with the path `name` and the bytes
/// `content`. Nothing is appended when the name is too long.
pub fn pack_file(out: &mut Vec<u8>, name: &str, content: &[u8]) -> (res: Result<(), FormatError>)
    ensures
        name_fits(name@) ==> res is Ok && final(out)@ == old(out)@ + entry_bytes(
            entry_of(name@, content@),
        ),
        !name_fits(name@) ==> res == Err::<(), FormatError>(too_long(name@)) && final(out)@ == old(
            out,
        )@,
{
    match begin_entry(out, name, content.len() as u64) {
        Err(e) => Err(e),
        Ok(()) => {
            put_bytes(out, content);
            Ok(())
        },
    }
}

} // verus!
