//! Whole archives: the header, then one entry per file, in the order given.

use crate::entry::{entry_of, name_fits, pack_file, too_long, FormatError};
use crate::header::PackItHeader;
use crate::layout::{archive_bytes, entries_bytes, Entry};
use vstd::prelude::*;

verus! {

/// A file to pack: its path relative to the packed root, with `/` between its
/// parts, and its bytes.
pub struct SourceFile {
    pub path: String,
    pub content: Vec<u8>,
}

impl SourceFile {
    /// The entry that packing this file gives.
    pub open spec fn entry(&self) -> Entry {
        entry_of(self.path@, self.content@)
    }
}

/// The entries that packing `files` gives, in order.
pub open spec fn entries_of(files: Seq<SourceFile>) -> Seq<Entry> {
    Seq::new(files.len(), |i: int| files[i].entry())
}

/// How many files at the front of `files` have a path short enough for an
/// entry: the index of the first that has not, or the number of files.
pub open spec fn packable_prefix(files: Seq<SourceFile>) -> nat
    decreases files.len(),
{
    if files.len() == 0 || !name_fits(files[0].path@) {
        0
    } else {
        1 + packable_prefix(files.drop_first())
    }
}

/// The first `packable_prefix` paths fit, and the next one, if there is one,
/// does not.
pub proof fn lemma_packable_prefix_fits(files: Seq<SourceFile>)
    ensures
        packable_prefix(files) <= files.len(),
        forall|j: int| 0 <= j < packable_prefix(files) ==> name_fits(#[trigger] files[j].path@),
        packable_prefix(files) < files.len() ==> !name_fits(
            files[packable_prefix(files) as int].path@,
        ),
    decreases files.len(),
{
    if files.len() > 0 && name_fits(files[0].path@) {
        let tail = files.drop_first();
        lemma_packable_prefix_fits(tail);
        assert forall|j: int| 0 <= j < packable_prefix(files) implies name_fits(
            #[trigger] files[j].path@,
        ) by {
            if j > 0 {
                assert(files[j] == tail[j - 1]);
            }
        }
    }
}

/// `packable_prefix` is the one count `k` such that the first `k` paths fit
/// and the next one, if there is one, does not.
pub proof fn lemma_packable_prefix(files: Seq<SourceFile>, k: int)
    requires
        0 <= k <= files.len(),
        forall|j: int| 0 <= j < k ==> name_fits(#[trigger] files[j].path@),
        k < files.len() ==> !name_fits(files[k].path@),
    ensures
        packable_prefix(files) == k,
    decreases files.len(),
{
    if k > 0 {
        let tail = files.drop_first();
        assert(forall|j: int| 0 <= j < k - 1 ==> name_fits(#[trigger] tail[j].path@));
        lemma_packable_prefix(tail, k - 1);
    }
}

/// Entries written one after the other are the entries of the joined list.
pub proof fn lemma_entries_bytes_concat(first: Seq<Entry>, second: Seq<Entry>)
    ensures
        entries_bytes(first + second) == entries_bytes(first) + entries_bytes(second),
    decreases second.len(),
{
    if second.len() > 0 {
        assert((first + second).drop_last() =~= first + second.drop_last());
        lemma_entries_bytes_concat(first, second.drop_last());
    }
}

/// What `encode` writes and returns depends on the paths and the contents of
/// the files alone: two lists of files that agree in both have the same
/// entries, the same packable prefix and the same error, so packing the same
/// files twice gives the same bytes and the same result.
pub proof fn lemma_encode_repeatable(first: Seq<SourceFile>, second: Seq<SourceFile>)
    requires
        first.len() == second.len(),
        forall|i: int|
            0 <= i < first.len() ==> (#[trigger] first[i]).path@ == second[i].path@
                && first[i].content@ == second[i].content@,
    ensures
        entries_of(first) == entries_of(second),
        packable_prefix(first) == packable_prefix(second),
        packable_prefix(first) < first.len() ==> too_long(
            first[packable_prefix(first) as int].path@,
        ) == too_long(second[packable_prefix(second) as int].path@),
    decreases first.len(),
{
    if first.len() > 0 && name_fits(first[0].path@) {
        let first_tail = first.drop_first();
        let second_tail = second.drop_first();
        assert(forall|i: int|
            0 <= i < first_tail.len() ==> (#[trigger] first_tail[i]).path@ == second_tail[i].path@
                && first_tail[i].content@ == second_tail[i].content@);
        lemma_encode_repeatable(first_tail, second_tail);
    }
}

/// Writes the archive of `files` to the end of `output`: the header, then
/// the entry of each file in order. Stops before the first file whose path is
/// too long for an entry and returns the error for it; what was written up to
/// there stays in `output`.
pub fn encode(files: &Vec<SourceFile>, output: &mut Vec<u8>) -> (res: Result<(), FormatError>)
    ensures
        packable_prefix(files@) <= files@.len(),
        final(output)@ == old(output)@ + archive_bytes(
            entries_of(files@).take(packable_prefix(files@) as int),
        ),
        packable_prefix(files@) == files@.len() ==> res is Ok,
        packable_prefix(files@) < files@.len() ==> res == Err::<(), FormatError>(
            too_long(files@[packable_prefix(files@) as int].path@),
        ),
        (forall|i: int| 0 <= i < files@.len() ==> name_fits(#[trigger] files@[i].path@))
            ==> res is Ok && final(output)@ == old(output)@ + archive_bytes(entries_of(files@)),
{
    let ghost before = output@;
    let ghost entries = entries_of(files@);
    let header = PackItHeader::new();
    header.write(output);
    let mut i: usize = 0;
    while i < files.len()
        invariant
            i <= files.len(),
            before == old(output)@,
            entries == entries_of(files@),
            output@ == before + archive_bytes(entries.take(i as int)),
            forall|j: int| 0 <= j < i ==> name_fits(#[trigger] files@[j].path@),
        decreases files.len() - i,
    {
        let file = &files[i];
        match pack_file(output, file.path.as_str(), file.content.as_slice()) {
            Err(e) => {
                proof {
                    lemma_packable_prefix(files@, i as int);
                }
                return Err(e);
            },
            Ok(()) => {},
        }
        proof {
            let done = entries.take(i as int);
            assert(entries.take(i + 1) =~= done.push(entries[i as int]));
            assert(done.push(entries[i as int]).drop_last() =~= done);
        }
        i += 1;
    }
    proof {
        lemma_packable_prefix(files@, files@.len() as int);
        assert(entries.take(files@.len() as int) =~= entries);
    }
    Ok(())
}

} // verus!
