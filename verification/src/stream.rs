//! Copying a file's content into the archive, one chunk at a time.
//!
//! The caller reads a chunk of the file into a buffer and reports what the
//! read gave; `after_read` says what to do then. The size of the chunks does
//! not show in the archive.

use vstd::prelude::*;

verus! {

/// What one attempt to read the next chunk of a file gave.
#[derive(Debug, Clone, Copy, PartialEq, Eq, Structural)]
pub enum ReadOutcome {
    /// The read put this many bytes at the front of the buffer; none at the
    /// end of the file.
    Read(usize),
    /// A signal interrupted the read before it gave anything.
    Interrupted,
    /// The read failed for another reason.
    Failed,
}

/// What to do after an attempt to read.
#[derive(Debug, Clone, Copy, PartialEq, Eq, Structural)]
pub enum CopyStep {
    /// Write this many bytes from the front of the buffer to the archive,
    /// then read again.
    Write(usize),
    /// Read again: nothing was lost.
    Retry,
    /// The content is complete.
    Finish,
    /// Give up: the file cannot be read, and the archive stays cut short.
    Abort,
}

/// The step that follows each outcome of a read: an interrupted read is tried
/// again, a read at the end of the file finishes the entry, any other read
/// has its bytes written, and a failure ends the packing.
pub open spec fn step_after(outcome: ReadOutcome) -> CopyStep {
    match outcome {
        ReadOutcome::Read(size) => if size == 0 {
            CopyStep::Finish
        } else {
            CopyStep::Write(size)
        },
        ReadOutcome::Interrupted => CopyStep::Retry,
        ReadOutcome::Failed => CopyStep::Abort,
    }
}

/// Says what to do after a read that gave `outcome`.
pub fn after_read(outcome: ReadOutcome) -> (step: CopyStep)
    ensures
        step == step_after(outcome),
{
    match outcome {
        ReadOutcome::Read(size) => if size == 0 {
            CopyStep::Finish
        } else {
            CopyStep::Write(size)
        },
        ReadOutcome::Interrupted => CopyStep::Retry,
        ReadOutcome::Failed => CopyStep::Abort,
    }
}

/// One read as the copying loop sees it: what it gave, and what the buffer
/// held afterwards.
pub struct ReadEvent {
    pub outcome: ReadOutcome,
    pub buffer: Seq<u8>,
}

/// What a loop that follows `step_after` writes when the reads go as `reads`
/// say: the bytes of each read that gave some, up to the first read that
/// ends the copy.
pub open spec fn copied(reads: Seq<ReadEvent>) -> Seq<u8>
    decreases reads.len(),
{
    if reads.len() == 0 {
        Seq::empty()
    } else {
        match step_after(reads[0].outcome) {
            CopyStep::Write(size) => reads[0].buffer.take(size as int) + copied(
                reads.drop_first(),
            ),
            CopyStep::Retry => copied(reads.drop_first()),
            CopyStep::Finish => Seq::empty(),
            CopyStep::Abort => Seq::empty(),
        }
    }
}

/// Whether `reads` are the reads of a file that holds `content`, from its
/// start to its end: a read that gives bytes gives the next bytes of the
/// content, however many; an interrupted read gives nothing and loses
/// nothing; and the last read finds the end of the file.
pub open spec fn reads_of(content: Seq<u8>, reads: Seq<ReadEvent>) -> bool
    decreases reads.len(),
{
    reads.len() > 0 && match reads[0].outcome {
        ReadOutcome::Read(size) => if size == 0 {
            content.len() == 0 && reads.len() == 1
        } else {
            &&& size <= content.len()
            &&& size <= reads[0].buffer.len()
            &&& reads[0].buffer.take(size as int) == content.take(size as int)
            &&& reads_of(content.skip(size as int), reads.drop_first())
        },
        ReadOutcome::Interrupted => reads_of(content, reads.drop_first()),
        ReadOutcome::Failed => false,
    }
}

/// The size of the chunks does not show in what is written: however the reads
/// cut the content up, and however many of them are interrupted, the loop
/// writes the content of the file.
pub proof fn lemma_copied_is_content(content: Seq<u8>, reads: Seq<ReadEvent>)
    requires
        reads_of(content, reads),
    ensures
        copied(reads) == content,
    decreases reads.len(),
{
    match reads[0].outcome {
        ReadOutcome::Read(size) => {
            if size != 0 {
                lemma_copied_is_content(content.skip(size as int), reads.drop_first());
            }
        },
        ReadOutcome::Interrupted => {
            lemma_copied_is_content(content, reads.drop_first());
        },
        ReadOutcome::Failed => {},
    }
}

} // verus!
