use packit::entry::{begin_entry, pack_file, put_bytes};
use packit::stream::{after_read, CopyStep, ReadOutcome};

#[test]
fn a_read_with_bytes_is_written() {
    assert_eq!(after_read(ReadOutcome::Read(1)), CopyStep::Write(1));
    assert_eq!(after_read(ReadOutcome::Read(1024)), CopyStep::Write(1024));
    assert_eq!(after_read(ReadOutcome::Read(usize::MAX)), CopyStep::Write(usize::MAX));
}

#[test]
fn a_read_of_nothing_ends_the_content() {
    assert_eq!(after_read(ReadOutcome::Read(0)), CopyStep::Finish);
}

#[test]
fn an_interrupted_read_is_tried_again() {
    assert_eq!(after_read(ReadOutcome::Interrupted), CopyStep::Retry);
}

#[test]
fn a_failed_read_ends_the_packing() {
    assert_eq!(after_read(ReadOutcome::Failed), CopyStep::Abort);
}

/// Copies `content` as a reader would hand it over: `chunk` bytes at a time,
/// with every other read interrupted, the first one too. Returns the number
/// of reads that were tried again.
fn copy_in_chunks(content: &[u8], chunk: usize, out: &mut Vec<u8>) -> usize {
    let mut at = 0;
    let mut reads = 0;
    let mut retries = 0;
    loop {
        reads += 1;
        let outcome = if reads % 2 == 1 {
            ReadOutcome::Interrupted
        } else {
            ReadOutcome::Read(chunk.min(content.len() - at))
        };
        match after_read(outcome) {
            CopyStep::Write(size) => {
                put_bytes(out, &content[at..at + size]);
                at += size;
            }
            CopyStep::Retry => retries += 1,
            CopyStep::Finish => return retries,
            CopyStep::Abort => panic!("no read fails here"),
        }
    }
}

#[test]
fn the_chunk_size_does_not_show_in_the_entry() {
    let content: Vec<u8> = (0..4000u32).map(|i| (i * 7 % 256) as u8).collect();
    let mut whole = Vec::new();
    assert_eq!(pack_file(&mut whole, "data", &content), Ok(()));
    for chunk in [1, 7, 1024, 4000, 5000] {
        let mut out = Vec::new();
        assert_eq!(begin_entry(&mut out, "data", content.len() as u64), Ok(()));
        let retries = copy_in_chunks(&content, chunk, &mut out);
        assert_eq!(retries, content.len().div_ceil(chunk) + 1);
        assert_eq!(out, whole);
    }
}

#[test]
fn an_empty_file_has_no_content_to_write() {
    let mut out = Vec::new();
    assert_eq!(begin_entry(&mut out, "empty", 0), Ok(()));
    let retries = copy_in_chunks(&[], 1024, &mut out);
    assert_eq!(retries, 1);
    let mut whole = Vec::new();
    assert_eq!(pack_file(&mut whole, "empty", &[]), Ok(()));
    assert_eq!(out, whole);
}
