//! Packs the regular files of a directory tree into one flat archive: a fixed
//! header followed by one self-describing entry per file.
//!
//! The library computes and decides; it reads no file and writes none. A
//! caller lists directories and reads files, and hands over what it found.
//!
//! - `collect` walks the tree: it asks for one directory listing after the
//!   other and gives the paths of the files, relative to the root.
//! - `header`, `entry` and `archive` write the bytes of an archive into a
//!   buffer: the header, one entry, or all of them.
//! - `stream` says what follows each read when the content of a file is
//!   copied a chunk at a time.
//! - `wire` and `layout` define the format, byte by byte.
//! - `readback`, `tree` and `walk` hold no code that runs. They state what is
//!   read back from an archive and what a tree of directories holds, and
//!   prove that packing loses nothing and that the walk finds every file
//!   once.

pub mod archive;
pub mod collect;
pub mod entry;
pub mod header;
pub mod layout;
pub mod readback;
pub mod stream;
pub mod tree;
pub mod walk;
pub mod wire;
