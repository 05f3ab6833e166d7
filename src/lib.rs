//! Reading Xbox disc images (XDVDFS) and extracting their files.
//!
//! - `layout`: the volume geometry and the header at one of two offsets.
//! - `entry`: directory records and the scan of one sector of a node table.
//! - `listing`: the order of a directory level (case-insensitive name, then
//!   exact name; the first record of each exact name kept).
//! - `tree`: the tree that an image holds, stated over its sectors' bytes.
//! - `decoder`: a decoder that asks for sectors one by one and builds the tree.
//! - `plan`: the directories to make and files to copy, depth first.
//! - `extract`: the decisions of an extraction: making directories, leaving
//!   complete files alone, copying in chunks, checking sizes. A file found
//!   complete counts among the files in place and is also reported apart.
//! - `remote`: the decisions of an FTP destination.
//! - `cli`: the arguments of a run.
//!
//! Reading the image and writing the destination are the caller's: the
//! decoder and the extraction say what to read or do next and are told what
//! came back.

pub mod cli;
pub mod decoder;
pub mod entry;
pub mod error;
pub mod extract;
pub mod layout;
pub mod listing;
pub mod plan;
pub mod remote;
pub mod tree;
