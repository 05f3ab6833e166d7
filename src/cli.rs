//! What a run is asked to do, as plain values.

use vstd::prelude::*;
use crate::remote::is_remote_destination;

verus! {

/// Which of the two runs is asked for; at most one flag is set.
#[derive(Clone, Copy, Debug, PartialEq, Eq, Structural)]
pub struct Mode {
    /// Extract the image's content (the default).
    pub extract: bool,
    /// List the image's content.
    pub list: bool,
}

/// The arguments of a run.
#[derive(Debug)]
pub struct Cli {
    pub mode: Mode,
    /// Leave out a root entry named `$SystemUpdate`.
    pub skip_update: bool,
    /// Path of the image file.
    pub input: String,
    /// Output directory or FTP URL.
    pub out: Option<String>,
}

/// The kind of destination an extraction writes to.
#[derive(Clone, Copy, Debug, PartialEq, Eq, Structural)]
pub enum FsMode {
    Local,
    FTP,
}

impl FsMode {
    /// A destination that starts with `ftp://` is remote; any other is a local
    /// directory.
    pub fn of_destination(out: &str) -> (r: FsMode)
        ensures
            r == (if out@.len() >= 6 && out@.subrange(0, 6) == seq!['f', 't', 'p', ':', '/', '/'] {
                FsMode::FTP
            } else {
                FsMode::Local
            }),
    {
        if is_remote_destination(out) {
            FsMode::FTP
        } else {
            FsMode::Local
        }
    }
}

} // verus!
