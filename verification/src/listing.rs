//! What a directory listing tells of its entries.

use vstd::prelude::*;

verus! {

/// What kind of entry a name in a directory stands for. Links are not
/// followed.
#[derive(Debug, Clone, Copy, PartialEq, Eq, Structural)]
pub enum EntryKind {
    Directory,
    File,
    /// A link, a device, ..
    Other,
    /// The kind could not be read.
    Unknown,
}

} // verus!
