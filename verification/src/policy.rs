//! The distinctness policy of a run and the content identity it gives an
//! entry.

use crate::text::{compare_names, Lexical};
use vstd::prelude::*;

verus! {

/// How the content of two entries of one name is told apart. It is fixed for
/// a whole run.
#[derive(Clone, Copy, Debug, PartialEq, Eq, Structural)]
pub enum DistinctFrom {
    /// By the uncompressed length of the entry.
    Size,
    /// By the CRC-32 of the entry.
    Crc,
    /// Not at all: only the name counts.
    Nothing,
}

/// The identity that every entry has when content is ignored.
pub const DISTINCT_FROM_NONE: u64 = 0;

/// What an archive's directory says of one entry.
pub struct EntryMeta {
    pub name: String,
    pub size: u64,
    pub crc32: u32,
}

/// The mathematical value of an [`EntryMeta`].
pub ghost struct EntryView {
    pub name: Seq<char>,
    pub size: u64,
    pub crc32: u32,
}

impl View for EntryMeta {
    type V = EntryView;

    open spec fn view(&self) -> EntryView {
        EntryView { name: self.name@, size: self.size, crc32: self.crc32 }
    }
}

/// The values of a run of entries.
pub open spec fn entries_view(entries: Seq<EntryMeta>) -> Seq<EntryView> {
    Seq::new(entries.len(), |i: int| entries[i]@)
}

/// The content identity of an entry under `policy`: its length, its
/// checksum widened to 64 bits, or the one sentinel.
pub open spec fn content_identity(entry: EntryView, policy: DistinctFrom) -> u64 {
    match policy {
        DistinctFrom::Size => entry.size,
        DistinctFrom::Crc => entry.crc32 as u64,
        DistinctFrom::Nothing => DISTINCT_FROM_NONE,
    }
}

/// Computes the content identity of `entry` from its metadata alone.
pub fn get_distinct_from(entry: &EntryMeta, policy: DistinctFrom) -> (identity: u64)
    ensures
        identity == content_identity(entry@, policy),
{
    match policy {
        DistinctFrom::Crc => entry.crc32 as u64,
        DistinctFrom::Size => entry.size,
        DistinctFrom::Nothing => DISTINCT_FROM_NONE,
    }
}

/// The policy that a selector names: `size`, `crc` or `none`, and no other.
pub open spec fn policy_named(name: Seq<char>) -> Option<DistinctFrom> {
    if name == "size"@ {
        Some(DistinctFrom::Size)
    } else if name == "crc"@ {
        Some(DistinctFrom::Crc)
    } else if name == "none"@ {
        Some(DistinctFrom::Nothing)
    } else {
        None
    }
}

impl DistinctFrom {
    /// Reads a policy selector. Only the three recognized values are
    /// accepted, in exactly this spelling.
    pub fn from_name(name: &str) -> (policy: Option<DistinctFrom>)
        ensures
            policy == policy_named(name@),
    {
        if same_text(name, "size") {
            Some(DistinctFrom::Size)
        } else if same_text(name, "crc") {
            Some(DistinctFrom::Crc)
        } else if same_text(name, "none") {
            Some(DistinctFrom::Nothing)
        } else {
            None
        }
    }
}

/// Whether two strings hold the same characters.
fn same_text(a: &str, b: &str) -> (same: bool)
    ensures
        same == (a@ == b@),
{
    match compare_names(a, b) {
        Lexical::Same => true,
        _ => false,
    }
}

} // verus!
