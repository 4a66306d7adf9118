//! The archive inspection endpoints: how many files a tar archive holds,
//! and their summed size.  The git-repository search of the cookie hunt
//! is all repository I/O and stays outside the library.

use vstd::prelude::*;
use crate::numfmt;
use tar::Archive;

verus! {

/// How many entries the tar reader yields for these bytes: the result
/// depends on the bytes alone.
pub uninterp spec fn tar_entry_count(bytes: Seq<u8>) -> usize;

/// The summed entry size the tar reader yields for these bytes, when
/// every entry header can be read: the result depends on the bytes
/// alone.
pub uninterp spec fn tar_total_size(bytes: Seq<u8>) -> Option<u64>;

/// Relies on `tar::Archive::entries`: the number of entries the reader
/// yields.
#[verifier::external_body]
fn entry_count(data: &Vec<u8>) -> (r: usize)
    ensures
        r == tar_entry_count(data@),
{
    let mut archive = Archive::new(&data[..]);
    match archive.entries() {
        Ok(entries) => entries.count(),
        Err(_) => 0,
    }
}

/// Relies on `tar::Archive::entries` and `tar::Entry::size`: the summed
/// size of all entries, or nothing when an entry header cannot be read.
#[verifier::external_body]
fn total_size(data: &Vec<u8>) -> (r: Option<u64>)
    ensures
        r == tar_total_size(data@),
{
    let mut archive = Archive::new(&data[..]);
    let entries = archive.entries().ok()?;
    let mut size: u64 = 0;
    for file in entries {
        let file = file.ok()?;
        size = size.checked_add(file.size())?;
    }
    Some(size)
}

/// The number of files in the archive, rendered as a decimal string.
pub fn archive_file_count_text(data: &Vec<u8>) -> (r: String)
    ensures
        r@ == numfmt::dec_str(tar_entry_count(data@) as nat),
{
    let count = entry_count(data);
    numfmt::u64_to_string(count as u64)
}

/// The summed file size of the archive, rendered as a decimal string,
/// or nothing when an entry cannot be read.
pub fn archive_total_size_text(data: &Vec<u8>) -> (r: Option<String>)
    ensures
        match r {
            Some(s) => tar_total_size(data@) matches Some(n) && s@ == numfmt::dec_str(n as nat),
            None => tar_total_size(data@) is None,
        },
{
    match total_size(data) {
        Some(n) => Some(numfmt::u64_to_string(n)),
        None => None,
    }
}

} // verus!
