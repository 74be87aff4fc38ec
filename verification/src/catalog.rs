//! The file catalogue: which of the entries found under a root are candidates.
//!
//! Walking the directory tree is the caller's work. What is decided here is which of the
//! entries it met count: regular files whose extension is let in.

use crate::file_formats::{extension_of, file_extension, is_allowed, is_allowed_extension, texts};
use crate::records::{records_view, FileRecord, FileRecordView, Timestamp};
use vstd::prelude::*;

verus! {

/// One entry met while walking a directory tree.
#[derive(Debug)]
pub struct WalkedEntry {
    /// Absolute path of the entry.
    pub path: String,
    /// Its last component.
    pub file_name: String,
    /// Whether it is a regular file.
    pub is_file: bool,
    /// Its length in bytes.
    pub size: u64,
    /// The time of its last modification.
    pub modified: Timestamp,
}

/// Whether an entry is a candidate: a regular file whose name has an extension that is
/// let in.
pub open spec fn is_candidate(entry: WalkedEntry, allowed: Seq<Seq<char>>) -> bool {
    &&& entry.is_file
    &&& extension_of(entry.file_name@) matches Some(extension)
    &&& is_allowed(extension, allowed)
}

/// The test "is a candidate".
pub open spec fn candidate_test(allowed: Seq<Seq<char>>) -> spec_fn(WalkedEntry) -> bool {
    |entry: WalkedEntry| is_candidate(entry, allowed)
}

/// The paths of the candidates among the entries, in the order of the entries.
pub open spec fn candidate_paths(entries: Seq<WalkedEntry>, allowed: Seq<Seq<char>>) -> Seq<Seq<char>> {
    entries.filter(candidate_test(allowed)).map_values(|entry: WalkedEntry| entry.path@)
}

/// Whether an entry is a regular file with an extension that is let in.
pub fn is_candidate_entry(entry: &WalkedEntry, allowed: &Vec<String>) -> (candidate: bool)
    ensures
        candidate == is_candidate(*entry, texts(allowed@)),
{
    if !entry.is_file {
        return false;
    }
    match file_extension(entry.file_name.as_str()) {
        Some(extension) => is_allowed_extension(extension.as_str(), allowed),
        None => false,
    }
}

/// Picks the candidates out of what a walk met: the paths of the regular files whose
/// extension is let in, in the order in which the walk met them.
pub fn scan_images(entries: &Vec<WalkedEntry>, allowed: &Vec<String>) -> (paths: Vec<String>)
    ensures
        texts(paths@) == candidate_paths(entries@, texts(allowed@)),
{
    let ghost test = candidate_test(texts(allowed@));
    let ghost path_of = |entry: WalkedEntry| entry.path@;
    let mut paths: Vec<String> = Vec::new();
    let mut i: usize = 0;
    proof {
        assert(entries@.take(0) =~= Seq::<WalkedEntry>::empty());
        entries@.take(0).lemma_filter_len(test);
        assert(texts(paths@) =~= entries@.take(0).filter(test).map_values(path_of));
    }
    while i < entries.len()
        invariant
            i <= entries.len(),
            test == candidate_test(texts(allowed@)),
            path_of == |entry: WalkedEntry| entry.path@,
            texts(paths@) == entries@.take(i as int).filter(test).map_values(path_of),
        decreases entries.len() - i,
    {
        let ghost before = texts(paths@);
        proof {
            assert(entries@.take(i + 1) =~= entries@.take(i as int).push(entries@[i as int]));
            entries@.take(i as int).lemma_filter_push(entries@[i as int], test);
        }
        if is_candidate_entry(&entries[i], allowed) {
            paths.push(entries[i].path.clone());
            proof {
                assert(texts(paths@) =~= before.push(entries@[i as int].path@));
                assert(entries@.take(i as int).filter(test).push(entries@[i as int]).map_values(path_of) =~= before.push(
                    entries@[i as int].path@,
                ));
            }
        } else {
            proof {
                assert(texts(paths@) =~= before);
            }
        }
        i += 1;
    }
    proof {
        assert(entries@.take(entries.len() as int) =~= entries@);
        assert(candidate_paths(entries@, texts(allowed@)) == entries@.filter(test).map_values(path_of));
    }
    paths
}

/// The candidates of a duplicate scan: the same choice as [`scan_images`].
pub fn find_allowed_files(entries: &Vec<WalkedEntry>, allowed: &Vec<String>) -> (paths: Vec<String>)
    ensures
        texts(paths@) == candidate_paths(entries@, texts(allowed@)),
{
    scan_images(entries, allowed)
}

/// Lists the pictures among what a walk met. Never fails: entries that are no pictures
/// are passed over.
pub fn find_images(entries: &Vec<WalkedEntry>, allowed: &Vec<String>) -> (found: Result<Vec<String>, String>)
    ensures
        found matches Ok(paths) && texts(paths@) == candidate_paths(entries@, texts(allowed@)),
{
    Ok(scan_images(entries, allowed))
}

/// The record of a candidate that has not been fingerprinted yet.
pub open spec fn fresh_record_of(entry: WalkedEntry) -> FileRecordView {
    FileRecordView {
        path: entry.path@,
        size: entry.size,
        modified: entry.modified,
        byte_hash: None,
        perceptual_hash: None,
        preview_base64: None,
    }
}

/// The records of the candidates among the entries, in the order of the entries, none
/// of them fingerprinted yet.
pub open spec fn fresh_records(entries: Seq<WalkedEntry>, allowed: Seq<Seq<char>>) -> Seq<FileRecordView> {
    entries.filter(candidate_test(allowed)).map_values(|entry: WalkedEntry| fresh_record_of(entry))
}

/// Makes the catalogue of a walk: one record for every candidate, with its path, size
/// and time of modification, in the order in which the walk met them.
pub fn catalogue(entries: &Vec<WalkedEntry>, allowed: &Vec<String>) -> (records: Vec<FileRecord>)
    ensures
        records_view(records@) == fresh_records(entries@, texts(allowed@)),
        records@.len() == candidate_paths(entries@, texts(allowed@)).len(),
{
    let ghost test = candidate_test(texts(allowed@));
    let ghost record_of = |entry: WalkedEntry| fresh_record_of(entry);
    let mut records: Vec<FileRecord> = Vec::new();
    let mut i: usize = 0;
    proof {
        assert(entries@.take(0) =~= Seq::<WalkedEntry>::empty());
        entries@.take(0).lemma_filter_len(test);
        assert(records_view(records@) =~= entries@.take(0).filter(test).map_values(record_of));
    }
    while i < entries.len()
        invariant
            i <= entries.len(),
            test == candidate_test(texts(allowed@)),
            record_of == |entry: WalkedEntry| fresh_record_of(entry),
            records_view(records@) == entries@.take(i as int).filter(test).map_values(record_of),
        decreases entries.len() - i,
    {
        let ghost before = records_view(records@);
        proof {
            assert(entries@.take(i + 1) =~= entries@.take(i as int).push(entries@[i as int]));
            entries@.take(i as int).lemma_filter_push(entries@[i as int], test);
        }
        if is_candidate_entry(&entries[i], allowed) {
            let entry = &entries[i];
            records.push(
                FileRecord {
                    path: entry.path.clone(),
                    size: entry.size,
                    modified: entry.modified,
                    byte_hash: None,
                    perceptual_hash: None,
                    preview_base64: None,
                },
            );
            proof {
                assert(records_view(records@) =~= before.push(fresh_record_of(entries@[i as int])));
                assert(entries@.take(i as int).filter(test).push(entries@[i as int]).map_values(record_of) =~= before.push(
                    fresh_record_of(entries@[i as int]),
                ));
            }
        } else {
            proof {
                assert(records_view(records@) =~= before);
            }
        }
        i += 1;
    }
    proof {
        assert(entries@.take(entries.len() as int) =~= entries@);
    }
    records
}

} // verus!
