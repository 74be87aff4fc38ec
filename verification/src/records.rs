//! What the scan knows about one file, and what it reports about it.

use vstd::prelude::*;

verus! {

/// A point in time: whole seconds and nanoseconds since the Unix epoch.
#[derive(Clone, Copy, Debug, PartialEq, Eq, Structural)]
pub struct Timestamp {
    pub secs: u64,
    pub nanos: u32,
}

/// The characters of an optional text.
pub open spec fn text_of(text: Option<String>) -> Option<Seq<char>> {
    match text {
        Some(s) => Some(s@),
        None => None,
    }
}

/// One candidate file as the scan found and fingerprinted it.
#[derive(Debug)]
pub struct FileRecord {
    /// Absolute path.
    pub path: String,
    /// Length in bytes.
    pub size: u64,
    /// Time of the last modification.
    pub modified: Timestamp,
    /// Content hash of the file's bytes, if it was computed.
    pub byte_hash: Option<String>,
    /// Difference hash of the picture, if the file decoded as one.
    pub perceptual_hash: Option<u64>,
    /// Preview of the picture as a data URL, if one was rendered.
    pub preview_base64: Option<String>,
}

/// The mathematical value of a [`FileRecord`].
pub struct FileRecordView {
    pub path: Seq<char>,
    pub size: u64,
    pub modified: Timestamp,
    pub byte_hash: Option<Seq<char>>,
    pub perceptual_hash: Option<u64>,
    pub preview_base64: Option<Seq<char>>,
}

impl View for FileRecord {
    type V = FileRecordView;

    open spec fn view(&self) -> FileRecordView {
        FileRecordView {
            path: self.path@,
            size: self.size,
            modified: self.modified,
            byte_hash: text_of(self.byte_hash),
            perceptual_hash: self.perceptual_hash,
            preview_base64: text_of(self.preview_base64),
        }
    }
}

/// The values of a list of records.
pub open spec fn records_view(records: Seq<FileRecord>) -> Seq<FileRecordView> {
    Seq::new(records.len(), |i: int| records[i]@)
}

/// One member of a reported group.
#[derive(Debug)]
pub struct FileInfo {
    /// Content hash, if known.
    pub hash: Option<String>,
    /// Difference hash as 16 hexadecimal digits, if the file is a picture.
    pub dhash: Option<String>,
    /// Length in bytes.
    pub size: u64,
    /// Absolute path.
    pub path: String,
    /// Whole seconds since the last modification, 0 if that lies in the future.
    pub age: u64,
    /// Preview of the picture as a data URL, if one was rendered.
    pub preview: Option<String>,
}

/// The mathematical value of a [`FileInfo`].
pub struct FileInfoView {
    pub hash: Option<Seq<char>>,
    pub dhash: Option<Seq<char>>,
    pub size: u64,
    pub path: Seq<char>,
    pub age: u64,
    pub preview: Option<Seq<char>>,
}

impl View for FileInfo {
    type V = FileInfoView;

    open spec fn view(&self) -> FileInfoView {
        FileInfoView {
            hash: text_of(self.hash),
            dhash: text_of(self.dhash),
            size: self.size,
            path: self.path@,
            age: self.age,
            preview: text_of(self.preview),
        }
    }
}

/// Whether `earlier` lies strictly before `later`.
pub open spec fn is_before(earlier: Timestamp, later: Timestamp) -> bool {
    earlier.secs < later.secs || (earlier.secs == later.secs && earlier.nanos < later.nanos)
}

/// Whole seconds from `modified` to `now`; 0 when `now` lies before `modified`.
pub open spec fn age_secs(now: Timestamp, modified: Timestamp) -> u64 {
    if is_before(now, modified) {
        0
    } else if now.nanos >= modified.nanos {
        (now.secs - modified.secs) as u64
    } else {
        (now.secs - modified.secs - 1) as u64
    }
}

/// Whole seconds elapsed from `modified` to `now`, 0 if `modified` lies in the future.
pub fn age_in_secs(now: Timestamp, modified: Timestamp) -> (age: u64)
    ensures
        age == age_secs(now, modified),
{
    if now.secs < modified.secs || (now.secs == modified.secs && now.nanos < modified.nanos) {
        0
    } else if now.nanos >= modified.nanos {
        now.secs - modified.secs
    } else {
        now.secs - modified.secs - 1
    }
}

/// A copy of an optional text.
pub fn copy_text(text: &Option<String>) -> (copy: Option<String>)
    ensures
        text_of(copy) == text_of(*text),
{
    match text {
        Some(s) => Some(s.clone()),
        None => None,
    }
}

} // verus!
