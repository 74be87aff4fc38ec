//! Duplicate and near-duplicate detection over a catalogue of picture files.
//!
//! Files are grouped when their bytes are identical (BLAKE3 content hash, computed only
//! where two files share their size) and when their pictures look alike (64-bit
//! difference hash, clustered by Hamming distance). File-system access, the worker pool
//! and the clock live outside this crate: callers hand in what they walked and read, and
//! carry out what the scan asks for.
//!
//! - [`file_formats`], [`catalog`]: which files are candidates.
//! - [`hashing`]: the content hash. [`picture`], [`dhash`]: the difference hash.
//! - [`grouping`], [`buckets`]: grouping candidates by a key.
//! - [`duplicate`], [`cluster`]: the groups of byte-identical files and of look-alikes.
//! - [`scan`]: the scan as a state machine, with progress and cancellation.
//! - [`importer`], [`blackhole`], [`training`]: what the host does around a scan.
//! - [`records`]: what is known and reported of a file.

pub mod blackhole;
pub mod buckets;
pub mod catalog;
pub mod cluster;
pub mod dhash;
pub mod duplicate;
pub mod file_formats;
pub mod grouping;
pub mod hashing;
pub mod importer;
pub mod picture;
pub mod records;
pub mod scan;
pub mod training;
