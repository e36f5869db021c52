//! Retention of the newest versions of each package in a cache directory.
//!
//! A run reads the paths of a cache, picks the package files among them by
//! their names, sorts them by package name and version, and selects of each
//! package all files but the newest few as deletion candidates. Versions are
//! ordered by a comparator that the caller hands in.
//!
//! - [`filename`]: which file names stand for a package, and for which release;
//!   the names of the sidecar files that go with a package file.
//! - [`package`]: the release and the package file as data.
//! - [`version`]: outcomes of comparison, comparators, the order of names.
//! - [`catalog`]: the sorted list of the package files of a cache.
//! - [`retention`]: groups of one package and their deletion candidates.
//! - [`report`]: totals of a run and their rendering for the user.

pub mod catalog;
pub mod filename;
pub mod package;
pub mod report;
pub mod retention;
pub mod version;
