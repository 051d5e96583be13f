//! Duplicate-file detection by progressive filtering.
//!
//! Candidates are grouped by size, then by a digest of their leading bytes,
//! then by a digest of their whole content; at each step a file that is
//! alone in its group is dropped. Files that share size and full digest are
//! reported as duplicates. Identity is by digest, not by comparing bytes: two
//! different files of one size with one digest would be reported together.
//!
//! Walking directories and reading files is left to the caller. A run goes
//! like this:
//!
//! 1. offer every directory entry to [`candidate::consider`] and collect the
//!    candidates;
//! 2. [`pipeline::PrefixStage::begin`] groups them by size and lists the
//!    files to read; read the leading bytes of each and digest them with
//!    [`digest::prefix_digest`];
//! 3. [`pipeline::PrefixStage::advance`] takes the digests and lists the
//!    files to read in full; stream each through a [`digest::HashWriter`];
//! 4. [`pipeline::FullStage::finish`] takes the digests and gives the
//!    [`report::Report`].
//!
//! A file that cannot be read is reported to its stage as `None`. It is
//! dropped without a trace: the counters count only what was read, so such a
//! file shows in `files_considered` and nowhere else but `files_skipped`.

pub mod accounting;
pub mod candidate;
pub mod config;
pub mod digest;
pub mod grouping;
pub mod membership;
pub mod pipeline;
pub mod reading;
pub mod report;
pub mod stability;
