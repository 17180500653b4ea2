//! A recursive file-tree scanner that counts lines containing a marker
//! token ("TODO") and reports, for each hit, the position of the token and
//! the trailing message.
//!
//! The crate is split in two:
//! - [`scan`] holds the line scanner: it decides whether a single line of
//!   text contains the marker token and extracts the structured notice.
//! - [`walk`] holds the traversal engine: it walks an in-memory directory
//!   tree, scans every regular file line by line, and sums the hits.
//!
//! Matching is an exact, case-sensitive substring search: no word
//! boundaries are honoured, and a line with several occurrences of the
//! token still counts as a single hit.

pub mod scan;
pub mod walk;
