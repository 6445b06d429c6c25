//! A faceted-browsing filesystem core.
//!
//! A catalog of tagged items (each carrying facet categories such as
//! `year` mapped to one or more values) is exposed as a directory tree:
//! each path alternates a facet category segment with a facet value
//! segment, and the files visible under a path are exactly the items
//! whose tags satisfy every `category = value` constraint chosen so far.
//!
//! The modules below hold the verified engine: the immutable catalog,
//! the constraint-set matching logic, the remaining-category and
//! remaining-value computations, the path resolver, the memoizing
//! inode allocator, and the request adapter that a mount loop drives.
//! All file and kernel I/O stays outside this crate; the adapter works
//! on plain values only.

pub mod strorder;
pub mod catalog;
pub mod constraint;
pub mod facets;
pub mod node;
pub mod inodes;
pub mod listing;
pub mod fs;
