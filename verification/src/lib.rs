//! Core of a duplicate-file cleaner: a scan of directory trees yields file
//! records (base name, byte size, absolute path); records whose size reaches a
//! configured threshold are grouped by the key (name, size); groups with at
//! least two members are the duplicate groups. Members can be marked for
//! deletion, and after the surrounding program has attempted the deletions the
//! index prunes the successfully deleted members and drops any group that
//! falls below two members.
//!
//! Directory traversal and file deletion are I/O and live in the surrounding
//! program; this library holds the grouping, marking and pruning logic.

pub mod index;
pub mod laws;
pub mod model;
