//! A hierarchical file-tree aggregator.
//!
//! The crate turns a flat collection of file records (a path of named
//! segments plus a byte length) into a deduplicated, totally ordered flat
//! listing of file and implied-directory rows, and into a nested tree of
//! directory and file nodes with rolled-up sizes.  A companion algorithm
//! summarizes the dominant file extensions of such a collection.
//!
//! Ordering is locale-sensitive and numeric-aware: it goes through
//! `icu_collator` with numeric collation switched on, so `"file2"` sorts
//! before `"file10"`.
#![allow(unused_imports)]
use vstd::prelude::*;

pub mod api;
pub mod collate;
pub mod exts;
pub mod filerow;
pub mod fileview;
pub mod seqs;

verus! {

/// Builds a magnet link for the given info-hash.
pub fn make_magnet_link(info_hash: &str) -> (r: String)
    ensures
        r@ == "magnet:?xt=urn:btih:"@ + info_hash@,
{
    let s = "magnet:?xt=urn:btih:".to_owned();
    s.concat(info_hash)
}

} // verus!
