use vstd::prelude::*;

pub mod adapter;
pub mod index;
pub mod parsers;
pub mod plain;
pub mod ranking;
pub mod text;

verus! {

/// Where the index of page text is kept.
pub const INDEX_PAGE_DIR: &'static str = "indexes/page";

/// Where the index of code blocks is kept.
pub const INDEX_CODE_DIR: &'static str = "indexes/code";

} // verus!
