//! Command rewriting, shell allowlisting, code search and issue listing for
//! token-lean developer tooling.
use vstd::prelude::*;

pub mod base64;
pub mod bm25_index;
pub mod bm25_scan;
pub mod bm25_storage;
pub mod chunks;
pub mod compound_lexer;
pub mod ctx_search;
pub mod hook_handlers;
pub mod hook_output;
pub mod hook_redirect;
pub mod hook_rewrite;
pub mod jira;
pub mod json;
pub mod ordering;
pub mod paths;
pub mod providers;
pub mod rewrite_registry;
pub mod shell_allowlist;
pub mod string_table;
pub mod text;
pub mod tokens;

verus! {

} // verus!
