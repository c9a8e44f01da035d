//! Line search in text: the lines that hold a query, exactly or ignoring case.
use vstd::prelude::*;

pub mod config;
pub mod search;
pub mod text;

verus! {

} // verus!
