//! Key-value indexing primitives: byte encodings, bit masks over 256
//! positions, key pointers into a cached key-value store, and prefix trees.
use vstd::prelude::*;

pub mod byte_view;
pub mod mask;
pub mod search;
pub mod store;
pub mod index_pointer;
pub mod bst;
pub mod compat;
pub mod support_compat;
pub mod stdio;
pub mod utils;

verus! {

} // verus!
