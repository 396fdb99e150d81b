//! The array-buffer layout for any byte slice.
use crate::compat::{arraybuffer_layout, layout_bytes};
use vstd::prelude::*;

verus! {

/// Lays out the bytes `v` for the host: their length as a little-endian
/// `usize`, then the bytes.
pub fn to_arraybuffer_layout(v: &[u8]) -> (r: Vec<u8>)
    ensures
        r@ == arraybuffer_layout(v@),
{
    layout_bytes(v)
}

} // verus!
