//! The array-buffer layout in which byte strings cross to the host: the
//! length as a little-endian `usize`, then the bytes.
use crate::byte_view::{le_bytes, le_value, usize_bytes, ByteView};
use std::sync::Arc;
use vstd::prelude::*;

verus! {

/// The array-buffer layout of `b`.
pub open spec fn arraybuffer_layout(b: Seq<u8>) -> Seq<u8> {
    le_bytes(b.len(), usize_bytes()) + b
}

/// `a` followed by the bytes of `b`.
pub fn append_bytes(a: &mut Vec<u8>, b: &[u8])
    ensures
        final(a)@ == old(a)@ + b@,
{
    let mut i: usize = 0;
    while i < b.len()
        invariant
            i <= b@.len(),
            a@ == old(a)@ + b@.subrange(0, i as int),
        decreases b@.len() - i,
    {
        a.push(b[i]);
        i = i + 1;
        assert(a@ =~= old(a)@ + b@.subrange(0, i as int));
    }
    assert(b@.subrange(0, b@.len() as int) =~= b@);
}

/// Lays out the bytes `b` for the host.
pub fn layout_bytes(b: &[u8]) -> (r: Vec<u8>)
    ensures
        r@ == arraybuffer_layout(b@),
{
    let mut buffer = <usize as ByteView>::to_bytes(b.len());
    append_bytes(&mut buffer, b);
    buffer
}

/// Lays out the bytes of `v` for the host.
pub fn to_arraybuffer_layout(v: Arc<Vec<u8>>) -> (r: Vec<u8>)
    ensures
        r@ == arraybuffer_layout(v@),
{
    let bytes: &Vec<u8> = &*v;
    layout_bytes(bytes.as_slice())
}

/// The layout tells its reader how many bytes follow, and they are the bytes laid out.
pub proof fn lemma_layout_round_trip(b: Seq<u8>)
    requires
        b.len() <= usize::MAX,
    ensures
        arraybuffer_layout(b).len() == usize_bytes() + b.len(),
        le_value(arraybuffer_layout(b).subrange(0, usize_bytes() as int)) == b.len(),
        arraybuffer_layout(b).subrange(usize_bytes() as int, arraybuffer_layout(b).len() as int)
            == b,
{
    crate::byte_view::lemma_pow256_widths();
    crate::byte_view::lemma_le_value_of_bytes(b.len(), usize_bytes());
    let l = arraybuffer_layout(b);
    assert(l.subrange(0, usize_bytes() as int) =~= le_bytes(b.len(), usize_bytes()));
    assert(l.subrange(usize_bytes() as int, l.len() as int) =~= b);
}

} // verus!
