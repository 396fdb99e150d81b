//! Bit masks over positions of a byte vector, most significant bit first in
//! each byte, and the 256-bit masks kept at the nodes of a prefix tree.
use crate::byte_view::{le_bytes, le_decode_range, le_encode, le_value, lemma_pow256_widths};
use std::sync::Arc;
use vstd::prelude::*;

verus! {

/// The bit of its byte that stands for `position`: bit `7 - position % 8`.
pub open spec fn bit_in_byte(position: nat) -> u8 {
    1u8 << ((7 - position % 8) as u8)
}

/// Whether the bit for `position` is set in `m`.
pub open spec fn bit_set(m: Seq<u8>, position: nat) -> bool {
    m[(position / 8) as int] & bit_in_byte(position) != 0
}

/// `m` with the bit for `position` set.
pub open spec fn with_bit(m: Seq<u8>, position: nat) -> Seq<u8> {
    m.update((position / 8) as int, m[(position / 8) as int] | bit_in_byte(position))
}

/// `m` with the bit for `position` cleared.
pub open spec fn without_bit(m: Seq<u8>, position: nat) -> Seq<u8> {
    m.update((position / 8) as int, m[(position / 8) as int] & !bit_in_byte(position))
}

/// Whether the byte that holds `position` has no bit set but the one for `position`.
pub open spec fn only_bit_of_byte(m: Seq<u8>, position: nat) -> bool {
    m[(position / 8) as int] == m[(position / 8) as int] & bit_in_byte(position)
}

fn byte_bit(position: usize) -> (r: u8)
    ensures
        r == bit_in_byte(position as nat),
{
    let bit_position: u8 = (position % 8) as u8;
    1u8 << (7u8 - bit_position)
}

/// Sets the bit for `position`.
pub fn set_bit_u256(mask: Vec<u8>, position: usize) -> (r: Arc<Vec<u8>>)
    requires
        position / 8 < mask@.len(),
    ensures
        r@ == with_bit(mask@, position as nat),
{
    let mut mask = mask;
    let byte_position = position / 8;
    let new_bit = byte_bit(position);
    let updated = mask[byte_position] | new_bit;
    mask.set(byte_position, updated);
    Arc::new(mask)
}

/// Clears the bit for `position`.
pub fn unset_bit_u256(mask: Vec<u8>, position: usize) -> (r: Arc<Vec<u8>>)
    requires
        position / 8 < mask@.len(),
    ensures
        r@ == without_bit(mask@, position as nat),
{
    let mut mask = mask;
    let byte_position = position / 8;
    let new_bit = !byte_bit(position);
    let updated = mask[byte_position] & new_bit;
    mask.set(byte_position, updated);
    Arc::new(mask)
}

/// Whether the byte holding `position` equals itself masked to the bit for
/// `position`, that is, whether no other bit of that byte is set.
pub fn is_set_u256(mask: &Vec<u8>, position: usize) -> (r: bool)
    requires
        position / 8 < mask@.len(),
    ensures
        r == only_bit_of_byte(mask@, position as nat),
{
    let byte_position: usize = position / 8;
    let set_bit = byte_bit(position);
    mask[byte_position] == mask[byte_position] & set_bit
}

proof fn lemma_byte_bits(x: u8, j: u8, k: u8)
    requires
        j < 8,
        k < 8,
    ensures
        ((x | (1u8 << (7 - j) as u8)) & (1u8 << (7 - j) as u8)) != 0,
        ((x & !(1u8 << (7 - j) as u8)) & (1u8 << (7 - j) as u8)) == 0,
        j != k ==> ((x | (1u8 << (7 - j) as u8)) & (1u8 << (7 - k) as u8)) == (x & (1u8 << (7 - k) as u8)),
        j != k ==> ((x & !(1u8 << (7 - j) as u8)) & (1u8 << (7 - k) as u8)) == (x & (1u8 << (7 - k) as u8)),
        (x & !(1u8 << (7 - j) as u8)) == ((x | (1u8 << (7 - j) as u8)) & !(1u8 << (7 - j) as u8)),
        (x & (1u8 << (7 - j) as u8)) == 0 ==> ((x | (1u8 << (7 - j) as u8)) & !(1u8 << (7 - j) as u8)) == x,
        (x | (1u8 << (7 - j) as u8)) == ((x | (1u8 << (7 - j) as u8)) | (1u8 << (7 - j) as u8)),
        x == (x & (1u8 << (7 - j) as u8)) <==> (x & !(1u8 << (7 - j) as u8)) == 0,
{
    assert(((x | (1u8 << (7 - j) as u8)) & (1u8 << (7 - j) as u8)) != 0) by (bit_vector)
        requires
            j < 8,
    ;
    assert(((x & !(1u8 << (7 - j) as u8)) & (1u8 << (7 - j) as u8)) == 0) by (bit_vector)
        requires
            j < 8,
    ;
    assert(j != k ==> ((x | (1u8 << (7 - j) as u8)) & (1u8 << (7 - k) as u8)) == (x & (1u8 << (7
        - k) as u8))) by (bit_vector)
        requires
            j < 8,
            k < 8,
    ;
    assert(j != k ==> ((x & !(1u8 << (7 - j) as u8)) & (1u8 << (7 - k) as u8)) == (x & (1u8 << (7
        - k) as u8))) by (bit_vector)
        requires
            j < 8,
            k < 8,
    ;
    assert((x & !(1u8 << (7 - j) as u8)) == ((x | (1u8 << (7 - j) as u8)) & !(1u8 << (7
        - j) as u8))) by (bit_vector)
        requires
            j < 8,
    ;
    assert((x & (1u8 << (7 - j) as u8)) == 0 ==> ((x | (1u8 << (7 - j) as u8)) & !(1u8 << (7
        - j) as u8)) == x) by (bit_vector)
        requires
            j < 8,
    ;
    assert((x | (1u8 << (7 - j) as u8)) == ((x | (1u8 << (7 - j) as u8)) | (1u8 << (7
        - j) as u8))) by (bit_vector);
    assert(x == (x & (1u8 << (7 - j) as u8)) <==> (x & !(1u8 << (7 - j) as u8)) == 0) by (
    bit_vector);
}

/// Setting a position's bit sets it, and leaves every other position's bit as it was.
pub proof fn lemma_set_bit_sets_only_that_bit(m: Seq<u8>, p: nat, q: nat)
    requires
        p / 8 < m.len(),
        q / 8 < m.len(),
    ensures
        bit_set(with_bit(m, p), p),
        q != p ==> bit_set(with_bit(m, p), q) == bit_set(m, q),
        with_bit(m, p).len() == m.len(),
{
    lemma_byte_bits(m[(p / 8) as int], (p % 8) as u8, (q % 8) as u8);
}

/// Clearing a position's bit clears it, and leaves every other position's bit as it was.
pub proof fn lemma_unset_bit_clears_only_that_bit(m: Seq<u8>, p: nat, q: nat)
    requires
        p / 8 < m.len(),
        q / 8 < m.len(),
    ensures
        !bit_set(without_bit(m, p), p),
        q != p ==> bit_set(without_bit(m, p), q) == bit_set(m, q),
        without_bit(m, p).len() == m.len(),
{
    lemma_byte_bits(m[(p / 8) as int], (p % 8) as u8, (q % 8) as u8);
}

/// Setting a bit twice is setting it once; clearing after setting is clearing;
/// and clearing a bit that was clear after setting it gives the mask back.
pub proof fn lemma_set_unset_compose(m: Seq<u8>, p: nat)
    requires
        p / 8 < m.len(),
    ensures
        with_bit(with_bit(m, p), p) == with_bit(m, p),
        without_bit(with_bit(m, p), p) == without_bit(m, p),
        !bit_set(m, p) ==> without_bit(with_bit(m, p), p) == m,
{
    lemma_byte_bits(m[(p / 8) as int], (p % 8) as u8, (p % 8) as u8);
    assert(with_bit(with_bit(m, p), p) =~= with_bit(m, p));
    assert(without_bit(with_bit(m, p), p) =~= without_bit(m, p));
    if !bit_set(m, p) {
        assert(without_bit(with_bit(m, p), p) =~= m);
    }
}

/// `is_set_u256` holds exactly when the bit for the position is the only bit
/// that may be set in its byte; a cleared bit therefore reads as set when
/// nothing else in its byte is set.
pub proof fn lemma_only_bit_after_unset(m: Seq<u8>, p: nat)
    requires
        p / 8 < m.len(),
    ensures
        only_bit_of_byte(without_bit(m, p), p) <==> without_bit(m, p)[(p / 8) as int] == 0,
        only_bit_of_byte(m, p) <==> (m[(p / 8) as int] & !bit_in_byte(p)) == 0,
{
    let j = (p % 8) as u8;
    let x = m[(p / 8) as int];
    lemma_byte_bits(x, j, j);
    lemma_byte_bits(x & !(1u8 << (7 - j) as u8), j, j);
    assert(((x & !(1u8 << (7 - j) as u8)) & !(1u8 << (7 - j) as u8)) == (x & !(1u8 << (7
        - j) as u8))) by (bit_vector);
}

/// `x` with its low `128 - k` bits cleared: the top `k` bits of `x`.
pub open spec fn keep_top_bits(x: u128, k: nat) -> u128 {
    let s = (128 - k) as u128;
    (x >> s) << s
}

/// The two 128-bit halves of a 256-bit mask, each read little-endian.
pub open spec fn mask_halves(v: Seq<u8>) -> (u128, u128) {
    (le_value(v.subrange(0, 16)) as u128, le_value(v.subrange(16, 32)) as u128)
}

/// A 256-bit mask with the half selected by `sel` set to `kept` and the other half cleared.
pub open spec fn mask_from_half(sel: nat, kept: u128) -> Seq<u8> {
    if sel == 0 {
        le_bytes(kept as nat, 16) + le_bytes(0, 16)
    } else {
        le_bytes(0, 16) + le_bytes(kept as nat, 16)
    }
}

/// What `maskLowerThan` gives: in the half selected by `position / 128`, only
/// the top `position % 128` bits are kept; the other half is cleared.
pub open spec fn mask_lower_than(v: Seq<u8>, position: nat) -> Seq<u8> {
    let sel = position / 128;
    let b = position % 128;
    let half = if sel == 0 { mask_halves(v).0 } else { mask_halves(v).1 };
    mask_from_half(sel, keep_top_bits(half, b))
}

/// What `maskGreaterThan` gives: in the half selected by `position / 128`, only
/// the top `position % 128 + 1` bits are kept; the other half is cleared.
pub open spec fn mask_greater_than(v: Seq<u8>, position: nat) -> Seq<u8> {
    let sel = position / 128;
    let b = position % 128;
    let half = if sel == 0 { mask_halves(v).0 } else { mask_halves(v).1 };
    mask_from_half(sel, keep_top_bits(half, b + 1))
}

/// Bit `i` (`0` the least significant) of the 128-bit half `h` of a 256-bit
/// mask whose halves are read little-endian.
pub open spec fn half_bit(m: Seq<u8>, h: nat, i: nat) -> bool {
    m[(16 * h + i / 8) as int] & (1u8 << (i % 8) as u8) != 0
}

/// Byte `j` of the little-endian bytes of `x` is `x` shifted down by `8 * j` bits, low byte.
proof fn lemma_le_byte_of_u128(x: u128, n: nat, j: nat)
    requires
        j < n <= 16,
    ensures
        le_bytes(x as nat, n)[j as int] == ((x >> ((8 * j) as u128)) & 0xff) as u8,
    decreases j,
{
    if j == 0 {
        assert((x >> 0u128) & 0xff == x % 256) by (bit_vector);
    } else {
        let x2: u128 = x / 256;
        lemma_le_byte_of_u128(x2, (n - 1) as nat, (j - 1) as nat);
        let t: u128 = (8 * (j - 1)) as u128;
        assert(x / 256 == x >> 8u128) by (bit_vector);
        assert((x >> 8u128) >> t == x >> (t + 8u128)) by (bit_vector)
            requires
                t <= 112,
        ;
        crate::byte_view::lemma_le_bytes_len(x2 as nat, (n - 1) as nat);
        assert((x as nat) / 256 == x2 as nat);
        assert(le_bytes(x as nat, n) == seq![((x as nat) % 256) as u8] + le_bytes(x2 as nat, (n - 1) as nat));
        assert(le_bytes(x as nat, n)[j as int] == le_bytes(x2 as nat, (n - 1) as nat)[j - 1]);
    }
}

/// Bit `k` of the low byte of `x >> t` is bit `t + k` of `x`.
proof fn lemma_byte_bit_of_u128(x: u128, t: u128, k: u8)
    requires
        t <= 120,
        k < 8,
    ensures
        ((((x >> t) & 0xff) as u8) & (1u8 << k) != 0) == (x & (1u128 << (t + k as u128)) != 0),
{
    assert(((((x >> t) & 0xff) as u8) & (1u8 << k) != 0) == (x & (1u128 << (t + k as u128)) != 0))
        by (bit_vector)
        requires
            t <= 120,
            k < 8,
    ;
}

/// Keeping the bits from `s` up keeps bit `i` exactly when `i >= s`.
proof fn lemma_keep_from_bit(x: u128, s: u128, i: u128)
    requires
        s < 128,
        i < 128,
    ensures
        (((x >> s) << s) & (1u128 << i) != 0) == (i >= s && x & (1u128 << i) != 0),
{
    assert((((x >> s) << s) & (1u128 << i) != 0) == (i >= s && x & (1u128 << i) != 0)) by (bit_vector)
        requires
            s < 128,
            i < 128,
    ;
}

/// The mask that keeps the top `k` bits of the half `sel` of `v`.
spec fn kept_half(v: Seq<u8>, sel: nat, k: nat) -> Seq<u8> {
    let half = if sel == 0 {
        mask_halves(v).0
    } else {
        mask_halves(v).1
    };
    mask_from_half(sel, keep_top_bits(half, k))
}

/// In the mask that keeps the top `k` bits of the half `sel` of `v`, a bit
/// is set exactly when it lies in that half, among its top `k` bits, and is
/// set in `v`.
proof fn lemma_kept_half_bits(v: Seq<u8>, sel: nat, k: nat)
    requires
        v.len() >= 32,
        sel < 2,
        1 <= k <= 127,
    ensures
        kept_half(v, sel, k).len() == 32,
        forall|h: nat, i: nat|
            h < 2 && i < 128 ==> #[trigger] half_bit(kept_half(v, sel, k), h, i) == (h == sel && i >= 128
                - k && half_bit(v, h, i)),
{
    let half = if sel == 0 {
        mask_halves(v).0
    } else {
        mask_halves(v).1
    };
    let s: u128 = (128 - k) as u128;
    let y = keep_top_bits(half, k);
    assert(y == (half >> s) << s);
    let r = mask_from_half(sel, y);
    let sub = v.subrange(16 * sel as int, 16 * sel as int + 16);
    crate::byte_view::lemma_le_value_bound(sub);
    lemma_pow256_widths();
    assert(half as nat == le_value(sub));
    crate::byte_view::lemma_le_bytes_of_value(sub);
    assert(le_bytes(half as nat, 16) == sub);
    crate::byte_view::lemma_le_bytes_len(y as nat, 16);
    crate::byte_view::lemma_le_bytes_len(0, 16);
    let zero: u128 = 0;
    assert forall|h: nat, i: nat| h < 2 && i < 128 implies #[trigger] half_bit(r, h, i) == (h == sel && i
        >= 128 - k && half_bit(v, h, i)) by {
        let jj: nat = i / 8;
        let kk: u8 = (i % 8) as u8;
        let t: u128 = (8 * jj) as u128;
        assert(t + kk as u128 == i as u128);
        assert(r[(16 * h + jj) as int] == if h == 0 {
            le_bytes(if sel == 0 { y as nat } else { 0 }, 16)[jj as int]
        } else {
            le_bytes(if sel == 0 { 0 } else { y as nat }, 16)[jj as int]
        });
        if h == sel {
            lemma_le_byte_of_u128(y, 16, jj);
            lemma_byte_bit_of_u128(y, t, kk);
            lemma_keep_from_bit(half, s, i as u128);
            lemma_le_byte_of_u128(half, 16, jj);
            lemma_byte_bit_of_u128(half, t, kk);
            assert(r[(16 * h + jj) as int] == le_bytes(y as nat, 16)[jj as int]);
            assert(r[(16 * h + jj) as int] == ((y >> t) & 0xff) as u8);
            assert(half_bit(r, h, i) == ((y & (1u128 << (i as u128))) != 0));
            assert(v[(16 * h + jj) as int] == sub[jj as int]);
            assert(v[(16 * h + jj) as int] == ((half >> t) & 0xff) as u8);
            assert(half_bit(v, h, i) == ((half & (1u128 << (i as u128))) != 0));
            assert((i as u128 >= s) == (i >= 128 - k));
        } else {
            lemma_le_byte_of_u128(zero, 16, jj);
            lemma_byte_bit_of_u128(zero, t, kk);
            assert(r[(16 * h + jj) as int] == le_bytes(zero as nat, 16)[jj as int]);
            assert(r[(16 * h + jj) as int] == ((zero >> t) & 0xff) as u8);
            let bitm: u128 = 1u128 << (i as u128);
            assert(0u128 & bitm == 0) by (bit_vector);
            assert(!half_bit(r, h, i));
        }
    }
}

/// `maskLowerThan` keeps, of the half of `v` that `position` selects, exactly
/// the top `position % 128` bits as they are in `v`, and clears every other
/// bit: every bit it leaves set is set in `v` at the same place.
pub proof fn lemma_mask_lower_than_bits(v: Seq<u8>, position: nat)
    requires
        v.len() >= 32,
        position < 256,
        position % 128 != 0,
    ensures
        mask_lower_than(v, position).len() == 32,
        forall|h: nat, i: nat|
            h < 2 && i < 128 ==> #[trigger] half_bit(mask_lower_than(v, position), h, i) == (h == position
                / 128 && i >= 128 - position % 128 && half_bit(v, h, i)),
{
    let sel = position / 128;
    lemma_kept_half_bits(v, sel, position % 128);
    assert(mask_lower_than(v, position) == kept_half(v, sel, position % 128));
}

/// `maskGreaterThan` keeps, of the half of `v` that `position` selects,
/// exactly the top `position % 128 + 1` bits as they are in `v`, and clears
/// every other bit: every bit it leaves set is set in `v` at the same place.
pub proof fn lemma_mask_greater_than_bits(v: Seq<u8>, position: nat)
    requires
        v.len() >= 32,
        position < 256,
        position % 128 != 127,
    ensures
        mask_greater_than(v, position).len() == 32,
        forall|h: nat, i: nat|
            h < 2 && i < 128 ==> #[trigger] half_bit(mask_greater_than(v, position), h, i) == (h
                == position / 128 && i >= 127 - position % 128 && half_bit(v, h, i)),
{
    let sel = position / 128;
    lemma_kept_half_bits(v, sel, position % 128 + 1);
    assert(mask_greater_than(v, position) == kept_half(v, sel, position % 128 + 1));
}

fn join_halves(ar0: u128, ar1: u128) -> (r: Vec<u8>)
    ensures
        r@ == le_bytes(ar0 as nat, 16) + le_bytes(ar1 as nat, 16),
{
    proof {
        lemma_pow256_widths();
    }
    let mut out = le_encode(ar0, 16);
    let mut high = le_encode(ar1, 16);
    out.append(&mut high);
    out
}

fn read_halves(v: &Vec<u8>) -> (r: (u128, u128))
    requires
        v@.len() >= 32,
    ensures
        r == mask_halves(v@),
{
    let s = v.as_slice();
    let ar0 = le_decode_range(s, 0, 16);
    let ar1 = le_decode_range(s, 16, 32);
    (ar0, ar1)
}

/// Keeps, in the 128-bit half of the mask that `position` falls in, only the
/// top `position % 128` bits, and clears the other half.
#[allow(non_snake_case)]
pub fn maskLowerThan(v: Arc<Vec<u8>>, position: usize) -> (r: Arc<Vec<u8>>)
    requires
        v@.len() >= 32,
        position < 256,
        position % 128 != 0,
    ensures
        r@ == mask_lower_than(v@, position as nat),
        r@.len() == 32,
{
    let bytes: &Vec<u8> = &*v;
    let (ar0, ar1) = read_halves(bytes);
    let bit_selected: u128 = (position % 128) as u128;
    let byte_selected: usize = position / 128;
    let shift: u128 = 128 - bit_selected;
    assert(1u128 << bit_selected >= 1) by (bit_vector)
        requires
            bit_selected < 128,
    ;
    let ones: u128 = (1u128 << bit_selected) - 1;
    let mask: u128 = ones << shift;
    proof {
        assert(forall|x: u128| #![trigger x & mask] x & mask == (x >> shift) << shift) by (bit_vector)
            requires
                ones == (1u128 << bit_selected) - 1,
                mask == ones << shift,
                shift == 128 - bit_selected,
                1 <= bit_selected < 128,
        ;
        crate::byte_view::lemma_le_bytes_len(0, 16);
    }
    let out = if byte_selected == 0 {
        join_halves(ar0 & mask, 0)
    } else {
        join_halves(0, ar1 & mask)
    };
    proof {
        crate::byte_view::lemma_le_bytes_len((ar0 & mask) as nat, 16);
        crate::byte_view::lemma_le_bytes_len((ar1 & mask) as nat, 16);
    }
    Arc::new(out)
}

/// Keeps, in the 128-bit half of the mask that `position` falls in, only the
/// top `position % 128 + 1` bits, and clears the other half.
#[allow(non_snake_case)]
pub fn maskGreaterThan(v: Arc<Vec<u8>>, position: usize) -> (r: Arc<Vec<u8>>)
    requires
        v@.len() >= 32,
        position < 256,
        position % 128 != 127,
    ensures
        r@ == mask_greater_than(v@, position as nat),
        r@.len() == 32,
{
    let bytes: &Vec<u8> = &*v;
    let (ar0, ar1) = read_halves(bytes);
    let bit_selected: u128 = (position % 128) as u128;
    let byte_selected: usize = position / 128;
    let shift: u128 = 127 - bit_selected;
    let top: u128 = bit_selected + 1;
    assert(1u128 << top >= 1) by (bit_vector)
        requires
            top < 128,
    ;
    let ones: u128 = (1u128 << top) - 1;
    let mask: u128 = ones << shift;
    proof {
        assert(forall|x: u128| #![trigger x & mask] x & mask == (x >> shift) << shift) by (bit_vector)
            requires
                ones == (1u128 << top) - 1,
                top == bit_selected + 1,
                mask == ones << shift,
                shift == 127 - bit_selected,
                bit_selected < 127,
        ;
        crate::byte_view::lemma_le_bytes_len(0, 16);
    }
    let out = if byte_selected == 0 {
        join_halves(ar0 & mask, 0)
    } else {
        join_halves(0, ar1 & mask)
    };
    proof {
        crate::byte_view::lemma_le_bytes_len((ar0 & mask) as nat, 16);
        crate::byte_view::lemma_le_bytes_len((ar1 & mask) as nat, 16);
    }
    Arc::new(out)
}

} // verus!
