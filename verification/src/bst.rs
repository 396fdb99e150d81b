//! A tree of 256-bit masks over the byte prefixes of keys, kept in the store
//! under a base pointer: each mask records which next bytes follow a prefix.
use crate::byte_view::{le_bytes, le_value, shrink_back, usize_bytes, ByteView};
use crate::index_pointer::IndexPointer;
use crate::mask::{
    is_set_u256, maskLowerThan, mask_lower_than, only_bit_of_byte, set_bit_u256, unset_bit_u256,
    with_bit, without_bit,
};
use crate::search::binary_search;
use crate::store::{copy_bytes, Lookup, Store};
use std::sync::Arc;
use vstd::prelude::*;
use vstd::string::StringSliceAdditionalSpecFns;

verus! {

/// The cache and the pending keys of a store.
pub type StoreState = (Map<Seq<u8>, Seq<u8>>, Seq<Seq<u8>>);

/// Why a walk along a key's path stopped.
#[derive(Debug, Clone, Copy, PartialEq, Eq, Structural)]
pub enum PathError {
    /// A mask has no byte for the bit of the key's byte.
    MaskTooShort,
    /// A cleared mask does not have the length of a `usize`.
    NotUsizeLength,
    /// The key's byte selects bit 0 of a mask half, which the lower mask cannot keep.
    ShiftOverflow,
}

/// The bytes of `/mask`.
pub open spec fn mask_word() -> Seq<u8> {
    seq![47u8, 109u8, 97u8, 115u8, 107u8]
}

/// `usize_bytes()` zero bytes whose first `i` bytes are replaced by those of `kb`.
pub open spec fn padded_prefix(kb: Seq<u8>, i: int) -> Seq<u8> {
    Seq::new(usize_bytes(), |j: int| if j < i { kb[j] } else { 0u8 })
}

/// The key of the mask that marking visits at depth `i` of the key bytes `kb`.
pub open spec fn mark_key(base: Seq<u8>, kb: Seq<u8>, i: int) -> Seq<u8> {
    base + padded_prefix(kb, i) + mask_word()
}

/// The key of the mask that `seek_lower` reads for the prefix of length `l`.
pub open spec fn level_key(base: Seq<u8>, kb: Seq<u8>, l: int) -> Seq<u8> {
    base + kb.subrange(0, l) + mask_word()
}

/// The mask that a path step works on: the cached one, or `usize_bytes()`
/// zero bytes when that is empty.
pub open spec fn working_mask(m: Seq<u8>) -> Seq<u8> {
    if m.len() == 0 {
        le_bytes(0, usize_bytes())
    } else {
        m
    }
}

/// One step of marking: the bit for `byte` is set in the mask at `key`
/// unless `is_set_u256` already holds of it.
pub open spec fn mark_step(s: StoreState, key: Seq<u8>, byte: u8) -> Result<StoreState, PathError> {
    let m = working_mask(s.0[key]);
    if byte / 8 >= m.len() {
        Err(PathError::MaskTooShort)
    } else if only_bit_of_byte(m, byte as nat) {
        Ok(s)
    } else {
        Ok((s.0.insert(key, with_bit(m, byte as nat)), s.1.push(key)))
    }
}

/// The first `i` steps of marking the key bytes `kb` under `base`.
pub open spec fn mark_steps(s: StoreState, base: Seq<u8>, kb: Seq<u8>, i: nat) -> Result<
    StoreState,
    PathError,
>
    decreases i,
{
    if i == 0 {
        Ok(s)
    } else {
        match mark_steps(s, base, kb, (i - 1) as nat) {
            Ok(t) => mark_step(t, mark_key(base, kb, i - 1), kb[i - 1]),
            Err(e) => Err(e),
        }
    }
}

/// One step of unmarking: when `is_set_u256` holds of the mask at `key`, the
/// bit for `byte` is cleared and the mask is stored, or the single byte `0`
/// when the cleared mask reads as the `usize` zero.
pub open spec fn unmark_step(s: StoreState, key: Seq<u8>, byte: u8) -> Result<StoreState, PathError> {
    let m = working_mask(s.0[key]);
    if byte / 8 >= m.len() {
        Err(PathError::MaskTooShort)
    } else if only_bit_of_byte(m, byte as nat) {
        let v = without_bit(m, byte as nat);
        if v.len() != usize_bytes() {
            Err(PathError::NotUsizeLength)
        } else {
            Ok(
                (
                    s.0.insert(key, if le_value(v) == 0 { seq![0u8] } else { v }),
                    s.1.push(key),
                ),
            )
        }
    } else {
        Ok(s)
    }
}

/// The first `i` steps of unmarking the key bytes `kb` under `base`.
pub open spec fn unmark_steps(s: StoreState, base: Seq<u8>, kb: Seq<u8>, i: nat) -> Result<
    StoreState,
    PathError,
>
    decreases i,
{
    if i == 0 {
        Ok(s)
    } else {
        match unmark_steps(s, base, kb, (i - 1) as nat) {
            Ok(t) => unmark_step(t, mark_key(base, kb, i - 1), kb[i - 1]),
            Err(e) => Err(e),
        }
    }
}

/// Whether every mask that marking the `n` key bytes `kb` visits is cached.
pub open spec fn marks_cached(c: Map<Seq<u8>, Seq<u8>>, base: Seq<u8>, kb: Seq<u8>, n: nat) -> bool {
    forall|i: int| 0 <= i < n ==> c.contains_key(#[trigger] mark_key(base, kb, i))
}

pub proof fn lemma_le_bytes_zero(n: nat)
    ensures
        le_bytes(0, n) == Seq::new(n, |j: int| 0u8),
    decreases n,
{
    if n > 0 {
        lemma_le_bytes_zero((n - 1) as nat);
        assert(le_bytes(0, n) =~= Seq::new(n, |j: int| 0u8));
    }
}

/// Marking only adds cached entries at visited mask keys, and keeps every
/// visited key cached.
proof fn lemma_mark_steps_domain(s: StoreState, base: Seq<u8>, kb: Seq<u8>, i: nat, n: nat)
    requires
        i <= n <= kb.len(),
        marks_cached(s.0, base, kb, n),
        mark_steps(s, base, kb, i) is Ok,
    ensures
        marks_cached(mark_steps(s, base, kb, i)->Ok_0.0, base, kb, n),
    decreases i,
{
    if i > 0 {
        lemma_mark_steps_domain(s, base, kb, (i - 1) as nat, n);
    }
}

proof fn lemma_unmark_steps_domain(s: StoreState, base: Seq<u8>, kb: Seq<u8>, i: nat, n: nat)
    requires
        i <= n <= kb.len(),
        marks_cached(s.0, base, kb, n),
        unmark_steps(s, base, kb, i) is Ok,
    ensures
        marks_cached(unmark_steps(s, base, kb, i)->Ok_0.0, base, kb, n),
    decreases i,
{
    if i > 0 {
        lemma_unmark_steps_domain(s, base, kb, (i - 1) as nat, n);
    }
}

/// Every level from `from` up to `to` has a cached mask, and it is empty.
pub open spec fn levels_empty(c: Map<Seq<u8>, Seq<u8>>, base: Seq<u8>, kb: Seq<u8>, from: int, to: int) -> bool {
    forall|l: int|
        from <= l < to ==> c.contains_key(#[trigger] level_key(base, kb, l)) && c[level_key(base, kb, l)].len() == 0
}

/// Whether the mask of marking depth `i` is the first one that is not cached.
pub open spec fn first_missing_mark(c: Map<Seq<u8>, Seq<u8>>, base: Seq<u8>, kb: Seq<u8>, i: int) -> bool {
    &&& 0 <= i < kb.len()
    &&& !c.contains_key(mark_key(base, kb, i))
    &&& marks_cached(c, base, kb, i as nat)
}

/// Whether the mask of level `l` is not cached while the masks of all longer
/// prefixes are cached and empty: where `seek_lower` needs a read from the host.
pub open spec fn first_missing_level(c: Map<Seq<u8>, Seq<u8>>, base: Seq<u8>, kb: Seq<u8>, l: int) -> bool {
    &&& 0 <= l < kb.len()
    &&& !c.contains_key(level_key(base, kb, l))
    &&& levels_empty(c, base, kb, l + 1, kb.len() as int)
}

/// What `seek_lower` does when the first non-empty cached mask, going from
/// the longest prefix down, is the one of level `j`: a mask shorter than 32
/// bytes, or a key byte at bit 0 of a half, stops it; otherwise that mask is
/// replaced by `mask_lower_than` of it.
pub open spec fn seek_found<K>(
    c: Map<Seq<u8>, Seq<u8>>,
    new_c: Map<Seq<u8>, Seq<u8>>,
    old_p: Seq<Seq<u8>>,
    new_p: Seq<Seq<u8>>,
    base: Seq<u8>,
    kb: Seq<u8>,
    j: int,
    r: Result<K, PathError>,
) -> bool {
    let key = level_key(base, kb, j);
    let m = c[key];
    &&& 0 <= j < kb.len()
    &&& levels_empty(c, base, kb, j + 1, kb.len() as int)
    &&& c.contains_key(key)
    &&& m.len() > 0
    &&& if m.len() < 32 {
        r == Err::<K, PathError>(PathError::MaskTooShort) && new_c == c && new_p == old_p
    } else if kb[j] % 128 == 0 {
        r == Err::<K, PathError>(PathError::ShiftOverflow) && new_c == c && new_p == old_p
    } else {
        r is Ok && new_c == c.insert(key, mask_lower_than(m, kb[j] as nat)) && new_p == old_p.push(key)
    }
}

/// Once a step fails, the walk ends with that failure.
proof fn lemma_mark_steps_stop(s: StoreState, base: Seq<u8>, kb: Seq<u8>, i: nat, n: nat)
    requires
        i <= n,
        mark_steps(s, base, kb, i) is Err,
    ensures
        mark_steps(s, base, kb, n) == mark_steps(s, base, kb, i),
    decreases n,
{
    if i < n {
        lemma_mark_steps_stop(s, base, kb, i, (n - 1) as nat);
    }
}

proof fn lemma_unmark_steps_stop(s: StoreState, base: Seq<u8>, kb: Seq<u8>, i: nat, n: nat)
    requires
        i <= n,
        unmark_steps(s, base, kb, i) is Err,
    ensures
        unmark_steps(s, base, kb, n) == unmark_steps(s, base, kb, i),
    decreases n,
{
    if i < n {
        lemma_unmark_steps_stop(s, base, kb, i, (n - 1) as nat);
    }
}

/// Marking and unmarking write only the masks of the path: every other key
/// keeps its cached value, and only path keys become pending.
pub proof fn lemma_path_steps_frame(s: StoreState, base: Seq<u8>, kb: Seq<u8>, i: nat, k: Seq<u8>)
    requires
        i <= kb.len(),
        forall|j: int| 0 <= j < i ==> k != #[trigger] mark_key(base, kb, j),
    ensures
        mark_steps(s, base, kb, i) matches Ok(t) ==> t.0.contains_key(k) == s.0.contains_key(k)
            && t.0[k] == s.0[k] && t.1.len() >= s.1.len() && t.1.subrange(0, s.1.len() as int) == s.1
            && forall|p: int| s.1.len() <= p < t.1.len() ==> #[trigger] t.1[p] != k,
        unmark_steps(s, base, kb, i) matches Ok(t) ==> t.0.contains_key(k) == s.0.contains_key(k)
            && t.0[k] == s.0[k] && t.1.len() >= s.1.len() && t.1.subrange(0, s.1.len() as int) == s.1
            && forall|p: int| s.1.len() <= p < t.1.len() ==> #[trigger] t.1[p] != k,
    decreases i,
{
    if i > 0 {
        lemma_path_steps_frame(s, base, kb, (i - 1) as nat, k);
        assert(k != mark_key(base, kb, i - 1));
        if let Ok(t) = mark_steps(s, base, kb, (i - 1) as nat) {
            if let Ok(u) = mark_steps(s, base, kb, i) {
                assert(u.1.subrange(0, s.1.len() as int) =~= s.1) by {
                    if u.1.len() > t.1.len() {
                        assert(u.1 == t.1.push(mark_key(base, kb, i - 1)));
                        assert(u.1.subrange(0, s.1.len() as int) =~= t.1.subrange(0, s.1.len() as int));
                    }
                }
            }
        }
        if let Ok(t) = unmark_steps(s, base, kb, (i - 1) as nat) {
            if let Ok(u) = unmark_steps(s, base, kb, i) {
                assert(u.1.subrange(0, s.1.len() as int) =~= s.1) by {
                    if u.1.len() > t.1.len() {
                        assert(u.1 == t.1.push(mark_key(base, kb, i - 1)));
                        assert(u.1.subrange(0, s.1.len() as int) =~= t.1.subrange(0, s.1.len() as int));
                    }
                }
            }
        }
    } else {
        assert(s.1.subrange(0, s.1.len() as int) =~= s.1);
    }
}

/// Marking a path whose masks are all empty writes nothing, as long as each
/// key byte has a bit in a `usize` worth of mask bytes: `is_set_u256` holds
/// of the zero mask that stands for an empty one.
pub proof fn lemma_mark_empty_masks(s: StoreState, base: Seq<u8>, kb: Seq<u8>, i: nat)
    requires
        i <= kb.len(),
        forall|j: int| 0 <= j < i ==> s.0[#[trigger] mark_key(base, kb, j)].len() == 0,
        forall|j: int| 0 <= j < i ==> #[trigger] kb[j] / 8 < usize_bytes(),
    ensures
        mark_steps(s, base, kb, i) == Ok::<StoreState, PathError>(s),
    decreases i,
{
    if i > 0 {
        lemma_mark_empty_masks(s, base, kb, (i - 1) as nat);
        let key = mark_key(base, kb, i - 1);
        let b = kb[i - 1];
        let m = working_mask(s.0[key]);
        lemma_le_bytes_zero(usize_bytes());
        crate::byte_view::lemma_le_bytes_len(0, usize_bytes());
        assert(m[(b / 8) as int] == 0u8);
        let bit = crate::mask::bit_in_byte(b as nat);
        assert(0u8 == 0u8 & bit) by (bit_vector);
        assert(only_bit_of_byte(m, b as nat));
    }
}

/// A marking step fails, with `MaskTooShort`, exactly when the key byte's
/// bit lies past the end of the mask it works on. Otherwise, when another bit
/// of the byte holding that bit is set, it stores the mask with that bit set
/// and every other bit as it was, and makes the key pending; when no other
/// bit of that byte is set, it changes nothing.
pub proof fn lemma_mark_step_law(s: StoreState, key: Seq<u8>, b: u8)
    ensures
        ({
            let m = working_mask(s.0[key]);
            let r = mark_step(s, key, b);
            &&& r is Err <==> (b / 8) as int >= m.len()
            &&& r is Err ==> r == Err::<StoreState, PathError>(PathError::MaskTooShort)
            &&& (b / 8) < m.len() && (m[(b / 8) as int] & !crate::mask::bit_in_byte(b as nat)) != 0
                ==> (r matches Ok(t) && t.1 == s.1.push(key) && t.0 == s.0.insert(key, t.0[key])
                && t.0[key].len() == m.len() && crate::mask::bit_set(t.0[key], b as nat)
                && forall|q: nat|
                q / 8 < m.len() && q != b ==> #[trigger] crate::mask::bit_set(t.0[key], q)
                    == crate::mask::bit_set(m, q))
            &&& (b / 8) < m.len() && (m[(b / 8) as int] & !crate::mask::bit_in_byte(b as nat)) == 0
                ==> r == Ok::<StoreState, PathError>(s)
        }),
{
    let m = working_mask(s.0[key]);
    if (b / 8) < m.len() {
        crate::mask::lemma_only_bit_after_unset(m, b as nat);
        assert forall|q: nat| q / 8 < m.len() implies #[trigger] crate::mask::bit_set(with_bit(m, b as nat), q)
            == (if q == b { true } else { crate::mask::bit_set(m, q) }) by {
            crate::mask::lemma_set_bit_sets_only_that_bit(m, b as nat, q);
        }
    }
}

/// Marking a path keeps the length of the mask that each key's step works on.
proof fn lemma_mark_steps_keep_lengths(s: StoreState, base: Seq<u8>, kb: Seq<u8>, n: nat, k: Seq<u8>)
    requires
        n <= kb.len(),
        mark_steps(s, base, kb, n) is Ok,
    ensures
        working_mask(mark_steps(s, base, kb, n)->Ok_0.0[k]).len() == working_mask(s.0[k]).len(),
    decreases n,
{
    if n > 0 {
        lemma_mark_steps_keep_lengths(s, base, kb, (n - 1) as nat, k);
        let t = mark_steps(s, base, kb, (n - 1) as nat)->Ok_0;
        let key = mark_key(base, kb, n - 1);
        let m = working_mask(t.0[key]);
        crate::byte_view::lemma_le_bytes_len(0, usize_bytes());
        assert(usize_bytes() > 0);
        assert(with_bit(m, kb[n - 1] as nat).len() == m.len());
    }
}

/// Marking the first `n` bytes of a key succeeds exactly when each key byte
/// has its bit within the mask that its step works on, as that mask stood
/// before marking began: no step changes the length of a mask.
pub proof fn lemma_mark_steps_ok(s: StoreState, base: Seq<u8>, kb: Seq<u8>, n: nat)
    requires
        n <= kb.len(),
    ensures
        mark_steps(s, base, kb, n) is Ok <==> forall|i: int|
            0 <= i < n ==> #[trigger] kb[i] / 8 < working_mask(s.0[mark_key(base, kb, i)]).len(),
    decreases n,
{
    if n > 0 {
        lemma_mark_steps_ok(s, base, kb, (n - 1) as nat);
        let key = mark_key(base, kb, n - 1);
        if mark_steps(s, base, kb, (n - 1) as nat) is Ok {
            lemma_mark_steps_keep_lengths(s, base, kb, (n - 1) as nat, key);
        } else {
            let i0 = choose|i: int|
                0 <= i < n - 1 && !(#[trigger] kb[i] / 8 < working_mask(s.0[mark_key(base, kb, i)]).len());
        }
    }
}

/// When an unmarking step clears the key byte's bit (no other bit of that
/// byte being set) and the cleared mask still has a bit set, it stores
/// exactly the previous mask with that byte cleared, every other byte kept;
/// when no bit is left, it stores the single byte `0`. It fails with
/// `MaskTooShort` exactly when the bit lies past the end of the mask, and
/// with `NotUsizeLength` when the cleared mask is not a `usize` long; when
/// another bit of the key byte's byte is set, it changes nothing.
pub proof fn lemma_unmark_step_law(s: StoreState, key: Seq<u8>, b: u8)
    ensures
        ({
            let m = working_mask(s.0[key]);
            let x = (b / 8) as int;
            let clears = (m[x] & !crate::mask::bit_in_byte(b as nat)) == 0;
            let r = unmark_step(s, key, b);
            &&& x >= m.len() ==> r == Err::<StoreState, PathError>(PathError::MaskTooShort)
            &&& x < m.len() && !clears ==> r == Ok::<StoreState, PathError>(s)
            &&& x < m.len() && clears && m.len() != usize_bytes() ==> r == Err::<StoreState, PathError>(
                PathError::NotUsizeLength,
            )
            &&& x < m.len() && clears && m.len() == usize_bytes() ==> (r matches Ok(t) && t.1
                == s.1.push(key) && t.0 == s.0.insert(key, t.0[key])
                && ((exists|j: int| 0 <= j < m.len() && j != x && #[trigger] m[j] != 0)
                ==> t.0[key].len() == m.len() && t.0[key][x] == 0 && forall|j: int|
                0 <= j < m.len() && j != x ==> #[trigger] t.0[key][j] == m[j])
                && ((forall|j: int| 0 <= j < m.len() && j != x ==> #[trigger] m[j] == 0)
                ==> t.0[key] == seq![0u8]))
        }),
{
    let m = working_mask(s.0[key]);
    let x = (b / 8) as int;
    if x < m.len() {
        let bit = crate::mask::bit_in_byte(b as nat);
        crate::mask::lemma_only_bit_after_unset(m, b as nat);
        if (m[x] & !bit) == 0 {
            let v = without_bit(m, b as nat);
            assert(v[x] == 0);
            assert(v.len() == m.len());
            crate::byte_view::lemma_le_value_zero_iff(v);
            if exists|j: int| 0 <= j < m.len() && j != x && #[trigger] m[j] != 0 {
                let j = choose|j: int| 0 <= j < m.len() && j != x && #[trigger] m[j] != 0;
                assert(v[j] == m[j]);
                assert(le_value(v) != 0);
            }
            if forall|j: int| 0 <= j < m.len() && j != x ==> #[trigger] m[j] == 0 {
                assert forall|i: int| 0 <= i < v.len() implies v[i] == 0 by {
                    if i != x {
                        assert(v[i] == m[i]);
                    }
                }
                assert(le_value(v) == 0);
            }
        }
    }
}

/// Whether no bit of the mask `m` is set (an empty mask included).
pub open spec fn no_bit_set(m: Seq<u8>) -> bool {
    forall|j: int| 0 <= j < m.len() ==> m[j] == 0u8
}

/// Whether every mask that marking the `n` key bytes `kb` visits is cached
/// with no bit set.
pub open spec fn path_clear(c: Map<Seq<u8>, Seq<u8>>, base: Seq<u8>, kb: Seq<u8>, n: nat) -> bool {
    forall|j: int|
        0 <= j < n ==> c.contains_key(#[trigger] mark_key(base, kb, j)) && no_bit_set(
            c[mark_key(base, kb, j)],
        )
}

proof fn lemma_clear_mask_is_set(m: Seq<u8>, b: u8)
    requires
        no_bit_set(m),
        (b / 8) < working_mask(m).len(),
    ensures
        no_bit_set(working_mask(m)),
        only_bit_of_byte(working_mask(m), b as nat),
        no_bit_set(without_bit(working_mask(m), b as nat)),
{
    lemma_le_bytes_zero(usize_bytes());
    crate::byte_view::lemma_le_bytes_len(0, usize_bytes());
    let w = working_mask(m);
    assert(no_bit_set(w));
    let bit = crate::mask::bit_in_byte(b as nat);
    assert(0u8 == 0u8 & bit) by (bit_vector);
    assert(0u8 & !bit == 0u8) by (bit_vector);
    assert(w[(b / 8) as int] == 0u8);
    let v = without_bit(w, b as nat);
    assert forall|j: int| 0 <= j < v.len() implies v[j] == 0u8 by {
        if j != (b / 8) as int {
            assert(v[j] == w[j]);
        }
    }
}

/// Marking a path whose masks have no bit set writes nothing.
proof fn lemma_mark_clear_path(s: StoreState, base: Seq<u8>, kb: Seq<u8>, i: nat, n: nat)
    requires
        i <= n <= kb.len(),
        path_clear(s.0, base, kb, n),
    ensures
        mark_steps(s, base, kb, i) is Ok ==> mark_steps(s, base, kb, i) == Ok::<StoreState, PathError>(s),
    decreases i,
{
    if i > 0 {
        lemma_mark_clear_path(s, base, kb, (i - 1) as nat, n);
        if mark_steps(s, base, kb, i) is Ok {
            let key = mark_key(base, kb, i - 1);
            let b = kb[i - 1];
            assert(s.0.contains_key(key) && no_bit_set(s.0[key]));
            lemma_clear_mask_is_set(s.0[key], b);
        }
    }
}

/// Unmarking a path whose masks have no bit set leaves them with no bit set.
proof fn lemma_unmark_clear_path(s: StoreState, base: Seq<u8>, kb: Seq<u8>, i: nat, n: nat)
    requires
        i <= n <= kb.len(),
        path_clear(s.0, base, kb, n),
    ensures
        unmark_steps(s, base, kb, i) matches Ok(u) ==> path_clear(u.0, base, kb, n),
    decreases i,
{
    if i > 0 {
        lemma_unmark_clear_path(s, base, kb, (i - 1) as nat, n);
        if let Ok(t) = unmark_steps(s, base, kb, (i - 1) as nat) {
            if let Ok(u) = unmark_steps(s, base, kb, i) {
                let key = mark_key(base, kb, i - 1);
                let b = kb[i - 1];
                assert(t.0.contains_key(key) && no_bit_set(t.0[key]));
                lemma_clear_mask_is_set(t.0[key], b);
                let v = without_bit(working_mask(t.0[key]), b as nat);
                let stored = if le_value(v) == 0 { seq![0u8] } else { v };
                assert(no_bit_set(stored));
                assert(u.0 == t.0.insert(key, stored));
                assert forall|j: int| 0 <= j < n implies u.0.contains_key(#[trigger] mark_key(base, kb, j))
                    && no_bit_set(u.0[mark_key(base, kb, j)]) by {
                    assert(t.0.contains_key(mark_key(base, kb, j)));
                }
            }
        }
    }
}

/// Marking and then unmarking a key on a path whose masks have no bit set:
/// the marking writes nothing, and after the unmarking every mask of the
/// path still has no bit set (a cleared mask stored as the single byte `0`).
pub proof fn lemma_mark_then_unmark_clear(s: StoreState, base: Seq<u8>, kb: Seq<u8>)
    requires
        path_clear(s.0, base, kb, kb.len()),
    ensures
        mark_steps(s, base, kb, kb.len()) is Ok ==> mark_steps(s, base, kb, kb.len())
            == Ok::<StoreState, PathError>(s),
        mark_steps(s, base, kb, kb.len()) matches Ok(t) ==> (unmark_steps(t, base, kb, kb.len()) matches Ok(u)
            ==> path_clear(u.0, base, kb, kb.len())),
{
    lemma_mark_clear_path(s, base, kb, kb.len(), kb.len());
    lemma_unmark_clear_path(s, base, kb, kb.len(), kb.len());
}

/// A tree of masks over the byte prefixes of keys of type `K`.
#[derive(Debug, Clone)]
pub struct BST<K> {
    ptr: IndexPointer,
    _val: K,
}

impl<K: ByteView> BST<K> {
    /// The key under which the tree's masks are kept.
    pub closed spec fn base(&self) -> Seq<u8> {
        self.ptr@
    }

    /// A tree kept under `ptr`; it holds the value that `K` reads from the single byte `0`.
    pub fn new(ptr: IndexPointer) -> (r: Self)
        requires
            K::spec_accepts(seq![0u8]),
        ensures
            r.base() == ptr@,
    {
        let zero = vec![0u8];
        assert(zero@ =~= seq![0u8]);
        BST { ptr, _val: K::from_bytes(zero) }
    }

    /// The pointer to the mask of `partial_key`: the base key, the partial
    /// key, then `/mask`.
    pub fn get_mask_pointer(&self, partial_key: Vec<u8>) -> (r: IndexPointer)
        ensures
            r@ == self.base() + partial_key@ + mask_word(),
    {
        let word = "/mask";
        proof {
            reveal_strlit("/mask");
            broadcast use vstd::string::is_ascii_spec_bytes;

            assert(vstd::string::is_ascii(word));
            assert(word.spec_bytes() =~= mask_word());
        }
        self.ptr.select(&partial_key).keyword(word)
    }

    fn padded_partial_key(kb: &Vec<u8>, i: usize) -> (r: Vec<u8>)
        requires
            i <= usize_bytes(),
            i <= kb@.len(),
        ensures
            r@ == padded_prefix(kb@, i as int),
    {
        let mut partial_key = <usize as ByteView>::to_bytes(0);
        proof {
            lemma_le_bytes_zero(usize_bytes());
            crate::byte_view::lemma_le_bytes_len(0, usize_bytes());
        }
        let mut j: usize = 0;
        while j < i
            invariant
                j <= i,
                i <= usize_bytes(),
                i <= kb@.len(),
                partial_key@ == padded_prefix(kb@, j as int),
            decreases i - j,
        {
            partial_key.set(j, kb[j]);
            j = j + 1;
            assert(partial_key@ =~= padded_prefix(kb@, j as int));
        }
        assert(partial_key@ =~= padded_prefix(kb@, i as int));
        partial_key
    }

    /// The key of the first mask that marking the key bytes `kb` visits and
    /// that is not cached, if any.
    pub fn missing_mark(&self, store: &Store, kb: &Vec<u8>) -> (r: Option<Vec<u8>>)
        requires
            kb@.len() <= usize_bytes() + 1,
        ensures
            match r {
                Some(k) => exists|i: int| #[trigger] first_missing_mark(store.cache(), self.base(), kb@, i)
                    && k@ == mark_key(self.base(), kb@, i),
                None => marks_cached(store.cache(), self.base(), kb@, kb@.len()),
            },
    {
        let n = kb.len();
        let mut i: usize = 0;
        while i < n
            invariant
                i <= n,
                n == kb@.len(),
                n <= usize_bytes() + 1,
                marks_cached(store.cache(), self.base(), kb@, i as nat),
            decreases n - i,
        {
            let partial_key = Self::padded_partial_key(kb, i);
            let ptr = self.get_mask_pointer(partial_key);
            let key = ptr.unwrap();
            let key_ref: &Vec<u8> = &*key;
            assert(key@ == mark_key(self.base(), kb@, i as int));
            if !store.is_cached(key_ref) {
                assert(first_missing_mark(store.cache(), self.base(), kb@, i as int));
                return Some(copy_bytes(key_ref.as_slice()));
            }
            i = i + 1;
        }
        None
    }

    /// Marks the path of the key bytes `kb` in masks that are all cached:
    /// at each depth `i`, the bit for `kb[i]` in the mask of the first `i`
    /// bytes; see `mark_steps`.
    pub fn mark_cached_path(&self, store: &mut Store, kb: &Vec<u8>) -> (r: Result<(), PathError>)
        requires
            kb@.len() <= usize_bytes() + 1,
            marks_cached(old(store).cache(), self.base(), kb@, kb@.len()),
        ensures
            match r {
                Ok(()) => mark_steps(
                    (old(store).cache(), old(store).pending()),
                    self.base(),
                    kb@,
                    kb@.len(),
                ) == Ok::<StoreState, PathError>((final(store).cache(), final(store).pending())),
                Err(e) => mark_steps(
                    (old(store).cache(), old(store).pending()),
                    self.base(),
                    kb@,
                    kb@.len(),
                ) == Err::<StoreState, PathError>(e),
            },
    {
        let ghost s0: StoreState = (store.cache(), store.pending());
        let n = kb.len();
        let mut i: usize = 0;
        while i < n
            invariant
                i <= n,
                n == kb@.len(),
                n <= usize_bytes() + 1,
                marks_cached(s0.0, self.base(), kb@, n as nat),
                s0 == (old(store).cache(), old(store).pending()),
                mark_steps(s0, self.base(), kb@, i as nat) == Ok::<StoreState, PathError>(
                    (store.cache(), store.pending()),
                ),
            decreases n - i,
        {
            proof {
                lemma_mark_steps_domain(s0, self.base(), kb@, i as nat, n as nat);
            }
            let partial_key = Self::padded_partial_key(kb, i);
            let ptr = self.get_mask_pointer(partial_key);
            let key = ptr.unwrap();
            let key_ref: &Vec<u8> = &*key;
            proof {
                assert(key@ == mark_key(self.base(), kb@, i as int));
            }
            let cached = store.get_cached(key_ref);
            let mut mask = match cached {
                Some(m) => m,
                None => Vec::new(),
            };
            if mask.len() == 0 {
                mask = <usize as ByteView>::to_bytes(0);
            }
            let byte = kb[i];
            if byte as usize / 8 >= mask.len() {
                proof {
                    assert(mark_steps(s0, self.base(), kb@, (i + 1) as nat) == Err::<StoreState, PathError>(PathError::MaskTooShort));
                    lemma_mark_steps_stop(s0, self.base(), kb@, (i + 1) as nat, n as nat);
                }
                return Err(PathError::MaskTooShort);
            }
            if !is_set_u256(&mask, byte as usize) {
                ptr.set(store, set_bit_u256(mask, byte as usize));
            }
            i = i + 1;
        }
        Ok(())
    }

    /// Marks the path of `key`: for each of its bytes, the bit for that byte
    /// in the mask of the bytes before it, padded to a `usize`, unless
    /// `is_set_u256` already holds of that mask; see `mark_steps`. When a mask
    /// of the path is not cached, answers the key of the first such mask and
    /// changes nothing.
    pub fn mark_path(&self, store: &mut Store, key: K) -> (r: Lookup<Result<(), PathError>>)
        requires
            K::spec_to_bytes(key).len() <= usize_bytes() + 1,
        ensures
            ({
                let kb = K::spec_to_bytes(key);
                let steps = mark_steps((old(store).cache(), old(store).pending()), self.base(), kb, kb.len());
                match r {
                    Lookup::Missing(k) => final(store).cache() == old(store).cache()
                        && final(store).pending() == old(store).pending()
                        && exists|i: int| #[trigger] first_missing_mark(old(store).cache(), self.base(), kb, i)
                            && k@ == mark_key(self.base(), kb, i),
                    Lookup::Found(Ok(())) => marks_cached(old(store).cache(), self.base(), kb, kb.len())
                        && steps == Ok::<StoreState, PathError>((final(store).cache(), final(store).pending())),
                    Lookup::Found(Err(e)) => marks_cached(old(store).cache(), self.base(), kb, kb.len())
                        && steps == Err::<StoreState, PathError>(e),
                }
            }),
    {
        let key_bytes = K::to_bytes(key);
        match self.missing_mark(store, &key_bytes) {
            Some(k) => Lookup::Missing(k),
            None => Lookup::Found(self.mark_cached_path(store, &key_bytes)),
        }
    }

    /// Unmarks the path of the key bytes `kb` in masks that are all cached;
    /// see `unmark_steps`.
    pub fn unmark_cached_path(&self, store: &mut Store, kb: &Vec<u8>) -> (r: Result<(), PathError>)
        requires
            kb@.len() <= usize_bytes() + 1,
            marks_cached(old(store).cache(), self.base(), kb@, kb@.len()),
        ensures
            match r {
                Ok(()) => unmark_steps(
                    (old(store).cache(), old(store).pending()),
                    self.base(),
                    kb@,
                    kb@.len(),
                ) == Ok::<StoreState, PathError>((final(store).cache(), final(store).pending())),
                Err(e) => unmark_steps(
                    (old(store).cache(), old(store).pending()),
                    self.base(),
                    kb@,
                    kb@.len(),
                ) == Err::<StoreState, PathError>(e),
            },
    {
        let ghost s0: StoreState = (store.cache(), store.pending());
        let n = kb.len();
        let mut i: usize = 0;
        while i < n
            invariant
                i <= n,
                n == kb@.len(),
                n <= usize_bytes() + 1,
                marks_cached(s0.0, self.base(), kb@, n as nat),
                s0 == (old(store).cache(), old(store).pending()),
                unmark_steps(s0, self.base(), kb@, i as nat) == Ok::<StoreState, PathError>(
                    (store.cache(), store.pending()),
                ),
            decreases n - i,
        {
            proof {
                lemma_unmark_steps_domain(s0, self.base(), kb@, i as nat, n as nat);
            }
            let partial_key = Self::padded_partial_key(kb, i);
            let ptr = self.get_mask_pointer(partial_key);
            let key = ptr.unwrap();
            let key_ref: &Vec<u8> = &*key;
            proof {
                assert(key@ == mark_key(self.base(), kb@, i as int));
            }
            let cached = store.get_cached(key_ref);
            let mut mask = match cached {
                Some(m) => m,
                None => Vec::new(),
            };
            if mask.len() == 0 {
                mask = <usize as ByteView>::to_bytes(0);
            }
            let byte = kb[i];
            if byte as usize / 8 >= mask.len() {
                proof {
                    assert(unmark_steps(s0, self.base(), kb@, (i + 1) as nat) == Err::<StoreState, PathError>(PathError::MaskTooShort));
                    lemma_unmark_steps_stop(s0, self.base(), kb@, (i + 1) as nat, n as nat);
                }
                return Err(PathError::MaskTooShort);
            }
            if is_set_u256(&mask, byte as usize) {
                let cleared = unset_bit_u256(mask, byte as usize);
                let cleared_ref: &Vec<u8> = &*cleared;
                if cleared_ref.len() != (usize::BITS / 8) as usize {
                    proof {
                        assert(unmark_steps(s0, self.base(), kb@, (i + 1) as nat) == Err::<StoreState, PathError>(PathError::NotUsizeLength));
                        lemma_unmark_steps_stop(s0, self.base(), kb@, (i + 1) as nat, n as nat);
                    }
                    return Err(PathError::NotUsizeLength);
                }
                ptr.set_or_nullify(store, cleared);
            }
            i = i + 1;
        }
        Ok(())
    }

    /// Unmarks the path of `key`: for each of its bytes, when `is_set_u256`
    /// holds of the mask of the bytes before it (padded to a `usize`), the bit
    /// for that byte is cleared and the mask is stored with `set_or_nullify`;
    /// see `unmark_steps`. When a mask of the path is not cached, answers the
    /// key of the first such mask and changes nothing.
    pub fn unmark_path(&self, store: &mut Store, key: K) -> (r: Lookup<Result<(), PathError>>)
        requires
            K::spec_to_bytes(key).len() <= usize_bytes() + 1,
        ensures
            ({
                let kb = K::spec_to_bytes(key);
                let steps = unmark_steps((old(store).cache(), old(store).pending()), self.base(), kb, kb.len());
                match r {
                    Lookup::Missing(k) => final(store).cache() == old(store).cache()
                        && final(store).pending() == old(store).pending()
                        && exists|i: int| #[trigger] first_missing_mark(old(store).cache(), self.base(), kb, i)
                            && k@ == mark_key(self.base(), kb, i),
                    Lookup::Found(Ok(())) => marks_cached(old(store).cache(), self.base(), kb, kb.len())
                        && steps == Ok::<StoreState, PathError>((final(store).cache(), final(store).pending())),
                    Lookup::Found(Err(e)) => marks_cached(old(store).cache(), self.base(), kb, kb.len())
                        && steps == Err::<StoreState, PathError>(e),
                }
            }),
    {
        let key_bytes = K::to_bytes(key);
        match self.missing_mark(store, &key_bytes) {
            Some(k) => Lookup::Missing(k),
            None => Lookup::Found(self.unmark_cached_path(store, &key_bytes)),
        }
    }

    /// Walks the prefixes of `start` from the longest down, reading the cached
    /// mask of each; at the first non-empty one, replaces it by `maskLowerThan`
    /// of it at the next byte of `start`, searches the result and stops. Gives
    /// the value that `K` reads from the single byte `0`; see `seek_found`.
    /// When the walk reaches a mask that is not cached, answers its key and
    /// changes nothing.
    pub fn seek_lower(&self, store: &mut Store, start: K) -> (r: Lookup<Result<K, PathError>>)
        requires
            K::spec_accepts(seq![0u8]),
            K::spec_to_bytes(start).len() >= 1,
        ensures
            ({
                let kb = K::spec_to_bytes(start);
                let c = old(store).cache();
                match r {
                    Lookup::Missing(k) => final(store).cache() == c
                        && final(store).pending() == old(store).pending()
                        && exists|l: int| #[trigger] first_missing_level(c, self.base(), kb, l)
                            && k@ == level_key(self.base(), kb, l),
                    Lookup::Found(res) => {
                        &&& res matches Ok(v) ==> v == K::spec_from_bytes(seq![0u8])
                        &&& {
                            ||| {
                                &&& res is Ok
                                &&& levels_empty(c, self.base(), kb, 0, kb.len() as int)
                                &&& final(store).cache() == c
                                &&& final(store).pending() == old(store).pending()
                            }
                            ||| exists|j: int| #[trigger] seek_found(c, final(store).cache(), old(store).pending(), final(store).pending(), self.base(), kb, j, res)
                        }
                    },
                }
            }),
    {
        let key_bytes = K::to_bytes(start);
        let ghost kb = key_bytes@;
        let ghost c = store.cache();
        let n = key_bytes.len();
        let mut partial_key = copy_bytes(key_bytes.as_slice());
        assert(kb.subrange(0, n as int) =~= kb);
        loop
            invariant_except_break
                1 <= partial_key@.len() <= n,
            invariant
                n == kb.len(),
                kb == K::spec_to_bytes(start),
                K::spec_accepts(seq![0u8]),
                partial_key@ == kb.subrange(0, partial_key@.len() as int),
                c == old(store).cache(),
                store.cache() == c,
                store.pending() == old(store).pending(),
                levels_empty(c, self.base(), kb, partial_key@.len() as int, n as int),
            ensures
                partial_key@.len() == 0,
            decreases partial_key@.len(),
        {
            let this_key = shrink_back(copy_bytes(partial_key.as_slice()), 1);
            let ghost l = this_key@.len() as int;
            assert(this_key@ =~= kb.subrange(0, l));
            let ptr = self.get_mask_pointer(copy_bytes(this_key.as_slice()));
            assert(ptr@ == level_key(self.base(), kb, l));
            let key = ptr.unwrap();
            let key_ref: &Vec<u8> = &*key;
            let cached = store.get_cached(key_ref);
            let mask_bytes = match cached {
                Some(m) => m,
                None => {
                    assert(first_missing_level(c, self.base(), kb, l));
                    return Lookup::Missing(copy_bytes(key_ref.as_slice()));
                },
            };
            if mask_bytes.len() > 0 {
                let position = partial_key[this_key.len()] as usize;
                assert(position == kb[l]);
                if mask_bytes.len() < 32 {
                    let res = Err(PathError::MaskTooShort);
                    assert(seek_found(c, store.cache(), old(store).pending(), store.pending(), self.base(), kb, l, res));
                    return Lookup::Found(res);
                }
                if position % 128 == 0 {
                    let res = Err(PathError::ShiftOverflow);
                    assert(seek_found(c, store.cache(), old(store).pending(), store.pending(), self.base(), kb, l, res));
                    return Lookup::Found(res);
                }
                let derived_mask = maskLowerThan(Arc::new(mask_bytes), position);
                let derived_ref: &Vec<u8> = &*derived_mask;
                let derived_mask_value = copy_bytes(derived_ref.as_slice());
                ptr.set(store, derived_mask);
                proof {
                    crate::search::lemma_binary_search_256(derived_mask_value@, false);
                }
                let symbol = binary_search::<256>(derived_mask_value, false);
                let mut new_key = this_key;
                new_key.push(symbol as u8);
                let found = self._find_boundary_from_partial(new_key, false);
                let res = Ok(found);
                assert(seek_found(c, store.cache(), old(store).pending(), store.pending(), self.base(), kb, l, res));
                return Lookup::Found(res);
            }
            partial_key = this_key;
            if partial_key.len() == 0 {
                break;
            }
        }
        let zero = vec![0u8];
        assert(zero@ =~= seq![0u8]);
        Lookup::Found(Ok(K::from_bytes(zero)))
    }

    fn _find_boundary_from_partial(&self, key_bytes: Vec<u8>, seek_higher: bool) -> (r: K)
        requires
            K::spec_accepts(seq![0u8]),
        ensures
            r == K::spec_from_bytes(seq![0u8]),
    {
        let zero = vec![0u8];
        assert(zero@ =~= seq![0u8]);
        K::from_bytes(zero)
    }

    /// The value that `K` reads from the single byte `0`.
    pub fn seek_greater(start: K) -> (r: K)
        requires
            K::spec_accepts(seq![0u8]),
        ensures
            r == K::spec_from_bytes(seq![0u8]),
    {
        let zero = vec![0u8];
        assert(zero@ =~= seq![0u8]);
        K::from_bytes(zero)
    }

    /// Does nothing.
    pub fn set(k: K, v: Vec<u8>) {
    }

    /// The single byte `0`.
    pub fn get(k: K) -> (r: Vec<u8>)
        ensures
            r@ == seq![0u8],
    {
        let zero = vec![0u8];
        assert(zero@ =~= seq![0u8]);
        zero
    }

    /// Does nothing.
    pub fn nullify(key: K) {
    }
}

} // verus!
