//! Fixed-width little-endian byte encodings of unsigned integers, and the
//! `ByteView` trait through which pointers and trees read and write typed values.
use vstd::prelude::*;

verus! {

/// `256` raised to the power `n`.
pub open spec fn pow256(n: nat) -> nat
    decreases n,
{
    if n == 0 {
        1
    } else {
        256 * pow256((n - 1) as nat)
    }
}

/// The number that a little-endian byte sequence denotes.
pub open spec fn le_value(b: Seq<u8>) -> nat
    decreases b.len(),
{
    if b.len() == 0 {
        0
    } else {
        b[0] as nat + 256 * le_value(b.drop_first())
    }
}

/// The `n` least significant bytes of `v`, least significant first.
pub open spec fn le_bytes(v: nat, n: nat) -> Seq<u8>
    decreases n,
{
    if n == 0 {
        Seq::empty()
    } else {
        seq![(v % 256) as u8] + le_bytes(v / 256, (n - 1) as nat)
    }
}

/// The number of bytes in a `usize`.
pub open spec fn usize_bytes() -> nat {
    (usize::BITS / 8) as nat
}

pub proof fn lemma_pow256_positive(n: nat)
    ensures
        pow256(n) > 0,
    decreases n,
{
    if n > 0 {
        lemma_pow256_positive((n - 1) as nat);
    }
}

pub proof fn lemma_pow256_monotonic(m: nat, n: nat)
    requires
        m <= n,
    ensures
        pow256(m) <= pow256(n),
    decreases n,
{
    if m < n {
        lemma_pow256_monotonic(m, (n - 1) as nat);
        lemma_pow256_positive((n - 1) as nat);
    }
}

/// The values of `pow256` at the widths of the integer types.
pub proof fn lemma_pow256_widths()
    ensures
        pow256(1) == 0x100,
        pow256(2) == 0x1_0000,
        pow256(4) == 0x1_0000_0000,
        pow256(8) == 0x1_0000_0000_0000_0000,
        pow256(16) == 0x1_0000_0000_0000_0000_0000_0000_0000_0000,
        pow256(usize_bytes()) == usize::MAX + 1,
{
    reveal_with_fuel(pow256, 17);
}

pub proof fn lemma_le_bytes_len(v: nat, n: nat)
    ensures
        le_bytes(v, n).len() == n,
    decreases n,
{
    if n > 0 {
        lemma_le_bytes_len(v / 256, (n - 1) as nat);
    }
}

/// Decoding the `n` bytes of a number below `256^n` gives the number back.
pub proof fn lemma_le_value_of_bytes(v: nat, n: nat)
    requires
        v < pow256(n),
    ensures
        le_value(le_bytes(v, n)) == v,
        le_bytes(v, n).len() == n,
    decreases n,
{
    lemma_le_bytes_len(v, n);
    if n > 0 {
        let rest = le_bytes(v / 256, (n - 1) as nat);
        assert(v / 256 < pow256((n - 1) as nat)) by (nonlinear_arith)
            requires
                v < 256 * pow256((n - 1) as nat),
        ;
        lemma_le_value_of_bytes(v / 256, (n - 1) as nat);
        assert((seq![(v % 256) as u8] + rest).drop_first() =~= rest);
        assert(v == v % 256 + 256 * (v / 256)) by (nonlinear_arith);
    }
}

/// A little-endian sequence of `k` bytes denotes a number below `256^k`.
pub proof fn lemma_le_value_bound(b: Seq<u8>)
    ensures
        le_value(b) < pow256(b.len()),
    decreases b.len(),
{
    if b.len() > 0 {
        let r = b.drop_first();
        lemma_le_value_bound(r);
        let x = le_value(r);
        let p = pow256(r.len());
        assert(b[0] as nat + 256 * x < 256 * p) by (nonlinear_arith)
            requires
                x < p,
                b[0] < 256,
        ;
    }
}

/// Encoding the number that a byte sequence denotes, at its own width, gives the sequence back.
pub proof fn lemma_le_bytes_of_value(b: Seq<u8>)
    ensures
        le_bytes(le_value(b), b.len()) == b,
    decreases b.len(),
{
    if b.len() > 0 {
        let r = b.drop_first();
        lemma_le_bytes_of_value(r);
        let v = le_value(b);
        assert(v % 256 == b[0] as nat && v / 256 == le_value(r)) by (nonlinear_arith)
            requires
                v == b[0] as nat + 256 * le_value(r),
                b[0] < 256,
        ;
        assert(le_bytes(v, b.len()) =~= b);
    }
}

/// A little-endian byte sequence denotes zero exactly when all its bytes are zero.
pub proof fn lemma_le_value_zero_iff(b: Seq<u8>)
    ensures
        le_value(b) == 0 <==> forall|i: int| 0 <= i < b.len() ==> b[i] == 0,
    decreases b.len(),
{
    if b.len() > 0 {
        let r = b.drop_first();
        lemma_le_value_zero_iff(r);
        if le_value(b) == 0 {
            assert(b[0] == 0 && le_value(r) == 0);
            assert forall|i: int| 0 <= i < b.len() implies b[i] == 0 by {
                if i > 0 {
                    assert(b[i] == r[i - 1]);
                }
            }
        }
        if forall|i: int| 0 <= i < b.len() ==> b[i] == 0 {
            assert forall|i: int| 0 <= i < r.len() implies r[i] == 0 by {
                assert(r[i] == b[i + 1]);
            }
            assert(b[0] == 0);
        }
    }
}

/// The `n` low bytes of `x`, least significant first.
pub fn le_encode(x: u128, n: usize) -> (r: Vec<u8>)
    requires
        n <= 16,
        x < pow256(n as nat),
    ensures
        r@ == le_bytes(x as nat, n as nat),
{
    let mut out: Vec<u8> = Vec::new();
    let mut cur: u128 = x;
    let mut i: usize = 0;
    while i < n
        invariant
            i <= n,
            out@ + le_bytes(cur as nat, (n - i) as nat) == le_bytes(x as nat, n as nat),
        decreases n - i,
    {
        let ghost before = out@;
        let ghost rest = le_bytes(cur as nat / 256, (n - i - 1) as nat);
        assert(le_bytes(cur as nat, (n - i) as nat) == seq![(cur % 256) as u8] + rest);
        out.push((cur % 256) as u8);
        assert(out@ + rest =~= before + (seq![(cur % 256) as u8] + rest));
        cur = cur / 256;
        i = i + 1;
    }
    assert(out@ + le_bytes(cur as nat, 0) =~= out@);
    out
}

/// The number that the little-endian bytes `b[start..end]` denote; at most sixteen of them.
pub fn le_decode_range(b: &[u8], start: usize, end: usize) -> (r: u128)
    requires
        start <= end <= b@.len(),
        end - start <= 16,
    ensures
        r == le_value(b@.subrange(start as int, end as int)),
{
    let mut acc: u128 = 0;
    let mut i: usize = end;
    proof {
        lemma_pow256_widths();
        assert(b@.subrange(end as int, end as int) =~= Seq::<u8>::empty());
    }
    while i > start
        invariant
            start <= i <= end <= b@.len(),
            end - start <= 16,
            acc == le_value(b@.subrange(i as int, end as int)),
        decreases i,
    {
        let ghost tail = b@.subrange(i as int, end as int);
        let ghost longer = b@.subrange(i - 1, end as int);
        assert(longer.drop_first() =~= tail);
        proof {
            lemma_le_value_bound(tail);
            lemma_pow256_monotonic((end - i) as nat, 15);
            reveal_with_fuel(pow256, 17);
            assert(acc * 256 + 255 <= u128::MAX) by (nonlinear_arith)
                requires
                    acc < pow256((end - i) as nat),
                    pow256((end - i) as nat) <= pow256(15),
                    pow256(15) == 0x1_0000_0000_0000_0000_0000_0000_0000_00nat,
            ;
        }
        acc = b[i - 1] as u128 + acc * 256;
        i = i - 1;
    }
    acc
}

/// The number that at most sixteen little-endian bytes denote.
pub fn le_decode(b: &[u8]) -> (r: u128)
    requires
        b@.len() <= 16,
    ensures
        r == le_value(b@),
{
    let r = le_decode_range(b, 0, b.len());
    assert(b@.subrange(0, b@.len() as int) =~= b@);
    r
}

/// Removes the last `n` bytes of `v`.
pub fn shrink_back(v: Vec<u8>, n: usize) -> (r: Vec<u8>)
    requires
        n <= v@.len(),
    ensures
        r@ == v@.subrange(0, v@.len() - n),
{
    let mut r = v;
    let keep = r.len() - n;
    r.truncate(keep);
    r
}

/// A value with a byte representation: `to_bytes` writes it, `from_bytes` reads it back.
pub trait ByteView: Sized {
    /// The bytes that `to_bytes` gives for `v`.
    spec fn spec_to_bytes(v: Self) -> Seq<u8>;

    /// The value that `from_bytes` gives for the bytes `b`.
    spec fn spec_from_bytes(b: Seq<u8>) -> Self;

    /// Whether `from_bytes` reads a value from `b` (and does not reject it).
    spec fn spec_accepts(b: Seq<u8>) -> bool;

    /// Whether `from_bytes` reads a value from `b`.
    fn accepts(b: &[u8]) -> (r: bool)
        ensures
            r == Self::spec_accepts(b@),
    ;

    fn from_bytes(v: Vec<u8>) -> (r: Self)
        requires
            Self::spec_accepts(v@),
        ensures
            r == Self::spec_from_bytes(v@),
    ;

    fn to_bytes(v: Self) -> (r: Vec<u8>)
        ensures
            r@ == Self::spec_to_bytes(v),
    ;

    /// Reading back what was written gives the value that was written.
    proof fn lemma_value_round_trip(v: Self)
        ensures
            Self::spec_accepts(Self::spec_to_bytes(v)),
            Self::spec_from_bytes(Self::spec_to_bytes(v)) == v,
    ;

    /// Writing what was read gives the bytes that were read.
    proof fn lemma_bytes_round_trip(b: Seq<u8>)
        requires
            Self::spec_accepts(b),
        ensures
            Self::spec_to_bytes(Self::spec_from_bytes(b)) == b,
    ;
}

impl ByteView for u8 {
    open spec fn spec_to_bytes(v: u8) -> Seq<u8> {
        le_bytes(v as nat, 1)
    }

    open spec fn spec_from_bytes(b: Seq<u8>) -> u8 {
        le_value(b) as u8
    }

    open spec fn spec_accepts(b: Seq<u8>) -> bool {
        b.len() == 1
    }

    fn accepts(b: &[u8]) -> (r: bool) {
        b.len() == 1
    }

    fn from_bytes(v: Vec<u8>) -> (r: u8) {
        proof {
            lemma_le_value_bound(v@);
            lemma_pow256_widths();
        }
        le_decode(v.as_slice()) as u8
    }

    fn to_bytes(v: u8) -> (r: Vec<u8>) {
        proof {
            lemma_pow256_widths();
        }
        le_encode(v as u128, 1)
    }

    proof fn lemma_value_round_trip(v: u8) {
        lemma_pow256_widths();
        lemma_le_value_of_bytes(v as nat, 1);
    }

    proof fn lemma_bytes_round_trip(b: Seq<u8>) {
        lemma_pow256_widths();
        lemma_le_value_bound(b);
        lemma_le_bytes_of_value(b);
    }
}

impl ByteView for u16 {
    open spec fn spec_to_bytes(v: u16) -> Seq<u8> {
        le_bytes(v as nat, 2)
    }

    open spec fn spec_from_bytes(b: Seq<u8>) -> u16 {
        le_value(b) as u16
    }

    open spec fn spec_accepts(b: Seq<u8>) -> bool {
        b.len() == 2
    }

    fn accepts(b: &[u8]) -> (r: bool) {
        b.len() == 2
    }

    fn from_bytes(v: Vec<u8>) -> (r: u16) {
        proof {
            lemma_le_value_bound(v@);
            lemma_pow256_widths();
        }
        le_decode(v.as_slice()) as u16
    }

    fn to_bytes(v: u16) -> (r: Vec<u8>) {
        proof {
            lemma_pow256_widths();
        }
        le_encode(v as u128, 2)
    }

    proof fn lemma_value_round_trip(v: u16) {
        lemma_pow256_widths();
        lemma_le_value_of_bytes(v as nat, 2);
    }

    proof fn lemma_bytes_round_trip(b: Seq<u8>) {
        lemma_pow256_widths();
        lemma_le_value_bound(b);
        lemma_le_bytes_of_value(b);
    }
}

impl ByteView for u32 {
    open spec fn spec_to_bytes(v: u32) -> Seq<u8> {
        le_bytes(v as nat, 4)
    }

    open spec fn spec_from_bytes(b: Seq<u8>) -> u32 {
        le_value(b) as u32
    }

    open spec fn spec_accepts(b: Seq<u8>) -> bool {
        b.len() == 4
    }

    fn accepts(b: &[u8]) -> (r: bool) {
        b.len() == 4
    }

    fn from_bytes(v: Vec<u8>) -> (r: u32) {
        proof {
            lemma_le_value_bound(v@);
            lemma_pow256_widths();
        }
        le_decode(v.as_slice()) as u32
    }

    fn to_bytes(v: u32) -> (r: Vec<u8>) {
        proof {
            lemma_pow256_widths();
        }
        le_encode(v as u128, 4)
    }

    proof fn lemma_value_round_trip(v: u32) {
        lemma_pow256_widths();
        lemma_le_value_of_bytes(v as nat, 4);
    }

    proof fn lemma_bytes_round_trip(b: Seq<u8>) {
        lemma_pow256_widths();
        lemma_le_value_bound(b);
        lemma_le_bytes_of_value(b);
    }
}

impl ByteView for u64 {
    open spec fn spec_to_bytes(v: u64) -> Seq<u8> {
        le_bytes(v as nat, 8)
    }

    open spec fn spec_from_bytes(b: Seq<u8>) -> u64 {
        le_value(b) as u64
    }

    open spec fn spec_accepts(b: Seq<u8>) -> bool {
        b.len() == 8
    }

    fn accepts(b: &[u8]) -> (r: bool) {
        b.len() == 8
    }

    fn from_bytes(v: Vec<u8>) -> (r: u64) {
        proof {
            lemma_le_value_bound(v@);
            lemma_pow256_widths();
        }
        le_decode(v.as_slice()) as u64
    }

    fn to_bytes(v: u64) -> (r: Vec<u8>) {
        proof {
            lemma_pow256_widths();
        }
        le_encode(v as u128, 8)
    }

    proof fn lemma_value_round_trip(v: u64) {
        lemma_pow256_widths();
        lemma_le_value_of_bytes(v as nat, 8);
    }

    proof fn lemma_bytes_round_trip(b: Seq<u8>) {
        lemma_pow256_widths();
        lemma_le_value_bound(b);
        lemma_le_bytes_of_value(b);
    }
}

impl ByteView for u128 {
    open spec fn spec_to_bytes(v: u128) -> Seq<u8> {
        le_bytes(v as nat, 16)
    }

    open spec fn spec_from_bytes(b: Seq<u8>) -> u128 {
        le_value(b) as u128
    }

    open spec fn spec_accepts(b: Seq<u8>) -> bool {
        b.len() == 16
    }

    fn accepts(b: &[u8]) -> (r: bool) {
        b.len() == 16
    }

    fn from_bytes(v: Vec<u8>) -> (r: u128) {
        le_decode(v.as_slice())
    }

    fn to_bytes(v: u128) -> (r: Vec<u8>) {
        proof {
            lemma_pow256_widths();
        }
        le_encode(v, 16)
    }

    proof fn lemma_value_round_trip(v: u128) {
        lemma_pow256_widths();
        lemma_le_value_of_bytes(v as nat, 16);
    }

    proof fn lemma_bytes_round_trip(b: Seq<u8>) {
        lemma_pow256_widths();
        lemma_le_value_bound(b);
        lemma_le_bytes_of_value(b);
    }
}

impl ByteView for usize {
    open spec fn spec_to_bytes(v: usize) -> Seq<u8> {
        le_bytes(v as nat, usize_bytes())
    }

    open spec fn spec_from_bytes(b: Seq<u8>) -> usize {
        le_value(b) as usize
    }

    open spec fn spec_accepts(b: Seq<u8>) -> bool {
        b.len() == usize_bytes()
    }

    fn accepts(b: &[u8]) -> (r: bool) {
        b.len() == (usize::BITS / 8) as usize
    }

    fn from_bytes(v: Vec<u8>) -> (r: usize) {
        proof {
            lemma_le_value_bound(v@);
            lemma_pow256_widths();
        }
        le_decode(v.as_slice()) as usize
    }

    fn to_bytes(v: usize) -> (r: Vec<u8>) {
        proof {
            lemma_pow256_widths();
        }
        le_encode(v as u128, (usize::BITS / 8) as usize)
    }

    proof fn lemma_value_round_trip(v: usize) {
        lemma_pow256_widths();
        lemma_le_value_of_bytes(v as nat, usize_bytes());
    }

    proof fn lemma_bytes_round_trip(b: Seq<u8>) {
        lemma_pow256_widths();
        lemma_le_value_bound(b);
        lemma_le_bytes_of_value(b);
    }
}

} // verus!
