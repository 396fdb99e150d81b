//! Rendering of keys for display: each `/`-separated part as text when it is
//! ASCII, else as hexadecimal.
use crate::compat::append_bytes;
use vstd::prelude::*;

verus! {

/// The lowercase hexadecimal digit for `n < 16`.
pub open spec fn hex_digit(n: nat) -> char {
    if n < 10 {
        (48 + n) as char
    } else {
        (87 + n) as char
    }
}

/// Two lowercase hexadecimal digits per byte, high nibble first.
pub open spec fn hex_chars(b: Seq<u8>) -> Seq<char>
    decreases b.len(),
{
    if b.len() == 0 {
        Seq::empty()
    } else {
        seq![hex_digit((b[0] / 16) as nat), hex_digit((b[0] % 16) as nat)] + hex_chars(b.drop_first())
    }
}

/// The parts of `v` between the bytes `/`, in order; `v` without any `/` is one part.
pub open spec fn split_slash(v: Seq<u8>) -> Seq<Seq<u8>>
    decreases v.len(),
{
    if v.len() == 0 {
        seq![Seq::empty()]
    } else {
        let rest = split_slash(v.drop_first());
        if v[0] == 47 {
            seq![Seq::<u8>::empty()] + rest
        } else {
            rest.update(0, seq![v[0]] + rest[0])
        }
    }
}

/// Whether every byte of `b` is ASCII.
pub open spec fn all_ascii(b: Seq<u8>) -> bool {
    forall|i: int| 0 <= i < b.len() ==> b[i] < 128
}

/// The characters of ASCII bytes.
pub open spec fn ascii_chars(b: Seq<u8>) -> Seq<char> {
    b.map_values(|x: u8| x as char)
}

/// How one part is shown: `/`, then the part as text when it is ASCII, else in hexadecimal.
pub open spec fn show_part(p: Seq<u8>) -> Seq<char> {
    seq!['/'] + if all_ascii(p) {
        ascii_chars(p)
    } else {
        hex_chars(p)
    }
}

/// The shown parts, one after the other.
pub open spec fn show_parts(parts: Seq<Seq<u8>>) -> Seq<char>
    decreases parts.len(),
{
    if parts.len() == 0 {
        Seq::empty()
    } else {
        show_parts(parts.drop_last()) + show_part(parts.last())
    }
}

/// `hex::encode` of `bytes`. Claimed: two lowercase hexadecimal digits per
/// byte, high nibble first.
#[verifier::external_body]
fn hex_encode(bytes: &[u8]) -> (r: String)
    ensures
        r@ == hex_chars(bytes@),
{
    hex::encode(bytes)
}

#[verifier::external_type_specification]
#[verifier::external_body]
pub struct ExFromUtf8Error(std::string::FromUtf8Error);

/// `String::from_utf8` of `bytes`. Claimed: bytes that are all ASCII are
/// valid UTF-8, and each is one character of the string.
#[verifier::external_body]
fn string_from_utf8(bytes: Vec<u8>) -> (r: Result<String, std::string::FromUtf8Error>)
    ensures
        all_ascii(bytes@) ==> r is Ok && r->Ok_0@ == ascii_chars(bytes@),
{
    String::from_utf8(bytes)
}

proof fn lemma_hex_ascii(b: Seq<u8>)
    ensures
        vstd::utf8::is_ascii_chars(hex_chars(b)),
        hex_chars(b).len() == 2 * b.len(),
    decreases b.len(),
{
    if b.len() > 0 {
        lemma_hex_ascii(b.drop_first());
        let h = seq![hex_digit((b[0] / 16) as nat), hex_digit((b[0] % 16) as nat)];
        assert forall|i: int| 0 <= i < hex_chars(b).len() implies '\0' <= #[trigger] hex_chars(b)[i] <= '\u{7f}' by {
            if i >= 2 {
                assert(hex_chars(b)[i] == hex_chars(b.drop_first())[i - 2]);
            }
        }
    }
}

/// The bytes of the hexadecimal digits of `bytes`.
fn hex_bytes(bytes: &[u8]) -> (r: Vec<u8>)
    ensures
        ascii_chars(r@) == hex_chars(bytes@),
        all_ascii(r@),
{
    let s = hex_encode(bytes);
    let st = s.as_str();
    proof {
        lemma_hex_ascii(bytes@);
        broadcast use vstd::string::is_ascii_spec_bytes;

        assert(vstd::string::is_ascii(st));
    }
    let b = st.as_bytes();
    let mut out: Vec<u8> = Vec::new();
    append_bytes(&mut out, b);
    proof {
        assert(ascii_chars(out@) =~= hex_chars(bytes@));
    }
    out
}

/// Whether every byte of `b` is ASCII.
fn is_ascii_bytes(b: &[u8]) -> (r: bool)
    ensures
        r == all_ascii(b@),
{
    let mut i: usize = 0;
    while i < b.len()
        invariant
            i <= b@.len(),
            forall|j: int| 0 <= j < i ==> b@[j] < 128,
        decreases b@.len() - i,
    {
        if b[i] >= 128 {
            return false;
        }
        i = i + 1;
    }
    true
}

/// The parts of `v` between the bytes `/`.
pub fn split_parts(v: &Vec<u8>) -> (r: Vec<Vec<u8>>)
    ensures
        r@.map_values(|p: Vec<u8>| p@) == split_slash(v@),
    decreases v@.len(),
{
    let mut parts: Vec<Vec<u8>> = Vec::new();
    parts.push(Vec::new());
    let mut i: usize = v.len();
    assert(parts@.map_values(|p: Vec<u8>| p@) =~= split_slash(v@.subrange(v@.len() as int, v@.len() as int)));
    while i > 0
        invariant
            i <= v@.len(),
            parts@.len() >= 1,
            parts@.map_values(|p: Vec<u8>| p@) == split_slash(v@.subrange(i as int, v@.len() as int)),
        decreases i,
    {
        let ghost tail = v@.subrange(i as int, v@.len() as int);
        let ghost longer = v@.subrange(i - 1, v@.len() as int);
        assert(longer.drop_first() =~= tail);
        let ghost before = parts@.map_values(|p: Vec<u8>| p@);
        let byte = v[i - 1];
        if byte == 47 {
            let mut fresh: Vec<Vec<u8>> = Vec::new();
            fresh.push(Vec::new());
            fresh.append(&mut parts);
            parts = fresh;
            assert(parts@.map_values(|p: Vec<u8>| p@) =~= seq![Seq::<u8>::empty()] + before);
        } else {
            let mut first: Vec<u8> = Vec::new();
            first.push(byte);
            append_bytes(&mut first, parts[0].as_slice());
            parts.set(0, first);
            assert(parts@.map_values(|p: Vec<u8>| p@) =~= before.update(0, seq![byte] + before[0]));
        }
        i = i - 1;
    }
    assert(v@.subrange(0, v@.len() as int) =~= v@);
    parts
}

proof fn lemma_split_nonempty(v: Seq<u8>)
    ensures
        split_slash(v).len() >= 1,
    decreases v.len(),
{
    if v.len() > 0 {
        lemma_split_nonempty(v.drop_first());
    }
}

/// A key with no byte `/` is a single part.
pub proof fn lemma_split_no_slash(p: Seq<u8>)
    requires
        forall|i: int| 0 <= i < p.len() ==> p[i] != 47,
    ensures
        split_slash(p) == seq![p],
    decreases p.len(),
{
    if p.len() > 0 {
        let r = p.drop_first();
        assert forall|i: int| 0 <= i < r.len() implies r[i] != 47 by {
            assert(r[i] == p[i + 1]);
        }
        lemma_split_no_slash(r);
        assert(seq![p[0]] + r =~= p);
        assert(p[0] != 47);
        assert(seq![r].update(0, seq![p[0]] + r) =~= seq![p]);
    } else {
        assert(p =~= Seq::<u8>::empty());
    }
}

/// Splitting `a`, a `/` and `b` gives the parts of `a`, then those of `b`.
pub proof fn lemma_split_concat(a: Seq<u8>, b: Seq<u8>)
    ensures
        split_slash(a + seq![47u8] + b) == split_slash(a) + split_slash(b),
    decreases a.len(),
{
    let v = a + seq![47u8] + b;
    if a.len() == 0 {
        assert(v.drop_first() =~= b);
        assert(v[0] == 47u8);
    } else {
        let a1 = a.drop_first();
        assert(v.drop_first() =~= a1 + seq![47u8] + b);
        assert(v[0] == a[0]);
        lemma_split_concat(a1, b);
        lemma_split_nonempty(a1);
        let x = split_slash(a1);
        let y = split_slash(b);
        if a[0] == 47 {
            assert(split_slash(v) =~= seq![Seq::<u8>::empty()] + (x + y));
            assert(split_slash(a) =~= seq![Seq::<u8>::empty()] + x);
            assert(seq![Seq::<u8>::empty()] + (x + y) =~= (seq![Seq::<u8>::empty()] + x) + y);
        } else {
            assert((x + y)[0] == x[0]);
            assert((x + y).update(0, seq![a[0]] + x[0]) =~= x.update(0, seq![a[0]] + x[0]) + y);
        }
    }
}

/// Showing two runs of parts one after the other shows the first run, then the second.
pub proof fn lemma_show_parts_concat(x: Seq<Seq<u8>>, y: Seq<Seq<u8>>)
    ensures
        show_parts(x + y) == show_parts(x) + show_parts(y),
    decreases y.len(),
{
    if y.len() == 0 {
        assert(x + y =~= x);
        assert(show_parts(x) + show_parts(y) =~= show_parts(x));
    } else {
        lemma_show_parts_concat(x, y.drop_last());
        assert((x + y).drop_last() =~= x + y.drop_last());
        assert((x + y).last() == y.last());
        assert(show_parts(x + y.drop_last()) + show_part(y.last()) =~= show_parts(x) + (show_parts(
            y.drop_last(),
        ) + show_part(y.last())));
    }
}

/// What `format_key` shows is made part by part: the key `a`, a `/` and `b`
/// is shown as `a` is, followed by `b` as it is shown alone; and a key
/// without `/` is shown as `/` followed by its bytes as text when they are
/// all ASCII, else as their hexadecimal digits, whatever stood before it.
pub proof fn lemma_format_key_by_parts(a: Seq<u8>, b: Seq<u8>, p: Seq<u8>)
    requires
        forall|i: int| 0 <= i < p.len() ==> p[i] != 47,
    ensures
        show_parts(split_slash(a + seq![47u8] + b)) == show_parts(split_slash(a)) + show_parts(split_slash(b)),
        show_parts(split_slash(p)) == seq!['/'] + if all_ascii(p) {
            ascii_chars(p)
        } else {
            hex_chars(p)
        },
{
    lemma_split_concat(a, b);
    lemma_show_parts_concat(split_slash(a), split_slash(b));
    lemma_split_no_slash(p);
    let one = seq![p];
    assert(one.drop_last() =~= Seq::<Seq<u8>>::empty());
    assert(one.last() == p);
    assert(show_parts(one.drop_last()) == Seq::<char>::empty());
    assert(show_parts(one) =~= show_part(p));
}

/// `v` shown part by part: each part between the bytes `/` becomes `/`
/// followed by the part as text when it is ASCII, else in hexadecimal.
pub fn format_key(v: &Vec<u8>) -> (r: String)
    ensures
        r@ == show_parts(split_slash(v@)),
{
    let parts = split_parts(v);
    let ghost views = parts@.map_values(|p: Vec<u8>| p@);
    let mut out: Vec<u8> = Vec::new();
    let mut i: usize = 0;
    while i < parts.len()
        invariant
            i <= parts@.len(),
            views == parts@.map_values(|p: Vec<u8>| p@),
            all_ascii(out@),
            ascii_chars(out@) == show_parts(views.subrange(0, i as int)),
        decreases parts@.len() - i,
    {
        let ghost before = out@;
        let part = parts[i].as_slice();
        out.push(47u8);
        if is_ascii_bytes(part) {
            append_bytes(&mut out, part);
        } else {
            let h = hex_bytes(part);
            append_bytes(&mut out, h.as_slice());
        }
        proof {
            assert(views.subrange(0, i + 1).drop_last() =~= views.subrange(0, i as int));
            assert(ascii_chars(out@) =~= ascii_chars(before) + show_part(views[i as int]));
        }
        i = i + 1;
    }
    assert(views.subrange(0, parts@.len() as int) =~= views);
    match string_from_utf8(out) {
        Ok(s) => s,
        Err(_) => String::new(),
    }
}

} // verus!
