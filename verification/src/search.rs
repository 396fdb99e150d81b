//! The descent through the halves of a mask word that picks a position.
use crate::byte_view::{le_decode, le_decode_range, le_value, lemma_le_value_bound, lemma_pow256_widths};
use vstd::prelude::*;

verus! {

/// The widths, in bits, of the words that the descent splits in halves.
pub open spec fn is_search_width(width: nat) -> bool {
    width == 2 || width == 4 || width == 8 || width == 16 || width == 32 || width == 64 || width
        == 128
}

/// `2` raised to half of `width`, for the widths from 8 bits up.
pub open spec fn half_base(width: nat) -> nat {
    if width == 8 {
        0x10
    } else if width == 16 {
        0x100
    } else if width == 32 {
        0x1_0000
    } else if width == 64 {
        0x1_0000_0000
    } else {
        0x1_0000_0000_0000_0000
    }
}

/// Chooses between the high half `h` and the low half `l`: the high half when
/// it is non-zero and either the highest position is sought or the low half is
/// zero; then `high` is the answer, else `shift + low`.
pub open spec fn pick(h: nat, l: nat, fh: bool, high: int, shift: int, low: int) -> int {
    if (fh || l == 0) && h != 0 {
        high
    } else {
        shift + low
    }
}

/// The position that the descent finds in the word `w` of `width` bits.
/// A 4-bit word is split into bits 1..=2 and bits 0..=1; a 2-bit word gives
/// 0 or 1 directly; wider words are split into their upper and lower halves.
pub open spec fn search_spec(width: nat, w: nat, fh: bool) -> int
    decreases width,
{
    if width == 2 {
        let h = (w / 2) % 2;
        let l = w % 2;
        pick(h, l, fh, 0, 1, 0)
    } else if width == 4 {
        let h = (w / 2) % 4;
        let l = w % 4;
        pick(h, l, fh, search_spec(2, h, fh), 2, search_spec(2, l, fh))
    } else if width == 8 || width == 16 || width == 32 || width == 64 || width == 128 {
        let b = half_base(width);
        let h = (w / b) % b;
        let l = w % b;
        pick(h, l, fh, search_spec(width / 2, h, fh), (width / 2) as int, search_spec(width / 2, l, fh))
    } else {
        0
    }
}

/// The inputs that `binary_search::<n>` reads a word from: one byte for widths
/// 2, 4 and 8, the word's own bytes for 16 to 128 bits, and two 16-byte
/// halves for 256 bits.
pub open spec fn binary_search_accepts(n: nat, word: Seq<u8>) -> bool {
    if n == 256 {
        word.len() >= 32
    } else if n == 2 || n == 4 || n == 8 {
        word.len() == 1
    } else if n == 16 || n == 32 || n == 64 || n == 128 {
        word.len() == n / 8
    } else {
        true
    }
}

/// What `binary_search::<n>` returns. For 256 bits the first sixteen bytes form
/// the high half and the next sixteen the low half, each read little-endian.
pub open spec fn binary_search_spec(n: nat, word: Seq<u8>, fh: bool) -> int {
    if n == 256 {
        let h = le_value(word.subrange(0, 16));
        let l = le_value(word.subrange(16, 32));
        pick(h, l, fh, search_spec(128, h, fh), 128, search_spec(128, l, fh))
    } else if is_search_width(n) {
        search_spec(n, le_value(word), fh)
    } else {
        0
    }
}

/// The descent always lands on a position inside the word.
pub proof fn lemma_search_in_range(width: nat, w: nat, fh: bool)
    requires
        is_search_width(width),
    ensures
        0 <= search_spec(width, w, fh) < width,
    decreases width,
{
    if width == 4 {
        lemma_search_in_range(2, (w / 2) % 4, fh);
        lemma_search_in_range(2, w % 4, fh);
    } else if width >= 8 {
        let b = half_base(width);
        lemma_search_in_range(width / 2, (w / b) % b, fh);
        lemma_search_in_range(width / 2, w % b, fh);
    }
}

/// An empty word sends the descent to the last position.
pub proof fn lemma_search_empty_word(width: nat, fh: bool)
    requires
        is_search_width(width),
    ensures
        search_spec(width, 0, fh) == width - 1,
    decreases width,
{
    if width == 4 {
        lemma_search_empty_word(2, fh);
    } else if width >= 8 {
        lemma_search_empty_word(width / 2, fh);
    }
}

/// The search over a 256-bit mask lands on a position below 256, and an
/// all-zero mask gives the last one.
pub proof fn lemma_binary_search_256(word: Seq<u8>, fh: bool)
    requires
        word.len() >= 32,
    ensures
        0 <= binary_search_spec(256, word, fh) < 256,
        (forall|i: int| 0 <= i < 32 ==> word[i] == 0) ==> binary_search_spec(256, word, fh) == 255,
{
    let h = le_value(word.subrange(0, 16));
    let l = le_value(word.subrange(16, 32));
    lemma_search_in_range(128, h, fh);
    lemma_search_in_range(128, l, fh);
    if forall|i: int| 0 <= i < 32 ==> word[i] == 0 {
        lemma_le_value_zero(word.subrange(0, 16));
        lemma_le_value_zero(word.subrange(16, 32));
        lemma_search_empty_word(128, fh);
    }
}

proof fn lemma_le_value_zero(b: Seq<u8>)
    requires
        forall|i: int| 0 <= i < b.len() ==> b[i] == 0,
    ensures
        le_value(b) == 0,
    decreases b.len(),
{
    if b.len() > 0 {
        lemma_le_value_zero(b.drop_first());
    }
}

fn search_word(width: u32, w: u128, fh: bool) -> (r: i32)
    requires
        is_search_width(width as nat),
    ensures
        r == search_spec(width as nat, w as nat, fh),
        0 <= r < width,
    decreases width,
{
    proof {
        lemma_search_in_range(width as nat, w as nat, fh);
    }
    if width == 2 {
        let h = (w / 2) % 2;
        let l = w % 2;
        if (fh || l == 0) && h != 0 {
            0
        } else {
            1
        }
    } else if width == 4 {
        let h = (w / 2) % 4;
        let l = w % 4;
        if (fh || l == 0) && h != 0 {
            search_word(2, h, fh)
        } else {
            2 + search_word(2, l, fh)
        }
    } else {
        let b: u128 = if width == 8 {
            0x10
        } else if width == 16 {
            0x100
        } else if width == 32 {
            0x1_0000
        } else if width == 64 {
            0x1_0000_0000
        } else {
            0x1_0000_0000_0000_0000
        };
        let half: u32 = width / 2;
        let h = (w / b) % b;
        let l = w % b;
        if (fh || l == 0) && h != 0 {
            search_word(half, h, fh)
        } else {
            half as i32 + search_word(half, l, fh)
        }
    }
}

/// Finds a position in a mask word of `N` bits by descending through its
/// halves; see `binary_search_spec`.
pub fn binary_search<const N: usize>(_word: Vec<u8>, for_highest: bool) -> (r: i32)
    requires
        binary_search_accepts(N as nat, _word@),
    ensures
        r == binary_search_spec(N as nat, _word@, for_highest),
{
    proof {
        lemma_pow256_widths();
        lemma_le_value_bound(_word@);
    }
    if N == 256 {
        let s = _word.as_slice();
        let word_high = le_decode_range(s, 0, 16);
        let word_low = le_decode_range(s, 16, 32);
        proof {
            lemma_search_in_range(128, word_high as nat, for_highest);
            lemma_search_in_range(128, word_low as nat, for_highest);
        }
        if (for_highest || word_low == 0) && word_high != 0 {
            search_word(128, word_high, for_highest)
        } else {
            128 + search_word(128, word_low, for_highest)
        }
    } else if N == 2 || N == 4 || N == 8 || N == 16 || N == 32 || N == 64 || N == 128 {
        let w = le_decode(_word.as_slice());
        search_word(N as u32, w, for_highest)
    } else {
        0
    }
}

} // verus!

verus! {

/// Asked for the highest position, the descent goes into the high half
/// whenever that half has a bit set, whatever the low half holds: the
/// position is the one found in the high half, in the upper positions
/// `0 .. width / 2`.
pub proof fn lemma_highest_takes_high_half(width: nat, w: nat)
    requires
        width == 4 || width == 8 || width == 16 || width == 32 || width == 64 || width == 128,
        width == 4 ==> (w / 2) % 4 != 0,
        width >= 8 ==> (w / half_base(width)) % half_base(width) != 0,
    ensures
        width == 4 ==> search_spec(width, w, true) == search_spec(2, (w / 2) % 4, true),
        width >= 8 ==> search_spec(width, w, true) == search_spec(
            width / 2,
            (w / half_base(width)) % half_base(width),
            true,
        ),
        0 <= search_spec(width, w, true) < width / 2,
{
    if width == 4 {
        lemma_search_in_range(2, (w / 2) % 4, true);
    } else {
        lemma_search_in_range(width / 2, (w / half_base(width)) % half_base(width), true);
    }
}

/// Asked for the lowest position, the descent goes into the low half whenever
/// that half has a bit set: the position is `width / 2` past the one found in
/// the low half.
pub proof fn lemma_lowest_takes_low_half(width: nat, w: nat)
    requires
        width == 4 || width == 8 || width == 16 || width == 32 || width == 64 || width == 128,
        width == 4 ==> w % 4 != 0,
        width >= 8 ==> w % half_base(width) != 0,
    ensures
        width == 4 ==> search_spec(width, w, false) == 2 + search_spec(2, w % 4, false),
        width >= 8 ==> search_spec(width, w, false) == width / 2 + search_spec(
            width / 2,
            w % half_base(width),
            false,
        ),
        width / 2 <= search_spec(width, w, false) < width,
{
    if width == 4 {
        lemma_search_in_range(2, w % 4, false);
    } else {
        lemma_search_in_range(width / 2, w % half_base(width), false);
    }
}

/// For a 256-bit mask, the highest position is in the first sixteen bytes
/// whenever they hold a set bit, and the lowest is in the last sixteen
/// whenever those do.
pub proof fn lemma_binary_search_256_halves(word: Seq<u8>)
    requires
        word.len() >= 32,
    ensures
        le_value(word.subrange(0, 16)) != 0 ==> binary_search_spec(256, word, true) == search_spec(
            128,
            le_value(word.subrange(0, 16)),
            true,
        ) && binary_search_spec(256, word, true) < 128,
        le_value(word.subrange(16, 32)) != 0 ==> binary_search_spec(256, word, false) == 128
            + search_spec(128, le_value(word.subrange(16, 32)), false) && binary_search_spec(
            256,
            word,
            false,
        ) >= 128,
{
    lemma_search_in_range(128, le_value(word.subrange(0, 16)), true);
    lemma_search_in_range(128, le_value(word.subrange(16, 32)), false);
}

} // verus!
