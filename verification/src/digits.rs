//! Decimal ASCII renderings of timestamp values: the spec-level rendering
//! `dec_seq`, its executable counterpart, and parsing back to an integer.

use vstd::prelude::*;
use vstd::arithmetic::div_mod::{
    lemma_div_is_ordered, lemma_fundamental_div_mod, lemma_mod_division_less_than_divisor,
};

verus! {

/// The ASCII decimal rendering of `n`, most significant digit first,
/// with no leading zeros.
pub open spec fn dec_seq(n: nat) -> Seq<u8>
    decreases n,
{
    if n < 10 {
        seq![(0x30 + n) as u8]
    } else {
        dec_seq(n / 10).push((0x30 + n % 10) as u8)
    }
}

/// An ASCII decimal digit byte.
pub open spec fn is_digit_byte(b: u8) -> bool {
    0x30 <= b <= 0x39
}

/// An ASCII decimal digit character.
pub open spec fn is_digit_char(c: char) -> bool {
    0x30 <= c as u32 <= 0x39
}

/// The value of a sequence of ASCII digit bytes, most significant first.
pub open spec fn dec_val_bytes(s: Seq<u8>) -> int
    decreases s.len(),
{
    if s.len() == 0 {
        0
    } else {
        dec_val_bytes(s.drop_last()) * 10 + s.last() - 0x30
    }
}

/// The value of a sequence of ASCII digit characters, most significant first.
pub open spec fn dec_val_chars(s: Seq<char>) -> int
    decreases s.len(),
{
    if s.len() == 0 {
        0
    } else {
        dec_val_chars(s.drop_last()) * 10 + s.last() as u32 - 0x30
    }
}

/// A character sequence and a byte sequence carry the same ASCII text.
pub open spec fn chars_match_bytes(s: Seq<char>, b: Seq<u8>) -> bool {
    &&& s.len() == b.len()
    &&& forall|i: int| 0 <= i < s.len() ==> s[i] as u32 == b[i] as u32
}

/// A decimal rendering is nonempty and consists of digit bytes only.
pub proof fn lemma_dec_seq_digits(n: nat)
    ensures
        dec_seq(n).len() >= 1,
        forall|i: int| 0 <= i < dec_seq(n).len() ==> is_digit_byte(#[trigger] dec_seq(n)[i]),
    decreases n,
{
    if n >= 10 {
        lemma_dec_seq_digits(n / 10);
    }
}

/// Rendering a smaller value never takes more digits.
pub proof fn lemma_dec_seq_len_mono(a: nat, b: nat)
    requires
        a <= b,
    ensures
        dec_seq(a).len() <= dec_seq(b).len(),
    decreases b,
{
    if b >= 10 && a >= 10 {
        lemma_div_is_ordered(a as int, b as int, 10);
        lemma_dec_seq_len_mono(a / 10, b / 10);
    } else if b >= 10 {
        lemma_dec_seq_digits(b / 10);
    }
}

/// Reading a rendering back as a decimal number yields the rendered value.
pub proof fn lemma_dec_val_of_dec_seq(n: nat)
    ensures
        dec_val_bytes(dec_seq(n)) == n,
    decreases n,
{
    if n < 10 {
        assert(dec_seq(n) =~= seq![(0x30 + n) as u8]);
        assert(dec_seq(n).drop_last() =~= Seq::<u8>::empty());
        assert(dec_val_bytes(Seq::<u8>::empty()) == 0);
        assert(dec_seq(n).last() == (0x30 + n) as u8);
    } else {
        lemma_dec_val_of_dec_seq(n / 10);
        assert(dec_seq(n).drop_last() =~= dec_seq(n / 10));
        lemma_fundamental_div_mod(n as int, 10);
        lemma_mod_division_less_than_divisor(n as int, 10);
        assert(dec_seq(n).last() == (0x30 + n % 10) as u8);
        assert(dec_seq(n).last() as int == 0x30 + (n as int) % 10);
        assert(dec_val_bytes(dec_seq(n)) == ((n as int) / 10) * 10 + (n as int) % 10);
    }
}

/// Matching ASCII text names the same decimal number in both domains.
pub proof fn lemma_chars_match_bytes_val(s: Seq<char>, b: Seq<u8>)
    requires
        chars_match_bytes(s, b),
    ensures
        dec_val_chars(s) == dec_val_bytes(b),
        forall|i: int|
            0 <= i < s.len() ==> (is_digit_char(#[trigger] s[i]) <==> is_digit_byte(b[i])),
    decreases s.len(),
{
    if s.len() > 0 {
        assert(chars_match_bytes(s.drop_last(), b.drop_last()));
        lemma_chars_match_bytes_val(s.drop_last(), b.drop_last());
    }
}

/// A digit string's value only grows as more digits are appended.
pub proof fn lemma_dec_val_chars_prefix_mono(s: Seq<char>, i: int)
    requires
        0 <= i <= s.len(),
        forall|j: int| 0 <= j < s.len() ==> is_digit_char(#[trigger] s[j]),
    ensures
        dec_val_chars(s.take(i)) <= dec_val_chars(s),
        dec_val_chars(s) >= 0,
    decreases s.len(),
{
    if s.len() == 0 {
        assert(s.take(i) =~= s);
    } else if i == s.len() {
        assert(s.take(i) =~= s);
        lemma_dec_val_chars_prefix_mono(s.drop_last(), s.len() - 1);
    } else {
        lemma_dec_val_chars_prefix_mono(s.drop_last(), i);
        assert(s.drop_last().take(i) =~= s.take(i));
        assert(is_digit_char(s.last()));
    }
}

/// Renders `n` as decimal ASCII bytes, most significant digit first.
pub fn render_dec(n: u64) -> (r: Vec<u8>)
    ensures
        r@ == dec_seq(n as nat),
{
    let mut rev: Vec<u8> = Vec::new();
    let mut m: u64 = n;
    while m >= 10
        invariant
            dec_seq(n as nat) =~= dec_seq(m as nat) + rev_seq(rev@),
        decreases m,
    {
        let d: u8 = (m % 10) as u8;
        let ghost prev = rev@;
        rev.push(0x30 + d);
        proof {
            assert(rev@.drop_last() =~= prev);
            assert(dec_seq(m as nat) =~= dec_seq((m / 10) as nat).push((0x30 + (m as nat) % 10) as u8));
            assert(dec_seq((m / 10) as nat) + rev_seq(rev@) =~= dec_seq(m as nat) + rev_seq(prev));
        }
        m = m / 10;
    }
    let ghost prev = rev@;
    rev.push(0x30 + (m as u8));
    proof {
        assert(rev@.drop_last() =~= prev);
        assert(dec_seq(m as nat) =~= seq![(0x30 + m as nat) as u8]);
        assert(rev_seq(rev@) =~= dec_seq(m as nat) + rev_seq(prev));
        assert(rev_seq(rev@) =~= dec_seq(n as nat));
        lemma_rev_seq(rev@);
    }
    let mut out: Vec<u8> = Vec::new();
    let mut i: usize = rev.len();
    while i > 0
        invariant
            i <= rev.len(),
            out@.len() == rev@.len() - i,
            forall|j: int| 0 <= j < out@.len() ==> out@[j] == rev@[rev@.len() - 1 - j],
            rev_seq(rev@) =~= dec_seq(n as nat),
            rev_seq(rev@).len() == rev@.len(),
            forall|j: int|
                0 <= j < rev@.len() ==> #[trigger] rev_seq(rev@)[j] == rev@[rev@.len() - 1 - j],
        decreases i,
    {
        i = i - 1;
        let b = rev[i];
        out.push(b);
    }
    proof {
        assert(out@ =~= dec_seq(n as nat));
    }
    out
}

/// `s` read back to front: the helper mirror of the rendering loop.
pub open spec fn rev_seq(s: Seq<u8>) -> Seq<u8>
    decreases s.len(),
{
    if s.len() == 0 {
        Seq::empty()
    } else {
        seq![s.last()] + rev_seq(s.drop_last())
    }
}

proof fn lemma_rev_seq(s: Seq<u8>)
    ensures
        rev_seq(s).len() == s.len(),
        forall|j: int| 0 <= j < s.len() ==> #[trigger] rev_seq(s)[j] == s[s.len() - 1 - j],
    decreases s.len(),
{
    if s.len() > 0 {
        lemma_rev_seq(s.drop_last());
    }
}

/// Parses a string of decimal digits as a `u32`.
///
/// Returns the value exactly when the string is nonempty, holds only
/// decimal digits, and its value fits in a `u32`.
pub fn parse_u32(s: &str) -> (r: Option<u32>)
    ensures
        match r {
            Some(v) => {
                &&& s@.len() > 0
                &&& forall|j: int| 0 <= j < s@.len() ==> is_digit_char(#[trigger] s@[j])
                &&& dec_val_chars(s@) == v as int
            },
            None => !({
                &&& s@.len() > 0
                &&& forall|j: int| 0 <= j < s@.len() ==> is_digit_char(#[trigger] s@[j])
                &&& dec_val_chars(s@) <= u32::MAX as int
            }),
        },
{
    let len = s.unicode_len();
    if len == 0 {
        return None;
    }
    let mut acc: u64 = 0;
    let mut i: usize = 0;
    while i < len
        invariant
            0 <= i <= len,
            len == s@.len(),
            forall|j: int| 0 <= j < i ==> is_digit_char(#[trigger] s@[j]),
            acc as int == dec_val_chars(s@.take(i as int)),
            acc <= u32::MAX,
        decreases len - i,
    {
        let c = s.get_char(i);
        let cv = c as u32;
        if cv < 0x30 || cv > 0x39 {
            return None;
        }
        let d: u64 = (cv - 0x30) as u64;
        let next: u64 = acc * 10 + d;
        proof {
            assert(s@.take(i + 1).drop_last() =~= s@.take(i as int));
            assert(s@.take(i + 1).last() == s@[i as int]);
        }
        if next > 0xffff_ffff {
            proof {
                assert(dec_val_chars(s@.take(i + 1)) == next as int);
                lemma_dec_val_chars_prefix_mono_partial(s@, i + 1);
            }
            return None;
        }
        acc = next;
        i = i + 1;
    }
    proof {
        assert(s@.take(len as int) =~= s@);
    }
    Some(acc as u32)
}

/// If some fully-digit prefix already exceeds `u32::MAX`, so does any
/// longer all-digit reading of the whole string.
proof fn lemma_dec_val_chars_prefix_mono_partial(s: Seq<char>, i: int)
    requires
        0 <= i <= s.len(),
        forall|j: int| 0 <= j < i ==> is_digit_char(#[trigger] s[j]),
        dec_val_chars(s.take(i)) > u32::MAX as int,
    ensures
        (forall|j: int| 0 <= j < s.len() ==> is_digit_char(#[trigger] s[j])) ==> dec_val_chars(
            s,
        ) > u32::MAX as int,
{
    if forall|j: int| 0 <= j < s.len() ==> is_digit_char(#[trigger] s[j]) {
        lemma_dec_val_chars_prefix_mono(s, i);
    }
}

} // verus!
