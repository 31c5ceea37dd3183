//! Nibble-precise hexadecimal prefix patterns over digest bytes.

use vstd::prelude::*;
use crate::digits::is_digit_char;
use crate::errors::SearchError;

verus! {

/// A hexadecimal digit, either case.
pub open spec fn is_hex_digit(c: char) -> bool {
    ||| is_digit_char(c)
    ||| 0x61 <= c as u32 <= 0x66
    ||| 0x41 <= c as u32 <= 0x46
}

/// The nibble value of a hex digit (zero for any other character).
pub open spec fn hex_val(c: char) -> u8 {
    let v = c as u32;
    if 0x30 <= v <= 0x39 {
        (v - 0x30) as u8
    } else if 0x61 <= v <= 0x66 {
        (v - 0x61 + 10) as u8
    } else if 0x41 <= v <= 0x46 {
        (v - 0x41 + 10) as u8
    } else {
        0
    }
}

/// The bytes denoted by a string of hex nibbles; an odd trailing nibble is
/// padded with a zero low nibble.
pub open spec fn spec_parse_bytes(s: Seq<char>) -> Seq<u8> {
    Seq::new(
        ((s.len() + 1) / 2) as nat,
        |i: int|
            (16 * (hex_val(s[2 * i]) as int) + if 2 * i + 1 < s.len() {
                hex_val(s[2 * i + 1]) as int
            } else {
                0
            }) as u8,
    )
}

/// A digest satisfies a pattern when its leading bytes equal the pattern's
/// fully-constrained bytes and, for a trailing half pattern, its next byte's
/// high nibble equals the pattern's last byte.
pub open spec fn spec_matches(bytes: Seq<u8>, trailing_half: bool, d: Seq<u8>) -> bool {
    let n = if trailing_half {
        bytes.len() - 1
    } else {
        bytes.len() as int
    };
    &&& forall|i: int| 0 <= i < n ==> d[i] == bytes[i]
    &&& (trailing_half ==> bytes[n] == d[n] & 0xF0)
}

/// A parsed prefix pattern: the constrained digest bytes, and whether the
/// last byte constrains only the high nibble.
pub struct PrefixPattern {
    pub bytes: Vec<u8>,
    pub trailing_half: bool,
}

impl PrefixPattern {
    /// A trailing half pattern always declares the byte it half-constrains.
    pub open spec fn wf(&self) -> bool {
        self.trailing_half ==> self.bytes@.len() >= 1
    }

    /// Parses a hex string, case-insensitive, of even or odd nibble count.
    ///
    /// Fails exactly when some character is not a hex digit.
    pub fn parse(s: &str) -> (r: Result<PrefixPattern, SearchError>)
        ensures
            match r {
                Ok(p) => {
                    &&& forall|i: int| 0 <= i < s@.len() ==> is_hex_digit(#[trigger] s@[i])
                    &&& p.bytes@ == spec_parse_bytes(s@)
                    &&& p.trailing_half == (s@.len() % 2 == 1)
                    &&& p.wf()
                },
                Err(e) => {
                    &&& e == SearchError::InvalidInput
                    &&& !(forall|i: int| 0 <= i < s@.len() ==> is_hex_digit(#[trigger] s@[i]))
                },
            },
    {
        let len = s.unicode_len();
        let mut i: usize = 0;
        while i < len
            invariant
                i <= len,
                len == s@.len(),
                forall|j: int| 0 <= j < i ==> is_hex_digit(#[trigger] s@[j]),
            decreases len - i,
        {
            let c = s.get_char(i);
            if !is_hex_digit_exec(c) {
                proof {
                    assert(!is_hex_digit(s@[i as int]));
                }
                return Err(SearchError::InvalidInput);
            }
            i = i + 1;
        }
        let half_count = len / 2 + len % 2;
        let mut bytes: Vec<u8> = Vec::new();
        let mut k: usize = 0;
        while k < half_count
            invariant
                k <= half_count,
                len == s@.len(),
                half_count == (s@.len() + 1) / 2,
                bytes@ =~= spec_parse_bytes(s@).take(k as int),
            decreases half_count - k,
        {
            let hi = hex_val_exec(s.get_char(2 * k));
            let lo = if 2 * k + 1 < len {
                hex_val_exec(s.get_char(2 * k + 1))
            } else {
                0
            };
            let b: u8 = 16 * hi + lo;
            let ghost prev = bytes@;
            bytes.push(b);
            proof {
                assert(bytes@ =~= prev.push(b));
                assert(spec_parse_bytes(s@)[k as int] == b);
                assert(bytes@ =~= spec_parse_bytes(s@).take(k + 1));
            }
            k = k + 1;
        }
        proof {
            assert(spec_parse_bytes(s@).take(half_count as int) =~= spec_parse_bytes(s@));
        }
        Ok(PrefixPattern { bytes, trailing_half: len % 2 == 1 })
    }

    /// Tests a digest against the pattern, byte for byte, with a
    /// high-nibble-only comparison for a trailing half pattern.
    pub fn matches(&self, digest: &[u8]) -> (r: bool)
        requires
            self.wf(),
            digest@.len() >= self.bytes@.len(),
        ensures
            r == spec_matches(self.bytes@, self.trailing_half, digest@),
    {
        let full = if self.trailing_half {
            self.bytes.len() - 1
        } else {
            self.bytes.len()
        };
        let mut i: usize = 0;
        while i < full
            invariant
                i <= full,
                full == if self.trailing_half {
                    self.bytes@.len() - 1
                } else {
                    self.bytes@.len() as int
                },
                digest@.len() >= self.bytes@.len(),
                forall|j: int| 0 <= j < i ==> digest@[j] == self.bytes@[j],
            decreases full - i,
        {
            if digest[i] != self.bytes[i] {
                return false;
            }
            i = i + 1;
        }
        if self.trailing_half {
            let n = self.bytes.len() - 1;
            self.bytes[n] == (digest[n] & 0xF0)
        } else {
            true
        }
    }
}

/// Accepts a prefix argument exactly when every character is a hex digit.
pub fn hex_check(s: &str) -> (r: Result<String, String>)
    ensures
        match r {
            Ok(t) => {
                &&& t@ == s@
                &&& forall|i: int| 0 <= i < s@.len() ==> is_hex_digit(#[trigger] s@[i])
            },
            Err(e) => {
                &&& e@ == "Prefix must be a hex string"@
                &&& !(forall|i: int| 0 <= i < s@.len() ==> is_hex_digit(#[trigger] s@[i]))
            },
        },
{
    let len = s.unicode_len();
    let mut i: usize = 0;
    while i < len
        invariant
            i <= len,
            len == s@.len(),
            forall|j: int| 0 <= j < i ==> is_hex_digit(#[trigger] s@[j]),
        decreases len - i,
    {
        let c = s.get_char(i);
        if !is_hex_digit_exec(c) {
            proof {
                assert(!is_hex_digit(s@[i as int]));
            }
            return Err(String::from_str("Prefix must be a hex string"));
        }
        i = i + 1;
    }
    Ok(String::from_str(s))
}

fn is_hex_digit_exec(c: char) -> (r: bool)
    ensures
        r == is_hex_digit(c),
{
    let v = c as u32;
    (0x30 <= v && v <= 0x39) || (0x61 <= v && v <= 0x66) || (0x41 <= v && v <= 0x46)
}

fn hex_val_exec(c: char) -> (r: u8)
    ensures
        r == hex_val(c),
        r <= 15,
{
    let v = c as u32;
    if 0x30 <= v && v <= 0x39 {
        (v - 0x30) as u8
    } else if 0x61 <= v && v <= 0x66 {
        (v - 0x61 + 10) as u8
    } else if 0x41 <= v && v <= 0x46 {
        (v - 0x41 + 10) as u8
    } else {
        0
    }
}

/// A pattern parsed from an even-length hex string matches a digest exactly
/// when the digest's leading bytes equal the decoded prefix.
pub proof fn lemma_even_prefix_matches(s: Seq<char>, d: Seq<u8>)
    requires
        s.len() % 2 == 0,
        d.len() >= s.len() / 2,
    ensures
        spec_matches(spec_parse_bytes(s), false, d) <==> d.subrange(0, (s.len() / 2) as int)
            == spec_parse_bytes(s),
{
    let n = (s.len() / 2) as int;
    assert(spec_parse_bytes(s).len() == n);
    if spec_matches(spec_parse_bytes(s), false, d) {
        assert(d.subrange(0, n) =~= spec_parse_bytes(s));
    }
    if d.subrange(0, n) == spec_parse_bytes(s) {
        assert forall|i: int| 0 <= i < n implies d[i] == spec_parse_bytes(s)[i] by {
            assert(d.subrange(0, n)[i] == d[i]);
        }
    }
}

/// A pattern parsed from an odd-length hex string matches a digest exactly
/// when the fully-constrained bytes match and the next digest byte's high
/// nibble equals the last declared nibble, whatever its low nibble.
pub proof fn lemma_odd_prefix_matches(s: Seq<char>, d: Seq<u8>)
    requires
        s.len() % 2 == 1,
        d.len() >= (s.len() + 1) / 2,
    ensures
        spec_matches(spec_parse_bytes(s), true, d) <==> {
            let n = (s.len() / 2) as int;
            &&& d.subrange(0, n) == spec_parse_bytes(s.take(s.len() - 1))
            &&& d[n] & 0xF0 == 16 * (hex_val(s[s.len() - 1]) as int)
        },
{
    let n = (s.len() / 2) as int;
    assert(spec_parse_bytes(s).len() == n + 1);
    assert(2 * n == s.len() - 1);
    assert(spec_parse_bytes(s)[n] == 16 * (hex_val(s[s.len() - 1]) as int));
    assert(spec_parse_bytes(s.take(s.len() - 1)).len() == n);
    assert forall|i: int| 0 <= i < n implies spec_parse_bytes(s.take(s.len() - 1))[i]
        == spec_parse_bytes(s)[i] by {
        assert(s.take(s.len() - 1)[2 * i] == s[2 * i]);
        assert(s.take(s.len() - 1)[2 * i + 1] == s[2 * i + 1]);
    }
    if spec_matches(spec_parse_bytes(s), true, d) {
        assert(d.subrange(0, n) =~= spec_parse_bytes(s.take(s.len() - 1)));
    }
    if d.subrange(0, n) == spec_parse_bytes(s.take(s.len() - 1)) {
        assert forall|i: int| 0 <= i < n implies d[i] == spec_parse_bytes(s)[i] by {
            assert(d.subrange(0, n)[i] == d[i]);
        }
    }
}

} // verus!
