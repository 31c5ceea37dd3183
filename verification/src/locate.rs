//! The timestamp locator: scans commit metadata for the author and
//! committer timestamp fields, frames the commit buffer, and records each
//! timestamp's byte span within it.
//!
//! A metadata line carries a timestamp when it contains the field keyword
//! followed by at least one character, a space, a decimal digit run, a
//! space, and at least one further character; the digit run of the earliest
//! such position is the field's timestamp. The last line of each kind wins.

use vstd::prelude::*;
use crate::digits::{
    chars_match_bytes, dec_seq, is_digit_char, lemma_chars_match_bytes_val, lemma_dec_seq_digits,
    lemma_dec_val_of_dec_seq, parse_u32, render_dec,
};
use crate::errors::SearchError;
use crate::worker::TimestampSpan;
use vstd::string::StringSliceAdditionalSpecFns;

verus! {

// ---------------------------------------------------------------------
// Keyword occurrence
// ---------------------------------------------------------------------
/// The keyword occurs at position `i` of the line.
pub open spec fn matches_at(l: Seq<char>, kw: Seq<char>, i: int) -> bool {
    &&& 0 <= i
    &&& i + kw.len() <= l.len()
    &&& l.subrange(i, i + kw.len()) == kw
}

/// The first position at or after `from` where the keyword occurs.
pub open spec fn first_kw_from(l: Seq<char>, kw: Seq<char>, from: int) -> Option<int>
    decreases l.len() + 1 - from
{
    if from < 0 || from + kw.len() > l.len() {
        None
    } else if matches_at(l, kw, from) {
        Some(from)
    } else {
        first_kw_from(l, kw, from + 1)
    }
}

proof fn lemma_first_kw_from_some(l: Seq<char>, kw: Seq<char>, from: int, i: int)
    requires
        0 <= from <= i,
        matches_at(l, kw, i),
        forall|j: int| from <= j < i ==> !matches_at(l, kw, j),
    ensures
        first_kw_from(l, kw, from) == Some(i),
    decreases i - from,
{
    if from < i {
        lemma_first_kw_from_some(l, kw, from + 1, i);
    }
}

proof fn lemma_first_kw_from_none(l: Seq<char>, kw: Seq<char>, from: int)
    requires
        0 <= from <= l.len(),
        forall|j: int| from <= j ==> !matches_at(l, kw, j),
    ensures
        first_kw_from(l, kw, from) is None,
    decreases l.len() - from,
{
    if from + kw.len() <= l.len() {
        if kw.len() == 0 {
            assert(l.subrange(from, from + kw.len()) =~= kw);
            assert(matches_at(l, kw, from));
        } else {
            lemma_first_kw_from_none(l, kw, from + 1);
        }
    }
}

// ---------------------------------------------------------------------
// Digit runs and timestamp positions
// ---------------------------------------------------------------------
/// The end of the maximal digit run starting at `p`.
pub open spec fn run_end(l: Seq<char>, p: int) -> int
    decreases l.len() - p
{
    if p < 0 || p >= l.len() || !is_digit_char(l[p]) {
        p
    } else {
        run_end(l, p + 1)
    }
}

/// A digit run at `p` names a timestamp: preceded by a space, and followed
/// by a space and at least one further character.
pub open spec fn valid_ts_at(l: Seq<char>, p: int) -> bool {
    &&& 1 <= p < l.len()
    &&& l[p - 1] == ' '
    &&& is_digit_char(l[p])
    &&& run_end(l, p) + 1 < l.len()
    &&& l[run_end(l, p)] == ' '
}

/// The first timestamp position at or after `lo`.
pub open spec fn first_ts_from(l: Seq<char>, lo: int) -> Option<int>
    decreases l.len() - lo
{
    if lo < 0 || lo >= l.len() {
        None
    } else if valid_ts_at(l, lo) {
        Some(lo)
    } else {
        first_ts_from(l, lo + 1)
    }
}

proof fn lemma_first_ts_from_some(l: Seq<char>, lo: int, p: int)
    requires
        0 <= lo <= p,
        valid_ts_at(l, p),
        forall|j: int| lo <= j < p ==> !valid_ts_at(l, j),
    ensures
        first_ts_from(l, lo) == Some(p),
    decreases p - lo,
{
    if lo < p {
        lemma_first_ts_from_some(l, lo + 1, p);
    }
}

proof fn lemma_first_ts_from_none(l: Seq<char>, lo: int)
    requires
        0 <= lo,
        forall|j: int| lo <= j ==> !valid_ts_at(l, j),
    ensures
        first_ts_from(l, lo) is None,
    decreases l.len() - lo,
{
    if lo < l.len() {
        lemma_first_ts_from_none(l, lo + 1);
    }
}

// ---------------------------------------------------------------------
// What a line captures
// ---------------------------------------------------------------------
/// The timestamp text that a line carries for a keyword: the digit run at
/// the first timestamp position that leaves at least one character between
/// the first keyword occurrence and the preceding space.
pub open spec fn line_capture(l: Seq<char>, kw: Seq<char>) -> Option<Seq<char>> {
    match first_kw_from(l, kw, 0) {
        None => None,
        Some(i) => match first_ts_from(l, i + kw.len() + 2) {
            None => None,
            Some(p) => Some(l.subrange(p, run_end(l, p))),
        },
    }
}

/// The capture of the last line that captures anything, or the empty
/// sequence when no line does.
pub open spec fn last_capture(ls: Seq<Seq<char>>, kw: Seq<char>) -> Seq<char>
    decreases ls.len(),
{
    if ls.len() == 0 {
        Seq::empty()
    } else {
        match line_capture(ls.last(), kw) {
            Some(c) => c,
            None => last_capture(ls.drop_last(), kw),
        }
    }
}

// ---------------------------------------------------------------------
// Splitting the metadata into lines
// ---------------------------------------------------------------------
/// The position of the line break at or after `from`, or the text's end.
pub open spec fn line_end(s: Seq<char>, from: int) -> int
    decreases s.len() - from
{
    if from < 0 || from >= s.len() || s[from] == '\n' {
        from
    } else {
        line_end(s, from + 1)
    }
}

/// A line with one trailing carriage return removed.
pub open spec fn strip_cr(l: Seq<char>) -> Seq<char> {
    if l.len() > 0 && l.last() == '\r' {
        l.drop_last()
    } else {
        l
    }
}

/// The lines of `s` from position `from` on: split at `'\n'`, one trailing
/// `'\r'` stripped per line, no final empty line for a trailing `'\n'`.
pub open spec fn split_lines_from(s: Seq<char>, from: int) -> Seq<Seq<char>>
    decreases s.len() - from
{
    if from < 0 || from >= s.len() {
        seq![]
    } else {
        let e = line_end_clipped(s, from);
        let l = strip_cr(s.subrange(from, e));
        if e >= s.len() {
            seq![l]
        } else {
            seq![l] + split_lines_from(s, e + 1)
        }
    }
}

/// `line_end`, bounded to the text so that recursion visibly advances.
pub open spec fn line_end_clipped(s: Seq<char>, from: int) -> int {
    let e = line_end(s, from);
    if from <= e <= s.len() {
        e
    } else {
        s.len() as int
    }
}

proof fn lemma_line_end_bounds(s: Seq<char>, from: int)
    requires
        0 <= from <= s.len(),
    ensures
        from <= line_end(s, from) <= s.len(),
        line_end_clipped(s, from) == line_end(s, from),
    decreases s.len() - from,
{
    if from < s.len() && s[from] != '\n' {
        lemma_line_end_bounds(s, from + 1);
    }
}

/// The lines of the whole text.
pub open spec fn split_lines(s: Seq<char>) -> Seq<Seq<char>> {
    split_lines_from(s, 0)
}

// ---------------------------------------------------------------------
// Executable scanning
// ---------------------------------------------------------------------
fn is_digit_char_exec(c: char) -> (r: bool)
    ensures
        r == is_digit_char(c),
{
    let v = c as u32;
    0x30 <= v && v <= 0x39
}

fn kw_match_at(line: &str, kw: &str, i: usize) -> (r: bool)
    requires
        i + kw@.len() <= line@.len(),
    ensures
        r == matches_at(line@, kw@, i as int),
{
    let llen = line.unicode_len();
    let klen = kw.unicode_len();
    let mut j: usize = 0;
    while j < klen
        invariant
            j <= klen,
            klen == kw@.len(),
            llen == line@.len(),
            i + klen <= llen,
            forall|m: int| 0 <= m < j ==> line@[i + m] == kw@[m],
        decreases klen - j,
    {
        if line.get_char(i + j) != kw.get_char(j) {
            proof {
                if matches_at(line@, kw@, i as int) {
                    assert(line@.subrange(i as int, i + kw@.len())[j as int] == line@[i + j]);
                }
            }
            return false;
        }
        j = j + 1;
    }
    proof {
        assert(line@.subrange(i as int, i + kw@.len()) =~= kw@);
    }
    true
}

fn find_kw(line: &str, kw: &str) -> (r: Option<usize>)
    requires
        kw@.len() >= 1,
    ensures
        match r {
            Some(i) => {
                &&& first_kw_from(line@, kw@, 0) == Some(i as int)
                &&& matches_at(line@, kw@, i as int)
            },
            None => first_kw_from(line@, kw@, 0) is None,
        },
{
    let llen = line.unicode_len();
    let klen = kw.unicode_len();
    if klen > llen {
        proof {
            lemma_first_kw_from_none(line@, kw@, 0);
        }
        return None;
    }
    let mut i: usize = 0;
    while i <= llen - klen
        invariant
            i <= llen - klen + 1,
            klen == kw@.len(),
            llen == line@.len(),
            1 <= klen <= llen,
            forall|j: int| 0 <= j < i ==> !matches_at(line@, kw@, j),
        decreases llen - i,
    {
        if kw_match_at(line, kw, i) {
            proof {
                lemma_first_kw_from_some(line@, kw@, 0, i as int);
            }
            return Some(i);
        }
        i = i + 1;
    }
    proof {
        assert forall|j: int| 0 <= j implies !matches_at(line@, kw@, j) by {
            if j >= i {
                assert(j + kw@.len() > line@.len());
            }
        }
        lemma_first_kw_from_none(line@, kw@, 0);
    }
    None
}

fn digit_run_end(line: &str, p: usize) -> (e: usize)
    requires
        p <= line@.len(),
    ensures
        e as int == run_end(line@, p as int),
        p <= e <= line@.len(),
{
    let llen = line.unicode_len();
    let mut e: usize = p;
    loop
        invariant
            p <= e <= llen,
            llen == line@.len(),
            run_end(line@, p as int) == run_end(line@, e as int),
        ensures
            p <= e <= llen && run_end(line@, p as int) == e as int,
        decreases llen - e,
    {
        if e >= llen {
            break;
        }
        if !is_digit_char_exec(line.get_char(e)) {
            break;
        }
        e = e + 1;
    }
    e
}

fn check_ts_at(line: &str, p: usize) -> (r: bool)
    requires
        1 <= p < line@.len(),
    ensures
        r == valid_ts_at(line@, p as int),
{
    let llen = line.unicode_len();
    if line.get_char(p - 1) != ' ' {
        return false;
    }
    if !is_digit_char_exec(line.get_char(p)) {
        return false;
    }
    let e = digit_run_end(line, p);
    if e < llen && llen - e >= 2 && line.get_char(e) == ' ' {
        true
    } else {
        false
    }
}

fn find_ts_from(line: &str, lo: usize) -> (r: Option<usize>)
    requires
        1 <= lo,
    ensures
        match r {
            Some(p) => {
                &&& first_ts_from(line@, lo as int) == Some(p as int)
                &&& valid_ts_at(line@, p as int)
            },
            None => first_ts_from(line@, lo as int) is None,
        },
{
    let llen = line.unicode_len();
    let mut p: usize = lo;
    while p < llen
        invariant
            1 <= lo <= p,
            llen == line@.len(),
            forall|j: int| lo <= j < p ==> !valid_ts_at(line@, j),
        decreases llen - p,
    {
        if check_ts_at(line, p) {
            proof {
                lemma_first_ts_from_some(line@, lo as int, p as int);
            }
            return Some(p);
        }
        p = p + 1;
    }
    proof {
        assert forall|j: int| lo as int <= j implies !valid_ts_at(line@, j) by {
            if j < line@.len() {
                assert(!valid_ts_at(line@, j));
            }
        }
        lemma_first_ts_from_none(line@, lo as int);
    }
    None
}

/// The timestamp text that one line carries for a keyword, if any.
fn scan_line(line: &str, kw: &str) -> (r: Option<String>)
    requires
        kw@.len() >= 1,
    ensures
        match r {
            Some(c) => line_capture(line@, kw@) == Some(c@),
            None => line_capture(line@, kw@) is None,
        },
{
    let i = match find_kw(line, kw) {
        None => {
            return None;
        },
        Some(i) => i,
    };
    let llen = line.unicode_len();
    let klen = kw.unicode_len();
    if llen < 2 || i + klen > llen - 2 {
        proof {
            assert(i + kw@.len() + 2 >= line@.len());
        }
        return None;
    }
    let lo = i + klen + 2;
    match find_ts_from(line, lo) {
        None => None,
        Some(p) => {
            let e = digit_run_end(line, p);
            let sub = line.substring_char(p, e);
            Some(String::from_str(sub))
        },
    }
}

/// Scans every line of the metadata and returns the author and committer
/// timestamp strings, taking the last matching line of each kind, or the
/// empty string for a kind with no matching line.
pub fn get_timestamps_from_last_commit(output: &String) -> (r: (String, String))
    ensures
        r.0@ == last_capture(split_lines(output@), "author "@),
        r.1@ == last_capture(split_lines(output@), "committer "@),
{
    let s = output.as_str();
    let len = s.unicode_len();
    let mut author_ts = String::new();
    let mut committer_ts = String::new();
    let ghost mut processed: Seq<Seq<char>> = seq![];
    proof {
        assert(split_lines(s@) =~= processed + split_lines_from(s@, 0));
    }
    let mut pos: usize = 0;
    while pos < len
        invariant
            pos <= len,
            len == output@.len(),
            s@ == output@,
            split_lines(output@) =~= processed + split_lines_from(output@, pos as int),
            author_ts@ == last_capture(processed, "author "@),
            committer_ts@ == last_capture(processed, "committer "@),
        decreases len - pos,
    {
        let mut e: usize = pos;
        loop
            invariant
                pos <= e <= len,
                len == output@.len(),
                s@ == output@,
                line_end(output@, pos as int) == line_end(output@, e as int),
            ensures
                pos <= e <= len && line_end(output@, pos as int) == e as int,
            decreases len - e,
        {
            if e >= len {
                break;
            }
            if s.get_char(e) == '\n' {
                break;
            }
            e = e + 1;
        }
        let hi = if e > pos && s.get_char(e - 1) == '\r' {
            e - 1
        } else {
            e
        };
        proof {
            assert(strip_cr(output@.subrange(pos as int, e as int)) =~= output@.subrange(
                pos as int,
                hi as int,
            ));
        }
        let line = s.substring_char(pos, hi);
        proof {
            reveal_strlit("author ");
            reveal_strlit("committer ");
        }
        let a = scan_line(line, "author ");
        let c = scan_line(line, "committer ");
        let ghost prev = processed;
        proof {
            let l = strip_cr(output@.subrange(pos as int, e as int));
            lemma_line_end_bounds(output@, pos as int);
            assert(line_end_clipped(output@, pos as int) == e as int);
            processed = processed.push(l);
            assert(processed.drop_last() =~= prev);
            assert(processed.last() == l);
            if e as int >= output@.len() {
                assert(split_lines_from(output@, pos as int) =~= seq![l]);
            } else {
                assert(split_lines_from(output@, pos as int) =~= seq![l] + split_lines_from(
                    output@,
                    e + 1,
                ));
            }
        }
        if let Some(ts) = a {
            author_ts = ts;
        }
        if let Some(ts) = c {
            committer_ts = ts;
        }
        proof {
            assert(author_ts@ == last_capture(processed, "author "@));
            assert(committer_ts@ == last_capture(processed, "committer "@));
        }
        if e >= len {
            pos = len;
            proof {
                assert(split_lines(output@) =~= processed + split_lines_from(
                    output@,
                    pos as int,
                ));
            }
        } else {
            pos = e + 1;
            proof {
                assert(split_lines(output@) =~= processed + split_lines_from(
                    output@,
                    pos as int,
                ));
            }
        }
    }
    proof {
        assert(split_lines_from(output@, pos as int) =~= Seq::<Seq<char>>::empty());
        assert(processed =~= split_lines(output@));
    }
    (author_ts, committer_ts)
}

// ---------------------------------------------------------------------
// Framing and spans
// ---------------------------------------------------------------------
/// The bytes of the framing header's constant part.
pub open spec fn commit_prefix() -> Seq<u8> {
    seq![0x63u8, 0x6fu8, 0x6du8, 0x6du8, 0x69u8, 0x74u8, 0x20u8]
}

/// A commit object framed for hashing: `"commit "`, the body's byte length
/// in decimal, a NUL byte, then the body.
pub open spec fn spec_frame(t: Seq<u8>) -> Seq<u8> {
    commit_prefix() + dec_seq(t.len()) + seq![0u8] + t
}

/// Builds the framed buffer that the digest runs over.
pub fn frame_commit(text: &str) -> (r: Vec<u8>)
    ensures
        r@ == spec_frame(text.spec_bytes()),
{
    let body = text.as_bytes_vec();
    let blen = body.len();
    let mut digits = render_dec(blen as u64);
    let mut out: Vec<u8> = Vec::new();
    out.push(0x63);
    out.push(0x6f);
    out.push(0x6d);
    out.push(0x6d);
    out.push(0x69);
    out.push(0x74);
    out.push(0x20);
    proof {
        assert(out@ =~= commit_prefix());
    }
    out.append(&mut digits);
    out.push(0);
    let mut body_moved = body;
    out.append(&mut body_moved);
    proof {
        assert(out@ =~= spec_frame(text.spec_bytes()));
    }
    out
}

/// The needle occurs at position `i` of the haystack.
pub open spec fn bytes_match_at(h: Seq<u8>, n: Seq<u8>, i: int) -> bool {
    &&& 0 <= i
    &&& i + n.len() <= h.len()
    &&& h.subrange(i, i + n.len()) == n
}

/// Finds the first occurrence of `needle` in `haystack`.
pub fn find_first(haystack: &Vec<u8>, needle: &Vec<u8>) -> (r: Option<usize>)
    ensures
        match r {
            Some(i) => {
                &&& bytes_match_at(haystack@, needle@, i as int)
                &&& forall|j: int| 0 <= j < i ==> !bytes_match_at(haystack@, needle@, j)
            },
            None => forall|j: int| !bytes_match_at(haystack@, needle@, j),
        },
{
    let hlen = haystack.len();
    let nlen = needle.len();
    if nlen > hlen {
        return None;
    }
    if nlen == 0 {
        proof {
            assert(haystack@.subrange(0, 0) =~= needle@);
        }
        return Some(0);
    }
    let mut i: usize = 0;
    while i <= hlen - nlen
        invariant
            i <= hlen - nlen + 1,
            hlen == haystack@.len(),
            nlen == needle@.len(),
            1 <= nlen <= hlen,
            forall|j: int| 0 <= j < i ==> !bytes_match_at(haystack@, needle@, j),
        decreases hlen - i,
    {
        let mut k: usize = 0;
        let mut hit = true;
        while k < nlen
            invariant
                k <= nlen,
                i + nlen <= hlen,
                hlen == haystack@.len(),
                nlen == needle@.len(),
                hit ==> forall|m: int| 0 <= m < k ==> haystack@[i + m] == needle@[m],
                !hit ==> !bytes_match_at(haystack@, needle@, i as int),
            decreases nlen - k,
        {
            if haystack[i + k] != needle[k] {
                proof {
                    if bytes_match_at(haystack@, needle@, i as int) {
                        assert(haystack@.subrange(i as int, i + needle@.len())[k as int]
                            == haystack@[i + k]);
                    }
                }
                hit = false;
                k = nlen;
            } else {
                k = k + 1;
            }
        }
        if hit {
            proof {
                assert(haystack@.subrange(i as int, i + needle@.len()) =~= needle@);
            }
            return Some(i);
        }
        i = i + 1;
    }
    proof {
        assert forall|j: int| !bytes_match_at(haystack@, needle@, j) by {
            if 0 <= j < i {
            } else if j >= i {
                assert(j + needle@.len() > haystack@.len());
            }
        }
    }
    None
}

/// The span names the first occurrence of its value's rendering in the
/// buffer.
pub open spec fn span_locates(buffer: Seq<u8>, sp: TimestampSpan) -> bool {
    &&& sp.end == sp.start + dec_seq(sp.value as nat).len()
    &&& bytes_match_at(buffer, dec_seq(sp.value as nat), sp.start as int)
    &&& forall|j: int| 0 <= j < sp.start ==> !bytes_match_at(buffer, dec_seq(sp.value as nat), j)
}

/// Reads a timestamp string as a `u32`, accepting exactly the canonical
/// decimal renderings (nonempty, digits only, no leading zero, in range).
pub fn ts_value(s: &str) -> (r: Result<u32, SearchError>)
    ensures
        match r {
            Ok(v) => chars_match_bytes(s@, dec_seq(v as nat)),
            Err(e) => {
                &&& e == SearchError::InvalidInput
                &&& forall|v: u32| !chars_match_bytes(s@, dec_seq(v as nat))
            },
        },
{
    let parsed = parse_u32(s);
    let v = match parsed {
        None => {
            proof {
                assert forall|w: u32| !chars_match_bytes(s@, dec_seq(w as nat)) by {
                    if chars_match_bytes(s@, dec_seq(w as nat)) {
                        lemma_dec_seq_digits(w as nat);
                        lemma_chars_match_bytes_val(s@, dec_seq(w as nat));
                        lemma_dec_val_of_dec_seq(w as nat);
                    }
                }
            }
            return Err(SearchError::InvalidInput);
        },
        Some(v) => v,
    };
    let needle = render_dec(v as u64);
    let len = s.unicode_len();
    if len != needle.len() {
        proof {
            lemma_mismatch_excludes_all(s@, v);
        }
        return Err(SearchError::InvalidInput);
    }
    let mut i: usize = 0;
    while i < len
        invariant
            i <= len,
            len == s@.len(),
            len == needle@.len(),
            needle@ == dec_seq(v as nat),
            forall|j: int| 0 <= j < i ==> s@[j] as u32 == needle@[j] as u32,
            parse_u32_ok(s@, v),
        decreases len - i,
    {
        let c = s.get_char(i);
        let b = needle[i];
        if c as u32 != b as u32 {
            proof {
                lemma_mismatch_excludes_all(s@, v);
            }
            return Err(SearchError::InvalidInput);
        }
        i = i + 1;
    }
    Ok(v)
}

/// The facts `parse_u32` establishes about a successful parse.
pub open spec fn parse_u32_ok(s: Seq<char>, v: u32) -> bool {
    &&& s.len() > 0
    &&& forall|j: int| 0 <= j < s.len() ==> is_digit_char(#[trigger] s[j])
    &&& crate::digits::dec_val_chars(s) == v as int
}

/// When a parsed string is not the canonical rendering of its own value, it
/// is not the canonical rendering of any value.
proof fn lemma_mismatch_excludes_all(s: Seq<char>, v: u32)
    requires
        parse_u32_ok(s, v),
        !chars_match_bytes(s, dec_seq(v as nat)),
    ensures
        forall|w: u32| !chars_match_bytes(s, dec_seq(w as nat)),
{
    assert forall|w: u32| !chars_match_bytes(s, dec_seq(w as nat)) by {
        if chars_match_bytes(s, dec_seq(w as nat)) {
            lemma_chars_match_bytes_val(s, dec_seq(w as nat));
            lemma_dec_val_of_dec_seq(w as nat);
            assert(w as int == v as int);
        }
    }
}

/// Finds the author and committer timestamp spans within the framed buffer.
///
/// Scans the metadata for the two timestamp strings (last matching line of
/// each kind), reads each as a number, and records the first occurrence of
/// its rendering in the buffer. Fails with `NotFound` when a field is
/// missing or its rendering does not occur in the buffer, and with
/// `InvalidInput` when a timestamp string is not a canonical `u32`
/// rendering.
pub fn locate(output: &String, buffer: &Vec<u8>) -> (r: Result<
    (TimestampSpan, TimestampSpan),
    SearchError,
>)
    ensures
        ({
            let at = last_capture(split_lines(output@), "author "@);
            let ct = last_capture(split_lines(output@), "committer "@);
            match r {
                Ok((a, c)) => {
                    &&& chars_match_bytes(at, dec_seq(a.value as nat))
                    &&& chars_match_bytes(ct, dec_seq(c.value as nat))
                    &&& span_locates(buffer@, a)
                    &&& span_locates(buffer@, c)
                },
                Err(e) => {
                    ||| (e == SearchError::NotFound && (at.len() == 0 || ct.len() == 0))
                    ||| (e == SearchError::InvalidInput && at.len() > 0 && ct.len() > 0 && ((
                    forall|v: u32| !chars_match_bytes(at, dec_seq(v as nat))) || (forall|v: u32|
                        !chars_match_bytes(ct, dec_seq(v as nat)))))
                    ||| (e == SearchError::NotFound && (exists|v: u32|
                        chars_match_bytes(at, dec_seq(v as nat)) && (forall|j: int|
                            !bytes_match_at(buffer@, dec_seq(v as nat), j))))
                    ||| (e == SearchError::NotFound && (exists|v: u32|
                        chars_match_bytes(ct, dec_seq(v as nat)) && (forall|j: int|
                            !bytes_match_at(buffer@, dec_seq(v as nat), j))))
                },
            }
        }),
{
    let (a, c) = get_timestamps_from_last_commit(output);
    if a.as_str().unicode_len() == 0 || c.as_str().unicode_len() == 0 {
        return Err(SearchError::NotFound);
    }
    let av = match ts_value(a.as_str()) {
        Err(e) => {
            return Err(e);
        },
        Ok(v) => v,
    };
    let cv = match ts_value(c.as_str()) {
        Err(e) => {
            return Err(e);
        },
        Ok(v) => v,
    };
    let aspan = match find_span(buffer, av) {
        Err(e) => {
            return Err(e);
        },
        Ok(s) => s,
    };
    let cspan = match find_span(buffer, cv) {
        Err(e) => {
            return Err(e);
        },
        Ok(s) => s,
    };
    Ok((aspan, cspan))
}

/// Builds the timestamp span for `value`: the first occurrence of its
/// decimal rendering in the buffer.
pub fn find_span(buffer: &Vec<u8>, value: u32) -> (r: Result<TimestampSpan, SearchError>)
    ensures
        match r {
            Ok(sp) => {
                &&& sp.value == value
                &&& span_locates(buffer@, sp)
            },
            Err(e) => {
                &&& e == SearchError::NotFound
                &&& forall|j: int| !bytes_match_at(buffer@, dec_seq(value as nat), j)
            },
        },
{
    let needle = render_dec(value as u64);
    match find_first(buffer, &needle) {
        Some(i) => {
            let blen = buffer.len();
            proof {
                assert(i + needle@.len() <= blen);
            }
            let end = i + needle.len();
            Ok(TimestampSpan { start: i, end, value })
        },
        None => Err(SearchError::NotFound),
    }
}

} // verus!

