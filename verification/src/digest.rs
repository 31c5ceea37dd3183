//! The digest primitive: a resettable SHA-1 accumulator, and lowercase
//! hexadecimal rendering of digest bytes.

use vstd::prelude::*;
use sha1::Digest;

verus! {

/// The SHA-1 digest of a byte sequence. The algorithm itself is not restated
/// here; the name stands for its result, and `sha1_digest` below ties the
/// name to the outside implementation.
pub uninterp spec fn sha1_of(bytes: Seq<u8>) -> Seq<u8>;

/// Relies on sha1::Sha1 through the one-shot Digest::digest call: the
/// 20-byte SHA-1 digest of the input, a function of the input bytes alone.
#[verifier::external_body]
fn sha1_digest(data: &[u8]) -> (r: Vec<u8>)
    ensures
        r@ == sha1_of(data@),
        r@.len() == 20,
{
    sha1::Sha1::digest(data).to_vec()
}

/// The lowercase hex digit for a nibble value.
pub open spec fn hex_char_of(v: int) -> char {
    if v == 0 {
        '0'
    } else if v == 1 {
        '1'
    } else if v == 2 {
        '2'
    } else if v == 3 {
        '3'
    } else if v == 4 {
        '4'
    } else if v == 5 {
        '5'
    } else if v == 6 {
        '6'
    } else if v == 7 {
        '7'
    } else if v == 8 {
        '8'
    } else if v == 9 {
        '9'
    } else if v == 10 {
        'a'
    } else if v == 11 {
        'b'
    } else if v == 12 {
        'c'
    } else if v == 13 {
        'd'
    } else if v == 14 {
        'e'
    } else {
        'f'
    }
}

/// Lowercase hex text for a byte sequence: two digits per byte, high nibble
/// first, bytes in order.
pub open spec fn spec_hex_encode(b: Seq<u8>) -> Seq<char> {
    Seq::new(
        2 * b.len(),
        |i: int|
            if i % 2 == 0 {
                hex_char_of((b[i / 2] as int) / 16)
            } else {
                hex_char_of((b[i / 2] as int) % 16)
            },
    )
}

/// Relies on hex::encode: lowercase hex, exactly two digits per input byte,
/// bytes rendered in order.
#[verifier::external_body]
pub(crate) fn hex_encode(data: &[u8]) -> (r: String)
    ensures
        r@ == spec_hex_encode(data@),
{
    hex::encode(data)
}

/// A streaming digest context: accumulates bytes between resets. Its view is
/// the sequence of bytes fed since construction or the last reset.
pub struct DigestContext {
    buf: Vec<u8>,
}

impl View for DigestContext {
    type V = Seq<u8>;

    closed spec fn view(&self) -> Seq<u8> {
        self.buf@
    }
}

impl DigestContext {
    /// A fresh context with nothing fed.
    pub fn new() -> (r: Self)
        ensures
            r@ == Seq::<u8>::empty(),
    {
        let buf: Vec<u8> = Vec::new();
        proof {
            assert(buf@ =~= Seq::<u8>::empty());
        }
        DigestContext { buf }
    }

    /// Feeds more bytes into the context.
    pub fn update(&mut self, data: &[u8])
        ensures
            final(self)@ == old(self)@ + data@,
    {
        let len = data.len();
        let mut i: usize = 0;
        while i < len
            invariant
                i <= len,
                len == data@.len(),
                self.buf@ =~= old(self).buf@ + data@.take(i as int),
            decreases len - i,
        {
            let b = data[i];
            self.buf.push(b);
            proof {
                assert(data@.take(i + 1) =~= data@.take(i as int).push(b));
                assert(self.buf@ =~= old(self).buf@ + data@.take(i + 1));
            }
            i = i + 1;
        }
        proof {
            assert(data@.take(len as int) =~= data@);
            assert(self.buf@ =~= old(self).buf@ + data@);
        }
    }

    /// Produces the SHA-1 digest of everything fed since the last reset and
    /// empties the context for reuse.
    pub fn finalize_and_reset(&mut self) -> (r: Vec<u8>)
        ensures
            r@ == sha1_of(old(self)@),
            r@.len() == 20,
            final(self)@ == Seq::<u8>::empty(),
    {
        let d = sha1_digest(self.buf.as_slice());
        self.buf.clear();
        proof {
            assert(self.buf@ =~= Seq::<u8>::empty());
        }
        d
    }
}

/// The digest is a function of the fed bytes alone: running the context
/// twice over identical input yields identical digests.
pub proof fn lemma_digest_deterministic(a: Seq<u8>, b: Seq<u8>)
    requires
        a == b,
    ensures
        sha1_of(a) == sha1_of(b),
{
}

} // verus!
