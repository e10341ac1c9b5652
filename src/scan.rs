//! Splitting a byte run after the first occurrence of a separator.
use vstd::prelude::*;
use crate::error::HttpError;
use crate::text::utf8_text;

verus! {

/// How many bytes of `sep` are matched after reading the first `n` bytes of
/// `b`. A mismatch drops the count to zero without looking back, and the
/// count stays put once the whole separator has been seen.
pub open spec fn matched(b: Seq<u8>, sep: Seq<u8>, n: nat) -> nat
    decreases n,
{
    if n == 0 {
        0
    } else {
        let m = matched(b, sep, (n - 1) as nat);
        if m < sep.len() {
            if b[n - 1] == sep[m as int] {
                m + 1
            } else {
                0
            }
        } else {
            m
        }
    }
}

/// The first position, from `n` on, at which the whole separator has been
/// matched; the end of `b` when there is none.
pub open spec fn first_full_match(b: Seq<u8>, sep: Seq<u8>, n: nat) -> nat
    decreases b.len() - n,
{
    if n >= b.len() {
        b.len()
    } else if matched(b, sep, n) == sep.len() {
        n
    } else {
        first_full_match(b, sep, n + 1)
    }
}

/// Where `b` is cut: just past the first complete separator, or at its end.
pub open spec fn split_index(b: Seq<u8>, sep: Seq<u8>) -> nat {
    first_full_match(b, sep, 0)
}

proof fn lemma_first_full_match_from(b: Seq<u8>, sep: Seq<u8>, k: nat)
    requires
        k <= b.len(),
        forall|n: nat| n < k ==> #[trigger] matched(b, sep, n) < sep.len(),
    ensures
        first_full_match(b, sep, 0) == first_full_match(b, sep, k),
    decreases k,
{
    if k > 0 {
        lemma_first_full_match_from(b, sep, (k - 1) as nat);
        assert(matched(b, sep, (k - 1) as nat) < sep.len());
    }
}

/// Splits `bytes` just past the first occurrence of `sep`, found by a scan
/// that restarts its match on every mismatch. The part before the cut is
/// decoded as UTF-8; a `DecodeError` when it is not valid UTF-8. The
/// separator is text, so a cut never falls inside a character of valid text.
pub fn parse_until<'a>(bytes: &'a [u8], sep: &[u8]) -> (r: Result<(&'a str, &'a [u8]), HttpError>)
    requires
        vstd::utf8::valid_utf8(sep@),
    ensures
        r is Ok <==> vstd::utf8::valid_utf8(bytes@.subrange(0, split_index(bytes@, sep@) as int)),
        r is Err ==> r == Err::<(&str, &[u8]), HttpError>(HttpError::DecodeError),
        r matches Ok((head, tail)) ==> {
            &&& head@ == vstd::utf8::decode_utf8(bytes@.subrange(0, split_index(bytes@, sep@) as int))
            &&& tail@ == bytes@.subrange(split_index(bytes@, sep@) as int, bytes@.len() as int)
        },
{
    let mut i: usize = 0;
    let mut index: usize = 0;
    while index < bytes.len()
        invariant
            index <= bytes@.len(),
            i == matched(bytes@, sep@, index as nat),
            i <= sep@.len(),
            forall|n: nat| n < index ==> #[trigger] matched(bytes@, sep@, n) < sep@.len(),
        decreases bytes@.len() - index,
    {
        if i < sep.len() {
            if bytes[index] == sep[i] {
                i += 1;
            } else {
                i = 0;
            }
        } else {
            proof {
                lemma_first_full_match_from(bytes@, sep@, index as nat);
            }
            let (head, tail) = bytes.split_at(index);
            return match utf8_text(head) {
                Some(t) => Ok((t, tail)),
                None => Err(HttpError::DecodeError),
            };
        }
        index += 1;
    }
    proof {
        lemma_first_full_match_from(bytes@, sep@, index as nat);
    }
    let (head, tail) = bytes.split_at(index);
    match utf8_text(head) {
        Some(t) => Ok((t, tail)),
        None => Err(HttpError::DecodeError),
    }
}

} // verus!
