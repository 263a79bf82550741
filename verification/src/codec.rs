//! The asset decoder: splits an optional data-URL prefix off an encoded
//! payload at its first comma and decodes the rest as standard base64.

use vstd::prelude::*;
use crate::IconError;

verus! {

/// Whether the sequence holds a comma.
pub open spec fn has_comma(s: Seq<char>) -> bool {
    exists|i: int| 0 <= i < s.len() && s[i] == ','
}

/// The encoded payload of an input: everything after the first comma when
/// there is one (the part before it is taken for a data-URL header and
/// discarded), the whole input otherwise.
pub open spec fn payload_of(s: Seq<char>) -> Seq<char>
    decreases s.len(),
{
    if !has_comma(s) {
        s
    } else if s[0] == ',' {
        s.drop_first()
    } else {
        payload_of(s.drop_first())
    }
}

/// When the first comma of the input stands at `i`, the payload is exactly
/// what follows it: decoding such an input is decoding that substring.
pub proof fn lemma_payload_after_first_comma(s: Seq<char>, i: int)
    requires
        0 <= i < s.len(),
        s[i] == ',',
        forall|j: int| 0 <= j < i ==> s[j] != ',',
    ensures
        payload_of(s) == s.subrange(i + 1, s.len() as int),
    decreases i,
{
    assert(has_comma(s));
    if i == 0 {
        assert(s.drop_first() =~= s.subrange(1, s.len() as int));
    } else {
        let t = s.drop_first();
        assert(t[i - 1] == ',');
        assert forall|j: int| 0 <= j < i - 1 implies t[j] != ',' by {
            assert(s[j + 1] != ',');
        }
        lemma_payload_after_first_comma(t, i - 1);
        assert(t.subrange(i, t.len() as int) =~= s.subrange(i + 1, s.len() as int));
    }
}

/// An input without a comma is its own payload: it is decoded whole.
pub proof fn lemma_payload_no_comma(s: Seq<char>)
    requires
        forall|j: int| 0 <= j < s.len() ==> s[j] != ',',
    ensures
        payload_of(s) == s,
{
    assert(!has_comma(s));
}

/// What the standard base64 alphabet (with padding) decodes a string to:
/// bytes for a well-formed encoding, nothing for a malformed one.
pub uninterp spec fn b64_decode_of(s: Seq<char>) -> Option<Seq<u8>>;

/// What the standard base64 alphabet (with padding) encodes bytes to.
pub uninterp spec fn b64_encode_of(b: Seq<u8>) -> Seq<char>;

/// Relies on the base64 crate's `Engine::decode` with the `STANDARD` engine:
/// the result depends on the characters of the input alone; well-formed
/// input decodes to bytes and malformed input is rejected.
#[verifier::external_body]
fn b64_standard_decode(s: &str) -> (r: Option<Vec<u8>>)
    ensures
        r is Some <==> b64_decode_of(s@) is Some,
        (r matches Some(v) ==> Some(v@) == b64_decode_of(s@)),
{
    base64::Engine::decode(&base64::engine::general_purpose::STANDARD, s).ok()
}

/// Relies on the base64 crate's `Engine::encode` with the `STANDARD` engine:
/// the result depends on the input bytes alone; decoding it with the same
/// engine returns those bytes, as the crate's round-trip tests show; and it
/// is made of the standard alphabet and `=` padding only, so it holds no
/// comma. The bound keeps the encoded length within `usize`, where `encode`
/// panics.
#[verifier::external_body]
fn b64_standard_encode(b: &[u8]) -> (r: String)
    requires
        4 * ((b@.len() + 2) / 3) <= usize::MAX,
    ensures
        r@ == b64_encode_of(b@),
        b64_decode_of(r@) == Some(b@),
        !has_comma(r@),
{
    base64::Engine::encode(&base64::engine::general_purpose::STANDARD, b)
}

/// The payload of the input: what follows its first comma, or all of it
/// when it has none.
pub fn strip_data_url_prefix(input: &str) -> (r: &str)
    ensures
        r@ == payload_of(input@),
{
    let len = input.unicode_len();
    let mut i: usize = 0;
    while i < len
        invariant
            len == input@.len(),
            0 <= i <= len,
            forall|j: int| 0 <= j < i ==> input@[j] != ',',
        decreases len - i,
    {
        if input.get_char(i) == ',' {
            let r = input.substring_char(i + 1, len);
            proof {
                lemma_payload_after_first_comma(input@, i as int);
            }
            return r;
        }
        i = i + 1;
    }
    proof {
        lemma_payload_no_comma(input@);
    }
    input
}

/// Decodes an encoded image payload, discarding an optional data-URL header
/// that ends at the input's first comma. Succeeds exactly when the payload
/// is well-formed standard base64, and fails with `DecodeError` otherwise.
pub fn base64_decode(input: &str) -> (r: Result<Vec<u8>, IconError>)
    ensures
        (r matches Ok(v) ==> b64_decode_of(payload_of(input@)) == Some(v@)),
        (r matches Err(e) ==> e == IconError::DecodeError && b64_decode_of(payload_of(input@))
            is None),
{
    let payload = strip_data_url_prefix(input);
    match b64_standard_decode(payload) {
        Some(v) => Ok(v),
        None => Err(IconError::DecodeError),
    }
}

/// Encodes bytes as standard base64. Decoding the result with
/// `base64_decode` returns exactly the input bytes: the two functions
/// round-trip.
pub fn base64_encode(bytes: &Vec<u8>) -> (r: String)
    requires
        4 * ((bytes@.len() + 2) / 3) <= usize::MAX,
    ensures
        r@ == b64_encode_of(bytes@),
        b64_decode_of(r@) == Some(bytes@),
        b64_decode_of(payload_of(r@)) == Some(bytes@),
{
    let r = b64_standard_encode(bytes.as_slice());
    proof {
        lemma_payload_no_comma(r@);
    }
    r
}

} // verus!
