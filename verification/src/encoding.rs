//! The base64 text that the front end receives for a PDF file.
use base64::Engine;
use vstd::prelude::*;

verus! {

/// The character of the standard base64 alphabet (RFC 4648) for a six-bit value.
pub open spec fn base64_digit(v: int) -> char {
    if v < 26 {
        (65 + v) as char
    } else if v < 52 {
        (97 + (v - 26)) as char
    } else if v < 62 {
        (48 + (v - 52)) as char
    } else if v == 62 {
        '+'
    } else {
        '/'
    }
}

/// The standard base64 encoding (RFC 4648 alphabet, with `=` padding) of the
/// bytes: each three bytes become four characters of six bits each; a last one
/// or two bytes become two or three characters and `=` padding.
pub open spec fn base64_standard(bytes: Seq<u8>) -> Seq<char>
    decreases bytes.len(),
{
    if bytes.len() == 0 {
        Seq::empty()
    } else if bytes.len() == 1 {
        let b0 = bytes[0] as int;
        seq![base64_digit(b0 / 4), base64_digit((b0 % 4) * 16), '=', '=']
    } else if bytes.len() == 2 {
        let b0 = bytes[0] as int;
        let b1 = bytes[1] as int;
        seq![base64_digit(b0 / 4), base64_digit((b0 % 4) * 16 + b1 / 16), base64_digit((b1 % 16) * 4), '=']
    } else {
        let b0 = bytes[0] as int;
        let b1 = bytes[1] as int;
        let b2 = bytes[2] as int;
        seq![
            base64_digit(b0 / 4),
            base64_digit((b0 % 4) * 16 + b1 / 16),
            base64_digit((b1 % 16) * 4 + b2 / 64),
            base64_digit(b2 % 64),
        ] + base64_standard(bytes.subrange(3, bytes.len() as int))
    }
}

/// A character of the standard base64 alphabet, or the padding `=`.
pub open spec fn is_base64_char(c: char) -> bool {
    ('A' <= c <= 'Z') || ('a' <= c <= 'z') || ('0' <= c <= '9') || c == '+' || c == '/' || c == '='
}

/// The length of the padded encoding: four characters for every three bytes or
/// part of three.
pub open spec fn base64_len(n: nat) -> nat {
    4 * ((n + 2) / 3)
}

proof fn lemma_digit_in_alphabet(v: int)
    requires
        0 <= v < 64,
    ensures
        is_base64_char(base64_digit(v)),
{
}

/// The encoding is four characters for every three bytes or part of three, all of
/// the alphabet or padding.
pub proof fn lemma_base64_shape(bytes: Seq<u8>)
    ensures
        base64_standard(bytes).len() == base64_len(bytes.len()),
        forall|i: int|
            0 <= i < base64_standard(bytes).len() ==> is_base64_char(#[trigger] base64_standard(bytes)[i]),
    decreases bytes.len(),
{
    let e = base64_standard(bytes);
    if bytes.len() == 0 {
    } else if bytes.len() == 1 {
        let b0 = bytes[0] as int;
        lemma_digit_in_alphabet(b0 / 4);
        lemma_digit_in_alphabet((b0 % 4) * 16);
    } else if bytes.len() == 2 {
        let b0 = bytes[0] as int;
        let b1 = bytes[1] as int;
        lemma_digit_in_alphabet(b0 / 4);
        lemma_digit_in_alphabet((b0 % 4) * 16 + b1 / 16);
        lemma_digit_in_alphabet((b1 % 16) * 4);
    } else {
        let b0 = bytes[0] as int;
        let b1 = bytes[1] as int;
        let b2 = bytes[2] as int;
        lemma_digit_in_alphabet(b0 / 4);
        lemma_digit_in_alphabet((b0 % 4) * 16 + b1 / 16);
        lemma_digit_in_alphabet((b1 % 16) * 4 + b2 / 64);
        lemma_digit_in_alphabet(b2 % 64);
        let rest = bytes.subrange(3, bytes.len() as int);
        lemma_base64_shape(rest);
        let head = seq![
            base64_digit(b0 / 4),
            base64_digit((b0 % 4) * 16 + b1 / 16),
            base64_digit((b1 % 16) * 4 + b2 / 64),
            base64_digit(b2 % 64),
        ];
        assert(e == head + base64_standard(rest));
        assert forall|i: int| 0 <= i < e.len() implies is_base64_char(#[trigger] e[i]) by {
            if i >= 4 {
                assert(e[i] == base64_standard(rest)[i - 4]);
            }
        }
    }
}

/// `Engine::encode` with the `STANDARD` engine of the base64 crate: the padded
/// standard encoding of RFC 4648 (`base64_standard`).
#[verifier::external_body]
fn encode_standard(bytes: &[u8]) -> (r: String)
    requires
        base64_len(bytes@.len()) <= usize::MAX,
    ensures
        r@ == base64_standard(bytes@),
{
    base64::engine::general_purpose::STANDARD.encode(bytes)
}

/// Whether the base64 text of `n` bytes has a length that fits in `usize`, as the
/// encoding needs.
pub fn encoded_len_fits(n: usize) -> (r: bool)
    ensures
        r == (base64_len(n as nat) <= usize::MAX),
{
    let chunks: usize = n / 3 + if n % 3 > 0 {
        1
    } else {
        0
    };
    proof {
        assert((n + 2) / 3 == n / 3 + if n % 3 > 0 {
            1int
        } else {
            0int
        });
    }
    chunks.checked_mul(4).is_some()
}

/// The whole PDF file as base64, for the front end's own viewer.
pub fn pdf_bytes_b64(bytes: &[u8]) -> (r: String)
    requires
        base64_len(bytes@.len()) <= usize::MAX,
    ensures
        r@ == base64_standard(bytes@),
        r@.len() == base64_len(bytes@.len()),
        forall|i: int| 0 <= i < r@.len() ==> is_base64_char(#[trigger] r@[i]),
{
    proof {
        lemma_base64_shape(bytes@);
    }
    encode_standard(bytes)
}

} // verus!
