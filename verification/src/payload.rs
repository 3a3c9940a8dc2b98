use vstd::prelude::*;
use base64::Engine;

verus! {

/// The character of the standard base64 alphabet (RFC 4648, section 4)
/// for a six-bit value.
pub open spec fn base64_digit(v: u8) -> char {
    if v < 26 {
        (65 + v) as char
    } else if v < 52 {
        (97 + (v - 26)) as char
    } else if v < 62 {
        (48 + (v - 52)) as char
    } else if v == 62 {
        '+'
    } else {
        '/'
    }
}

/// Standard base64 with padding (RFC 4648, section 4): each group of three
/// bytes becomes four characters; a final group of one or two bytes is
/// filled with zero bits and padded with `=` to four characters.
pub open spec fn base64_encode(data: Seq<u8>) -> Seq<char>
    decreases data.len(),
{
    if data.len() == 0 {
        Seq::empty()
    } else if data.len() == 1 {
        seq![base64_digit(data[0] >> 2), base64_digit((data[0] & 3) << 4), '=', '=']
    } else if data.len() == 2 {
        seq![
            base64_digit(data[0] >> 2),
            base64_digit(((data[0] & 3) << 4) | (data[1] >> 4)),
            base64_digit((data[1] & 15) << 2),
            '=',
        ]
    } else {
        seq![
            base64_digit(data[0] >> 2),
            base64_digit(((data[0] & 3) << 4) | (data[1] >> 4)),
            base64_digit(((data[1] & 15) << 2) | (data[2] >> 6)),
            base64_digit(data[2] & 63),
        ] + base64_encode(data.skip(3))
    }
}

/// The base64 text of `n` bytes has four characters per started group of three.
pub proof fn lemma_base64_len(data: Seq<u8>)
    ensures
        base64_encode(data).len() == (data.len() + 2) / 3 * 4,
    decreases data.len(),
{
    if data.len() >= 3 {
        lemma_base64_len(data.skip(3));
    }
}

/// `base64::engine::general_purpose::STANDARD.encode`: the crate documents
/// this engine as the standard alphabet with padding, which is
/// [`base64_encode`]. It panics only where the length of the text overflows
/// `usize`, which the bound on `data` rules out.
#[verifier::external_body]
pub(crate) fn encode_standard(data: &[u8]) -> (text: String)
    requires
        data@.len() <= usize::MAX / 2,
    ensures
        text@ == base64_encode(data@),
{
    base64::engine::general_purpose::STANDARD.encode(data)
}

} // verus!
