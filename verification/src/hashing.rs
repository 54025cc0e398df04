//! The two outside computations the index relies on: MD5 (crate `md-5`),
//! which is named and not restated, and standard base64 (crate `base64`),
//! which is stated as RFC 4648 defines it.

use base64::Engine;
use md5::Digest;
use vstd::prelude::*;

verus! {

/// The 16-byte MD5 digest of `data`, as `md5::Md5` computes it.
pub uninterp spec fn md5_of(data: Seq<u8>) -> Seq<u8>;

/// The base64 digit of a 6-bit value: `A`-`Z`, `a`-`z`, `0`-`9`, `+`, `/`.
pub open spec fn base64_digit(v: int) -> char {
    if v < 26 {
        (65 + v) as char
    } else if v < 52 {
        (71 + v) as char
    } else if v < 62 {
        (v - 4) as char
    } else if v == 62 {
        '+'
    } else {
        '/'
    }
}

/// Standard base64 with padding (RFC 4648, section 4): every three bytes
/// become four digits of six bits each; a last group of one or two bytes
/// becomes two or three digits, padded with `=` to four.
pub open spec fn base64_standard(data: Seq<u8>) -> Seq<char>
    decreases data.len(),
{
    if data.len() == 0 {
        seq![]
    } else {
        let b0 = data[0] as int;
        if data.len() == 1 {
            seq![base64_digit(b0 / 4), base64_digit((b0 % 4) * 16), '=', '=']
        } else {
            let b1 = data[1] as int;
            if data.len() == 2 {
                seq![
                    base64_digit(b0 / 4),
                    base64_digit((b0 % 4) * 16 + b1 / 16),
                    base64_digit((b1 % 16) * 4),
                    '=',
                ]
            } else {
                let b2 = data[2] as int;
                seq![
                    base64_digit(b0 / 4),
                    base64_digit((b0 % 4) * 16 + b1 / 16),
                    base64_digit((b1 % 16) * 4 + b2 / 64),
                    base64_digit(b2 % 64),
                ] + base64_standard(data.skip(3))
            }
        }
    }
}

/// Calls `<md5::Md5 as Digest>::digest` on `data`.
/// Trusted: the returned bytes are the digest named `md5_of(data)`.
#[verifier::external_body]
pub(crate) fn md5_digest(data: &[u8]) -> (hash: [u8; 16])
    ensures
        hash@ == md5_of(data@),
{
    md5::Md5::digest(data).into()
}

/// Calls `Engine::encode` of `base64::engine::general_purpose::STANDARD`
/// (standard alphabet, `=` padding) on `data`.
/// Trusted: the returned text is the standard base64 of `data`, as
/// `base64_standard` states it.
#[verifier::external_body]
pub(crate) fn base64_encode(data: &[u8]) -> (text: String)
    ensures
        text@ == base64_standard(data@),
{
    base64::engine::general_purpose::STANDARD.encode(data)
}

} // verus!
