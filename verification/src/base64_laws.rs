//! Standard base64 loses nothing: distinct byte strings have distinct texts.

use crate::hashing::{base64_digit, base64_standard};
use vstd::prelude::*;

verus! {

/// Distinct 6-bit values have distinct digits, and no digit is `=`.
proof fn lemma_digit_injective(v: int, w: int)
    requires
        0 <= v < 64,
        0 <= w < 64,
    ensures
        base64_digit(v) != '=',
        base64_digit(v) == base64_digit(w) ==> v == w,
{
}

/// The length of the text: four digits per started group of three bytes.
pub proof fn lemma_base64_len(data: Seq<u8>)
    ensures
        base64_standard(data).len() == 4 * ((data.len() + 2) / 3),
    decreases data.len(),
{
    if data.len() >= 3 {
        lemma_base64_len(data.skip(3));
    }
}

/// Law: standard base64 is injective.
pub proof fn lemma_base64_injective(a: Seq<u8>, b: Seq<u8>)
    requires
        base64_standard(a) == base64_standard(b),
    ensures
        a == b,
    decreases a.len(),
{
    lemma_base64_len(a);
    lemma_base64_len(b);
    let ta = base64_standard(a);
    let tb = base64_standard(b);
    if a.len() == 0 || b.len() == 0 {
        assert(a.len() == 0 && b.len() == 0);
        assert(a =~= b);
    } else {
        assert(ta[0] == tb[0] && ta[1] == tb[1] && ta[2] == tb[2] && ta[3] == tb[3]);
        let a0 = a[0] as int;
        let b0 = b[0] as int;
        lemma_digit_injective(a0 / 4, b0 / 4);
        if a.len() == 1 || b.len() == 1 {
            assert(a.len() == 1 && b.len() == 1) by {
                if a.len() == 1 && b.len() >= 2 {
                    if b.len() == 2 {
                        lemma_digit_injective((b[1] as int % 16) * 4, 0);
                    } else if b.len() == 3 {
                        lemma_digit_injective((b[1] as int % 16) * 4 + b[2] as int / 64, 0);
                    }
                }
                if b.len() == 1 && a.len() >= 2 {
                    if a.len() == 2 {
                        lemma_digit_injective((a[1] as int % 16) * 4, 0);
                    } else if a.len() == 3 {
                        lemma_digit_injective((a[1] as int % 16) * 4 + a[2] as int / 64, 0);
                    }
                }
            }
            lemma_digit_injective((a0 % 4) * 16, (b0 % 4) * 16);
            assert(a0 == b0);
            assert(a =~= b);
        } else {
            let a1 = a[1] as int;
            let b1 = b[1] as int;
            lemma_digit_injective((a0 % 4) * 16 + a1 / 16, (b0 % 4) * 16 + b1 / 16);
            assert(a0 == b0);
            assert(a1 == b1);
            if a.len() == 2 || b.len() == 2 {
                assert(a.len() == 2 && b.len() == 2) by {
                    if a.len() == 2 && b.len() >= 3 {
                        if b.len() == 3 {
                            lemma_digit_injective(b[2] as int % 64, 0);
                        }
                    }
                    if b.len() == 2 && a.len() >= 3 {
                        if a.len() == 3 {
                            lemma_digit_injective(a[2] as int % 64, 0);
                        }
                    }
                }
                assert(a =~= b);
            } else {
                let a2 = a[2] as int;
                let b2 = b[2] as int;
                lemma_digit_injective((a1 % 16) * 4 + a2 / 64, (b1 % 16) * 4 + b2 / 64);
                lemma_digit_injective(a2 % 64, b2 % 64);
                assert(a2 == b2);
                assert(base64_standard(a.skip(3)) =~= ta.skip(4));
                assert(base64_standard(b.skip(3)) =~= tb.skip(4));
                lemma_base64_injective(a.skip(3), b.skip(3));
                assert(a =~= seq![a[0], a[1], a[2]] + a.skip(3));
                assert(b =~= seq![b[0], b[1], b[2]] + b.skip(3));
            }
        }
    }
}

} // verus!
