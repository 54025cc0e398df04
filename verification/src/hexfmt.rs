//! Upper-case hexadecimal numerals, as `format!("{:X}")` and
//! `format!("{:02X}")` write them.

use vstd::prelude::*;

verus! {

/// The upper-case hexadecimal digit of value `d` (for `0 <= d < 16`).
pub open spec fn hex_digit(d: int) -> char {
    seq!['0', '1', '2', '3', '4', '5', '6', '7', '8', '9', 'A', 'B', 'C', 'D', 'E', 'F'][d]
}

/// The upper-case hexadecimal numeral of `n`, without leading zeros.
pub open spec fn hex_upper(n: nat) -> Seq<char>
    decreases n,
{
    if n < 16 {
        seq![hex_digit(n as int)]
    } else {
        hex_upper(n / 16) + seq![hex_digit((n % 16) as int)]
    }
}

/// The numeral of `n` left-padded with `'0'` to at least two characters:
/// what `{:02X}` writes.
pub open spec fn hex_upper_pad2(n: nat) -> Seq<char> {
    if n < 16 {
        seq!['0'] + hex_upper(n)
    } else {
        hex_upper(n)
    }
}

/// A byte always takes exactly two digits.
pub proof fn lemma_byte_pad2_len(n: nat)
    requires
        n < 256,
    ensures
        hex_upper_pad2(n).len() == 2,
{
    reveal_with_fuel(hex_upper, 2);
    if n >= 16 {
        assert(n / 16 < 16);
    }
}

/// Whether `c` is an upper-case hexadecimal digit: `0`-`9` or `A`-`F`.
pub open spec fn is_hex_char(c: char) -> bool {
    (48 <= c as int <= 57) || (65 <= c as int <= 70)
}

/// The value of an upper-case hexadecimal digit, read by its character code.
pub open spec fn hex_char_value(c: char) -> int {
    if c as int <= 57 {
        c as int - 48
    } else {
        c as int - 55
    }
}

/// The value of a text of hexadecimal digits, read in base 16.
pub open spec fn hex_text_value(s: Seq<char>) -> int
    decreases s.len(),
{
    if s.len() == 0 {
        0
    } else {
        hex_text_value(s.drop_last()) * 16 + hex_char_value(s.last())
    }
}

/// Law: the digits are the standard ones: the digit of `d` has character
/// code `48 + d` (`0`-`9`) below ten and `55 + d` (`A`-`F`) from ten on.
pub proof fn lemma_hex_digit_codes(d: int)
    requires
        0 <= d < 16,
    ensures
        hex_digit(d) as int == (if d < 10 {
            48 + d
        } else {
            55 + d
        }),
        is_hex_char(hex_digit(d)),
        hex_char_value(hex_digit(d)) == d,
{
}

/// Law: the numeral of `n` is made of hexadecimal digits, has no leading
/// zero, and reads back in base 16 as `n`.
pub proof fn lemma_hex_upper_reads_back(n: nat)
    ensures
        hex_upper(n).len() >= 1,
        forall|i: int| 0 <= i < hex_upper(n).len() ==> is_hex_char(#[trigger] hex_upper(n)[i]),
        hex_text_value(hex_upper(n)) == n,
        n >= 16 ==> hex_upper(n)[0] != '0',
    decreases n,
{
    lemma_hex_digit_codes((n % 16) as int);
    if n < 16 {
        assert(hex_upper(n).drop_last() =~= Seq::<char>::empty());
        assert(hex_upper(n).last() == hex_digit(n as int));
        assert(hex_text_value(hex_upper(n)) == hex_text_value(hex_upper(n).drop_last()) * 16
            + hex_char_value(hex_upper(n).last()));
    } else {
        lemma_hex_upper_reads_back(n / 16);
        let t = hex_upper(n);
        assert(t.drop_last() =~= hex_upper(n / 16));
        assert(t.last() == hex_digit((n % 16) as int));
        assert(hex_text_value(t) == hex_text_value(t.drop_last()) * 16 + hex_char_value(t.last()));
        assert((n / 16) * 16 + n % 16 == n);
        assert forall|i: int| 0 <= i < t.len() implies is_hex_char(#[trigger] t[i]) by {
            if i < t.len() - 1 {
                assert(t[i] == hex_upper(n / 16)[i]);
            }
        }
        if n / 16 < 16 {
            lemma_hex_digit_codes((n / 16) as int);
        }
        assert(t[0] == hex_upper(n / 16)[0]);
    }
}

/// Law: `{:02X}` of `n` is made of hexadecimal digits, at least two of
/// them, and reads back in base 16 as `n`; a byte takes exactly two.
pub proof fn lemma_hex_pad2_reads_back(n: nat)
    ensures
        hex_upper_pad2(n).len() >= 2,
        n < 256 ==> hex_upper_pad2(n).len() == 2,
        forall|i: int|
            0 <= i < hex_upper_pad2(n).len() ==> is_hex_char(#[trigger] hex_upper_pad2(n)[i]),
        hex_text_value(hex_upper_pad2(n)) == n,
{
    lemma_hex_upper_reads_back(n);
    let t = hex_upper_pad2(n);
    if n < 16 {
        assert(t.drop_last() =~= seq!['0']);
        assert(seq!['0'].drop_last() =~= Seq::<char>::empty());
        assert(t[1] == hex_upper(n)[0]);
        assert(t.last() == hex_upper(n)[0]);
        assert(hex_upper(n).drop_last() =~= Seq::<char>::empty());
        assert(hex_text_value(seq!['0']) == hex_text_value(seq!['0'].drop_last()) * 16
            + hex_char_value('0'));
        assert(hex_text_value(t) == hex_text_value(t.drop_last()) * 16 + hex_char_value(t.last()));
        assert(hex_text_value(hex_upper(n)) == hex_text_value(hex_upper(n).drop_last()) * 16
            + hex_char_value(hex_upper(n).last()));
        assert forall|i: int| 0 <= i < t.len() implies is_hex_char(#[trigger] t[i]) by {
            if i == 1 {
                assert(t[1] == hex_upper(n)[0]);
            }
        }
    } else {
        lemma_hex_upper_reads_back(n / 16);
        lemma_hex_upper_reads_back(n / 16 / 16);
        assert(hex_upper(n).len() >= 2) by {
            assert(hex_upper(n).len() == hex_upper(n / 16).len() + 1);
        }
    }
    if n < 256 {
        lemma_byte_pad2_len(n);
    }
}

/// A one-character text holding the hexadecimal digit of `d`.
fn digit_text(d: u32) -> (text: &'static str)
    requires
        d < 16,
    ensures
        text@ == seq![hex_digit(d as int)],
{
    if d == 0 {
        proof { reveal_strlit("0"); }
        "0"
    } else if d == 1 {
        proof { reveal_strlit("1"); }
        "1"
    } else if d == 2 {
        proof { reveal_strlit("2"); }
        "2"
    } else if d == 3 {
        proof { reveal_strlit("3"); }
        "3"
    } else if d == 4 {
        proof { reveal_strlit("4"); }
        "4"
    } else if d == 5 {
        proof { reveal_strlit("5"); }
        "5"
    } else if d == 6 {
        proof { reveal_strlit("6"); }
        "6"
    } else if d == 7 {
        proof { reveal_strlit("7"); }
        "7"
    } else if d == 8 {
        proof { reveal_strlit("8"); }
        "8"
    } else if d == 9 {
        proof { reveal_strlit("9"); }
        "9"
    } else if d == 10 {
        proof { reveal_strlit("A"); }
        "A"
    } else if d == 11 {
        proof { reveal_strlit("B"); }
        "B"
    } else if d == 12 {
        proof { reveal_strlit("C"); }
        "C"
    } else if d == 13 {
        proof { reveal_strlit("D"); }
        "D"
    } else if d == 14 {
        proof { reveal_strlit("E"); }
        "E"
    } else {
        proof { reveal_strlit("F"); }
        "F"
    }
}

/// Appends the hexadecimal numeral of `n` to `out`.
fn append_hex(out: &mut String, n: u32)
    ensures
        final(out)@ == old(out)@ + hex_upper(n as nat),
    decreases n,
{
    if n >= 16 {
        append_hex(out, n / 16);
    }
    let d = digit_text(n % 16);
    out.append(d);
}

/// Formats `n` as `format!("{:02X}", n)` does.
pub fn hex_pad2(n: u32) -> (text: String)
    ensures
        text@ == hex_upper_pad2(n as nat),
        hex_text_value(text@) == n,
        text@.len() >= 2,
        n < 256 ==> text@.len() == 2,
        forall|i: int| 0 <= i < text@.len() ==> is_hex_char(#[trigger] text@[i]),
{
    proof {
        lemma_hex_pad2_reads_back(n as nat);
    }
    let mut text = String::new();
    if n < 16 {
        proof { reveal_strlit("0"); }
        text.append("0");
    }
    append_hex(&mut text, n);
    text
}

} // verus!
