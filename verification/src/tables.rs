//! The fixed Hack vocabularies — dest, jump and comp mnemonics and their bit
//! patterns — together with 16-bit binary formatting and address numerals.
use vstd::prelude::*;
use crate::bytes::{all_digits, is_digit, is_numeric_symbol, numeral_value};
use crate::bytes::lemma_numeral_value_prefix;

verus! {

/// The three dest bits, `None` when the mnemonic is not in the table.
pub open spec fn dest_code(s: Seq<u8>) -> Option<u16> {
    if s == seq!['M' as u8] {
        Option::Some(0b001)
    } else if s == seq!['D' as u8] {
        Option::Some(0b010)
    } else if s == seq!['M' as u8, 'D' as u8] {
        Option::Some(0b011)
    } else if s == seq!['A' as u8] {
        Option::Some(0b100)
    } else if s == seq!['A' as u8, 'M' as u8] {
        Option::Some(0b101)
    } else if s == seq!['A' as u8, 'D' as u8] {
        Option::Some(0b110)
    } else if s == seq!['A' as u8, 'M' as u8, 'D' as u8] {
        Option::Some(0b111)
    } else {
        Option::None
    }
}

/// The three jump bits, `None` when the mnemonic is not in the table.
pub open spec fn jump_code(s: Seq<u8>) -> Option<u16> {
    if s == seq!['J' as u8, 'G' as u8, 'T' as u8] {
        Option::Some(0b001)
    } else if s == seq!['J' as u8, 'E' as u8, 'Q' as u8] {
        Option::Some(0b010)
    } else if s == seq!['J' as u8, 'G' as u8, 'E' as u8] {
        Option::Some(0b011)
    } else if s == seq!['J' as u8, 'L' as u8, 'T' as u8] {
        Option::Some(0b100)
    } else if s == seq!['J' as u8, 'N' as u8, 'E' as u8] {
        Option::Some(0b101)
    } else if s == seq!['J' as u8, 'L' as u8, 'E' as u8] {
        Option::Some(0b110)
    } else if s == seq!['J' as u8, 'M' as u8, 'P' as u8] {
        Option::Some(0b111)
    } else {
        Option::None
    }
}

/// The seven comp bits (`a c1 c2 c3 c4 c5 c6`), `None` when the mnemonic is
/// not in the table.
pub open spec fn comp_code(s: Seq<u8>) -> Option<u16> {
    if s == seq!['0' as u8] {
        Option::Some(0b0101010)
    } else if s == seq!['1' as u8] {
        Option::Some(0b0111111)
    } else if s == seq!['-' as u8, '1' as u8] {
        Option::Some(0b0111010)
    } else if s == seq!['D' as u8] {
        Option::Some(0b0001100)
    } else if s == seq!['A' as u8] {
        Option::Some(0b0110000)
    } else if s == seq!['!' as u8, 'D' as u8] {
        Option::Some(0b0001101)
    } else if s == seq!['!' as u8, 'A' as u8] {
        Option::Some(0b0110001)
    } else if s == seq!['-' as u8, 'D' as u8] {
        Option::Some(0b0001111)
    } else if s == seq!['-' as u8, 'A' as u8] {
        Option::Some(0b0110011)
    } else if s == seq!['D' as u8, '+' as u8, '1' as u8] {
        Option::Some(0b0011111)
    } else if s == seq!['A' as u8, '+' as u8, '1' as u8] {
        Option::Some(0b0110111)
    } else if s == seq!['D' as u8, '-' as u8, '1' as u8] {
        Option::Some(0b0001110)
    } else if s == seq!['A' as u8, '-' as u8, '1' as u8] {
        Option::Some(0b0110010)
    } else if s == seq!['D' as u8, '+' as u8, 'A' as u8] {
        Option::Some(0b0000010)
    } else if s == seq!['D' as u8, '-' as u8, 'A' as u8] {
        Option::Some(0b0010011)
    } else if s == seq!['A' as u8, '-' as u8, 'D' as u8] {
        Option::Some(0b0000111)
    } else if s == seq!['D' as u8, '&' as u8, 'A' as u8] {
        Option::Some(0b0000000)
    } else if s == seq!['D' as u8, '|' as u8, 'A' as u8] {
        Option::Some(0b0010101)
    } else if s == seq!['M' as u8] {
        Option::Some(0b1110000)
    } else if s == seq!['!' as u8, 'M' as u8] {
        Option::Some(0b1110001)
    } else if s == seq!['-' as u8, 'M' as u8] {
        Option::Some(0b1110011)
    } else if s == seq!['M' as u8, '+' as u8, '1' as u8] {
        Option::Some(0b1110111)
    } else if s == seq!['M' as u8, '-' as u8, '1' as u8] {
        Option::Some(0b1110010)
    } else if s == seq!['D' as u8, '+' as u8, 'M' as u8] {
        Option::Some(0b1000010)
    } else if s == seq!['D' as u8, '-' as u8, 'M' as u8] {
        Option::Some(0b1010011)
    } else if s == seq!['M' as u8, '-' as u8, 'D' as u8] {
        Option::Some(0b1000111)
    } else if s == seq!['D' as u8, '&' as u8, 'M' as u8] {
        Option::Some(0b1000000)
    } else if s == seq!['D' as u8, '|' as u8, 'M' as u8] {
        Option::Some(0b1010101)
    } else {
        Option::None
    }
}

fn eq1(v: &Vec<u8>, a: u8) -> (r: bool)
    ensures
        r == (v@ == seq![a]),
{
    if v.len() == 1 {
        let r = v[0] == a;
        proof {
            if r {
                assert(v@ =~= seq![a]);
            } else {
                assert(v@[0] != seq![a][0]);
            }
        }
        r
    } else {
        proof {
            assert(v@.len() != seq![a].len());
        }
        false
    }
}

fn eq2(v: &Vec<u8>, a: u8, b: u8) -> (r: bool)
    ensures
        r == (v@ == seq![a, b]),
{
    if v.len() == 2 {
        let r = v[0] == a && v[1] == b;
        proof {
            if r {
                assert(v@ =~= seq![a, b]);
            } else {
                assert(v@[0] != seq![a, b][0] || v@[1] != seq![a, b][1]);
            }
        }
        r
    } else {
        proof {
            assert(v@.len() != seq![a, b].len());
        }
        false
    }
}

fn eq3(v: &Vec<u8>, a: u8, b: u8, c: u8) -> (r: bool)
    ensures
        r == (v@ == seq![a, b, c]),
{
    if v.len() == 3 {
        let r = v[0] == a && v[1] == b && v[2] == c;
        proof {
            if r {
                assert(v@ =~= seq![a, b, c]);
            } else {
                assert(v@[0] != seq![a, b, c][0] || v@[1] != seq![a, b, c][1] || v@[2] != seq![
                    a,
                    b,
                    c,
                ][2]);
            }
        }
        r
    } else {
        proof {
            assert(v@.len() != seq![a, b, c].len());
        }
        false
    }
}

/// The dest table of the encoder.
pub fn parse_dest(s: &Vec<u8>) -> (r: Option<u16>)
    ensures
        r == dest_code(s@),
{
    if eq1(s, 'M' as u8) {
        Some(0b001)
    } else if eq1(s, 'D' as u8) {
        Some(0b010)
    } else if eq2(s, 'M' as u8, 'D' as u8) {
        Some(0b011)
    } else if eq1(s, 'A' as u8) {
        Some(0b100)
    } else if eq2(s, 'A' as u8, 'M' as u8) {
        Some(0b101)
    } else if eq2(s, 'A' as u8, 'D' as u8) {
        Some(0b110)
    } else if eq3(s, 'A' as u8, 'M' as u8, 'D' as u8) {
        Some(0b111)
    } else {
        None
    }
}

/// The jump table of the encoder.
pub fn parse_jump(s: &Vec<u8>) -> (r: Option<u16>)
    ensures
        r == jump_code(s@),
{
    if eq3(s, 'J' as u8, 'G' as u8, 'T' as u8) {
        Some(0b001)
    } else if eq3(s, 'J' as u8, 'E' as u8, 'Q' as u8) {
        Some(0b010)
    } else if eq3(s, 'J' as u8, 'G' as u8, 'E' as u8) {
        Some(0b011)
    } else if eq3(s, 'J' as u8, 'L' as u8, 'T' as u8) {
        Some(0b100)
    } else if eq3(s, 'J' as u8, 'N' as u8, 'E' as u8) {
        Some(0b101)
    } else if eq3(s, 'J' as u8, 'L' as u8, 'E' as u8) {
        Some(0b110)
    } else if eq3(s, 'J' as u8, 'M' as u8, 'P' as u8) {
        Some(0b111)
    } else {
        None
    }
}

/// The comp table of the encoder.
pub fn parse_comp(s: &Vec<u8>) -> (r: Option<u16>)
    ensures
        r == comp_code(s@),
{
    if eq1(s, '0' as u8) {
        Some(0b0101010)
    } else if eq1(s, '1' as u8) {
        Some(0b0111111)
    } else if eq2(s, '-' as u8, '1' as u8) {
        Some(0b0111010)
    } else if eq1(s, 'D' as u8) {
        Some(0b0001100)
    } else if eq1(s, 'A' as u8) {
        Some(0b0110000)
    } else if eq2(s, '!' as u8, 'D' as u8) {
        Some(0b0001101)
    } else if eq2(s, '!' as u8, 'A' as u8) {
        Some(0b0110001)
    } else if eq2(s, '-' as u8, 'D' as u8) {
        Some(0b0001111)
    } else if eq2(s, '-' as u8, 'A' as u8) {
        Some(0b0110011)
    } else if eq3(s, 'D' as u8, '+' as u8, '1' as u8) {
        Some(0b0011111)
    } else if eq3(s, 'A' as u8, '+' as u8, '1' as u8) {
        Some(0b0110111)
    } else if eq3(s, 'D' as u8, '-' as u8, '1' as u8) {
        Some(0b0001110)
    } else if eq3(s, 'A' as u8, '-' as u8, '1' as u8) {
        Some(0b0110010)
    } else if eq3(s, 'D' as u8, '+' as u8, 'A' as u8) {
        Some(0b0000010)
    } else if eq3(s, 'D' as u8, '-' as u8, 'A' as u8) {
        Some(0b0010011)
    } else if eq3(s, 'A' as u8, '-' as u8, 'D' as u8) {
        Some(0b0000111)
    } else if eq3(s, 'D' as u8, '&' as u8, 'A' as u8) {
        Some(0b0000000)
    } else if eq3(s, 'D' as u8, '|' as u8, 'A' as u8) {
        Some(0b0010101)
    } else if eq1(s, 'M' as u8) {
        Some(0b1110000)
    } else if eq2(s, '!' as u8, 'M' as u8) {
        Some(0b1110001)
    } else if eq2(s, '-' as u8, 'M' as u8) {
        Some(0b1110011)
    } else if eq3(s, 'M' as u8, '+' as u8, '1' as u8) {
        Some(0b1110111)
    } else if eq3(s, 'M' as u8, '-' as u8, '1' as u8) {
        Some(0b1110010)
    } else if eq3(s, 'D' as u8, '+' as u8, 'M' as u8) {
        Some(0b1000010)
    } else if eq3(s, 'D' as u8, '-' as u8, 'M' as u8) {
        Some(0b1010011)
    } else if eq3(s, 'M' as u8, '-' as u8, 'D' as u8) {
        Some(0b1000111)
    } else if eq3(s, 'D' as u8, '&' as u8, 'M' as u8) {
        Some(0b1000000)
    } else if eq3(s, 'D' as u8, '|' as u8, 'M' as u8) {
        Some(0b1010101)
    } else {
        None
    }
}

/// The character for bit `i` (counted from the most significant) of `w`.
pub open spec fn bit_ch(w: u16, i: int) -> u8 {
    if (w >> ((15 - i) as u16)) & 1u16 == 1u16 {
        '1' as u8
    } else {
        '0' as u8
    }
}

/// The sixteen binary-digit characters of `w`, most significant first.
pub open spec fn bits16(w: u16) -> Seq<u8> {
    Seq::new(16, |i: int| bit_ch(w, i))
}

/// A word formatted as a 16-character binary string with leading zeros.
pub fn to_binary16(w: u16) -> (r: Vec<u8>)
    ensures
        r@ == bits16(w),
{
    let mut r: Vec<u8> = Vec::new();
    let mut i: usize = 0;
    while i < 16
        invariant
            0 <= i <= 16,
            r@.len() == i,
            forall|j: int| 0 <= j < i ==> r@[j] == bit_ch(w, j),
        decreases 16 - i,
    {
        let sh: u16 = (15 - i) as u16;
        let b: u16 = (w >> sh) & 1;
        if b == 1 {
            r.push('1' as u8);
        } else {
            r.push('0' as u8);
        }
        i += 1;
    }
    proof {
        assert(r@ =~= bits16(w));
    }
    r
}

/// Reads a symbol as a decimal address if it is a non-empty string of digits
/// whose value is at most 32767, the way the encoder treats numeric
/// A-command symbols.
pub fn parse_address_numeral(s: &Vec<u8>) -> (r: Option<u16>)
    ensures
        r == if is_numeric_symbol(s@) {
            Option::Some(numeral_value(s@) as u16)
        } else {
            Option::<u16>::None
        },
{
    if s.len() == 0 {
        return None;
    }
    let mut acc: u32 = 0;
    let mut i: usize = 0;
    while i < s.len()
        invariant
            0 <= i <= s.len(),
            s.len() > 0,
            all_digits(s@.take(i as int)),
            acc == numeral_value(s@.take(i as int)),
            acc <= 32767,
        decreases s.len() - i,
    {
        let b = s[i];
        if b < ('0' as u8) || b > ('9' as u8) {
            proof {
                assert(!is_digit(s@[i as int]));
            }
            return None;
        }
        let d = (b - ('0' as u8)) as u32;
        acc = acc * 10 + d;
        proof {
            assert(s@.take(i + 1).drop_last() =~= s@.take(i as int));
            assert(s@.take(i + 1).last() == s@[i as int]);
        }
        i += 1;
        if acc > 32767 {
            proof {
                if all_digits(s@) {
                    lemma_numeral_value_prefix(s@, i as int);
                }
                assert(!is_numeric_symbol(s@));
            }
            return None;
        }
    }
    proof {
        assert(s@.take(i as int) =~= s@);
    }
    Some(acc as u16)
}

} // verus!
