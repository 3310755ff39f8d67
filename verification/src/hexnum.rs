//! Fixed-width hexadecimal and decimal numerals.
//!
//! The registry stores every identifier this tool manipulates as a
//! fixed-width, zero-padded, lowercase hex string (4 digits for a locale
//! id inside a descriptor, 8 digits for keyboard and substitution ids) and
//! every preload ordinal as a decimal string. This module gives those
//! numerals a mathematical model (`hex_val`, `hex_str`, `dec_str`) and
//! verified executable conversions in both directions.

use vstd::prelude::*;
use vstd::string::*;

verus! {

/// A character is a hex digit (either case).
pub open spec fn is_hex_digit(c: char) -> bool {
    ('0' as int <= c as int && c as int <= '9' as int) || ('a' as int <= c as int && c as int
        <= 'f' as int) || ('A' as int <= c as int && c as int <= 'F' as int)
}

/// A character is a lowercase hex digit.
pub open spec fn is_lower_hex_digit(c: char) -> bool {
    ('0' as int <= c as int && c as int <= '9' as int) || ('a' as int <= c as int && c as int
        <= 'f' as int)
}

/// Numeric value of a hex digit character (0 on a non-digit).
pub open spec fn hex_digit_val(c: char) -> nat {
    if '0' as int <= c as int && c as int <= '9' as int {
        (c as int - '0' as int) as nat
    } else if 'a' as int <= c as int && c as int <= 'f' as int {
        (c as int - 'a' as int + 10) as nat
    } else if 'A' as int <= c as int && c as int <= 'F' as int {
        (c as int - 'A' as int + 10) as nat
    } else {
        0
    }
}

/// The lowercase hex digit character for a value below 16.
pub open spec fn lower_hex_digit(v: nat) -> char {
    if v == 0 {
        '0'
    } else if v == 1 {
        '1'
    } else if v == 2 {
        '2'
    } else if v == 3 {
        '3'
    } else if v == 4 {
        '4'
    } else if v == 5 {
        '5'
    } else if v == 6 {
        '6'
    } else if v == 7 {
        '7'
    } else if v == 8 {
        '8'
    } else if v == 9 {
        '9'
    } else if v == 10 {
        'a'
    } else if v == 11 {
        'b'
    } else if v == 12 {
        'c'
    } else if v == 13 {
        'd'
    } else if v == 14 {
        'e'
    } else if v == 15 {
        'f'
    } else {
        '0'
    }
}

pub open spec fn all_hex(s: Seq<char>) -> bool {
    forall|i: int| 0 <= i < s.len() ==> is_hex_digit(#[trigger] s[i])
}

pub open spec fn all_lower_hex(s: Seq<char>) -> bool {
    forall|i: int| 0 <= i < s.len() ==> is_lower_hex_digit(#[trigger] s[i])
}

/// Value of a big-endian string of hex digits.
pub open spec fn hex_val(s: Seq<char>) -> nat
    decreases s.len(),
{
    if s.len() == 0 {
        0
    } else {
        hex_val(s.drop_last()) * 16 + hex_digit_val(s.last())
    }
}

/// The fixed-width lowercase hex numeral of `v` (low `width` digits of `v`).
pub open spec fn hex_str(v: nat, width: nat) -> Seq<char>
    decreases width,
{
    if width == 0 {
        Seq::empty()
    } else {
        hex_str(v / 16, (width - 1) as nat).push(lower_hex_digit(v % 16))
    }
}

pub open spec fn pow16(w: nat) -> nat
    decreases w,
{
    if w == 0 {
        1
    } else {
        16 * pow16((w - 1) as nat)
    }
}

/// The decimal digit character for a value below 10.
pub open spec fn dec_digit(v: nat) -> char {
    if v == 0 {
        '0'
    } else if v == 1 {
        '1'
    } else if v == 2 {
        '2'
    } else if v == 3 {
        '3'
    } else if v == 4 {
        '4'
    } else if v == 5 {
        '5'
    } else if v == 6 {
        '6'
    } else if v == 7 {
        '7'
    } else if v == 8 {
        '8'
    } else {
        '9'
    }
}

/// The decimal numeral of `v`, without leading zeros.
pub open spec fn dec_str(v: nat) -> Seq<char>
    decreases v,
{
    if v < 10 {
        seq![dec_digit(v)]
    } else {
        dec_str(v / 10).push(dec_digit(v % 10))
    }
}

/// A hex numeral of width `w` has exactly `w` digits, all lowercase hex.
pub proof fn lemma_hex_str_wf(v: nat, width: nat)
    ensures
        hex_str(v, width).len() == width,
        all_lower_hex(hex_str(v, width)),
    decreases width,
{
    if width > 0 {
        lemma_hex_str_wf(v / 16, (width - 1) as nat);
    }
}

/// A string of hex digits denotes a value below 16^length.
pub proof fn lemma_hex_val_bound(s: Seq<char>)
    requires
        all_hex(s),
    ensures
        hex_val(s) < pow16(s.len()),
    decreases s.len(),
{
    if s.len() > 0 {
        assert(all_hex(s.drop_last()));
        lemma_hex_val_bound(s.drop_last());
        assert(hex_digit_val(s.last()) < 16);
        assert(hex_val(s.drop_last()) * 16 + 16 <= pow16((s.len() - 1) as nat) * 16) by (nonlinear_arith)
            requires
                hex_val(s.drop_last()) < pow16((s.len() - 1) as nat),
        ;
    }
}

/// Formatting a value below 16^width and reading the numeral back returns the value.
pub proof fn lemma_hex_str_val(v: nat, width: nat)
    requires
        v < pow16(width),
    ensures
        hex_val(hex_str(v, width)) == v,
    decreases width,
{
    if width == 0 {
        assert(v == 0);
    } else {
        assert(v / 16 < pow16((width - 1) as nat)) by (nonlinear_arith)
            requires
                v < 16 * pow16((width - 1) as nat),
        ;
        lemma_hex_str_val(v / 16, (width - 1) as nat);
        lemma_hex_str_wf(v / 16, (width - 1) as nat);
        let s = hex_str(v, width);
        assert(s.drop_last() =~= hex_str(v / 16, (width - 1) as nat));
        assert(hex_digit_val(lower_hex_digit(v % 16)) == v % 16);
        assert(hex_val(s) == (v / 16) * 16 + v % 16);
        assert((v / 16) * 16 + v % 16 == v) by (nonlinear_arith);
    }
}

/// Reading a lowercase hex numeral and formatting the value back at the same
/// width returns the original string.
pub proof fn lemma_hex_str_of_val(s: Seq<char>)
    requires
        all_lower_hex(s),
    ensures
        hex_str(hex_val(s), s.len()) == s,
    decreases s.len(),
{
    if s.len() == 0 {
        assert(hex_str(0, 0) =~= s);
    } else {
        let d = hex_digit_val(s.last());
        let rest = hex_val(s.drop_last());
        assert(all_lower_hex(s.drop_last()));
        lemma_hex_str_of_val(s.drop_last());
        assert(d < 16);
        assert((rest * 16 + d) / 16 == rest && (rest * 16 + d) % 16 == d) by (nonlinear_arith)
            requires
                d < 16,
        ;
        assert(lower_hex_digit(d) == s.last());
        assert(hex_str(hex_val(s), s.len()) =~= s);
    }
}

/// The single-character string for a hex digit value.
fn hex_digit_str(d: u32) -> (r: &'static str)
    requires
        d < 16,
    ensures
        r@ == seq![lower_hex_digit(d as nat)],
{
    proof {
        reveal_strlit("0");
        reveal_strlit("1");
        reveal_strlit("2");
        reveal_strlit("3");
        reveal_strlit("4");
        reveal_strlit("5");
        reveal_strlit("6");
        reveal_strlit("7");
        reveal_strlit("8");
        reveal_strlit("9");
        reveal_strlit("a");
        reveal_strlit("b");
        reveal_strlit("c");
        reveal_strlit("d");
        reveal_strlit("e");
        reveal_strlit("f");
    }
    let r: &'static str = if d == 0 {
        "0"
    } else if d == 1 {
        "1"
    } else if d == 2 {
        "2"
    } else if d == 3 {
        "3"
    } else if d == 4 {
        "4"
    } else if d == 5 {
        "5"
    } else if d == 6 {
        "6"
    } else if d == 7 {
        "7"
    } else if d == 8 {
        "8"
    } else if d == 9 {
        "9"
    } else if d == 10 {
        "a"
    } else if d == 11 {
        "b"
    } else if d == 12 {
        "c"
    } else if d == 13 {
        "d"
    } else if d == 14 {
        "e"
    } else {
        "f"
    };
    proof {
        assert(r@ =~= seq![lower_hex_digit(d as nat)]);
    }
    r
}

/// The fixed-width lowercase hex numeral of `v`.
pub fn hex_string(v: u32, width: usize) -> (r: String)
    ensures
        r@ == hex_str(v as nat, width as nat),
    decreases width,
{
    if width == 0 {
        let r = String::new();
        proof {
            assert(r@ =~= hex_str(v as nat, 0));
        }
        r
    } else {
        let prefix = hex_string(v / 16, width - 1);
        let digit = hex_digit_str(v % 16);
        let r = prefix.concat(digit);
        proof {
            assert(r@ =~= hex_str(v as nat, width as nat));
        }
        r
    }
}

/// The single-character string for a decimal digit value.
fn dec_digit_str(d: usize) -> (r: &'static str)
    requires
        d < 10,
    ensures
        r@ == seq![dec_digit(d as nat)],
{
    proof {
        reveal_strlit("0");
        reveal_strlit("1");
        reveal_strlit("2");
        reveal_strlit("3");
        reveal_strlit("4");
        reveal_strlit("5");
        reveal_strlit("6");
        reveal_strlit("7");
        reveal_strlit("8");
        reveal_strlit("9");
    }
    let r: &'static str = if d == 0 {
        "0"
    } else if d == 1 {
        "1"
    } else if d == 2 {
        "2"
    } else if d == 3 {
        "3"
    } else if d == 4 {
        "4"
    } else if d == 5 {
        "5"
    } else if d == 6 {
        "6"
    } else if d == 7 {
        "7"
    } else if d == 8 {
        "8"
    } else {
        "9"
    };
    proof {
        assert(r@ =~= seq![dec_digit(d as nat)]);
    }
    r
}

/// The decimal numeral of `v`, as the preload tree names its ordinals.
pub fn dec_string(v: usize) -> (r: String)
    ensures
        r@ == dec_str(v as nat),
    decreases v,
{
    if v < 10 {
        let r = String::from_str(dec_digit_str(v));
        proof {
            assert(r@ =~= dec_str(v as nat));
        }
        r
    } else {
        let prefix = dec_string(v / 10);
        let digit = dec_digit_str(v % 10);
        let r = prefix.concat(digit);
        proof {
            assert(r@ =~= dec_str(v as nat));
        }
        r
    }
}

/// The numeric value of a hex digit character, `None` on any other character.
pub fn hex_digit_value(c: char) -> (r: Option<u32>)
    ensures
        match r {
            Some(v) => is_hex_digit(c) && v as nat == hex_digit_val(c),
            None => !is_hex_digit(c),
        },
{
    let u = c as u32;
    if 48 <= u && u <= 57 {
        Some(u - 48)
    } else if 97 <= u && u <= 102 {
        Some(u - 87)
    } else if 65 <= u && u <= 70 {
        Some(u - 55)
    } else {
        None
    }
}

/// Reads the hex digits of `s` between `from` and `to` as one value;
/// `None` as soon as any character there is not a hex digit.
pub fn parse_hex(s: &str, from: usize, to: usize) -> (r: Option<u32>)
    requires
        from <= to <= s@.len(),
        to - from <= 8,
    ensures
        match r {
            Some(v) => all_hex(s@.subrange(from as int, to as int)) && v as nat == hex_val(
                s@.subrange(from as int, to as int),
            ),
            None => !all_hex(s@.subrange(from as int, to as int)),
        },
{
    let mut acc: u32 = 0;
    let mut i: usize = from;
    while i < to
        invariant
            from <= i <= to <= s@.len(),
            to - from <= 8,
            all_hex(s@.subrange(from as int, i as int)),
            acc as nat == hex_val(s@.subrange(from as int, i as int)),
        decreases to - i,
    {
        let c = s.get_char(i);
        match hex_digit_value(c) {
            None => {
                proof {
                    assert(s@.subrange(from as int, to as int)[i - from] == c);
                }
                return None;
            },
            Some(d) => {
                proof {
                    let pre = s@.subrange(from as int, i as int);
                    lemma_hex_val_bound(pre);
                    lemma_pow16_le((i - from) as nat, 7);
                    lemma_pow16_7();
                    assert(acc < 0x10000000);
                }
                acc = acc * 16 + d;
                proof {
                    let pre = s@.subrange(from as int, i as int);
                    let cur = s@.subrange(from as int, (i + 1) as int);
                    assert(cur.drop_last() =~= pre);
                    assert(cur.last() == c);
                }
                i = i + 1;
            },
        }
    }
    proof {
        assert(s@.subrange(from as int, i as int) =~= s@.subrange(from as int, to as int));
    }
    Some(acc)
}

proof fn lemma_pow16_7()
    ensures
        pow16(7) == 0x10000000,
{
    assert(pow16(0) == 1);
    assert(pow16(1) == 16);
    assert(pow16(2) == 0x100);
    assert(pow16(3) == 0x1000);
    assert(pow16(4) == 0x10000);
    assert(pow16(5) == 0x100000);
    assert(pow16(6) == 0x1000000);
    assert(pow16(7) == 0x10000000);
}

proof fn lemma_pow16_le(a: nat, b: nat)
    requires
        a <= b,
    ensures
        pow16(a) <= pow16(b),
    decreases b,
{
    if a < b {
        lemma_pow16_le(a, (b - 1) as nat);
        assert(pow16(b) == 16 * pow16((b - 1) as nat));
        assert(pow16((b - 1) as nat) <= 16 * pow16((b - 1) as nat)) by (nonlinear_arith)
            requires
                pow16((b - 1) as nat) >= 0,
        ;
    }
}

} // verus!
