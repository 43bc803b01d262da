//! The hex lexer: classification of hexadecimal digit characters and
//! conversion between hex character sequences and integer values.

use vstd::prelude::*;

verus! {

/// True of exactly the characters `0`-`9`, `a`-`f` and `A`-`F`.
pub open spec fn is_hex_digit(c: char) -> bool {
    ||| (48 <= c as int && c as int <= 57)
    ||| (97 <= c as int && c as int <= 102)
    ||| (65 <= c as int && c as int <= 70)
}

/// The numeric value of a hex digit character, in `[0, 16)` when
/// `is_hex_digit(c)` holds.
pub open spec fn hex_digit_val(c: char) -> int
    recommends
        is_hex_digit(c),
{
    if 97 <= c as int {
        c as int - 87
    } else if 65 <= c as int {
        c as int - 55
    } else {
        c as int - 48
    }
}

/// Every character of `s` is a hex digit.
pub open spec fn all_hex_digits(s: Seq<char>) -> bool {
    forall|i: int| 0 <= i < s.len() ==> is_hex_digit(#[trigger] s[i])
}

/// The value of `s` read as a big-endian base-16 numeral.
pub open spec fn hex_val(s: Seq<char>) -> int
    recommends
        all_hex_digits(s),
    decreases s.len(),
{
    if s.len() == 0 {
        0
    } else {
        16 * hex_val(s.drop_last()) + hex_digit_val(s.last())
    }
}

/// `16^n`.
pub open spec fn pow16(n: nat) -> int
    decreases n,
{
    if n == 0 {
        1
    } else {
        16 * pow16((n - 1) as nat)
    }
}

/// A numeral of `n` hex digits is in `[0, 16^n)`.
pub proof fn lemma_hex_val_bound(s: Seq<char>)
    requires
        all_hex_digits(s),
    ensures
        0 <= hex_val(s) < pow16(s.len()),
    decreases s.len(),
{
    if s.len() > 0 {
        assert(is_hex_digit(s[s.len() - 1]));
        lemma_hex_val_bound(s.drop_last());
    }
}

/// The lowercase hex digit character for a value in `[0, 16)`.
pub open spec fn hex_char_of(d: int) -> char
    recommends
        0 <= d < 16,
{
    if d == 0 {
        '0'
    } else if d == 1 {
        '1'
    } else if d == 2 {
        '2'
    } else if d == 3 {
        '3'
    } else if d == 4 {
        '4'
    } else if d == 5 {
        '5'
    } else if d == 6 {
        '6'
    } else if d == 7 {
        '7'
    } else if d == 8 {
        '8'
    } else if d == 9 {
        '9'
    } else if d == 10 {
        'a'
    } else if d == 11 {
        'b'
    } else if d == 12 {
        'c'
    } else if d == 13 {
        'd'
    } else if d == 14 {
        'e'
    } else {
        'f'
    }
}

/// `hex_char_of` yields a hex digit (never `#`) and inverts `hex_digit_val`.
pub proof fn lemma_hex_char_of(d: int)
    requires
        0 <= d < 16,
    ensures
        is_hex_digit(hex_char_of(d)),
        hex_digit_val(hex_char_of(d)) == d,
        hex_char_of(d) != '#',
{
}

/// The lowercase, zero-padded, `w`-digit hex numeral of `v` (of `v % 16^w`
/// when `v` does not fit in `w` digits).
pub open spec fn hex_chars(v: int, w: nat) -> Seq<char>
    recommends
        0 <= v,
    decreases w,
{
    if w == 0 {
        Seq::empty()
    } else {
        hex_chars(v / 16, (w - 1) as nat).push(hex_char_of(v % 16))
    }
}

/// `hex_chars` produces exactly `w` characters, all hex digits and none `#`.
pub proof fn lemma_hex_chars_shape(v: int, w: nat)
    requires
        0 <= v,
    ensures
        hex_chars(v, w).len() == w,
        all_hex_digits(hex_chars(v, w)),
        forall|i: int| 0 <= i < w ==> #[trigger] hex_chars(v, w)[i] != '#',
    decreases w,
{
    if w > 0 {
        lemma_hex_chars_shape(v / 16, (w - 1) as nat);
        lemma_hex_char_of(v % 16);
        let prefix = hex_chars(v / 16, (w - 1) as nat);
        let whole = hex_chars(v, w);
        assert forall|i: int| 0 <= i < w implies is_hex_digit(#[trigger] whole[i]) && whole[i]
            != '#' by {
            if i < w - 1 {
                assert(whole[i] == prefix[i]);
            } else {
                assert(whole[i] == hex_char_of(v % 16));
            }
        }
    }
}

/// Reading the `w`-digit numeral of `v` back gives `v`, provided `v` fits.
pub proof fn lemma_hex_val_hex_chars(v: int, w: nat)
    requires
        0 <= v < pow16(w),
    ensures
        hex_val(hex_chars(v, w)) == v,
    decreases w,
{
    if w == 0 {
        assert(v == 0);
    } else {
        let prefix = hex_chars(v / 16, (w - 1) as nat);
        let whole = hex_chars(v, w);
        assert(v / 16 < pow16((w - 1) as nat)) by {
            assert(pow16(w) == 16 * pow16((w - 1) as nat));
            vstd::arithmetic::div_mod::lemma_multiply_divide_lt(v, 16, pow16((w - 1) as nat));
        }
        lemma_hex_val_hex_chars(v / 16, (w - 1) as nat);
        assert(whole.drop_last() =~= prefix);
        assert(whole.last() == hex_char_of(v % 16));
        lemma_hex_char_of(v % 16);
        assert(hex_val(whole) == 16 * (v / 16) + v % 16);
        assert(16 * (v / 16) + v % 16 == v) by {
            vstd::arithmetic::div_mod::lemma_fundamental_div_mod(v, 16);
        }
    }
}

/// `16^n` is positive.
pub proof fn lemma_pow16_pos(n: nat)
    ensures
        pow16(n) >= 1,
    decreases n,
{
    if n > 0 {
        lemma_pow16_pos((n - 1) as nat);
    }
}

/// `16^n` is monotone in `n`.
pub proof fn lemma_pow16_le(a: nat, b: nat)
    requires
        a <= b,
    ensures
        pow16(a) <= pow16(b),
    decreases b,
{
    if a < b {
        lemma_pow16_le(a, (b - 1) as nat);
        lemma_pow16_pos((b - 1) as nat);
    }
}

/// The bytes read from an even-length hex string, one byte per
/// non-overlapping pair of digits, left to right.
pub open spec fn byte_pairs(p: Seq<char>) -> Seq<u8>
    recommends
        p.len() % 2 == 0,
        all_hex_digits(p),
{
    Seq::new(
        p.len() / 2,
        |k: int| (16 * hex_digit_val(p[2 * k]) + hex_digit_val(p[2 * k + 1])) as u8,
    )
}

/// Classify a character and give its hexadecimal digit value.
pub fn hex_digit_value(c: char) -> (r: Option<u8>)
    ensures
        r is Some <==> is_hex_digit(c),
        is_hex_digit(c) ==> r == Some(hex_digit_val(c) as u8),
{
    let u = c as u32;
    if 48 <= u && u <= 57 {
        Some((u - 48) as u8)
    } else if 97 <= u && u <= 102 {
        Some((u - 87) as u8)
    } else if 65 <= u && u <= 70 {
        Some((u - 55) as u8)
    } else {
        None
    }
}

/// The lowercase hex digit character for a value in `[0, 16)`.
pub fn hex_char(d: u8) -> (c: char)
    requires
        d < 16,
    ensures
        c == hex_char_of(d as int),
{
    if d == 0 {
        '0'
    } else if d == 1 {
        '1'
    } else if d == 2 {
        '2'
    } else if d == 3 {
        '3'
    } else if d == 4 {
        '4'
    } else if d == 5 {
        '5'
    } else if d == 6 {
        '6'
    } else if d == 7 {
        '7'
    } else if d == 8 {
        '8'
    } else if d == 9 {
        '9'
    } else if d == 10 {
        'a'
    } else if d == 11 {
        'b'
    } else if d == 12 {
        'c'
    } else if d == 13 {
        'd'
    } else if d == 14 {
        'e'
    } else {
        'f'
    }
}

/// The `w`-digit lowercase hex numeral of `v`, most significant digit first.
pub fn hex_chars_vec(v: u32, w: usize) -> (r: Vec<char>)
    ensures
        r@ == hex_chars(v as int, w as nat),
    decreases w,
{
    if w == 0 {
        let r: Vec<char> = Vec::new();
        proof {
            assert(r@ =~= hex_chars(v as int, 0));
        }
        r
    } else {
        let mut r = hex_chars_vec(v / 16, w - 1);
        r.push(hex_char((v % 16) as u8));
        proof {
            assert(r@ =~= hex_chars(v as int, w as nat));
        }
        r
    }
}

/// Parse `s[from..to]` as a hex numeral of exactly `to - from` digits.
pub fn parse_hex_u32(s: &str, from: usize, to: usize) -> (r: Option<u32>)
    requires
        from <= to <= s@.len(),
        to - from <= 8,
    ensures
        r is Some <==> all_hex_digits(s@.subrange(from as int, to as int)),
        all_hex_digits(s@.subrange(from as int, to as int)) ==> r == Some(
            hex_val(s@.subrange(from as int, to as int)) as u32,
        ),
{
    let mut v: u32 = 0;
    let mut i: usize = from;
    while i < to
        invariant
            from <= i <= to <= s@.len(),
            to - from <= 8,
            all_hex_digits(s@.subrange(from as int, i as int)),
            v as int == hex_val(s@.subrange(from as int, i as int)),
            (v as int) < pow16((i - from) as nat),
        decreases to - i,
    {
        let c = s.get_char(i);
        let hv = hex_digit_value(c);
        if hv.is_none() {
            proof {
                assert(s@.subrange(from as int, to as int)[i - from] == s@[i as int]);
            }
            return None;
        }
        let d = hv.unwrap();
        proof {
            lemma_pow16_le((i - from) as nat, 7);
            assert(pow16(7) == 0x1000_0000) by {
                reveal_with_fuel(pow16, 8);
            }
        }
        v = v * 16 + d as u32;
        proof {
            let prev = s@.subrange(from as int, i as int);
            let cur = s@.subrange(from as int, i + 1 as int);
            assert(cur.drop_last() =~= prev);
            assert(cur.last() == s@[i as int]);
            assert(all_hex_digits(cur)) by {
                assert forall|j: int| 0 <= j < cur.len() implies is_hex_digit(
                    #[trigger] cur[j],
                ) by {
                    if j < cur.len() - 1 {
                        assert(cur[j] == prev[j]);
                    }
                }
            }
        }
        i = i + 1;
    }
    proof {
        assert(s@.subrange(from as int, i as int) =~= s@.subrange(from as int, to as int));
    }
    Some(v)
}

/// Decode `s[from..to]`, an even-length range, as two-digit hex bytes.
pub fn decode_hex_pairs(s: &str, from: usize, to: usize) -> (r: Option<Vec<u8>>)
    requires
        from <= to <= s@.len(),
        (to - from) % 2 == 0,
    ensures
        r is Some <==> all_hex_digits(s@.subrange(from as int, to as int)),
        r matches Some(bytes) ==> bytes@ == byte_pairs(s@.subrange(from as int, to as int)),
{
    let mut out: Vec<u8> = Vec::new();
    let mut i: usize = from;
    while i < to
        invariant
            from <= i <= to <= s@.len(),
            (to - from) % 2 == 0,
            (i - from) % 2 == 0,
            all_hex_digits(s@.subrange(from as int, i as int)),
            out@ == byte_pairs(s@.subrange(from as int, i as int)),
        decreases to - i,
    {
        let hv = hex_digit_value(s.get_char(i));
        if hv.is_none() {
            proof {
                assert(s@.subrange(from as int, to as int)[i - from] == s@[i as int]);
            }
            return None;
        }
        let lv = hex_digit_value(s.get_char(i + 1));
        if lv.is_none() {
            proof {
                assert(s@.subrange(from as int, to as int)[i + 1 - from] == s@[i + 1]);
            }
            return None;
        }
        let hi = hv.unwrap();
        let lo = lv.unwrap();
        out.push(hi * 16 + lo);
        proof {
            let prev = s@.subrange(from as int, i as int);
            let cur = s@.subrange(from as int, i + 2 as int);
            assert(all_hex_digits(cur)) by {
                assert forall|j: int| 0 <= j < cur.len() implies is_hex_digit(
                    #[trigger] cur[j],
                ) by {
                    if j < cur.len() - 2 {
                        assert(cur[j] == prev[j]);
                    } else {
                        assert(cur[j] == s@[from + j]);
                    }
                }
            }
            assert(out@ =~= byte_pairs(cur)) by {
                assert forall|k: int| 0 <= k < cur.len() / 2 implies out@[k] == #[trigger] byte_pairs(
                    cur,
                )[k] by {
                    assert(cur[2 * k] == s@[from + 2 * k]);
                    assert(cur[2 * k + 1] == s@[from + 2 * k + 1]);
                    if k < prev.len() / 2 {
                        assert(prev[2 * k] == s@[from + 2 * k]);
                        assert(prev[2 * k + 1] == s@[from + 2 * k + 1]);
                        assert(out@[k] == byte_pairs(prev)[k]);
                    }
                }
            }
        }
        i = i + 2;
    }
    proof {
        assert(s@.subrange(from as int, i as int) =~= s@.subrange(from as int, to as int));
    }
    Some(out)
}

} // verus!
