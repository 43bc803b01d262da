//! The frame parser: splitting a literal on its `#` delimiter, classifying
//! the identifier by width, decoding the payload, and re-encoding a frame as
//! a lowercase literal.

use crate::hex::{all_hex_digits, byte_pairs, hex_char_of, hex_chars, hex_val, is_hex_digit};
use vstd::prelude::*;

verus! {

/// A CAN identifier: standard (11-bit, three hex digits in a literal) or
/// extended (eight hex digits in a literal).
#[derive(Debug, Clone, Copy, PartialEq, Eq, Structural)]
pub enum CanId {
    Standard(u32),
    Extended(u32),
}

/// A parsed CAN frame: an identifier and a payload of bytes.
#[derive(Debug, Clone, PartialEq, Eq)]
pub struct CanData {
    pub can_id: CanId,
    pub data: Vec<u8>,
}

/// The single error kind of the parser: the input was not a valid frame
/// literal.
#[derive(Debug, Clone, Copy, PartialEq, Eq, Structural)]
pub struct CanDataError();

/// The range invariant of an identifier: a standard identifier fits in
/// 11 bits, an extended one in 30 bits.
pub open spec fn id_wf(id: CanId) -> bool {
    match id {
        CanId::Standard(v) => v <= 0x7FF,
        CanId::Extended(v) => v <= 0x3FFF_FFFF,
    }
}

/// How many `#` characters `s` holds.
pub open spec fn hash_count(s: Seq<char>) -> nat
    decreases s.len(),
{
    if s.len() == 0 {
        0
    } else if s.last() == '#' {
        hash_count(s.drop_last()) + 1
    } else {
        hash_count(s.drop_last())
    }
}

/// Position `i` holds the one and only `#` of `s`.
pub open spec fn splits_at(s: Seq<char>, i: int) -> bool {
    &&& 0 <= i < s.len()
    &&& s[i] == '#'
    &&& forall|j: int| 0 <= j < s.len() && j != i ==> s[j] != '#'
}

/// A valid identifier part: hex digits throughout, and either three digits
/// valuing at most 0x7FF or eight digits valuing at most 0x3FFFFFFF.
pub open spec fn valid_id(id: Seq<char>) -> bool {
    &&& all_hex_digits(id)
    &&& {
        ||| (id.len() == 3 && hex_val(id) <= 0x7FF)
        ||| (id.len() == 8 && hex_val(id) <= 0x3FFF_FFFF)
    }
}

/// A valid payload part: an even number of characters, all hex digits.
pub open spec fn valid_payload(p: Seq<char>) -> bool {
    p.len() % 2 == 0 && all_hex_digits(p)
}

/// A valid frame literal: a single `#` with a valid identifier before it
/// and a valid payload after it.
pub open spec fn valid_literal(s: Seq<char>) -> bool {
    exists|i: int|
        #[trigger] splits_at(s, i) && valid_id(s.take(i)) && valid_payload(s.skip(i + 1))
}

/// The position of the delimiter of a literal with exactly one `#`.
pub open spec fn split_pos(s: Seq<char>) -> int {
    choose|i: int| splits_at(s, i)
}

/// The identifier encoded by a valid identifier part.
pub open spec fn spec_id(id: Seq<char>) -> CanId {
    if id.len() == 3 {
        CanId::Standard(hex_val(id) as u32)
    } else {
        CanId::Extended(hex_val(id) as u32)
    }
}

/// The identifier a valid literal parses to.
pub open spec fn literal_id(s: Seq<char>) -> CanId {
    spec_id(s.take(split_pos(s)))
}

/// The payload a valid literal parses to.
pub open spec fn literal_payload(s: Seq<char>) -> Seq<u8> {
    byte_pairs(s.skip(split_pos(s) + 1))
}

/// The literal width of an identifier: three digits standard, eight
/// extended.
pub open spec fn id_width(id: CanId) -> nat {
    if id is Standard {
        3
    } else {
        8
    }
}

/// The numeric value of an identifier.
pub open spec fn id_value(id: CanId) -> u32 {
    match id {
        CanId::Standard(v) => v,
        CanId::Extended(v) => v,
    }
}

/// The identifier part of the re-encoded literal: the lowercase hex
/// numeral of the identifier value, at the width of its kind.
pub open spec fn encode_id(id: CanId) -> Seq<char> {
    hex_chars(id_value(id) as int, id_width(id))
}

/// The payload part of the re-encoded literal: two lowercase hex digits
/// per byte, left to right.
pub open spec fn encode_payload(data: Seq<u8>) -> Seq<char> {
    Seq::new(
        2 * data.len(),
        |i: int|
            if i % 2 == 0 {
                hex_char_of((data[i / 2] as int) / 16)
            } else {
                hex_char_of((data[i / 2] as int) % 16)
            },
    )
}

/// The lowercase literal that re-encodes a frame.
pub open spec fn encode_literal(id: CanId, data: Seq<u8>) -> Seq<char> {
    encode_id(id) + seq!['#'] + encode_payload(data)
}

/// A sequence without `#` characters counts zero of them.
proof fn lemma_hash_free_count(s: Seq<char>)
    requires
        forall|j: int| 0 <= j < s.len() ==> s[j] != '#',
    ensures
        hash_count(s) == 0,
    decreases s.len(),
{
    if s.len() > 0 {
        assert forall|j: int| 0 <= j < s.drop_last().len() implies s.drop_last()[j] != '#' by {
            assert(s.drop_last()[j] == s[j]);
        }
        lemma_hash_free_count(s.drop_last());
        assert(s.last() == s[s.len() - 1]);
    }
}

/// A sequence counting zero `#` characters holds none.
proof fn lemma_count_zero_hash_free(s: Seq<char>)
    requires
        hash_count(s) == 0,
    ensures
        forall|j: int| 0 <= j < s.len() ==> s[j] != '#',
    decreases s.len(),
{
    if s.len() > 0 {
        lemma_count_zero_hash_free(s.drop_last());
        assert forall|j: int| 0 <= j < s.len() implies s[j] != '#' by {
            if j < s.len() - 1 {
                assert(s[j] == s.drop_last()[j]);
            } else {
                assert(s[j] == s.last());
            }
        }
    }
}

/// A sequence with a unique `#` counts exactly one.
proof fn lemma_splits_at_count(s: Seq<char>, h: int)
    requires
        splits_at(s, h),
    ensures
        hash_count(s) == 1,
    decreases s.len(),
{
    if h == s.len() - 1 {
        assert(s.last() == s[h]);
        assert forall|j: int| 0 <= j < s.drop_last().len() implies s.drop_last()[j] != '#' by {
            assert(s.drop_last()[j] == s[j]);
        }
        lemma_hash_free_count(s.drop_last());
    } else {
        assert(s.last() == s[s.len() - 1]);
        assert(splits_at(s.drop_last(), h)) by {
            assert(s.drop_last()[h] == s[h]);
            assert forall|j: int| 0 <= j < s.drop_last().len() && j != h implies s.drop_last()[j]
                != '#' by {
                assert(s.drop_last()[j] == s[j]);
            }
        }
        lemma_splits_at_count(s.drop_last(), h);
    }
}

/// If `s` counts one `#` and `h` is its first, it is its only one.
proof fn lemma_count_one_splits(s: Seq<char>, h: int)
    requires
        hash_count(s) == 1,
        0 <= h < s.len(),
        s[h] == '#',
        forall|j: int| 0 <= j < h ==> s[j] != '#',
    ensures
        splits_at(s, h),
    decreases s.len(),
{
    if s.last() == '#' {
        assert(hash_count(s.drop_last()) == 0);
        lemma_count_zero_hash_free(s.drop_last());
        assert forall|j: int| 0 <= j < s.len() - 1 implies s[j] != '#' by {
            assert(s[j] == s.drop_last()[j]);
        }
        assert(h == s.len() - 1);
    } else {
        assert(s[s.len() - 1] != '#');
        assert(h < s.len() - 1);
        assert(s.drop_last()[h] == s[h]);
        assert forall|j: int| 0 <= j < h implies s.drop_last()[j] != '#' by {
            assert(s.drop_last()[j] == s[j]);
        }
        lemma_count_one_splits(s.drop_last(), h);
        assert forall|j: int| 0 <= j < s.len() && j != h implies s[j] != '#' by {
            if j < s.len() - 1 {
                assert(s[j] == s.drop_last()[j]);
            }
        }
    }
}

/// Two delimiter positions of the same literal coincide.
proof fn lemma_splits_unique(s: Seq<char>, a: int, b: int)
    requires
        splits_at(s, a),
        splits_at(s, b),
    ensures
        a == b,
{
    if a != b {
        assert(s[b] == '#');
        assert(s[b] != '#');
    }
}

/// A valid literal splits at `split_pos`, where its identifier part is
/// valid and its payload part is valid.
proof fn lemma_valid_literal_props(s: Seq<char>)
    requires
        valid_literal(s),
    ensures
        splits_at(s, split_pos(s)),
        valid_id(s.take(split_pos(s))),
        valid_payload(s.skip(split_pos(s) + 1)),
{
    let w = choose|i: int|
        #[trigger] splits_at(s, i) && valid_id(s.take(i)) && valid_payload(s.skip(i + 1));
    assert(splits_at(s, w));
    assert(splits_at(s, split_pos(s)));
    lemma_splits_unique(s, w, split_pos(s));
}

/// A literal whose number of `#` characters differs from one is not a
/// valid frame literal.
pub proof fn lemma_delimiter_count(s: Seq<char>)
    requires
        hash_count(s) != 1,
    ensures
        !valid_literal(s),
{
    if valid_literal(s) {
        lemma_valid_literal_props(s);
        lemma_splits_at_count(s, split_pos(s));
    }
}

impl CanData {
    /// Parse a frame literal of the shape `id#payload`: exactly one `#`,
    /// before it three or eight hex digits within the range of the
    /// identifier kind that the width selects, after it an even number of
    /// hex digits, two per payload byte.
    pub fn from_str(s: &str) -> (r: Result<CanData, CanDataError>)
        ensures
            r is Ok <==> valid_literal(s@),
            r matches Ok(f) ==> f.can_id == literal_id(s@) && f.data@ == literal_payload(s@)
                && id_wf(f.can_id),
    {
        let n = s.unicode_len();
        // Find the delimiter and count every occurrence of it.
        let mut i: usize = 0;
        let mut count: usize = 0;
        let mut first: usize = 0;
        let mut found: bool = false;
        while i < n
            invariant
                n == s@.len(),
                i <= n,
                count <= i,
                count == hash_count(s@.take(i as int)),
                found <==> count >= 1,
                found ==> first < i && s@[first as int] == '#',
                found ==> forall|j: int| 0 <= j < first ==> s@[j] != '#',
                !found ==> forall|j: int| 0 <= j < i ==> s@[j] != '#',
            decreases n - i,
        {
            let c = s.get_char(i);
            proof {
                assert(s@.take(i + 1 as int).drop_last() =~= s@.take(i as int));
                assert(s@.take(i + 1 as int).last() == s@[i as int]);
            }
            if c == '#' {
                if !found {
                    first = i;
                    found = true;
                }
                count = count + 1;
            }
            i = i + 1;
        }
        proof {
            assert(s@.take(n as int) =~= s@);
        }
        if count != 1 {
            proof {
                lemma_delimiter_count(s@);
            }
            return Err(CanDataError());
        }
        let h = first;
        proof {
            lemma_count_one_splits(s@, h as int);
            assert(splits_at(s@, split_pos(s@)));
            lemma_splits_unique(s@, split_pos(s@), h as int);
            if valid_literal(s@) {
                lemma_valid_literal_props(s@);
            }
        }
        // Classify the identifier by the width of the first part.
        if h != 3 && h != 8 {
            proof {
                assert(s@.take(h as int).len() == h);
            }
            return Err(CanDataError());
        }
        let idv = crate::hex::parse_hex_u32(s, 0, h);
        proof {
            assert(s@.subrange(0, h as int) =~= s@.take(h as int));
        }
        if idv.is_none() {
            return Err(CanDataError());
        }
        let v = idv.unwrap();
        proof {
            crate::hex::lemma_hex_val_bound(s@.take(h as int));
            crate::hex::lemma_pow16_le(s@.take(h as int).len(), 8);
            assert(crate::hex::pow16(8) == 0x1_0000_0000) by {
                reveal_with_fuel(crate::hex::pow16, 9);
            }
            assert(v as int == hex_val(s@.take(h as int)));
        }
        let can_id = if h == 3 {
            if v > 0x7FF {
                return Err(CanDataError());
            }
            CanId::Standard(v)
        } else {
            if v > 0x3FFF_FFFF {
                return Err(CanDataError());
            }
            CanId::Extended(v)
        };
        // Decode the payload, two hex digits per byte.
        proof {
            assert(s@.skip(h + 1 as int).len() == n - h - 1);
        }
        if (n - h - 1) % 2 != 0 {
            return Err(CanDataError());
        }
        let datav = crate::hex::decode_hex_pairs(s, h + 1, n);
        proof {
            assert(s@.subrange(h + 1 as int, n as int) =~= s@.skip(h + 1 as int));
        }
        if datav.is_none() {
            return Err(CanDataError());
        }
        let data = datav.unwrap();
        proof {
            assert(valid_id(s@.take(h as int)));
            assert(valid_payload(s@.skip(h + 1 as int)));
            assert(valid_literal(s@)) by {
                assert(splits_at(s@, h as int) && valid_id(s@.take(h as int)) && valid_payload(
                    s@.skip(h as int + 1),
                ));
            }
        }
        Ok(CanData { can_id, data })
    }

    /// Render the frame as a lowercase literal of the shape `id#payload`.
    pub fn to_literal(&self) -> (r: String)
        ensures
            r@ == encode_literal(self.can_id, self.data@),
    {
        let (v, w): (u32, usize) = match self.can_id {
            CanId::Standard(v) => (v, 3),
            CanId::Extended(v) => (v, 8),
        };
        let mut out = crate::hex::hex_chars_vec(v, w);
        out.push('#');
        proof {
            assert(out@ =~= encode_id(self.can_id) + seq!['#'] + encode_payload(
                self.data@.take(0),
            ));
        }
        let mut k: usize = 0;
        while k < self.data.len()
            invariant
                k <= self.data.len(),
                out@ == encode_id(self.can_id) + seq!['#'] + encode_payload(
                    self.data@.take(k as int),
                ),
            decreases self.data.len() - k,
        {
            let b = self.data[k];
            out.push(crate::hex::hex_char(b / 16));
            out.push(crate::hex::hex_char(b % 16));
            proof {
                lemma_encode_payload_snoc(self.data@, k as int);
                assert(out@ =~= encode_id(self.can_id) + seq!['#'] + encode_payload(
                    self.data@.take(k + 1 as int),
                ));
            }
            k = k + 1;
        }
        proof {
            assert(self.data@.take(self.data@.len() as int) =~= self.data@);
        }
        chars_to_string(&out)
    }
}

impl CanDataError {
    /// A short rendering of the error for diagnostics.
    pub fn message(&self) -> (r: String)
        ensures
            r@ == "CanDataError()"@,
    {
        "CanDataError()".to_owned()
    }
}

/// Encoding one more byte appends its two hex digits.
proof fn lemma_encode_payload_snoc(data: Seq<u8>, k: int)
    requires
        0 <= k < data.len(),
    ensures
        encode_payload(data.take(k + 1)) =~= encode_payload(data.take(k)) + seq![
            hex_char_of((data[k] as int) / 16),
            hex_char_of((data[k] as int) % 16),
        ],
{
    let a = encode_payload(data.take(k + 1));
    let b = encode_payload(data.take(k)) + seq![
        hex_char_of((data[k] as int) / 16),
        hex_char_of((data[k] as int) % 16),
    ];
    assert forall|i: int| 0 <= i < a.len() implies a[i] == b[i] by {
        if i < 2 * k {
            assert(i / 2 < k) by {
                vstd::arithmetic::div_mod::lemma_multiply_divide_lt(i, 2, k);
            }
            assert(data.take(k + 1)[i / 2] == data.take(k)[i / 2]);
        } else if i == 2 * k {
            assert(i % 2 == 0 && i / 2 == k) by {
                vstd::arithmetic::div_mod::lemma_fundamental_div_mod_converse(i, 2, k, 0);
            }
        } else {
            assert(i == 2 * k + 1);
            assert(i % 2 == 1 && i / 2 == k) by {
                vstd::arithmetic::div_mod::lemma_fundamental_div_mod_converse(i, 2, k, 1);
            }
        }
    }
}

/// A valid literal parses to an identifier within the range of its kind.
pub proof fn lemma_parsed_id_wf(s: Seq<char>)
    requires
        valid_literal(s),
    ensures
        id_wf(literal_id(s)),
{
    lemma_valid_literal_props(s);
    let id = s.take(split_pos(s));
    crate::hex::lemma_hex_val_bound(id);
}

/// A standard identifier parsed from a valid literal is at most 0x7FF.
pub proof fn lemma_standard_id_bound(s: Seq<char>)
    requires
        valid_literal(s),
        literal_id(s) is Standard,
    ensures
        literal_id(s)->Standard_0 <= 0x7FF,
{
    lemma_parsed_id_wf(s);
}

/// An extended identifier parsed from a valid literal is at most
/// 0x3FFFFFFF.
pub proof fn lemma_extended_id_bound(s: Seq<char>)
    requires
        valid_literal(s),
        literal_id(s) is Extended,
    ensures
        literal_id(s)->Extended_0 <= 0x3FFF_FFFF,
{
    lemma_parsed_id_wf(s);
}

/// The payload of a valid literal holds one byte per two payload
/// characters.
pub proof fn lemma_payload_length(s: Seq<char>)
    requires
        valid_literal(s),
    ensures
        literal_payload(s).len() == s.skip(split_pos(s) + 1).len() / 2,
{
    lemma_valid_literal_props(s);
}

/// Round trip: re-encoding any in-range identifier and payload as a
/// lowercase literal yields a valid literal that parses back to exactly
/// that identifier and payload.
pub proof fn lemma_round_trip(id: CanId, data: Seq<u8>)
    requires
        id_wf(id),
    ensures
        valid_literal(encode_literal(id, data)),
        literal_id(encode_literal(id, data)) == id,
        literal_payload(encode_literal(id, data)) == data,
{
    let v = id_value(id) as int;
    let w = id_width(id) as int;
    let e = encode_literal(id, data);
    let idc = encode_id(id);
    let pay = encode_payload(data);
    crate::hex::lemma_hex_chars_shape(v, w as nat);
    assert(v < crate::hex::pow16(w as nat)) by {
        reveal_with_fuel(crate::hex::pow16, 9);
    }
    crate::hex::lemma_hex_val_hex_chars(v, w as nat);
    // every payload character is a hex digit other than `#`
    assert forall|j: int| 0 <= j < pay.len() implies is_hex_digit(#[trigger] pay[j]) && pay[j]
        != '#' by {
        let d = if j % 2 == 0 {
            (data[j / 2] as int) / 16
        } else {
            (data[j / 2] as int) % 16
        };
        assert(0 <= j / 2 < data.len()) by {
            vstd::arithmetic::div_mod::lemma_multiply_divide_lt(j, 2, data.len() as int);
        }
        assert(0 <= d < 16) by {
            vstd::arithmetic::div_mod::lemma_multiply_divide_lt(data[j / 2] as int, 16, 16);
        }
        crate::hex::lemma_hex_char_of(d);
    }
    // the single `#` stands at index w
    assert(e.len() == w + 1 + pay.len());
    assert(e[w] == '#');
    assert(splits_at(e, w)) by {
        assert forall|j: int| 0 <= j < e.len() && j != w implies e[j] != '#' by {
            if j < w {
                assert(e[j] == idc[j]);
            } else {
                assert(e[j] == pay[j - w - 1]);
            }
        }
    }
    assert(e.take(w) =~= idc);
    assert(e.skip(w + 1) =~= pay);
    // the identifier part is valid and encodes the identifier
    assert(valid_id(idc));
    assert(spec_id(idc) == id);
    // the payload part is valid and decodes to the payload bytes
    assert(pay.len() % 2 == 0) by {
        vstd::arithmetic::div_mod::lemma_mod_multiples_basic(data.len() as int, 2);
    }
    assert(valid_payload(pay));
    assert(byte_pairs(pay) =~= data) by {
        assert forall|k: int| 0 <= k < data.len() implies byte_pairs(pay)[k] == data[k] by {
            assert(2 * k % 2 == 0 && 2 * k / 2 == k) by {
                vstd::arithmetic::div_mod::lemma_fundamental_div_mod_converse(2 * k, 2, k, 0);
            }
            assert((2 * k + 1) % 2 == 1 && (2 * k + 1) / 2 == k) by {
                vstd::arithmetic::div_mod::lemma_fundamental_div_mod_converse(
                    2 * k + 1,
                    2,
                    k,
                    1,
                );
            }
            assert(pay[2 * k] == hex_char_of((data[k] as int) / 16));
            assert(pay[2 * k + 1] == hex_char_of((data[k] as int) % 16));
            let b = data[k] as int;
            assert(0 <= b / 16 < 16 && 0 <= b % 16 < 16) by {
                vstd::arithmetic::div_mod::lemma_multiply_divide_lt(b, 16, 16);
            }
            crate::hex::lemma_hex_char_of(b / 16);
            crate::hex::lemma_hex_char_of(b % 16);
            assert(16 * (b / 16) + b % 16 == b) by {
                vstd::arithmetic::div_mod::lemma_fundamental_div_mod(b, 16);
            }
        }
    }
    assert(valid_literal(e)) by {
        assert(splits_at(e, w) && valid_id(e.take(w)) && valid_payload(e.skip(w + 1)));
    }
    lemma_valid_literal_props(e);
    lemma_splits_unique(e, split_pos(e), w);
}

/// Idempotence: re-encoding what a valid literal parses to gives a
/// literal that parses to the same identifier and payload again.
pub proof fn lemma_reencode_stable(s: Seq<char>)
    requires
        valid_literal(s),
    ensures
        valid_literal(encode_literal(literal_id(s), literal_payload(s))),
        literal_id(encode_literal(literal_id(s), literal_payload(s))) == literal_id(s),
        literal_payload(encode_literal(literal_id(s), literal_payload(s))) == literal_payload(s),
{
    lemma_parsed_id_wf(s);
    lemma_round_trip(literal_id(s), literal_payload(s));
}

/// Relies on `String`'s `FromIterator<char>` implementation: collecting
/// characters yields the string of exactly those characters in order.
#[verifier::external_body]
fn chars_to_string(v: &Vec<char>) -> (r: String)
    ensures
        r@ == v@,
{
    v.iter().collect()
}

} // verus!
