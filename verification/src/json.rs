use vstd::prelude::*;
use vstd::string::StringSliceAdditionalSpecFns;

use crate::fbits::{f32_bits_of, pow10};
use crate::nbt::{NamedTag, NBT};

verus! {

/// The tags the importer produces, as mathematical values: objects become
/// compounds, arrays lists, strings strings, booleans bytes, and numbers
/// integers or floats.
pub enum JsonTag {
    Byte(i8),
    Int(i32),
    Float(u32),
    Str(Seq<u8>),
    List(Seq<JsonTag>),
    Compound(Seq<(Seq<u8>, JsonTag)>),
}

/// The mathematical value of an imported tag tree; `None` for tag variants
/// the importer never builds.
pub open spec fn json_view(t: NBT) -> Option<JsonTag>
    decreases t,
{
    match t {
        NBT::Byte(b) => Some(JsonTag::Byte(b)),
        NBT::Int(i) => Some(JsonTag::Int(i)),
        NBT::Float(bits) => Some(JsonTag::Float(bits)),
        NBT::Str(s) => Some(JsonTag::Str(s@)),
        NBT::List(v) => match json_views(v@) {
            Some(l) => Some(JsonTag::List(l)),
            None => None,
        },
        NBT::Compound(v) => match json_named_views(v@) {
            Some(l) => Some(JsonTag::Compound(l)),
            None => None,
        },
        _ => None,
    }
}

pub open spec fn json_views(s: Seq<NBT>) -> Option<Seq<JsonTag>>
    decreases s,
{
    if s.len() == 0 {
        Some(Seq::empty())
    } else {
        match (json_view(s[0]), json_views(s.drop_first())) {
            (Some(t), Some(rest)) => Some(seq![t] + rest),
            _ => None,
        }
    }
}

pub open spec fn json_named_views(s: Seq<NamedTag>) -> Option<Seq<(Seq<u8>, JsonTag)>>
    decreases s,
{
    if s.len() == 0 {
        Some(Seq::empty())
    } else {
        match (json_view(s[0].tag), json_named_views(s.drop_first())) {
            (Some(t), Some(rest)) => Some(seq![(s[0].name@, t)] + rest),
            _ => None,
        }
    }
}

pub open spec fn is_ws(c: u8) -> bool {
    c == 0x20 || c == 0x09 || c == 0x0a || c == 0x0d
}

pub open spec fn is_digit(c: u8) -> bool {
    0x30 <= c <= 0x39
}

/// The first position at or after `i` holding a non-whitespace byte, or the
/// input's end.
pub open spec fn skip_ws(s: Seq<u8>, i: int) -> int
    decreases s.len() - i,
{
    if 0 <= i < s.len() && is_ws(s[i]) {
        skip_ws(s, i + 1)
    } else {
        i
    }
}

/// The value of a hexadecimal digit.
pub open spec fn hex_val(c: u8) -> Option<nat> {
    if 0x30 <= c <= 0x39 {
        Some((c - 0x30) as nat)
    } else if 0x61 <= c <= 0x66 {
        Some((c - 0x61 + 10) as nat)
    } else if 0x41 <= c <= 0x46 {
        Some((c - 0x41 + 10) as nat)
    } else {
        None
    }
}

/// Four hexadecimal digits at `i`.
pub open spec fn hex4(s: Seq<u8>, i: int) -> Option<nat> {
    if 0 <= i && i + 4 <= s.len() {
        match (hex_val(s[i]), hex_val(s[i + 1]), hex_val(s[i + 2]), hex_val(s[i + 3])) {
            (Some(a), Some(b), Some(c), Some(d)) => Some(
                (a * 0x1000 + b * 0x100 + c * 0x10 + d) as nat,
            ),
            _ => None,
        }
    } else {
        None
    }
}

/// The UTF-8 bytes of a Unicode scalar value.
pub open spec fn enc_cp(cp: nat) -> Seq<u8> {
    if cp < 0x80 {
        seq![cp as u8]
    } else if cp < 0x800 {
        seq![(0xc0 + cp / 0x40) as u8, (0x80 + cp % 0x40) as u8]
    } else if cp < 0x1_0000 {
        seq![
            (0xe0 + cp / 0x1000) as u8,
            (0x80 + (cp / 0x40) % 0x40) as u8,
            (0x80 + cp % 0x40) as u8,
        ]
    } else {
        seq![
            (0xf0 + cp / 0x4_0000) as u8,
            (0x80 + (cp / 0x1000) % 0x40) as u8,
            (0x80 + (cp / 0x40) % 0x40) as u8,
            (0x80 + cp % 0x40) as u8,
        ]
    }
}

/// A string body starting at `i` (just past the opening quote): the content
/// bytes with escapes resolved, and the position past the closing quote.
/// A backslash escape covers the JSON escapes, with \u giving a code point
/// and surrogate pairs combined; a lone surrogate is rejected.
pub open spec fn sp_string_body(s: Seq<u8>, i: int) -> Option<(Seq<u8>, int)>
    decreases s.len() - i,
{
    if !(0 <= i < s.len()) {
        None
    } else if s[i] == 0x22 {
        Some((Seq::empty(), i + 1))
    } else if s[i] == 0x5c {
        if i + 1 >= s.len() {
            None
        } else {
            let c = s[i + 1];
            let piece: Option<(Seq<u8>, int)> = if c == 0x22 || c == 0x5c || c == 0x2f {
                Some((seq![c], i + 2))
            } else if c == 0x62 {
                Some((seq![0x08u8], i + 2))
            } else if c == 0x66 {
                Some((seq![0x0cu8], i + 2))
            } else if c == 0x6e {
                Some((seq![0x0au8], i + 2))
            } else if c == 0x72 {
                Some((seq![0x0du8], i + 2))
            } else if c == 0x74 {
                Some((seq![0x09u8], i + 2))
            } else if c == 0x75 {
                match hex4(s, i + 2) {
                    None => None,
                    Some(cp) => if 0xd800 <= cp < 0xdc00 {
                        if i + 8 <= s.len() && s[i + 6] == 0x5c && s[i + 7] == 0x75 {
                            match hex4(s, i + 8) {
                                Some(lo) => if 0xdc00 <= lo < 0xe000 {
                                    Some(
                                        (
                                            enc_cp(
                                                (0x1_0000 + (cp - 0xd800) * 0x400 + (lo
                                                    - 0xdc00)) as nat,
                                            ),
                                            i + 12,
                                        ),
                                    )
                                } else {
                                    None
                                },
                                None => None,
                            }
                        } else {
                            None
                        }
                    } else if 0xdc00 <= cp < 0xe000 {
                        None
                    } else {
                        Some((enc_cp(cp), i + 6))
                    },
                }
            } else {
                None
            };
            match piece {
                None => None,
                Some((bytes, j)) => match sp_string_body(s, j) {
                    Some((rest, k)) => Some((bytes + rest, k)),
                    None => None,
                },
            }
        }
    } else {
        match sp_string_body(s, i + 1) {
            Some((rest, k)) => Some((seq![s[i]] + rest, k)),
            None => None,
        }
    }
}

/// Digit accumulation: a mantissa kept within 64 bits, with digits beyond
/// that widening the exponent instead.
pub open spec fn sp_int_digits(s: Seq<u8>, i: int, m: nat, extra: nat) -> (nat, nat, int)
    decreases s.len() - i,
{
    if 0 <= i < s.len() && is_digit(s[i]) {
        if m <= 1844674407370955160 {
            sp_int_digits(s, i + 1, (m * 10 + (s[i] - 0x30)) as nat, extra)
        } else {
            sp_int_digits(s, i + 1, m, (extra + 1) as nat)
        }
    } else {
        (m, extra, i)
    }
}

/// Fraction digits: each kept digit deepens the decimal places; digits past
/// the mantissa's capacity are dropped.
pub open spec fn sp_frac_digits(s: Seq<u8>, i: int, m: nat, fcount: nat) -> (nat, nat, int)
    decreases s.len() - i,
{
    if 0 <= i < s.len() && is_digit(s[i]) {
        if m <= 1844674407370955160 {
            sp_frac_digits(s, i + 1, (m * 10 + (s[i] - 0x30)) as nat, (fcount + 1) as nat)
        } else {
            sp_frac_digits(s, i + 1, m, fcount)
        }
    } else {
        (m, fcount, i)
    }
}

/// Exponent digits, saturated well past any effect on the value.
pub open spec fn sp_exp_digits(s: Seq<u8>, i: int, v: nat) -> (nat, int)
    decreases s.len() - i,
{
    if 0 <= i < s.len() && is_digit(s[i]) {
        if v <= 100000 {
            sp_exp_digits(s, i + 1, (v * 10 + (s[i] - 0x30)) as nat)
        } else {
            sp_exp_digits(s, i + 1, v)
        }
    } else {
        (v, i)
    }
}

/// Saturating conversion of ±v to a 32-bit integer, as a float-to-integer
/// cast saturates.
pub open spec fn sat_i32(neg: bool, v: nat) -> i32 {
    if neg {
        if v >= 0x8000_0000 {
            i32::MIN
        } else {
            (0 - v as int) as i32
        }
    } else {
        if v > 0x7fff_ffff {
            i32::MAX
        } else {
            v as i32
        }
    }
}

/// Strips factors of ten into the decimal-place count.
pub open spec fn norm_frac(m: nat, d: nat) -> (nat, nat)
    decreases d,
{
    if d == 0 {
        (m, 0)
    } else if m % 10 == 0 {
        norm_frac(m / 10, (d - 1) as nat)
    } else {
        (m, d)
    }
}

/// The tag of a parsed number ±m * 10^e10: an integer when the value has no
/// fractional part, else a float.
pub open spec fn number_tag(neg: bool, m: nat, e10: int) -> JsonTag {
    if e10 >= 0 {
        JsonTag::Int(sat_i32(neg, m * pow10(e10 as nat)))
    } else {
        let md = norm_frac(m, (0 - e10) as nat);
        if md.1 == 0 {
            JsonTag::Int(sat_i32(neg, md.0))
        } else {
            JsonTag::Float(f32_bits_of(neg, md.0, md.1))
        }
    }
}

/// A number starting at `i`: optional minus, integer digits, optional
/// fraction and exponent.
pub open spec fn sp_number(s: Seq<u8>, i: int) -> Option<(JsonTag, int)> {
    let neg = 0 <= i < s.len() && s[i] == 0x2d;
    let i1: int = if neg {
        i + 1
    } else {
        i
    };
    if !(0 <= i1 < s.len() && is_digit(s[i1])) {
        None
    } else {
        let mej = sp_int_digits(s, i1, 0, 0);
        let m0 = mej.0;
        let extra = mej.1;
        let j0 = mej.2;
        let after_frac: Option<(nat, nat, int)> = if j0 < s.len() && s[j0] == 0x2e {
            if j0 + 1 < s.len() && is_digit(s[j0 + 1]) {
                Some(sp_frac_digits(s, j0 + 1, m0, 0))
            } else {
                None
            }
        } else {
            Some((m0, 0, j0))
        };
        match after_frac {
            None => None,
            Some((m1, fcount, j1)) => {
                let with_exp: Option<(int, int)> = if j1 < s.len() && (s[j1] == 0x65 || s[j1]
                    == 0x45) {
                    let eneg = j1 + 1 < s.len() && s[j1 + 1] == 0x2d;
                    let epos = j1 + 1 < s.len() && s[j1 + 1] == 0x2b;
                    let j2: int = if eneg || epos {
                        j1 + 2
                    } else {
                        j1 + 1
                    };
                    if j2 < s.len() && is_digit(s[j2]) {
                        let vj = sp_exp_digits(s, j2, 0);
                        Some((if eneg { 0 - vj.0 } else { vj.0 as int }, vj.1))
                    } else {
                        None
                    }
                } else {
                    Some((0, j1))
                };
                match with_exp {
                    None => None,
                    Some((ev, j3)) => Some(
                        (number_tag(neg, m1, extra + ev - fcount), j3),
                    ),
                }
            },
        }
    }
}

pub open spec fn jtag_kind(t: JsonTag) -> int {
    match t {
        JsonTag::Byte(_) => 0,
        JsonTag::Int(_) => 1,
        JsonTag::Float(_) => 2,
        JsonTag::Str(_) => 3,
        JsonTag::List(_) => 4,
        JsonTag::Compound(_) => 5,
    }
}

pub open spec fn jtags_homogeneous(s: Seq<JsonTag>) -> bool {
    forall|i: int| 0 <= i < s.len() ==> jtag_kind(#[trigger] s[i]) == jtag_kind(s[0])
}

/// One JSON value starting at `i`, after leading whitespace: an object, an
/// array (required to be type-homogeneous), a string of at most 65535 bytes,
/// a boolean, or a number. A null is not importable and is rejected.
pub open spec fn sp_value(s: Seq<u8>, i: int, fuel: nat) -> Option<(JsonTag, int)>
    decreases fuel,
{
    if fuel == 0 {
        None
    } else {
        let j = skip_ws(s, i);
        if !(0 <= j < s.len()) {
            None
        } else {
            let c = s[j];
            if c == 0x7b {
                match sp_object(s, j + 1, (fuel - 1) as nat) {
                    Some((members, k)) => Some((JsonTag::Compound(members), k)),
                    None => None,
                }
            } else if c == 0x5b {
                match sp_array(s, j + 1, (fuel - 1) as nat) {
                    Some((items, k)) => if jtags_homogeneous(items) {
                        Some((JsonTag::List(items), k))
                    } else {
                        None
                    },
                    None => None,
                }
            } else if c == 0x22 {
                match sp_string_body(s, j + 1) {
                    Some((bytes, k)) => if bytes.len() <= 0xffff {
                        Some((JsonTag::Str(bytes), k))
                    } else {
                        None
                    },
                    None => None,
                }
            } else if c == 0x74 {
                if j + 4 <= s.len() && s[j + 1] == 0x72 && s[j + 2] == 0x75 && s[j + 3] == 0x65 {
                    Some((JsonTag::Byte(1), j + 4))
                } else {
                    None
                }
            } else if c == 0x66 {
                if j + 5 <= s.len() && s[j + 1] == 0x61 && s[j + 2] == 0x6c && s[j + 3] == 0x73
                    && s[j + 4] == 0x65 {
                    Some((JsonTag::Byte(0), j + 5))
                } else {
                    None
                }
            } else if c == 0x2d || is_digit(c) {
                sp_number(s, j)
            } else {
                None
            }
        }
    }
}

/// An array's items starting just past `[`, when the array is not empty.
pub open spec fn sp_array(s: Seq<u8>, i: int, fuel: nat) -> Option<(Seq<JsonTag>, int)>
    decreases fuel,
{
    if fuel == 0 {
        None
    } else {
        let j = skip_ws(s, i);
        if 0 <= j < s.len() && s[j] == 0x5d {
            Some((Seq::empty(), j + 1))
        } else {
            sp_array_items(s, i, (fuel - 1) as nat)
        }
    }
}

pub open spec fn sp_array_items(s: Seq<u8>, i: int, fuel: nat) -> Option<(Seq<JsonTag>, int)>
    decreases fuel,
{
    if fuel == 0 {
        None
    } else {
        match sp_value(s, i, (fuel - 1) as nat) {
            None => None,
            Some((v, j)) => {
                let k = skip_ws(s, j);
                if !(0 <= k < s.len()) {
                    None
                } else if s[k] == 0x2c {
                    match sp_array_items(s, k + 1, (fuel - 1) as nat) {
                        Some((rest, l)) => Some((seq![v] + rest, l)),
                        None => None,
                    }
                } else if s[k] == 0x5d {
                    Some((seq![v], k + 1))
                } else {
                    None
                }
            },
        }
    }
}

/// An object's members starting just past `{`.
pub open spec fn sp_object(s: Seq<u8>, i: int, fuel: nat) -> Option<
    (Seq<(Seq<u8>, JsonTag)>, int),
>
    decreases fuel,
{
    if fuel == 0 {
        None
    } else {
        let j = skip_ws(s, i);
        if 0 <= j < s.len() && s[j] == 0x7d {
            Some((Seq::empty(), j + 1))
        } else {
            sp_members(s, i, (fuel - 1) as nat)
        }
    }
}

pub open spec fn sp_members(s: Seq<u8>, i: int, fuel: nat) -> Option<(Seq<(Seq<u8>, JsonTag)>, int)>
    decreases fuel,
{
    if fuel == 0 {
        None
    } else {
        let j = skip_ws(s, i);
        if !(0 <= j < s.len() && s[j] == 0x22) {
            None
        } else {
            match sp_string_body(s, j + 1) {
                None => None,
                Some((key, k)) => if key.len() > 0xffff {
                    None
                } else {
                    let l = skip_ws(s, k);
                    if !(0 <= l < s.len() && s[l] == 0x3a) {
                        None
                    } else {
                        match sp_value(s, l + 1, (fuel - 1) as nat) {
                            None => None,
                            Some((v, n)) => {
                                let o = skip_ws(s, n);
                                if !(0 <= o < s.len()) {
                                    None
                                } else if s[o] == 0x2c {
                                    match sp_members(s, o + 1, (fuel - 1) as nat) {
                                        Some((rest, q)) => Some((seq![(key, v)] + rest, q)),
                                        None => None,
                                    }
                                } else if s[o] == 0x7d {
                                    Some((seq![(key, v)], o + 1))
                                } else {
                                    None
                                }
                            },
                        }
                    }
                },
            }
        }
    }
}

/// The imported document: one object, possibly surrounded by whitespace,
/// spanning the whole input.
pub open spec fn spec_from_json(s: Seq<u8>) -> Option<JsonTag> {
    match sp_value(s, 0, (2 * s.len() + 4) as nat) {
        None => None,
        Some((t, j)) => if skip_ws(s, j) == s.len() && t is Compound {
            Some(t)
        } else {
            None
        },
    }
}

pub proof fn lemma_skip_ws(s: Seq<u8>, i: int)
    requires
        0 <= i <= s.len(),
    ensures
        i <= skip_ws(s, i) <= s.len(),
    decreases s.len() - i,
{
    if 0 <= i < s.len() && is_ws(s[i]) {
        lemma_skip_ws(s, i + 1);
    }
}

pub proof fn lemma_sp_int_digits_pos(s: Seq<u8>, i: int, m: nat, extra: nat)
    requires
        0 <= i <= s.len(),
    ensures
        i <= sp_int_digits(s, i, m, extra).2 <= s.len(),
    decreases s.len() - i,
{
    if 0 <= i < s.len() && is_digit(s[i]) {
        if m <= 1844674407370955160 {
            lemma_sp_int_digits_pos(s, i + 1, (m * 10 + (s[i] - 0x30)) as nat, extra);
        } else {
            lemma_sp_int_digits_pos(s, i + 1, m, (extra + 1) as nat);
        }
    }
}

pub proof fn lemma_sp_frac_digits_pos(s: Seq<u8>, i: int, m: nat, fcount: nat)
    requires
        0 <= i <= s.len(),
    ensures
        i <= sp_frac_digits(s, i, m, fcount).2 <= s.len(),
    decreases s.len() - i,
{
    if 0 <= i < s.len() && is_digit(s[i]) {
        if m <= 1844674407370955160 {
            lemma_sp_frac_digits_pos(s, i + 1, (m * 10 + (s[i] - 0x30)) as nat, (fcount + 1) as nat);
        } else {
            lemma_sp_frac_digits_pos(s, i + 1, m, fcount);
        }
    }
}

pub proof fn lemma_sp_exp_digits_pos(s: Seq<u8>, i: int, v: nat)
    requires
        0 <= i <= s.len(),
    ensures
        i <= sp_exp_digits(s, i, v).1 <= s.len(),
    decreases s.len() - i,
{
    if 0 <= i < s.len() && is_digit(s[i]) {
        if v <= 100000 {
            lemma_sp_exp_digits_pos(s, i + 1, (v * 10 + (s[i] - 0x30)) as nat);
        } else {
            lemma_sp_exp_digits_pos(s, i + 1, v);
        }
    }
}

pub proof fn lemma_sp_string_body_pos(s: Seq<u8>, i: int)
    requires
        0 <= i,
    ensures
        sp_string_body(s, i) matches Some(p) ==> i + 1 <= p.1 <= s.len(),
    decreases s.len() - i,
{
    if 0 <= i < s.len() {
        if s[i] == 0x22 {
        } else if s[i] == 0x5c {
            if i + 1 < s.len() {
                lemma_sp_string_body_pos(s, i + 2);
                if i + 6 <= s.len() {
                    lemma_sp_string_body_pos(s, i + 6);
                }
                if i + 12 <= s.len() {
                    lemma_sp_string_body_pos(s, i + 12);
                }
            }
        } else {
            lemma_sp_string_body_pos(s, i + 1);
        }
    }
}

pub proof fn lemma_sp_number_pos(s: Seq<u8>, i: int)
    requires
        0 <= i <= s.len(),
    ensures
        sp_number(s, i) matches Some(p) ==> i + 1 <= p.1 <= s.len(),
{
    let neg = 0 <= i < s.len() && s[i] == 0x2d;
    let i1: int = if neg {
        i + 1
    } else {
        i
    };
    if 0 <= i1 < s.len() && is_digit(s[i1]) {
        lemma_sp_int_digits_pos(s, i1, 0, 0);
        let j0 = sp_int_digits(s, i1, 0, 0).2;
        assert(j0 >= i1 + 1) by {
            assert(sp_int_digits(s, i1, 0, 0) == if 0 <= i1 < s.len() && is_digit(s[i1]) {
                sp_int_digits(s, i1 + 1, (0 * 10 + (s[i1] - 0x30)) as nat, 0)
            } else {
                (0 as nat, 0 as nat, i1)
            });
            lemma_sp_int_digits_pos(s, i1 + 1, (s[i1] - 0x30) as nat, 0);
        }
        if j0 < s.len() && s[j0] == 0x2e {
            if j0 + 1 < s.len() && is_digit(s[j0 + 1]) {
                lemma_sp_frac_digits_pos(s, j0 + 1, sp_int_digits(s, i1, 0, 0).0, 0);
            }
        }
        let af = if j0 < s.len() && s[j0] == 0x2e {
            if j0 + 1 < s.len() && is_digit(s[j0 + 1]) {
                Some(sp_frac_digits(s, j0 + 1, sp_int_digits(s, i1, 0, 0).0, 0))
            } else {
                None
            }
        } else {
            Some((sp_int_digits(s, i1, 0, 0).0, 0 as nat, j0))
        };
        if af is Some {
            let j1 = af.unwrap().2;
            if j1 < s.len() && (s[j1] == 0x65 || s[j1] == 0x45) {
                let eneg = j1 + 1 < s.len() && s[j1 + 1] == 0x2d;
                let epos = j1 + 1 < s.len() && s[j1 + 1] == 0x2b;
                let j2: int = if eneg || epos {
                    j1 + 2
                } else {
                    j1 + 1
                };
                if j2 < s.len() && is_digit(s[j2]) {
                    lemma_sp_exp_digits_pos(s, j2, 0);
                }
            }
        }
    }
}

/// Positions move forward through every parse: the end of a parsed value
/// stands strictly past its start, and a list's or object's entry count is
/// bounded by the bytes it spans.
pub proof fn lemma_sp_value_pos(s: Seq<u8>, i: int, fuel: nat)
    requires
        0 <= i <= s.len(),
    ensures
        sp_value(s, i, fuel) matches Some(p) ==> i < p.1 <= s.len(),
    decreases fuel, 2int,
{
    if fuel > 0 {
        lemma_skip_ws(s, i);
        let j = skip_ws(s, i);
        if 0 <= j < s.len() {
            if s[j] == 0x7b {
                lemma_sp_object_pos(s, j + 1, (fuel - 1) as nat);
            } else if s[j] == 0x5b {
                lemma_sp_array_pos(s, j + 1, (fuel - 1) as nat);
            } else if s[j] == 0x22 {
                lemma_sp_string_body_pos(s, j + 1);
            } else if s[j] == 0x2d || is_digit(s[j]) {
                lemma_sp_number_pos(s, j);
            }
        }
    }
}

pub proof fn lemma_sp_array_pos(s: Seq<u8>, i: int, fuel: nat)
    requires
        0 <= i <= s.len(),
    ensures
        sp_array(s, i, fuel) matches Some(p) ==> i <= p.1 <= s.len() && p.0.len() <= s.len() - i,
    decreases fuel, 1int,
{
    if fuel > 0 {
        lemma_skip_ws(s, i);
        lemma_sp_array_items_pos(s, i, (fuel - 1) as nat);
    }
}

pub proof fn lemma_sp_array_items_pos(s: Seq<u8>, i: int, fuel: nat)
    requires
        0 <= i <= s.len(),
    ensures
        sp_array_items(s, i, fuel) matches Some(p) ==> i < p.1 <= s.len() && p.0.len() <= p.1 - i,
    decreases fuel, 0int,
{
    if fuel > 0 {
        lemma_sp_value_pos(s, i, (fuel - 1) as nat);
        match sp_value(s, i, (fuel - 1) as nat) {
            None => {},
            Some((v, j)) => {
                lemma_skip_ws(s, j);
                let k = skip_ws(s, j);
                if 0 <= k < s.len() && s[k] == 0x2c {
                    lemma_sp_array_items_pos(s, k + 1, (fuel - 1) as nat);
                }
            },
        }
    }
}

pub proof fn lemma_sp_object_pos(s: Seq<u8>, i: int, fuel: nat)
    requires
        0 <= i <= s.len(),
    ensures
        sp_object(s, i, fuel) matches Some(p) ==> i <= p.1 <= s.len() && p.0.len() <= s.len() - i,
    decreases fuel, 1int,
{
    if fuel > 0 {
        lemma_skip_ws(s, i);
        lemma_sp_members_pos(s, i, (fuel - 1) as nat);
    }
}

pub proof fn lemma_sp_members_pos(s: Seq<u8>, i: int, fuel: nat)
    requires
        0 <= i <= s.len(),
    ensures
        sp_members(s, i, fuel) matches Some(p) ==> i < p.1 <= s.len() && p.0.len() <= p.1 - i,
    decreases fuel, 0int,
{
    if fuel > 0 {
        lemma_skip_ws(s, i);
        let j = skip_ws(s, i);
        if 0 <= j < s.len() && s[j] == 0x22 {
            lemma_sp_string_body_pos(s, j + 1);
            match sp_string_body(s, j + 1) {
                None => {},
                Some((key, k)) => {
                    lemma_skip_ws(s, k);
                    let l = skip_ws(s, k);
                    if 0 <= l < s.len() && s[l] == 0x3a {
                        lemma_sp_value_pos(s, l + 1, (fuel - 1) as nat);
                        match sp_value(s, l + 1, (fuel - 1) as nat) {
                            None => {},
                            Some((v, n)) => {
                                lemma_skip_ws(s, n);
                                let o = skip_ws(s, n);
                                if 0 <= o < s.len() && s[o] == 0x2c {
                                    lemma_sp_members_pos(s, o + 1, (fuel - 1) as nat);
                                }
                            },
                        }
                    }
                },
            }
        }
    }
}

/// Element views of a viewed sequence.
pub proof fn lemma_json_views_index(s: Seq<NBT>, r: Seq<JsonTag>)
    requires
        json_views(s) == Some(r),
    ensures
        r.len() == s.len(),
        forall|i: int| 0 <= i < s.len() ==> json_view(#[trigger] s[i]) == Some(r[i]),
    decreases s.len(),
{
    if s.len() > 0 {
        let rest = json_views(s.drop_first()).unwrap();
        lemma_json_views_index(s.drop_first(), rest);
        assert forall|i: int| 0 <= i < s.len() implies json_view(#[trigger] s[i]) == Some(r[i]) by {
            if i > 0 {
                assert(s.drop_first()[i - 1] == s[i]);
                assert(r[i] == rest[i - 1]);
            }
        }
    }
}

pub proof fn lemma_json_named_views_index(s: Seq<NamedTag>, r: Seq<(Seq<u8>, JsonTag)>)
    requires
        json_named_views(s) == Some(r),
    ensures
        r.len() == s.len(),
        forall|i: int|
            0 <= i < s.len() ==> json_view((#[trigger] s[i]).tag) == Some(r[i].1) && s[i].name@
                == r[i].0,
    decreases s.len(),
{
    if s.len() > 0 {
        let rest = json_named_views(s.drop_first()).unwrap();
        lemma_json_named_views_index(s.drop_first(), rest);
        assert forall|i: int|
            0 <= i < s.len() implies json_view((#[trigger] s[i]).tag) == Some(r[i].1) && s[i].name@
            == r[i].0 by {
            if i > 0 {
                assert(s.drop_first()[i - 1] == s[i]);
                assert(r[i] == rest[i - 1]);
            }
        }
    }
}

/// The importable tag variants and their type bytes correspond one to one.
pub proof fn lemma_view_kind(t: NBT, g: JsonTag)
    requires
        json_view(t) == Some(g),
    ensures
        jtag_kind(g) == kind_of_type(crate::nbt::type_id_of(t)),
{
}

pub open spec fn kind_of_type(ty: u8) -> int {
    if ty == 1 {
        0
    } else if ty == 3 {
        1
    } else if ty == 5 {
        2
    } else if ty == 8 {
        3
    } else if ty == 9 {
        4
    } else if ty == 10 {
        5
    } else {
        -1
    }
}

fn skip_ws_exec(s: &[u8], i: usize) -> (r: usize)
    requires
        i <= s@.len(),
    ensures
        r == skip_ws(s@, i as int),
        i <= r <= s@.len(),
{
    let mut cur = i;
    proof {
        lemma_skip_ws(s@, i as int);
    }
    while cur < s.len() && (s[cur] == 0x20 || s[cur] == 0x09 || s[cur] == 0x0a || s[cur] == 0x0d)
        invariant
            i <= cur <= s@.len(),
            skip_ws(s@, i as int) == skip_ws(s@, cur as int),
            skip_ws(s@, i as int) <= s@.len(),
        decreases s@.len() - cur,
    {
        cur = cur + 1;
    }
    cur
}

fn hex_val_exec(c: u8) -> (r: Option<u8>)
    ensures
        match r {
            Some(v) => hex_val(c) == Some(v as nat) && v < 16,
            None => hex_val(c) is None,
        },
{
    if 0x30 <= c && c <= 0x39 {
        Some(c - 0x30)
    } else if 0x61 <= c && c <= 0x66 {
        Some(c - 0x61 + 10)
    } else if 0x41 <= c && c <= 0x46 {
        Some(c - 0x41 + 10)
    } else {
        None
    }
}

fn hex4_exec(s: &[u8], i: usize) -> (r: Option<u32>)
    requires
        i <= s@.len(),
        s@.len() <= 0x7ffe_0000,
    ensures
        match r {
            Some(v) => hex4(s@, i as int) == Some(v as nat) && v < 0x1_0000,
            None => hex4(s@, i as int) is None,
        },
{
    if i + 4 > s.len() {
        return None;
    }
    let (a, b, c, d) = match (
        hex_val_exec(s[i]),
        hex_val_exec(s[i + 1]),
        hex_val_exec(s[i + 2]),
        hex_val_exec(s[i + 3]),
    ) {
        (Some(a), Some(b), Some(c), Some(d)) => (a, b, c, d),
        _ => {
            return None;
        },
    };
    Some((a as u32) * 0x1000 + (b as u32) * 0x100 + (c as u32) * 0x10 + (d as u32))
}

/// Appends the UTF-8 bytes of a scalar value.
fn push_cp(out: &mut Vec<u8>, cp: u32) -> (unit: ())
    requires
        cp < 0x11_0000,
    ensures
        final(out)@ == old(out)@ + enc_cp(cp as nat),
{
    if cp < 0x80 {
        out.push(cp as u8);
        assert(out@ =~= old(out)@ + enc_cp(cp as nat));
    } else if cp < 0x800 {
        out.push((0xc0 + cp / 0x40) as u8);
        out.push((0x80 + cp % 0x40) as u8);
        assert(out@ =~= old(out)@ + enc_cp(cp as nat));
    } else if cp < 0x1_0000 {
        out.push((0xe0 + cp / 0x1000) as u8);
        out.push((0x80 + (cp / 0x40) % 0x40) as u8);
        out.push((0x80 + cp % 0x40) as u8);
        assert(out@ =~= old(out)@ + enc_cp(cp as nat));
    } else {
        out.push((0xf0 + cp / 0x4_0000) as u8);
        out.push((0x80 + (cp / 0x1000) % 0x40) as u8);
        out.push((0x80 + (cp / 0x40) % 0x40) as u8);
        out.push((0x80 + cp % 0x40) as u8);
        assert(out@ =~= old(out)@ + enc_cp(cp as nat));
    }
}

/// Composing one resolved piece into the accumulated string body.
proof fn lemma_compose_piece(
    s: Seq<u8>,
    i: int,
    cur: int,
    nxt: int,
    acc0: Seq<u8>,
    acc1: Seq<u8>,
    piece: Seq<u8>,
)
    requires
        sp_string_body(s, i) == (match sp_string_body(s, cur) {
            Some(p) => Some((acc0 + p.0, p.1)),
            None => None::<(Seq<u8>, int)>,
        }),
        sp_string_body(s, cur) == (match sp_string_body(s, nxt) {
            Some(p) => Some((piece + p.0, p.1)),
            None => None::<(Seq<u8>, int)>,
        }),
        acc1 == acc0 + piece,
    ensures
        sp_string_body(s, i) == (match sp_string_body(s, nxt) {
            Some(p) => Some((acc1 + p.0, p.1)),
            None => None::<(Seq<u8>, int)>,
        }),
{
    match sp_string_body(s, nxt) {
        Some(p) => {
            assert(acc0 + (piece + p.0) =~= acc1 + p.0);
        },
        None => {},
    }
}

/// Reads a string body, resolving escapes, up to the closing quote.
fn p_string_body(s: &[u8], i: usize) -> (r: Option<(Vec<u8>, usize)>)
    requires
        i <= s@.len(),
        s@.len() <= 0x7ffe_0000,
    ensures
        match (r, sp_string_body(s@, i as int)) {
            (Some(a), Some(b)) => a.0@ == b.0 && a.1 == b.1 && i < a.1 <= s@.len(),
            (None, None) => true,
            _ => false,
        },
{
    proof {
        lemma_sp_string_body_pos(s@, i as int);
    }
    let mut acc: Vec<u8> = Vec::new();
    let mut cur = i;
    proof {
        assert(acc@ =~= Seq::<u8>::empty());
        match sp_string_body(s@, i as int) {
            Some(p) => {
                assert(acc@ + p.0 =~= p.0);
            },
            None => {},
        }
    }
    loop
        invariant
            i <= cur <= s@.len(),
            s@.len() <= 0x7ffe_0000,
            sp_string_body(s@, i as int) == (match sp_string_body(s@, cur as int) {
                Some(p) => Some((acc@ + p.0, p.1)),
                None => None::<(Seq<u8>, int)>,
            }),
            (match sp_string_body(s@, i as int) {
                Some(p) => i < p.1 <= s@.len(),
                None => true,
            }),
        decreases s@.len() - cur,
    {
        if cur >= s.len() {
            return None;
        }
        let c = s[cur];
        if c == 0x22 {
            proof {
                assert(acc@ + Seq::<u8>::empty() =~= acc@);
            }
            return Some((acc, cur + 1));
        }
        if c == 0x5c {
            if cur + 1 >= s.len() {
                return None;
            }
            let e = s[cur + 1];
            let ghost acc0 = acc@;
            let ghost icur = cur as int;
            let nxt: usize;
            if e == 0x22 || e == 0x5c || e == 0x2f {
                acc.push(e);
                nxt = cur + 2;
                proof {
                    assert(acc@ =~= acc0 + seq![e]);
                    lemma_compose_piece(s@, i as int, icur, nxt as int, acc0, acc@, seq![e]);
                }
            } else if e == 0x62 {
                acc.push(0x08);
                nxt = cur + 2;
                proof {
                    assert(acc@ =~= acc0 + seq![0x08u8]);
                    lemma_compose_piece(s@, i as int, icur, nxt as int, acc0, acc@, seq![0x08u8]);
                }
            } else if e == 0x66 {
                acc.push(0x0c);
                nxt = cur + 2;
                proof {
                    assert(acc@ =~= acc0 + seq![0x0cu8]);
                    lemma_compose_piece(s@, i as int, icur, nxt as int, acc0, acc@, seq![0x0cu8]);
                }
            } else if e == 0x6e {
                acc.push(0x0a);
                nxt = cur + 2;
                proof {
                    assert(acc@ =~= acc0 + seq![0x0au8]);
                    lemma_compose_piece(s@, i as int, icur, nxt as int, acc0, acc@, seq![0x0au8]);
                }
            } else if e == 0x72 {
                acc.push(0x0d);
                nxt = cur + 2;
                proof {
                    assert(acc@ =~= acc0 + seq![0x0du8]);
                    lemma_compose_piece(s@, i as int, icur, nxt as int, acc0, acc@, seq![0x0du8]);
                }
            } else if e == 0x74 {
                acc.push(0x09);
                nxt = cur + 2;
                proof {
                    assert(acc@ =~= acc0 + seq![0x09u8]);
                    lemma_compose_piece(s@, i as int, icur, nxt as int, acc0, acc@, seq![0x09u8]);
                }
            } else if e == 0x75 {
                let cp = match hex4_exec(s, cur + 2) {
                    Some(v) => v,
                    None => {
                        return None;
                    },
                };
                if 0xd800 <= cp && cp < 0xdc00 {
                    if cur + 8 <= s.len() && s[cur + 6] == 0x5c && s[cur + 7] == 0x75 {
                        let lo = match hex4_exec(s, cur + 8) {
                            Some(v) => v,
                            None => {
                                return None;
                            },
                        };
                        if 0xdc00 <= lo && lo < 0xe000 {
                            let full: u32 = 0x1_0000 + (cp - 0xd800) * 0x400 + (lo - 0xdc00);
                            push_cp(&mut acc, full);
                            nxt = cur + 12;
                            proof {
                                lemma_compose_piece(
                                    s@,
                                    i as int,
                                    icur,
                                    nxt as int,
                                    acc0,
                                    acc@,
                                    enc_cp(full as nat),
                                );
                            }
                        } else {
                            return None;
                        }
                    } else {
                        return None;
                    }
                } else if 0xdc00 <= cp && cp < 0xe000 {
                    return None;
                } else {
                    push_cp(&mut acc, cp);
                    nxt = cur + 6;
                    proof {
                        lemma_compose_piece(
                            s@,
                            i as int,
                            icur,
                            nxt as int,
                            acc0,
                            acc@,
                            enc_cp(cp as nat),
                        );
                    }
                }
            } else {
                return None;
            }
            cur = nxt;
        } else {
            let ghost acc0 = acc@;
            let ghost icur = cur as int;
            acc.push(c);
            proof {
                assert(acc@ =~= acc0 + seq![c]);
                lemma_compose_piece(s@, i as int, icur, (icur + 1) as int, acc0, acc@, seq![c]);
            }
            cur = cur + 1;
        }
    }
}

proof fn lemma_pow10_10()
    ensures
        pow10(10) == 10000000000,
{
    assert(pow10(0) == 1);
    assert(pow10(1) == 10);
    assert(pow10(2) == 100);
    assert(pow10(3) == 1000);
    assert(pow10(4) == 10000);
    assert(pow10(5) == 100000);
    assert(pow10(6) == 1000000);
    assert(pow10(7) == 10000000);
    assert(pow10(8) == 100000000);
    assert(pow10(9) == 1000000000);
    assert(pow10(10) == 10000000000);
}

/// The saturating integer value of ±m * 10^e.
fn sat_mul_pow10(neg: bool, m: u64, e: i64) -> (r: i32)
    requires
        e >= 0,
    ensures
        r == sat_i32(neg, (m as nat) * pow10(e as nat)),
{
    if m == 0 {
        proof {
            assert((0 as nat) * pow10(e as nat) == 0) by (nonlinear_arith);
        }
        return 0;
    }
    if e > 9 {
        proof {
            lemma_pow10_10();
            crate::fbits::lemma_pow10_mono(10, e as nat);
            assert((m as nat) * pow10(e as nat) >= pow10(e as nat)) by (nonlinear_arith)
                requires
                    m >= 1,
                    pow10(e as nat) >= 0,
            ;
        }
        if neg {
            return i32::MIN;
        } else {
            return i32::MAX;
        }
    }
    let mut p: u64 = 1;
    let mut j: i64 = 0;
    proof {
        lemma_pow10_10();
    }
    while j < e
        invariant
            0 <= j <= e <= 9,
            p == pow10(j as nat),
            p <= 1000000000,
        decreases e - j,
    {
        proof {
            crate::fbits::lemma_pow10_mono((j + 1) as nat, 9);
            assert(pow10(9) == 1000000000) by {
                lemma_pow10_10();
            }
        }
        p = p * 10;
        j = j + 1;
    }
    proof {
        assert((m as int) * (p as int) <= 0xffff_ffff_ffff_ffff * 1000000000int)
            by (nonlinear_arith)
            requires
                0 <= m <= 0xffff_ffff_ffff_ffff,
                0 <= p <= 1000000000,
        ;
    }
    let v: u128 = (m as u128) * (p as u128);
    proof {
        assert((m as u128) * (p as u128) == (m as nat) * pow10(e as nat));
    }
    if neg {
        if v >= 0x8000_0000 {
            i32::MIN
        } else {
            let w = v as u32;
            proof {
                assert(0 - (v as int) >= i32::MIN);
            }
            0 - (w as i32)
        }
    } else {
        if v > 0x7fff_ffff {
            i32::MAX
        } else {
            v as i32
        }
    }
}

/// Reads a number and forms its tag: an integer when the value has no
/// fractional part, else a float.
fn p_number(s: &[u8], i: usize) -> (r: Option<(NBT, usize)>)
    requires
        i <= s@.len(),
        s@.len() <= 0x7ffe_0000,
    ensures
        match (r, sp_number(s@, i as int)) {
            (Some(a), Some(b)) => json_view(a.0) == Some(b.0) && a.1 == b.1 && i < a.1 <= s@.len()
                && crate::nbt::wf_tag(a.0),
            (None, None) => true,
            _ => false,
        },
{
    proof {
        lemma_sp_number_pos(s@, i as int);
    }
    let neg = i < s.len() && s[i] == 0x2d;
    let i1 = if neg {
        i + 1
    } else {
        i
    };
    if !(i1 < s.len() && 0x30 <= s[i1] && s[i1] <= 0x39) {
        return None;
    }
    // integer digits
    let mut m: u64 = 0;
    let mut extra: u32 = 0;
    let mut cur = i1;
    while cur < s.len() && 0x30 <= s[cur] && s[cur] <= 0x39
        invariant
            i1 <= cur <= s@.len(),
            s@.len() <= 0x7ffe_0000,
            extra <= cur,
            sp_int_digits(s@, i1 as int, 0, 0) == sp_int_digits(
                s@,
                cur as int,
                m as nat,
                extra as nat,
            ),
        decreases s@.len() - cur,
    {
        if m <= 1844674407370955160 {
            m = m * 10 + ((s[cur] - 0x30) as u64);
        } else {
            extra = extra + 1;
        }
        cur = cur + 1;
    }
    proof {
        assert(sp_int_digits(s@, cur as int, m as nat, extra as nat) == (
            m as nat,
            extra as nat,
            cur as int,
        ));
    }
    // fraction digits
    let mut fcount: u32 = 0;
    if cur < s.len() && s[cur] == 0x2e {
        if !(cur + 1 < s.len() && 0x30 <= s[cur + 1] && s[cur + 1] <= 0x39) {
            return None;
        }
        let fstart = cur + 1;
        cur = cur + 1;
        while cur < s.len() && 0x30 <= s[cur] && s[cur] <= 0x39
            invariant
                fstart <= cur <= s@.len(),
                s@.len() <= 0x7ffe_0000,
                fcount <= cur,
                sp_frac_digits(s@, fstart as int, sp_int_digits(s@, i1 as int, 0, 0).0, 0)
                    == sp_frac_digits(s@, cur as int, m as nat, fcount as nat),
            decreases s@.len() - cur,
        {
            if m <= 1844674407370955160 {
                m = m * 10 + ((s[cur] - 0x30) as u64);
                fcount = fcount + 1;
            }
            cur = cur + 1;
        }
        proof {
            assert(sp_frac_digits(s@, cur as int, m as nat, fcount as nat) == (
                m as nat,
                fcount as nat,
                cur as int,
            ));
        }
    }
    // exponent
    let mut ev: i64 = 0;
    if cur < s.len() && (s[cur] == 0x65 || s[cur] == 0x45) {
        let eneg = cur + 1 < s.len() && s[cur + 1] == 0x2d;
        let epos = cur + 1 < s.len() && s[cur + 1] == 0x2b;
        let estart = if eneg || epos {
            cur + 2
        } else {
            cur + 1
        };
        if !(estart < s.len() && 0x30 <= s[estart] && s[estart] <= 0x39) {
            return None;
        }
        let mut v: u32 = 0;
        cur = estart;
        while cur < s.len() && 0x30 <= s[cur] && s[cur] <= 0x39
            invariant
                estart <= cur <= s@.len(),
                v <= 1000009,
                sp_exp_digits(s@, estart as int, 0) == sp_exp_digits(s@, cur as int, v as nat),
            decreases s@.len() - cur,
        {
            if v <= 100000 {
                v = v * 10 + ((s[cur] - 0x30) as u32);
            }
            cur = cur + 1;
        }
        proof {
            assert(sp_exp_digits(s@, cur as int, v as nat) == (v as nat, cur as int));
        }
        ev = if eneg {
            0 - (v as i64)
        } else {
            v as i64
        };
    }
    // form the tag
    let e10: i64 = (extra as i64) + ev - (fcount as i64);
    let tag: NBT;
    if e10 >= 0 {
        tag = NBT::Int(sat_mul_pow10(neg, m, e10));
    } else {
        let mut dm: u64 = m;
        let mut dd: u32 = (0 - e10) as u32;
        while dd > 0 && dm % 10 == 0
            invariant
                norm_frac(m as nat, (0 - e10) as nat) == norm_frac(dm as nat, dd as nat),
            decreases dd,
        {
            dm = dm / 10;
            dd = dd - 1;
        }
        proof {
            assert(norm_frac(dm as nat, dd as nat) == (dm as nat, dd as nat));
        }
        if dd == 0 {
            tag = NBT::Int(sat_mul_pow10(neg, dm, 0));
            proof {
                assert(pow10(0) == 1);
                assert((dm as nat) * pow10(0) == dm as nat) by (nonlinear_arith)
                    requires
                        pow10(0) == 1,
                ;
            }
        } else {
            tag = NBT::Float(crate::fbits::f32_bits(neg, dm, dd));
        }
    }
    proof {
        assert(json_view(tag) == Some(number_tag(neg, m as nat, e10 as int)));
    }
    Some((tag, cur))
}

/// Reads one JSON value.
fn p_value(s: &[u8], i: usize, fuel: usize) -> (r: Option<(NBT, usize)>)
    requires
        i <= s@.len(),
        s@.len() <= 0x7ffe_0000,
    ensures
        match (r, sp_value(s@, i as int, fuel as nat)) {
            (Some(a), Some(b)) => json_view(a.0) == Some(b.0) && a.1 == b.1 && i < a.1 <= s@.len()
                && crate::nbt::wf_tag(a.0),
            (None, None) => true,
            _ => false,
        },
    decreases fuel, 2int,
{
    if fuel == 0 {
        return None;
    }
    proof {
        lemma_sp_value_pos(s@, i as int, fuel as nat);
    }
    let j = skip_ws_exec(s, i);
    if j >= s.len() {
        return None;
    }
    let c = s[j];
    if c == 0x7b {
        match p_object(s, j + 1, fuel - 1) {
            Some((members, k)) => {
                proof {
                    lemma_sp_object_pos(s@, j + 1, (fuel - 1) as nat);
                }
                Some((NBT::Compound(members), k))
            },
            None => None,
        }
    } else if c == 0x5b {
        match p_array(s, j + 1, fuel - 1) {
            Some((items, k)) => {
                proof {
                    lemma_sp_array_pos(s@, j + 1, (fuel - 1) as nat);
                }
                let ghost bitems = sp_array(s@, j + 1, (fuel - 1) as nat).unwrap().0;
                proof {
                    lemma_json_views_index(items@, bitems);
                }
                // the list must be type-homogeneous to be encodable
                let ghost svr = sp_value(s@, i as int, fuel as nat);
                proof {
                    assert(svr == (if jtags_homogeneous(bitems) {
                        Some((JsonTag::List(bitems), k as int))
                    } else {
                        None::<(JsonTag, int)>
                    }));
                }
                let mut idx: usize = 1;
                while idx < items.len()
                    invariant
                        1 <= idx,
                        json_views(items@) == Some(bitems),
                        sp_value(s@, i as int, fuel as nat) == (if jtags_homogeneous(bitems) {
                            Some((JsonTag::List(bitems), k as int))
                        } else {
                            None::<(JsonTag, int)>
                        }),
                        forall|q: int|
                            0 <= q < idx && q < items@.len() ==> crate::nbt::type_id_of(
                                #[trigger] items@[q],
                            ) == crate::nbt::type_id_of(items@[0]),
                    decreases items@.len() - idx,
                {
                    if items[idx].type_id() != items[0].type_id() {
                        proof {
                            lemma_json_views_index(items@, bitems);
                            assert(json_view(items@[idx as int]) == Some(bitems[idx as int]));
                            assert(json_view(items@[0]) == Some(bitems[0]));
                            lemma_view_kind(items@[idx as int], bitems[idx as int]);
                            lemma_view_kind(items@[0], bitems[0]);
                            assert(jtag_kind(bitems[idx as int]) != jtag_kind(bitems[0]));
                            assert(!jtags_homogeneous(bitems));
                        }
                        return None;
                    }
                    idx = idx + 1;
                }
                proof {
                    lemma_json_views_index(items@, bitems);
                    assert(crate::nbt::homogeneous(items@));
                    assert forall|q: int| 0 <= q < bitems.len() implies jtag_kind(
                        #[trigger] bitems[q],
                    ) == jtag_kind(bitems[0]) by {
                        lemma_view_kind(items@[q], bitems[q]);
                        lemma_view_kind(items@[0], bitems[0]);
                    }
                    assert(jtags_homogeneous(bitems));
                }
                Some((NBT::List(items), k))
            },
            None => None,
        }
    } else if c == 0x22 {
        match p_string_body(s, j + 1) {
            Some((bytes, k)) => {
                if bytes.len() > 0xffff {
                    return None;
                }
                Some((NBT::Str(bytes), k))
            },
            None => None,
        }
    } else if c == 0x74 {
        if j + 4 <= s.len() && s[j + 1] == 0x72 && s[j + 2] == 0x75 && s[j + 3] == 0x65 {
            Some((NBT::Byte(1), j + 4))
        } else {
            None
        }
    } else if c == 0x66 {
        if j + 5 <= s.len() && s[j + 1] == 0x61 && s[j + 2] == 0x6c && s[j + 3] == 0x73 && s[j + 4]
            == 0x65 {
            Some((NBT::Byte(0), j + 5))
        } else {
            None
        }
    } else if c == 0x2d || (0x30 <= c && c <= 0x39) {
        p_number(s, j)
    } else {
        None
    }
}

/// Reads an array's items after `[`.
fn p_array(s: &[u8], i: usize, fuel: usize) -> (r: Option<(Vec<NBT>, usize)>)
    requires
        i <= s@.len(),
        s@.len() <= 0x7ffe_0000,
    ensures
        match (r, sp_array(s@, i as int, fuel as nat)) {
            (Some(a), Some(b)) => json_views(a.0@) == Some(b.0) && a.1 == b.1 && i <= a.1
                <= s@.len() && crate::nbt::wf_tags(a.0@) && a.0@.len() <= s@.len() - i,
            (None, None) => true,
            _ => false,
        },
    decreases fuel, 1int,
{
    if fuel == 0 {
        return None;
    }
    let j = skip_ws_exec(s, i);
    if j < s.len() && s[j] == 0x5d {
        let empty: Vec<NBT> = Vec::new();
        proof {
            assert(json_views(empty@) == Some(Seq::<JsonTag>::empty()));
            assert(crate::nbt::wf_tags(empty@));
        }
        return Some((empty, j + 1));
    }
    let r = p_array_items(s, i, fuel - 1);
    proof {
        lemma_sp_array_items_pos(s@, i as int, (fuel - 1) as nat);
        if r is Some && sp_array_items(s@, i as int, (fuel - 1) as nat) is Some {
            lemma_json_views_index(
                r.unwrap().0@,
                sp_array_items(s@, i as int, (fuel - 1) as nat).unwrap().0,
            );
        }
    }
    r
}

fn p_array_items(s: &[u8], i: usize, fuel: usize) -> (r: Option<(Vec<NBT>, usize)>)
    requires
        i <= s@.len(),
        s@.len() <= 0x7ffe_0000,
    ensures
        match (r, sp_array_items(s@, i as int, fuel as nat)) {
            (Some(a), Some(b)) => json_views(a.0@) == Some(b.0) && a.1 == b.1 && i < a.1
                <= s@.len() && crate::nbt::wf_tags(a.0@),
            (None, None) => true,
            _ => false,
        },
    decreases fuel, 0int,
{
    if fuel == 0 {
        return None;
    }
    let (v, j) = match p_value(s, i, fuel - 1) {
        Some(p) => p,
        None => {
            return None;
        },
    };
    let k = skip_ws_exec(s, j);
    if k >= s.len() {
        return None;
    }
    let ghost bv = sp_value(s@, i as int, (fuel - 1) as nat).unwrap().0;
    if s[k] == 0x2c {
        let (mut rest, l) = match p_array_items(s, k + 1, fuel - 1) {
            Some(p) => p,
            None => {
                return None;
            },
        };
        let ghost brest = sp_array_items(s@, k + 1, (fuel - 1) as nat).unwrap().0;
        let ghost rest0 = rest@;
        rest.insert(0, v);
        proof {
            assert(rest@ =~= seq![v] + rest0);
            assert(rest@[0] == v);
            assert(rest@.drop_first() =~= rest0);
            assert(json_views(rest@) == Some(seq![bv] + brest));
            assert(crate::nbt::wf_tags(rest@));
        }
        Some((rest, l))
    } else if s[k] == 0x5d {
        let mut one: Vec<NBT> = Vec::new();
        one.push(v);
        proof {
            assert(one@ =~= seq![v]);
            assert(one@[0] == v);
            assert(one@.drop_first() =~= Seq::<NBT>::empty());
            assert(json_views(one@.drop_first()) == Some(Seq::<JsonTag>::empty()));
            assert(json_views(one@) == Some(seq![bv] + Seq::<JsonTag>::empty()));
            assert(seq![bv] + Seq::<JsonTag>::empty() =~= seq![bv]);
            assert(crate::nbt::wf_tags(one@.drop_first()));
            assert(crate::nbt::wf_tags(one@));
        }
        Some((one, k + 1))
    } else {
        None
    }
}

/// Reads an object's members after `{`.
fn p_object(s: &[u8], i: usize, fuel: usize) -> (r: Option<(Vec<NamedTag>, usize)>)
    requires
        i <= s@.len(),
        s@.len() <= 0x7ffe_0000,
    ensures
        match (r, sp_object(s@, i as int, fuel as nat)) {
            (Some(a), Some(b)) => json_named_views(a.0@) == Some(b.0) && a.1 == b.1 && i <= a.1
                <= s@.len() && crate::nbt::wf_named_tags(a.0@) && a.0@.len() <= s@.len() - i,
            (None, None) => true,
            _ => false,
        },
    decreases fuel, 1int,
{
    if fuel == 0 {
        return None;
    }
    let j = skip_ws_exec(s, i);
    if j < s.len() && s[j] == 0x7d {
        let empty: Vec<NamedTag> = Vec::new();
        proof {
            assert(json_named_views(empty@) == Some(Seq::<(Seq<u8>, JsonTag)>::empty()));
            assert(crate::nbt::wf_named_tags(empty@));
        }
        return Some((empty, j + 1));
    }
    let r = p_members(s, i, fuel - 1);
    proof {
        lemma_sp_members_pos(s@, i as int, (fuel - 1) as nat);
        if r is Some && sp_members(s@, i as int, (fuel - 1) as nat) is Some {
            lemma_json_named_views_index(
                r.unwrap().0@,
                sp_members(s@, i as int, (fuel - 1) as nat).unwrap().0,
            );
        }
    }
    r
}

fn p_members(s: &[u8], i: usize, fuel: usize) -> (r: Option<(Vec<NamedTag>, usize)>)
    requires
        i <= s@.len(),
        s@.len() <= 0x7ffe_0000,
    ensures
        match (r, sp_members(s@, i as int, fuel as nat)) {
            (Some(a), Some(b)) => json_named_views(a.0@) == Some(b.0) && a.1 == b.1 && i < a.1
                <= s@.len() && crate::nbt::wf_named_tags(a.0@),
            (None, None) => true,
            _ => false,
        },
    decreases fuel, 0int,
{
    if fuel == 0 {
        return None;
    }
    let j = skip_ws_exec(s, i);
    if !(j < s.len() && s[j] == 0x22) {
        return None;
    }
    let (key, k) = match p_string_body(s, j + 1) {
        Some(p) => p,
        None => {
            return None;
        },
    };
    if key.len() > 0xffff {
        return None;
    }
    let l = skip_ws_exec(s, k);
    if !(l < s.len() && s[l] == 0x3a) {
        return None;
    }
    let (v, n) = match p_value(s, l + 1, fuel - 1) {
        Some(p) => p,
        None => {
            return None;
        },
    };
    let ghost bkey = sp_string_body(s@, j + 1).unwrap().0;
    let ghost bv = sp_value(s@, l + 1, (fuel - 1) as nat).unwrap().0;
    let o = skip_ws_exec(s, n);
    if o >= s.len() {
        return None;
    }
    let entry = NamedTag::new(key, v);
    if s[o] == 0x2c {
        let (mut rest, q) = match p_members(s, o + 1, fuel - 1) {
            Some(p) => p,
            None => {
                return None;
            },
        };
        let ghost brest = sp_members(s@, o + 1, (fuel - 1) as nat).unwrap().0;
        let ghost rest0 = rest@;
        rest.insert(0, entry);
        proof {
            assert(rest@ =~= seq![entry] + rest0);
            assert(rest@[0] == entry);
            assert(rest@.drop_first() =~= rest0);
            assert(json_named_views(rest@) == Some(seq![(bkey, bv)] + brest)) by {
                assert(seq![(entry.name@, bv)] + brest =~= seq![(bkey, bv)] + brest);
            }
            assert(crate::nbt::wf_named(rest@[0]));
            assert(crate::nbt::wf_named_tags(rest@));
        }
        Some((rest, q))
    } else if s[o] == 0x7d {
        let mut one: Vec<NamedTag> = Vec::new();
        one.push(entry);
        proof {
            assert(one@ =~= seq![entry]);
            assert(one@[0] == entry);
            assert(one@.drop_first() =~= Seq::<NamedTag>::empty());
            assert(json_named_views(one@.drop_first()) == Some(
                Seq::<(Seq<u8>, JsonTag)>::empty(),
            ));
            assert(json_named_views(one@) == Some(
                seq![(bkey, bv)] + Seq::<(Seq<u8>, JsonTag)>::empty(),
            )) by {
                assert(seq![(entry.name@, bv)] + Seq::<(Seq<u8>, JsonTag)>::empty() =~= seq![
                    (bkey, bv),
                ] + Seq::<(Seq<u8>, JsonTag)>::empty());
            }
            assert(seq![(bkey, bv)] + Seq::<(Seq<u8>, JsonTag)>::empty() =~= seq![(bkey, bv)]);
            assert(crate::nbt::wf_named(one@[0]));
            assert(crate::nbt::wf_named_tags(one@.drop_first()));
            assert(crate::nbt::wf_named_tags(one@));
        }
        Some((one, o + 1))
    } else {
        None
    }
}

/// Parses a JSON document and maps it to a tag tree: objects to compounds,
/// arrays to type-homogeneous lists, strings to strings, booleans to bytes,
/// and numbers to integers when the value has no fractional part and to
/// floats otherwise. The result is the unnamed root tag. Returns `None` when
/// the text is not one well-formed object, or holds what the tag tree cannot
/// (a null, a mixed-type array, a string over 65535 bytes).
pub fn from_json(s: &str) -> (r: Option<NamedTag>)
    requires
        s.spec_bytes().len() <= 0x7ffe_0000,
    ensures
        match r {
            Some(nt) => {
                &&& spec_from_json(s.spec_bytes()) == json_view(nt.tag)
                &&& json_view(nt.tag) is Some
                &&& nt.name@ == Seq::<u8>::empty()
                &&& crate::nbt::wf_named(nt)
            },
            None => spec_from_json(s.spec_bytes()) is None,
        },
{
    let bytes = s.as_bytes();
    let fuel = 2 * bytes.len() + 4;
    match p_value(bytes, 0, fuel) {
        None => None,
        Some((t, j)) => {
            let k = skip_ws_exec(bytes, j);
            if k != bytes.len() {
                return None;
            }
            let is_comp = match &t {
                NBT::Compound(_) => true,
                _ => false,
            };
            let ghost bt = sp_value(bytes@, 0, fuel as nat).unwrap().0;
            proof {
                assert(json_view(t) == Some(bt));
                assert((t is Compound) == (bt is Compound));
            }
            if is_comp {
                let nt = NamedTag::new(Vec::new(), t);
                Some(nt)
            } else {
                None
            }
        },
    }
}

} // verus!
