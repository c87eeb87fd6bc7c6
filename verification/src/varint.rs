use vstd::prelude::*;

use crate::error::ProtoError;

verus! {

/// The unsigned interpretation of a signed 32-bit value: its two's-complement
/// bit pattern read as a number.
pub open spec fn u32_repr(v: i32) -> nat {
    if v >= 0 {
        v as nat
    } else {
        (v + 0x1_0000_0000) as nat
    }
}

/// The wire encoding of an unsigned value: seven payload bits per byte, least
/// significant group first, the high bit set on every byte but the last. The
/// encoding is canonical: it always uses the shortest form.
pub open spec fn varint_bytes_of(v: nat) -> Seq<u8>
    decreases v,
{
    if v < 0x80 {
        seq![v as u8]
    } else {
        seq![(v % 0x80 + 0x80) as u8] + varint_bytes_of(v / 0x80)
    }
}

/// Decoding of at most `fuel` bytes starting at `i`: the accumulated unsigned
/// value (before truncation to 32 bits) and the number of bytes consumed.
pub open spec fn varint_dec(bytes: Seq<u8>, i: int, fuel: nat) -> Option<(nat, int)>
    decreases fuel,
{
    if fuel == 0 {
        None
    } else if !(0 <= i < bytes.len()) {
        None
    } else if bytes[i] < 0x80 {
        Some((bytes[i] as nat, 1))
    } else {
        match varint_dec(bytes, i + 1, (fuel - 1) as nat) {
            Some(p) => Some(((bytes[i] - 0x80) as nat + 0x80 * p.0, p.1 + 1)),
            None => None,
        }
    }
}

/// The decoder's view of a varint at position `i`: the 32-bit truncation of
/// the accumulated value, and the bytes consumed (at most 5).
pub open spec fn spec_read_varint(bytes: Seq<u8>, i: int) -> Option<(u32, int)> {
    match varint_dec(bytes, i, 5) {
        Some(p) => Some(((p.0 % 0x1_0000_0000) as u32, p.1)),
        None => None,
    }
}

/// `fuel` continuation bytes in a row starting at `i`: the encoding is over
/// the length limit.
pub open spec fn varint_malformed_at(bytes: Seq<u8>, i: int, fuel: nat) -> bool {
    &&& i + fuel <= bytes.len()
    &&& forall|j: int| i <= j < i + fuel ==> bytes[j] >= 0x80
}

/// The input ends before the terminating byte arrives.
pub open spec fn varint_truncated_at(bytes: Seq<u8>, i: int, fuel: nat) -> bool {
    &&& 0 <= i <= bytes.len()
    &&& bytes.len() - i < fuel
    &&& forall|j: int| i <= j < bytes.len() ==> bytes[j] >= 0x80
}

/// A 32-bit signed integer together with its variable-length wire encoding.
#[derive(Debug, Clone, Copy, PartialEq, Eq, Hash, Structural)]
pub struct VarInt {
    pub value: i32,
}

impl VarInt {
    pub fn new(value: i32) -> (r: Self)
        ensures
            r.value == value,
    {
        Self { value }
    }

    pub fn into_inner(self) -> (r: i32)
        ensures
            r == self.value,
    {
        self.value
    }

    /// The canonical encoding of this value's two's-complement bit pattern.
    pub fn to_bytes(&self) -> (r: Vec<u8>)
        ensures
            r@ == varint_bytes_of(u32_repr(self.value)),
    {
        let mut value: u32 = self.value as u32;
        proof {
            lemma_u32_cast(self.value);
        }
        let mut bytes: Vec<u8> = Vec::new();
        loop
            invariant_except_break
                bytes@ + varint_bytes_of(value as nat) == varint_bytes_of(u32_repr(self.value)),
            ensures
                bytes@ == varint_bytes_of(u32_repr(self.value)),
            decreases value,
        {
            if value < 0x80 {
                bytes.push(value as u8);
                assert(bytes@ == varint_bytes_of(u32_repr(self.value)));
                break;
            } else {
                bytes.push((value % 0x80 + 0x80) as u8);
                proof {
                    assert(varint_bytes_of(value as nat) == seq![(value as nat % 0x80 + 0x80) as u8]
                        + varint_bytes_of(value as nat / 0x80));
                    assert(bytes@ + varint_bytes_of((value / 0x80) as nat) == varint_bytes_of(
                        u32_repr(self.value),
                    ));
                }
                value = value / 0x80;
            }
        }
        bytes
    }

    /// The number of bytes `to_bytes` produces, computed without building them.
    pub fn length(&self) -> (r: usize)
        ensures
            r == varint_bytes_of(u32_repr(self.value)).len(),
            1 <= r <= 5,
    {
        proof {
            lemma_u32_cast(self.value);
            lemma_varint_bytes_len(u32_repr(self.value));
        }
        let mut value: u32 = self.value as u32;
        let mut length: usize = 0;
        loop
            invariant_except_break
                length + varint_bytes_of(value as nat).len() == varint_bytes_of(
                    u32_repr(self.value),
                ).len(),
                varint_bytes_of(u32_repr(self.value)).len() <= 5,
                length <= 5,
            ensures
                length == varint_bytes_of(u32_repr(self.value)).len(),
            decreases value,
        {
            proof {
                lemma_varint_bytes_len(value as nat);
            }
            length = length + 1;
            if value < 0x80 {
                break;
            } else {
                value = value / 0x80;
            }
        }
        length
    }

    /// Decodes a varint from `buf` starting at `pos`. On success returns the
    /// value and the number of bytes consumed; rejects an encoding that still
    /// carries a continuation bit on its fifth byte.
    pub fn read(buf: &[u8], pos: usize) -> (r: Result<(i32, usize), ProtoError>)
        requires
            pos <= buf@.len(),
        ensures
            match r {
                Ok(p) => spec_read_varint(buf@, pos as int) == Some(
                    (p.0 as u32, p.1 as int),
                ) && pos + p.1 <= buf@.len() && 1 <= p.1 <= 5,
                Err(ProtoError::MalformedVarInt) => varint_malformed_at(buf@, pos as int, 5),
                Err(ProtoError::Truncated) => varint_truncated_at(buf@, pos as int, 5),
                Err(_) => false,
            },
    {
        match Self::read_raw(buf, pos, 5) {
            Ok((raw, n)) => {
                let v: u32 = (raw % 0x1_0000_0000) as u32;
                proof {
                    assert((v as i32) as u32 == v) by (bit_vector);
                }
                Ok((v as i32, n))
            },
            Err(e) => Err(e),
        }
    }

    /// Recursive decoder core, mirroring `varint_dec`.
    fn read_raw(buf: &[u8], pos: usize, fuel: u32) -> (r: Result<(u64, usize), ProtoError>)
        requires
            pos <= buf@.len(),
            fuel <= 5,
        ensures
            match r {
                Ok(p) => varint_dec(buf@, pos as int, fuel as nat) == Some(
                    (p.0 as nat, p.1 as int),
                ) && pos + p.1 <= buf@.len() && 1 <= p.1 <= fuel && p.0 < pow128(fuel as nat),
                Err(ProtoError::MalformedVarInt) => varint_malformed_at(
                    buf@,
                    pos as int,
                    fuel as nat,
                ),
                Err(ProtoError::Truncated) => varint_truncated_at(buf@, pos as int, fuel as nat),
                Err(_) => false,
            },
        decreases fuel,
    {
        if fuel == 0 {
            return Err(ProtoError::MalformedVarInt);
        }
        if pos >= buf.len() {
            return Err(ProtoError::Truncated);
        }
        let b = buf[pos];
        if b < 0x80 {
            proof {
                lemma_pow128_pos(fuel as nat);
                assert(b < pow128(fuel as nat)) by (nonlinear_arith)
                    requires
                        b < 0x80,
                        fuel >= 1,
                        pow128(fuel as nat) == 128 * pow128((fuel - 1) as nat),
                        pow128((fuel - 1) as nat) >= 1,
                ;
            }
            Ok((b as u64, 1))
        } else {
            match Self::read_raw(buf, pos + 1, fuel - 1) {
                Ok((raw, n)) => {
                    proof {
                        assert(pow128((fuel - 1) as nat) <= pow128(4)) by {
                            lemma_pow128_mono((fuel - 1) as nat, 4);
                        }
                        assert(pow128(0) == 1);
                        assert(pow128(1) == 128);
                        assert(pow128(2) == 0x4000);
                        assert(pow128(3) == 0x20_0000);
                        assert(pow128(4) == 0x1000_0000);
                        assert((b - 0x80) as u64 + 0x80 * raw < pow128(fuel as nat))
                            by (nonlinear_arith)
                            requires
                                0x80 <= b < 0x100,
                                raw < pow128((fuel - 1) as nat),
                                pow128(fuel as nat) == 128 * pow128((fuel - 1) as nat),
                        ;
                    }
                    let v: u64 = (b - 0x80) as u64 + 0x80 * raw;
                    Ok((v, n + 1))
                },
                Err(e) => Err(e),
            }
        }
    }
}

/// Casting a signed 32-bit value to unsigned yields its two's-complement
/// bit pattern.
proof fn lemma_u32_cast(v: i32)
    ensures
        (v as u32) as nat == u32_repr(v),
{
    assert(v >= 0 ==> (v as u32) == v) by (bit_vector);
    assert(v < 0 ==> (v as u32) == v + 0x1_0000_0000) by (bit_vector);
}

/// An encoding is never empty and never longer than five bytes for a 32-bit
/// value.
pub proof fn lemma_varint_bytes_len(v: nat)
    ensures
        1 <= varint_bytes_of(v).len(),
        v < 0x1_0000_0000 ==> varint_bytes_of(v).len() <= 5,
        v < 0x80 ==> varint_bytes_of(v).len() == 1,
    decreases v,
{
    if v >= 0x80 {
        lemma_varint_bytes_len(v / 0x80);
        if v < 0x1_0000_0000 {
            assert(pow128(0) == 1);
            assert(pow128(1) == 128);
            assert(pow128(2) == 0x4000);
            assert(pow128(3) == 0x20_0000);
            assert(pow128(4) == 0x1000_0000);
            assert(pow128(5) == 0x8_0000_0000);
            lemma_varint_len_le(v, 5);
        }
    }
}

spec fn pow128(k: nat) -> nat
    decreases k,
{
    if k == 0 {
        1
    } else {
        128 * pow128((k - 1) as nat)
    }
}

proof fn lemma_varint_len_le(v: nat, k: nat)
    requires
        1 <= k,
        v < pow128(k),
    ensures
        varint_bytes_of(v).len() <= k,
    decreases v,
{
    if v >= 0x80 {
        assert(pow128(k) == 128 * pow128((k - 1) as nat));
        assert(v / 0x80 < pow128((k - 1) as nat)) by (nonlinear_arith)
            requires
                v < 128 * pow128((k - 1) as nat),
        ;
        assert(pow128((k - 1) as nat) >= 1) by {
            lemma_pow128_pos((k - 1) as nat);
        }
        lemma_varint_len_le(v / 0x80, (k - 1) as nat);
    }
}

proof fn lemma_pow128_pos(k: nat)
    ensures
        pow128(k) >= 1,
    decreases k,
{
    if k > 0 {
        lemma_pow128_pos((k - 1) as nat);
    }
}

proof fn lemma_pow128_mono(a: nat, b: nat)
    requires
        a <= b,
    ensures
        pow128(a) <= pow128(b),
    decreases b,
{
    if a < b {
        lemma_pow128_mono(a, (b - 1) as nat);
        lemma_pow128_pos((b - 1) as nat);
    }
}

/// A malformed or truncated varint is exactly what the decoder rejects.
pub proof fn lemma_varint_dec_none(bytes: Seq<u8>, i: int, fuel: nat)
    ensures
        varint_malformed_at(bytes, i, fuel) ==> varint_dec(bytes, i, fuel) is None,
        varint_truncated_at(bytes, i, fuel) ==> varint_dec(bytes, i, fuel) is None,
    decreases fuel,
{
    if fuel > 0 {
        lemma_varint_dec_none(bytes, i + 1, (fuel - 1) as nat);
    }
}

/// Decoding reads back exactly what encoding wrote, wherever the encoding
/// stands in a larger buffer.
pub proof fn lemma_dec_of_enc(v: nat, bytes: Seq<u8>, i: int, fuel: nat)
    requires
        0 <= i,
        i + varint_bytes_of(v).len() <= bytes.len(),
        forall|j: int|
            0 <= j < varint_bytes_of(v).len() ==> bytes[i + j] == varint_bytes_of(v)[j],
        varint_bytes_of(v).len() <= fuel,
    ensures
        varint_dec(bytes, i, fuel) == Some((v, varint_bytes_of(v).len() as int)),
    decreases v,
{
    let enc = varint_bytes_of(v);
    if v < 0x80 {
        assert(bytes[i] == enc[0]);
        assert(enc[0] == v as u8);
    } else {
        let rest = varint_bytes_of(v / 0x80);
        assert(enc == seq![(v % 0x80 + 0x80) as u8] + rest);
        assert(bytes[i] == enc[0]);
        assert(enc[0] == (v % 0x80 + 0x80) as u8);
        assert(forall|j: int| 0 <= j < rest.len() ==> bytes[i + 1 + j] == rest[j]) by {
            assert(forall|j: int| 0 <= j < rest.len() ==> enc[j + 1] == rest[j]);
        }
        lemma_dec_of_enc(v / 0x80, bytes, i + 1, (fuel - 1) as nat);
        assert((bytes[i] - 0x80) as nat + 0x80 * (v / 0x80) == v) by (nonlinear_arith)
            requires
                bytes[i] == (v % 0x80 + 0x80) as u8,
                v >= 0x80,
        ;
    }
}

/// VarInt round-trip: for every 32-bit value, decoding its encoding yields
/// the value back and consumes exactly the encoded bytes, and the stated
/// length matches the encoding's length.
pub proof fn lemma_varint_round_trip(v: i32)
    ensures
        spec_read_varint(varint_bytes_of(u32_repr(v)), 0) == Some(
            (v as u32, varint_bytes_of(u32_repr(v)).len() as int),
        ),
        (v as u32) as i32 == v,
{
    let enc = varint_bytes_of(u32_repr(v));
    lemma_varint_bytes_len(u32_repr(v));
    lemma_dec_of_enc(u32_repr(v), enc, 0, 5);
    assert(u32_repr(v) % 0x1_0000_0000 == u32_repr(v));
    lemma_u32_cast(v);
    assert((v as u32) as i32 == v) by (bit_vector);
}

} // verus!
