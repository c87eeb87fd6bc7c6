use vstd::prelude::*;
use vstd::string::StringSliceAdditionalSpecFns;

use crate::nbt::{named_tag_bytes, u16_repr, wf_named, NamedTag};
use crate::protocol::{
    be_bytes, lemma_pow256_pos, pow256, spec_frame, string_field, u64_repr, write_generic_packet,
};
use crate::varint::{u32_repr, varint_bytes_of, VarInt};

verus! {

/// The packed block-position encoding: x and z in 26 bits each, y in 12,
/// laid out x high, then z, then y, written as one big-endian 64-bit value.
pub open spec fn position_val(x: i64, y: i64, z: i64) -> u64 {
    (((x as u64) & 0x3ff_ffff) << 38) | (((z as u64) & 0x3ff_ffff) << 12) | ((y as u64) & 0xfff)
}

/// An accumulator for one outgoing packet: a packet id and the payload bytes
/// appended so far. Each `with_` operation appends one field's wire encoding;
/// `build` frames the result.
#[derive(Debug)]
pub struct PacketBuilder {
    pub id: i32,
    pub buffer: Vec<u8>,
}

fn append_slice(out: &mut Vec<u8>, src: &[u8]) -> (unit: ())
    ensures
        final(out)@ == old(out)@ + src@,
{
    let mut i: usize = 0;
    while i < src.len()
        invariant
            i <= src@.len(),
            out@ == old(out)@ + src@.subrange(0, i as int),
        decreases src@.len() - i,
    {
        out.push(src[i]);
        i = i + 1;
    }
    assert(src@.subrange(0, src@.len() as int) =~= src@);
}

/// Splitting a big-endian encoding: the high `m` bytes encode the quotient,
/// the low `n` bytes the remainder by `256^n`.
pub proof fn lemma_be_bytes_split(v: nat, m: nat, n: nat)
    ensures
        be_bytes(v, (m + n) as nat) == be_bytes(v / pow256(n), m) + be_bytes(v % pow256(n), n),
    decreases n,
{
    lemma_pow256_pos(n);
    if n == 0 {
        assert(v / 1 == v);
        assert(v % 1 == 0);
        assert(be_bytes(v / pow256(0), m) + be_bytes(v % pow256(0), 0) =~= be_bytes(v, m));
    } else {
        let q = pow256((n - 1) as nat);
        lemma_pow256_pos((n - 1) as nat);
        assert(pow256(n) == 0x100 * q);
        lemma_be_bytes_split(v / 0x100, m, (n - 1) as nat);
        vstd::arithmetic::div_mod::lemma_div_denominator(v as int, 0x100, q as int);
        vstd::arithmetic::div_mod::lemma_mod_mod(v as int, 0x100, q as int);
        vstd::arithmetic::div_mod::lemma_breakdown(v as int, 0x100, q as int);
        let w = (v as int / 0x100) % (q as int);
        assert((0x100 * w + (v as int) % 0x100) / 0x100 == w) by (nonlinear_arith)
            requires
                0 <= (v as int) % 0x100 < 0x100,
                w >= 0,
        ;
        assert(be_bytes(v, (m + n) as nat) =~= be_bytes(v / pow256(n), m) + be_bytes(
            v % pow256(n),
            n,
        ));
    }
}

impl PacketBuilder {
    pub fn new(id: i32) -> (r: Self)
        ensures
            r.id == id,
            r.buffer@ == Seq::<u8>::empty(),
    {
        PacketBuilder { id, buffer: Vec::new() }
    }

    /// Appends the variable-length encoding of `value`.
    pub fn with_var_int(self, value: i32) -> (r: Self)
        ensures
            r.id == self.id,
            r.buffer@ == self.buffer@ + varint_bytes_of(u32_repr(value)),
            r.buffer@.len() <= self.buffer@.len() + 5,
    {
        let mut b = self;
        let enc = VarInt::new(value).to_bytes();
        proof {
            crate::varint::lemma_varint_bytes_len(u32_repr(value));
        }
        append_slice(&mut b.buffer, enc.as_slice());
        b
    }

    /// Appends a 128-bit identifier as 16 raw big-endian bytes.
    pub fn with_uuid(self, value: u128) -> (r: Self)
        ensures
            r.id == self.id,
            r.buffer@ == self.buffer@ + be_bytes(value as nat, 16),
            r.buffer@.len() == self.buffer@.len() + 16,
    {
        proof {
            crate::protocol::lemma_be_bytes_len(value as nat, 16);
        }
        let mut b = self;
        let hi: u64 = (value / 0x1_0000_0000_0000_0000) as u64;
        let lo: u64 = (value % 0x1_0000_0000_0000_0000) as u64;
        proof {
            lemma_be_bytes_split(value as nat, 8, 8);
            crate::protocol::lemma_pow256_unfold();
        }
        crate::nbt::push_be(&mut b.buffer, hi, 8);
        crate::nbt::push_be(&mut b.buffer, lo, 8);
        b
    }

    /// Appends a string field: the varint byte length, then the UTF-8 bytes.
    pub fn with_string(self, value: &str) -> (r: Self)
        requires
            value@.len() <= 0x1fff_0000,
        ensures
            r.id == self.id,
            r.buffer@ == self.buffer@ + string_field(value.spec_bytes()),
            r.buffer@.len() <= self.buffer@.len() + 5 + 4 * value@.len(),
    {
        proof {
            crate::text::lemma_encode_utf8_len(value@);
        }
        let bytes = value.as_bytes();
        let len = bytes.len();
        let b = self.with_var_int(len as i32);
        proof {
            assert(u32_repr(len as i32) == len as nat);
        }
        b.with_raw_bytes(bytes)
    }

    /// Appends a string field given as its UTF-8 bytes.
    pub fn with_string_bytes(self, value: &[u8]) -> (r: Self)
        requires
            value@.len() <= 0x7fff_ffff,
        ensures
            r.id == self.id,
            r.buffer@ == self.buffer@ + string_field(value@),
            r.buffer@.len() <= self.buffer@.len() + 5 + value@.len(),
    {
        let len = value.len();
        let b = self.with_var_int(len as i32);
        proof {
            assert(u32_repr(len as i32) == len as nat);
        }
        b.with_raw_bytes(value)
    }

    /// Appends a big-endian 64-bit field.
    pub fn with_i64(self, value: i64) -> (r: Self)
        ensures
            r.id == self.id,
            r.buffer@ == self.buffer@ + be_bytes(u64_repr(value), 8),
            r.buffer@.len() == self.buffer@.len() + 8,
    {
        proof {
            crate::protocol::lemma_be_bytes_len(u64_repr(value), 8);
        }
        let mut b = self;
        let w: u64 = value as u64;
        proof {
            assert(value >= 0 ==> (value as u64) == value) by (bit_vector);
            assert(value < 0 ==> (value as u64) == value + 0x1_0000_0000_0000_0000) by (bit_vector);
        }
        crate::nbt::push_be(&mut b.buffer, w, 8);
        b
    }

    /// Appends a big-endian 32-bit field.
    pub fn with_i32(self, value: i32) -> (r: Self)
        ensures
            r.id == self.id,
            r.buffer@ == self.buffer@ + be_bytes(u32_repr(value), 4),
            r.buffer@.len() == self.buffer@.len() + 4,
    {
        proof {
            crate::protocol::lemma_be_bytes_len(u32_repr(value), 4);
        }
        let mut b = self;
        let w: u32 = value as u32;
        proof {
            assert(value >= 0 ==> (value as u32) == value) by (bit_vector);
            assert(value < 0 ==> (value as u32) == value + 0x1_0000_0000) by (bit_vector);
        }
        crate::nbt::push_be(&mut b.buffer, w as u64, 4);
        b
    }

    /// Appends a big-endian 16-bit field.
    pub fn with_i16(self, value: i16) -> (r: Self)
        ensures
            r.id == self.id,
            r.buffer@ == self.buffer@ + be_bytes(u16_repr(value), 2),
            r.buffer@.len() == self.buffer@.len() + 2,
    {
        proof {
            crate::protocol::lemma_be_bytes_len(u16_repr(value), 2);
        }
        let mut b = self;
        let w: u16 = value as u16;
        proof {
            assert(value >= 0 ==> (value as u16) == value) by (bit_vector);
            assert(value < 0 ==> (value as u16) == value + 0x1_0000) by (bit_vector);
        }
        crate::nbt::push_be(&mut b.buffer, w as u64, 2);
        b
    }

    /// Appends a single byte.
    pub fn with_u8(self, value: u8) -> (r: Self)
        ensures
            r.id == self.id,
            r.buffer@ == self.buffer@ + seq![value],
            r.buffer@.len() == self.buffer@.len() + 1,
    {
        let mut b = self;
        b.buffer.push(value);
        proof {
            assert(b.buffer@ =~= self.buffer@ + seq![value]);
        }
        b
    }

    /// Appends a boolean as one byte, 1 for true and 0 for false.
    pub fn with_bool(self, value: bool) -> (r: Self)
        ensures
            r.id == self.id,
            r.buffer@ == self.buffer@ + seq![if value { 1u8 } else { 0u8 }],
            r.buffer@.len() == self.buffer@.len() + 1,
    {
        self.with_u8(if value { 1 } else { 0 })
    }

    /// Appends a serialized named tag.
    pub fn with_nbt(self, value: &NamedTag) -> (r: Self)
        requires
            wf_named(*value),
        ensures
            r.id == self.id,
            r.buffer@ == self.buffer@ + named_tag_bytes(*value, true),
            r.buffer@.len() == self.buffer@.len() + named_tag_bytes(*value, true).len(),
    {
        let mut b = self;
        let enc = value.to_bytes();
        append_slice(&mut b.buffer, enc.as_slice());
        b
    }

    /// Appends raw bytes unchanged.
    pub fn with_raw_bytes(self, value: &[u8]) -> (r: Self)
        ensures
            r.id == self.id,
            r.buffer@ == self.buffer@ + value@,
            r.buffer@.len() == self.buffer@.len() + value@.len(),
    {
        let mut b = self;
        append_slice(&mut b.buffer, value);
        b
    }

    /// Appends a packed block position as one big-endian 64-bit value.
    pub fn with_position(self, x: i64, y: i64, z: i64) -> (r: Self)
        ensures
            r.id == self.id,
            r.buffer@ == self.buffer@ + be_bytes(position_val(x, y, z) as nat, 8),
            r.buffer@.len() == self.buffer@.len() + 8,
    {
        proof {
            crate::protocol::lemma_be_bytes_len(position_val(x, y, z) as nat, 8);
        }
        let mut b = self;
        let vx: u64 = (x as u64) & 0x3ff_ffff;
        let vz: u64 = (z as u64) & 0x3ff_ffff;
        let vy: u64 = (y as u64) & 0xfff;
        let packed: u64 = (vx << 38) | (vz << 12) | vy;
        crate::nbt::push_be(&mut b.buffer, packed, 8);
        b
    }

    /// Frames the accumulated payload: length varint, id varint, payload.
    pub fn build(self) -> (r: Vec<u8>)
        requires
            self.buffer@.len() + 5 <= i32::MAX,
        ensures
            r@ == spec_frame(self.id, self.buffer@),
    {
        write_generic_packet(self.id, self.buffer.as_slice())
    }
}

} // verus!
