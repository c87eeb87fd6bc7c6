use vstd::prelude::*;
use vstd::slice::{slice_subrange, slice_to_vec};
use vstd::string::StringSliceAdditionalSpecFns;

use crate::error::ProtoError;
use crate::varint::{
    spec_read_varint, u32_repr, varint_bytes_of, varint_dec, varint_malformed_at,
    varint_truncated_at, VarInt,
};

verus! {

/// The unsigned interpretation of a signed 64-bit value: its two's-complement
/// bit pattern read as a number.
pub open spec fn u64_repr(v: i64) -> nat {
    if v >= 0 {
        v as nat
    } else {
        (v + 0x1_0000_0000_0000_0000) as nat
    }
}

/// The `n`-byte big-endian encoding of `v`.
pub open spec fn be_bytes(v: nat, n: nat) -> Seq<u8>
    decreases n,
{
    if n == 0 {
        seq![]
    } else {
        be_bytes(v / 0x100, (n - 1) as nat) + seq![(v % 0x100) as u8]
    }
}

/// The value of the `n` bytes starting at `i`, read big-endian.
pub open spec fn be_val(bytes: Seq<u8>, i: int, n: nat) -> nat
    decreases n,
{
    if n == 0 {
        0
    } else {
        (be_val(bytes, i, (n - 1) as nat) * 0x100 + bytes[i + n - 1]) as nat
    }
}

pub open spec fn pow256(n: nat) -> nat
    decreases n,
{
    if n == 0 {
        1
    } else {
        0x100 * pow256((n - 1) as nat)
    }
}

pub proof fn lemma_pow256_pos(n: nat)
    ensures
        pow256(n) >= 1,
    decreases n,
{
    if n > 0 {
        lemma_pow256_pos((n - 1) as nat);
    }
}

/// Re-encoding the value read from `n` bytes yields those same bytes.
pub proof fn lemma_be_round_trip(bytes: Seq<u8>, i: int, n: nat)
    requires
        0 <= i,
        i + n <= bytes.len(),
    ensures
        be_bytes(be_val(bytes, i, n), n) == bytes.subrange(i, i + n),
    decreases n,
{
    if n == 0 {
        assert(be_bytes(0, 0) =~= bytes.subrange(i, i));
    } else {
        let v = be_val(bytes, i, n);
        let v1 = be_val(bytes, i, (n - 1) as nat);
        let last = bytes[i + n - 1];
        assert(v == v1 * 0x100 + last);
        assert(v % 0x100 == last && v / 0x100 == v1) by (nonlinear_arith)
            requires
                v == v1 * 0x100 + last,
                0 <= last < 0x100,
                v1 >= 0,
        ;
        lemma_be_round_trip(bytes, i, (n - 1) as nat);
        assert(be_bytes(v, n) =~= bytes.subrange(i, i + n));
    }
}

/// Reads an `n`-byte big-endian unsigned value at `pos`.
pub fn read_be(buf: &[u8], pos: usize, n: usize) -> (r: Result<u64, ProtoError>)
    requires
        n <= 8,
    ensures
        match r {
            Ok(v) => pos + n <= buf@.len() && v as nat == be_val(buf@, pos as int, n as nat)
                && (v as nat) < pow256(n as nat),
            Err(ProtoError::Truncated) => pos + n > buf@.len(),
            Err(_) => false,
        },
{
    if n > buf.len() || pos > buf.len() - n {
        return Err(ProtoError::Truncated);
    }
    let blen = buf.len();
    let mut v: u64 = 0;
    let mut j: usize = 0;
    proof {
        lemma_pow256_pos(0);
    }
    while j < n
        invariant
            j <= n <= 8,
            pos + n <= blen == buf@.len(),
            v as nat == be_val(buf@, pos as int, j as nat),
            (v as nat) < pow256(j as nat),
        decreases n - j,
    {
        proof {
            lemma_pow256_mono(j as nat, 7);
            assert(pow256(7) == 0x100_0000_0000_0000) by {
                lemma_pow256_unfold();
            }
            assert(v * 0x100 + buf@[pos + j] < 0x100 * pow256(j as nat)) by (nonlinear_arith)
                requires
                    v < pow256(j as nat),
                    buf@[pos + j] < 0x100,
            ;
        }
        v = v * 0x100 + (buf[pos + j] as u64);
        j = j + 1;
    }
    Ok(v)
}

proof fn lemma_pow256_mono(a: nat, b: nat)
    requires
        a <= b,
    ensures
        pow256(a) <= pow256(b),
    decreases b,
{
    if a < b {
        lemma_pow256_mono(a, (b - 1) as nat);
        lemma_pow256_pos((b - 1) as nat);
    }
}

pub proof fn lemma_pow256_unfold()
    ensures
        pow256(1) == 0x100,
        pow256(2) == 0x1_0000,
        pow256(3) == 0x100_0000,
        pow256(4) == 0x1_0000_0000,
        pow256(7) == 0x100_0000_0000_0000,
        pow256(8) == 0x1_0000_0000_0000_0000,
{
    assert(pow256(0) == 1);
    assert(pow256(1) == 0x100);
    assert(pow256(2) == 0x1_0000);
    assert(pow256(3) == 0x100_0000);
    assert(pow256(4) == 0x1_0000_0000);
    assert(pow256(5) == 0x100_0000_0000);
    assert(pow256(6) == 0x1_0000_0000_0000);
    assert(pow256(7) == 0x100_0000_0000_0000);
    assert(pow256(8) == 0x1_0000_0000_0000_0000);
}

/// A big-endian encoding of `n` bytes has length `n`.
pub proof fn lemma_be_bytes_len(v: nat, n: nat)
    ensures
        be_bytes(v, n).len() == n,
    decreases n,
{
    if n > 0 {
        lemma_be_bytes_len(v / 0x100, (n - 1) as nat);
    }
}

/// A run of zero bytes.
pub open spec fn zero_bytes(n: nat) -> Seq<u8> {
    Seq::new(n, |i: int| 0u8)
}

/// The big-endian encoding of zero is all zero bytes.
pub proof fn lemma_be_bytes_zero(n: nat)
    ensures
        be_bytes(0, n) =~= zero_bytes(n),
    decreases n,
{
    if n > 0 {
        lemma_be_bytes_zero((n - 1) as nat);
        lemma_be_bytes_len(0, n);
        assert(be_bytes(0, n) =~= zero_bytes(n));
    }
}

/// Reads a big-endian unsigned 16-bit field.
pub fn read_u16_be(buf: &[u8], pos: usize) -> (r: Result<u16, ProtoError>)
    ensures
        match r {
            Ok(v) => pos + 2 <= buf@.len() && v as nat == be_val(buf@, pos as int, 2),
            Err(ProtoError::Truncated) => pos + 2 > buf@.len(),
            Err(_) => false,
        },
{
    match read_be(buf, pos, 2) {
        Ok(v) => {
            proof {
                lemma_pow256_unfold();
            }
            Ok(v as u16)
        },
        Err(e) => Err(e),
    }
}

/// Reads a big-endian signed 32-bit field (two's complement).
pub fn read_i32_be(buf: &[u8], pos: usize) -> (r: Result<i32, ProtoError>)
    ensures
        match r {
            Ok(v) => pos + 4 <= buf@.len() && u32_repr(v) == be_val(buf@, pos as int, 4),
            Err(ProtoError::Truncated) => pos + 4 > buf@.len(),
            Err(_) => false,
        },
{
    match read_be(buf, pos, 4) {
        Ok(v) => {
            proof {
                lemma_pow256_unfold();
            }
            let w: u32 = v as u32;
            proof {
                assert(w as i32 >= 0 ==> (w as i32) == w) by (bit_vector);
                assert((w as i32) < 0 ==> (w as i32) + 0x1_0000_0000 == w) by (bit_vector);
            }
            Ok(w as i32)
        },
        Err(e) => Err(e),
    }
}

/// Reads a big-endian signed 64-bit field (two's complement).
pub fn read_i64_be(buf: &[u8], pos: usize) -> (r: Result<i64, ProtoError>)
    ensures
        match r {
            Ok(v) => pos + 8 <= buf@.len() && u64_repr(v) == be_val(buf@, pos as int, 8),
            Err(ProtoError::Truncated) => pos + 8 > buf@.len(),
            Err(_) => false,
        },
{
    match read_be(buf, pos, 8) {
        Ok(v) => {
            proof {
                lemma_pow256_unfold();
                assert(v as i64 >= 0 ==> (v as i64) == v) by (bit_vector);
                assert((v as i64) < 0 ==> (v as i64) + 0x1_0000_0000_0000_0000 == v) by (bit_vector);
            }
            Ok(v as i64)
        },
        Err(e) => Err(e),
    }
}

/// A string field on the wire: a varint byte length followed by the bytes.
pub open spec fn string_field(bytes: Seq<u8>) -> Seq<u8> {
    varint_bytes_of(bytes.len()) + bytes
}

/// One frame on the wire: the outer length (id bytes plus payload bytes),
/// the packet id, then the payload.
pub open spec fn spec_frame(id: i32, payload: Seq<u8>) -> Seq<u8> {
    let idb = varint_bytes_of(u32_repr(id));
    varint_bytes_of((idb.len() + payload.len()) as nat) + idb + payload
}

/// Frames a packet: length varint, id varint, payload.
pub fn write_generic_packet(packet_id: i32, payload: &[u8]) -> (r: Vec<u8>)
    requires
        payload@.len() + 5 <= i32::MAX,
    ensures
        r@ == spec_frame(packet_id, payload@),
{
    let id = VarInt::new(packet_id);
    let idb = id.to_bytes();
    proof {
        crate::varint::lemma_varint_bytes_len(u32_repr(packet_id));
    }
    let total = idb.len() + payload.len();
    let lenb = VarInt::new(total as i32).to_bytes();
    let mut out: Vec<u8> = Vec::new();
    let mut k: usize = 0;
    while k < lenb.len()
        invariant
            k <= lenb@.len(),
            out@ == lenb@.subrange(0, k as int),
        decreases lenb@.len() - k,
    {
        out.push(lenb[k]);
        k = k + 1;
    }
    let mut k: usize = 0;
    while k < idb.len()
        invariant
            k <= idb@.len(),
            out@ == lenb@ + idb@.subrange(0, k as int),
        decreases idb@.len() - k,
    {
        out.push(idb[k]);
        k = k + 1;
    }
    let mut k: usize = 0;
    while k < payload.len()
        invariant
            k <= payload@.len(),
            out@ == lenb@ + idb@ + payload@.subrange(0, k as int),
        decreases payload@.len() - k,
    {
        out.push(payload[k]);
        k = k + 1;
    }
    proof {
        assert(lenb@.subrange(0, lenb@.len() as int) =~= lenb@);
        assert(idb@.subrange(0, idb@.len() as int) =~= idb@);
        assert(payload@.subrange(0, payload@.len() as int) =~= payload@);
        assert(total as i32 >= 0);
        assert(u32_repr(total as i32) == total as nat);
        assert(out@ =~= spec_frame(packet_id, payload@));
    }
    out
}

/// Encodes a string field: the varint byte length, then the UTF-8 bytes.
pub fn write_string(s: &str) -> (r: Vec<u8>)
    requires
        s@.len() <= 0x1fff_0000,
    ensures
        r@ == string_field(s.spec_bytes()),
{
    proof {
        crate::text::lemma_encode_utf8_len(s@);
    }
    let bytes = s.as_bytes();
    let len = bytes.len();
    let mut out = VarInt::new(len as i32).to_bytes();
    proof {
        assert(u32_repr(len as i32) == len as nat);
    }
    let mut k: usize = 0;
    while k < bytes.len()
        invariant
            k <= bytes@.len(),
            out@ == varint_bytes_of(bytes@.len()) + bytes@.subrange(0, k as int),
        decreases bytes@.len() - k,
    {
        out.push(bytes[k]);
        k = k + 1;
    }
    proof {
        assert(bytes@.subrange(0, bytes@.len() as int) =~= bytes@);
    }
    out
}

/// What parsing a frame at `i` yields: the packet id, the payload bytes, and
/// the bytes consumed; or the protocol failure.
pub open spec fn spec_read_frame(bytes: Seq<u8>, i: int) -> Result<
    (i32, Seq<u8>, int),
    ProtoError,
> {
    match spec_read_varint_r(bytes, i) {
        Err(e) => Err(e),
        Ok((l, n1)) => match spec_read_varint_r(bytes, i + n1) {
            Err(e) => Err(e),
            Ok((idv, k)) => {
                let id = idv as i32;
                let l32 = l as i32;
                if l32 < k {
                    Err(ProtoError::MalformedVarInt)
                } else if i + n1 + l32 > bytes.len() {
                    Err(ProtoError::Truncated)
                } else {
                    Ok((id, bytes.subrange(i + n1 + k, i + n1 + l32), n1 + l32))
                }
            },
        },
    }
}

/// The varint decoder's result together with the exact failure it reports.
pub open spec fn spec_read_varint_r(bytes: Seq<u8>, i: int) -> Result<(u32, int), ProtoError> {
    match spec_read_varint(bytes, i) {
        Some(p) => Ok(p),
        None => if varint_malformed_at(bytes, i, 5) {
            Err(ProtoError::MalformedVarInt)
        } else {
            Err(ProtoError::Truncated)
        },
    }
}

/// Parses one frame from `buf` at `pos`: outer length, packet id, payload.
/// `Truncated` also covers a buffer that simply does not hold the whole frame
/// yet; the caller reads more input and retries.
pub fn read_generic_packet(buf: &[u8], pos: usize) -> (r: Result<
    (i32, Vec<u8>, usize),
    ProtoError,
>)
    requires
        pos <= buf@.len(),
    ensures
        match (r, spec_read_frame(buf@, pos as int)) {
            (Ok(a), Ok(b)) => a.0 == b.0 && a.1@ == b.1 && a.2 == b.2,
            (Err(e1), Err(e2)) => e1 == e2,
            _ => false,
        },
{
    let blen = buf.len();
    let (l, n1) = match VarInt::read(buf, pos) {
        Ok(p) => p,
        Err(e) => {
            proof {
                crate::varint::lemma_varint_dec_none(buf@, pos as int, 5);
            }
            return Err(e);
        },
    };
    let (id, k) = match VarInt::read(buf, pos + n1) {
        Ok(p) => p,
        Err(e) => {
            proof {
                crate::varint::lemma_varint_dec_none(buf@, pos + n1, 5);
            }
            return Err(e);
        },
    };
    proof {
        assert(spec_read_varint(buf@, pos as int) == Some((l as u32, n1 as int)));
        assert((l as u32) as i32 == l) by (bit_vector);
        assert((id as u32) as i32 == id) by (bit_vector);
    }
    if l < k as i32 {
        return Err(ProtoError::MalformedVarInt);
    }
    let body = (l as usize) - k;
    if body > buf.len() - (pos + n1 + k) {
        // `pos + n1 + k <= buf.len()` holds because both varints were read.
        return Err(ProtoError::Truncated);
    }
    let start = pos + n1 + k;
    let payload = slice_to_vec(slice_subrange(buf, start, start + body));
    Ok((id, payload, n1 + (l as usize)))
}

/// Reads a varint-length-prefixed string field at `pos` and checks that it
/// holds valid UTF-8. Returns the raw bytes and the bytes consumed.
pub open spec fn spec_read_string(bytes: Seq<u8>, i: int) -> Result<(Seq<u8>, int), ProtoError> {
    match spec_read_varint_r(bytes, i) {
        Err(e) => Err(e),
        Ok((l, n1)) => {
            let l32 = l as i32;
            if l32 < 0 {
                Err(ProtoError::MalformedVarInt)
            } else if i + n1 + l32 > bytes.len() {
                Err(ProtoError::Truncated)
            } else if !vstd::utf8::valid_utf8(bytes.subrange(i + n1, i + n1 + l32)) {
                Err(ProtoError::InvalidUtf8)
            } else {
                Ok((bytes.subrange(i + n1, i + n1 + l32), n1 + l32))
            }
        },
    }
}

pub fn read_string(buf: &[u8], pos: usize) -> (r: Result<(Vec<u8>, usize), ProtoError>)
    requires
        pos <= buf@.len(),
    ensures
        match (r, spec_read_string(buf@, pos as int)) {
            (Ok(a), Ok(b)) => a.0@ == b.0 && a.1 == b.1,
            (Err(e1), Err(e2)) => e1 == e2,
            _ => false,
        },
        r is Ok ==> vstd::utf8::valid_utf8(r.unwrap().0@),
        match r {
            Ok(a) => pos + a.1 <= buf@.len() && a.1 >= 1 && a.0@.len() < a.1,
            Err(_) => true,
        },
{
    let (l, n1) = match VarInt::read(buf, pos) {
        Ok(p) => p,
        Err(e) => {
            proof {
                crate::varint::lemma_varint_dec_none(buf@, pos as int, 5);
            }
            return Err(e);
        },
    };
    proof {
        assert((l as u32) as i32 == l) by (bit_vector);
    }
    if l < 0 {
        return Err(ProtoError::MalformedVarInt);
    }
    let len = l as usize;
    if len > buf.len() - (pos + n1) {
        return Err(ProtoError::Truncated);
    }
    let start = pos + n1;
    let s = slice_to_vec(slice_subrange(buf, start, start + len));
    if !crate::text::utf8_check(s.as_slice()) {
        return Err(ProtoError::InvalidUtf8);
    }
    Ok((s, n1 + len))
}

/// Frame round-trip: parsing a written frame, wherever it stands in a larger
/// buffer, yields the id and payload back and consumes exactly the frame.
pub proof fn lemma_frame_round_trip(id: i32, payload: Seq<u8>, tail: Seq<u8>)
    requires
        payload.len() + 5 <= i32::MAX,
    ensures
        spec_read_frame(spec_frame(id, payload) + tail, 0) == Ok::<_, ProtoError>(
            (id, payload, spec_frame(id, payload).len() as int),
        ),
{
    let idb = varint_bytes_of(u32_repr(id));
    let total = (idb.len() + payload.len()) as nat;
    let lenb = varint_bytes_of(total);
    let bytes = spec_frame(id, payload) + tail;
    crate::varint::lemma_varint_bytes_len(u32_repr(id));
    crate::varint::lemma_varint_bytes_len(total);
    assert(forall|j: int| 0 <= j < lenb.len() ==> bytes[j] == lenb[j]);
    crate::varint::lemma_dec_of_enc(total, bytes, 0, 5);
    assert(total < 0x1_0000_0000);
    assert(spec_read_varint(bytes, 0) == Some(((total % 0x1_0000_0000) as u32, lenb.len() as int)));
    let n1 = lenb.len() as int;
    assert(forall|j: int| 0 <= j < idb.len() ==> bytes[n1 + j] == idb[j]);
    crate::varint::lemma_dec_of_enc(u32_repr(id), bytes, n1, 5);
    assert(u32_repr(id) % 0x1_0000_0000 == u32_repr(id));
    let l32 = (total % 0x1_0000_0000) as u32 as i32;
    assert(l32 == total as i32);
    assert(l32 >= idb.len());
    let uid = (u32_repr(id) % 0x1_0000_0000) as u32;
    assert(uid as i32 == id) by {
        crate::varint::lemma_varint_round_trip(id);
        lemma_u32_of_repr(id);
    }
    assert(bytes.subrange(n1 + idb.len(), n1 + l32) =~= payload);
    assert(spec_frame(id, payload).len() == n1 + l32);
}

proof fn lemma_u32_of_repr(v: i32)
    ensures
        (u32_repr(v) % 0x1_0000_0000) as u32 == v as u32,
{
    assert(v >= 0 ==> (v as u32) == v) by (bit_vector);
    assert(v < 0 ==> (v as u32) == v + 0x1_0000_0000) by (bit_vector);
}

} // verus!
