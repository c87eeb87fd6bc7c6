use vstd::prelude::*;

use crate::protocol::{be_bytes, u64_repr};
use crate::varint::u32_repr;

verus! {

/// The unsigned interpretation of a signed 8-bit value.
pub open spec fn u8_repr(v: i8) -> nat {
    if v >= 0 {
        v as nat
    } else {
        (v + 0x100) as nat
    }
}

/// The unsigned interpretation of a signed 16-bit value.
pub open spec fn u16_repr(v: i16) -> nat {
    if v >= 0 {
        v as nat
    } else {
        (v + 0x1_0000) as nat
    }
}

/// A node of the binary tag tree. Floating-point payloads are carried as
/// their IEEE-754 bit patterns, which is exactly what the encoding writes.
#[derive(Debug, PartialEq)]
pub enum NBT {
    End,
    Byte(i8),
    Short(i16),
    Int(i32),
    Long(i64),
    Float(u32),
    Double(u64),
    ByteArray(Vec<u8>),
    Str(Vec<u8>),
    List(Vec<NBT>),
    Compound(Vec<NamedTag>),
    IntArray(Vec<i32>),
    LongArray(Vec<i64>),
}

/// A tag paired with its name: the only thing serialized at the top level or
/// inside a compound. The name is UTF-8 bytes.
#[derive(Debug, PartialEq)]
pub struct NamedTag {
    pub tag: NBT,
    pub name: Vec<u8>,
}

pub open spec fn type_id_of(t: NBT) -> u8 {
    match t {
        NBT::End => 0,
        NBT::Byte(_) => 1,
        NBT::Short(_) => 2,
        NBT::Int(_) => 3,
        NBT::Long(_) => 4,
        NBT::Float(_) => 5,
        NBT::Double(_) => 6,
        NBT::ByteArray(_) => 7,
        NBT::Str(_) => 8,
        NBT::List(_) => 9,
        NBT::Compound(_) => 10,
        NBT::IntArray(_) => 11,
        NBT::LongArray(_) => 12,
    }
}

/// The element type byte a list writes: its first element's type, or End for
/// an empty list.
pub open spec fn list_elem_type(s: Seq<NBT>) -> u8 {
    if s.len() == 0 {
        0
    } else {
        type_id_of(s[0])
    }
}

/// Well-formedness: every length fits its wire-format width and every list is
/// type-homogeneous. A violated list is a contract error of the builder, not
/// a silent coercion.
pub open spec fn wf_tag(t: NBT) -> bool
    decreases t,
{
    match t {
        NBT::ByteArray(v) => v@.len() <= 0xffff,
        NBT::Str(s) => s@.len() <= 0xffff,
        NBT::List(v) => v@.len() <= 0x7fff_ffff && wf_tags(v@) && homogeneous(v@),
        NBT::Compound(v) => v@.len() <= 0x7fff_ffff && wf_named_tags(v@),
        NBT::IntArray(v) => v@.len() <= 0x7fff_ffff,
        NBT::LongArray(v) => v@.len() <= 0x7fff_ffff,
        _ => true,
    }
}

pub open spec fn wf_tags(s: Seq<NBT>) -> bool
    decreases s,
{
    s.len() == 0 || (wf_tag(s[0]) && wf_tags(s.drop_first()))
}

pub open spec fn homogeneous(s: Seq<NBT>) -> bool {
    forall|i: int| 0 <= i < s.len() ==> type_id_of(#[trigger] s[i]) == type_id_of(s[0])
}

pub open spec fn wf_named(nt: NamedTag) -> bool
    decreases nt,
{
    nt.name@.len() <= 0xffff && wf_tag(nt.tag)
}

pub open spec fn wf_named_tags(s: Seq<NamedTag>) -> bool
    decreases s,
{
    s.len() == 0 || (wf_named(s[0]) && wf_named_tags(s.drop_first()))
}

/// The value bytes of a tag: fixed-width types big-endian; byte arrays and
/// strings with a 16-bit length; a list with its element type byte, a 32-bit
/// count, then each element's value bytes; a compound as a run of full named
/// tags closed by a single End byte; integer arrays with a 32-bit count then
/// each element big-endian.
pub open spec fn tag_payload(t: NBT) -> Seq<u8>
    decreases t,
{
    match t {
        NBT::End => seq![0u8],
        NBT::Byte(b) => seq![b as u8],
        NBT::Short(s) => be_bytes(u16_repr(s), 2),
        NBT::Int(i) => be_bytes(u32_repr(i), 4),
        NBT::Long(l) => be_bytes(u64_repr(l), 8),
        NBT::Float(bits) => be_bytes(bits as nat, 4),
        NBT::Double(bits) => be_bytes(bits as nat, 8),
        NBT::ByteArray(v) => be_bytes(v@.len(), 2) + v@,
        NBT::Str(s) => be_bytes(s@.len(), 2) + s@,
        NBT::List(v) => seq![list_elem_type(v@)] + be_bytes(v@.len(), 4) + tags_payload(v@),
        NBT::Compound(v) => named_tags_bytes(v@) + seq![0u8],
        NBT::IntArray(v) => be_bytes(v@.len(), 4) + ints_payload(v@),
        NBT::LongArray(v) => be_bytes(v@.len(), 4) + longs_payload(v@),
    }
}

pub open spec fn tags_payload(s: Seq<NBT>) -> Seq<u8>
    decreases s,
{
    if s.len() == 0 {
        seq![]
    } else {
        tag_payload(s[0]) + tags_payload(s.drop_first())
    }
}

pub open spec fn named_tags_bytes(s: Seq<NamedTag>) -> Seq<u8>
    decreases s,
{
    if s.len() == 0 {
        seq![]
    } else {
        named_tag_bytes(s[0], true) + named_tags_bytes(s.drop_first())
    }
}

pub open spec fn ints_payload(s: Seq<i32>) -> Seq<u8>
    decreases s,
{
    if s.len() == 0 {
        seq![]
    } else {
        be_bytes(u32_repr(s[0]), 4) + ints_payload(s.drop_first())
    }
}

pub open spec fn longs_payload(s: Seq<i64>) -> Seq<u8>
    decreases s,
{
    if s.len() == 0 {
        seq![]
    } else {
        be_bytes(u64_repr(s[0]), 8) + longs_payload(s.drop_first())
    }
}

/// An all-zero long array's payload is a run of zero bytes, eight per
/// element.
pub proof fn lemma_longs_zero(s: Seq<i64>)
    requires
        forall|i: int| 0 <= i < s.len() ==> s[i] == 0,
    ensures
        longs_payload(s) =~= crate::protocol::zero_bytes(8 * s.len()),
    decreases s.len(),
{
    if s.len() > 0 {
        lemma_longs_zero(s.drop_first());
        crate::protocol::lemma_be_bytes_zero(8);
        crate::protocol::lemma_be_bytes_len(u64_repr(s[0]), 8);
        assert(longs_payload(s) =~= crate::protocol::zero_bytes(8 * s.len()));
    } else {
        assert(longs_payload(s) =~= crate::protocol::zero_bytes(0));
    }
}

/// A named tag's serialization: its type byte, then (when `named`) the
/// 16-bit-length-prefixed name, then the value bytes. An End tag is the
/// single End byte whatever its name.
pub open spec fn named_tag_bytes(nt: NamedTag, named: bool) -> Seq<u8>
    decreases nt,
{
    if nt.tag is End {
        seq![0u8]
    } else {
        seq![type_id_of(nt.tag)] + (if named {
            be_bytes(nt.name@.len(), 2) + nt.name@
        } else {
            seq![]
        }) + tag_payload(nt.tag)
    }
}

proof fn lemma_tags_payload_snoc(s: Seq<NBT>, x: NBT)
    ensures
        tags_payload(s.push(x)) == tags_payload(s) + tag_payload(x),
    decreases s.len(),
{
    if s.len() == 0 {
        assert(s.push(x)[0] == x);
        assert(s.push(x).drop_first() =~= Seq::<NBT>::empty());
        assert(tags_payload(s.push(x).drop_first()).len() == 0);
        assert(tags_payload(s.push(x)) =~= tags_payload(s) + tag_payload(x));
    } else {
        lemma_tags_payload_snoc(s.drop_first(), x);
        assert(s.push(x).drop_first() =~= s.drop_first().push(x));
        assert(s.push(x)[0] == s[0]);
        assert(tags_payload(s.push(x)) =~= tags_payload(s) + tag_payload(x));
    }
}

proof fn lemma_named_tags_bytes_snoc(s: Seq<NamedTag>, x: NamedTag)
    ensures
        named_tags_bytes(s.push(x)) == named_tags_bytes(s) + named_tag_bytes(x, true),
    decreases s.len(),
{
    if s.len() == 0 {
        assert(s.push(x)[0] == x);
        assert(s.push(x).drop_first() =~= Seq::<NamedTag>::empty());
        assert(named_tags_bytes(s.push(x).drop_first()).len() == 0);
        assert(named_tags_bytes(s.push(x)) =~= named_tags_bytes(s) + named_tag_bytes(x, true));
    } else {
        lemma_named_tags_bytes_snoc(s.drop_first(), x);
        assert(s.push(x).drop_first() =~= s.drop_first().push(x));
        assert(s.push(x)[0] == s[0]);
        assert(named_tags_bytes(s.push(x)) =~= named_tags_bytes(s) + named_tag_bytes(x, true));
    }
}

proof fn lemma_ints_payload_snoc(s: Seq<i32>, x: i32)
    ensures
        ints_payload(s.push(x)) == ints_payload(s) + be_bytes(u32_repr(x), 4),
    decreases s.len(),
{
    if s.len() == 0 {
        assert(s.push(x)[0] == x);
        assert(s.push(x).drop_first() =~= Seq::<i32>::empty());
        assert(ints_payload(s.push(x).drop_first()).len() == 0);
        assert(ints_payload(s.push(x)) =~= ints_payload(s) + be_bytes(u32_repr(x), 4));
    } else {
        lemma_ints_payload_snoc(s.drop_first(), x);
        assert(s.push(x).drop_first() =~= s.drop_first().push(x));
        assert(s.push(x)[0] == s[0]);
        assert(ints_payload(s.push(x)) =~= ints_payload(s) + be_bytes(u32_repr(x), 4));
    }
}

proof fn lemma_longs_payload_snoc(s: Seq<i64>, x: i64)
    ensures
        longs_payload(s.push(x)) == longs_payload(s) + be_bytes(u64_repr(x), 8),
    decreases s.len(),
{
    if s.len() == 0 {
        assert(s.push(x)[0] == x);
        assert(s.push(x).drop_first() =~= Seq::<i64>::empty());
        assert(longs_payload(s.push(x).drop_first()).len() == 0);
        assert(longs_payload(s.push(x)) =~= longs_payload(s) + be_bytes(u64_repr(x), 8));
    } else {
        lemma_longs_payload_snoc(s.drop_first(), x);
        assert(s.push(x).drop_first() =~= s.drop_first().push(x));
        assert(s.push(x)[0] == s[0]);
        assert(longs_payload(s.push(x)) =~= longs_payload(s) + be_bytes(u64_repr(x), 8));
    }
}

/// Well-formedness of a prefix extends by one well-formed element.
proof fn lemma_wf_tags_index(s: Seq<NBT>, i: int)
    requires
        wf_tags(s),
        0 <= i < s.len(),
    ensures
        wf_tag(s[i]),
    decreases i,
{
    if i > 0 {
        lemma_wf_tags_index(s.drop_first(), i - 1);
    }
}

proof fn lemma_wf_named_tags_index(s: Seq<NamedTag>, i: int)
    requires
        wf_named_tags(s),
        0 <= i < s.len(),
    ensures
        wf_named(s[i]),
    decreases i,
{
    if i > 0 {
        lemma_wf_named_tags_index(s.drop_first(), i - 1);
    }
}

/// Appends the `n`-byte big-endian encoding of `v`.
pub fn push_be(out: &mut Vec<u8>, v: u64, n: usize) -> (unit: ())
    requires
        n <= 8,
    ensures
        final(out)@ == old(out)@ + be_bytes(v as nat, n as nat),
    decreases n,
{
    if n == 0 {
        proof {
            assert(out@ =~= old(out)@ + be_bytes(v as nat, 0));
        }
        return ;
    }
    push_be(out, v / 0x100, n - 1);
    out.push((v % 0x100) as u8);
    proof {
        assert(out@ =~= old(out)@ + be_bytes(v as nat, n as nat));
    }
}

impl NBT {
    /// The type byte this tag writes on the wire.
    pub fn type_id(&self) -> (r: u8)
        ensures
            r == type_id_of(*self),
    {
        match self {
            NBT::End => 0,
            NBT::Byte(_) => 1,
            NBT::Short(_) => 2,
            NBT::Int(_) => 3,
            NBT::Long(_) => 4,
            NBT::Float(_) => 5,
            NBT::Double(_) => 6,
            NBT::ByteArray(_) => 7,
            NBT::Str(_) => 8,
            NBT::List(_) => 9,
            NBT::Compound(_) => 10,
            NBT::IntArray(_) => 11,
            NBT::LongArray(_) => 12,
        }
    }

    /// The value bytes of this tag.
    pub fn to_bytes(&self) -> (r: Vec<u8>)
        requires
            wf_tag(*self),
        ensures
            r@ == tag_payload(*self),
    {
        let mut out: Vec<u8> = Vec::new();
        self.encode_into(&mut out);
        out
    }

    /// Appends this tag's value bytes to `out`.
    fn encode_into(&self, out: &mut Vec<u8>) -> (unit: ())
        requires
            wf_tag(*self),
        ensures
            final(out)@ == old(out)@ + tag_payload(*self),
        decreases *self,
    {
        match self {
            NBT::End => {
                out.push(0u8);
                assert(out@ =~= old(out)@ + tag_payload(*self));
            },
            NBT::Byte(b) => {
                out.push(*b as u8);
                assert(out@ =~= old(out)@ + tag_payload(*self));
            },
            NBT::Short(s) => {
                let w: u16 = *s as u16;
                proof {
                    let sv = *s;
                    assert(sv >= 0 ==> (sv as u16) == sv) by (bit_vector);
                    assert(sv < 0 ==> (sv as u16) == sv + 0x1_0000) by (bit_vector);
                }
                push_be(out, w as u64, 2);
            },
            NBT::Int(i) => {
                let w: u32 = *i as u32;
                proof {
                    let iv = *i;
                    assert(iv >= 0 ==> (iv as u32) == iv) by (bit_vector);
                    assert(iv < 0 ==> (iv as u32) == iv + 0x1_0000_0000) by (bit_vector);
                }
                push_be(out, w as u64, 4);
            },
            NBT::Long(l) => {
                let w: u64 = *l as u64;
                proof {
                    let lv = *l;
                    assert(lv >= 0 ==> (lv as u64) == lv) by (bit_vector);
                    assert(lv < 0 ==> (lv as u64) == lv + 0x1_0000_0000_0000_0000) by (bit_vector);
                }
                push_be(out, w, 8);
            },
            NBT::Float(bits) => {
                push_be(out, *bits as u64, 4);
            },
            NBT::Double(bits) => {
                push_be(out, *bits, 8);
            },
            NBT::ByteArray(v) => {
                push_be(out, v.len() as u64, 2);
                let ghost mid = out@;
                let mut i: usize = 0;
                while i < v.len()
                    invariant
                        i <= v@.len(),
                        out@ == mid + v@.subrange(0, i as int),
                    decreases v@.len() - i,
                {
                    out.push(v[i]);
                    i = i + 1;
                }
                assert(v@.subrange(0, v@.len() as int) =~= v@);
                assert(out@ =~= old(out)@ + tag_payload(*self));
            },
            NBT::Str(s) => {
                push_be(out, s.len() as u64, 2);
                let ghost mid = out@;
                let mut i: usize = 0;
                while i < s.len()
                    invariant
                        i <= s@.len(),
                        out@ == mid + s@.subrange(0, i as int),
                    decreases s@.len() - i,
                {
                    out.push(s[i]);
                    i = i + 1;
                }
                assert(s@.subrange(0, s@.len() as int) =~= s@);
                assert(out@ =~= old(out)@ + tag_payload(*self));
            },
            NBT::List(v) => {
                let ty = if v.len() == 0 {
                    0u8
                } else {
                    v[0].type_id()
                };
                out.push(ty);
                push_be(out, v.len() as u64, 4);
                let ghost mid = out@;
                let mut i: usize = 0;
                while i < v.len()
                    invariant
                        i <= v@.len(),
                        *self == NBT::List(*v),
                        wf_tags(v@),
                        out@ == mid + tags_payload(v@.subrange(0, i as int)),
                    decreases v@.len() - i,
                {
                    proof {
                        lemma_wf_tags_index(v@, i as int);
                        lemma_tags_payload_snoc(v@.subrange(0, i as int), v@[i as int]);
                        assert(v@.subrange(0, i + 1) =~= v@.subrange(0, i as int).push(v@[i as int]));
                    }
                    proof {
                        broadcast use vstd::std_specs::vec::group_vec_axioms;

                        assert(decreases_to!(*self => (*self)->List_0));
                        assert((*self)->List_0 == *v);
                        assert(decreases_to!(*v => v@));
                        assert(decreases_to!(v@ => v@[i as int]));
                        assert(decreases_to!(*self => v@[i as int]));
                    }
                    v[i].encode_into(out);
                    i = i + 1;
                }
                proof {
                    assert(v@.subrange(0, v@.len() as int) =~= v@);
                    assert(out@ =~= old(out)@ + tag_payload(*self));
                }
            },
            NBT::Compound(v) => {
                let ghost mid = out@;
                let mut i: usize = 0;
                while i < v.len()
                    invariant
                        i <= v@.len(),
                        *self == NBT::Compound(*v),
                        wf_named_tags(v@),
                        out@ == mid + named_tags_bytes(v@.subrange(0, i as int)),
                    decreases v@.len() - i,
                {
                    proof {
                        lemma_wf_named_tags_index(v@, i as int);
                        lemma_named_tags_bytes_snoc(v@.subrange(0, i as int), v@[i as int]);
                        assert(v@.subrange(0, i + 1) =~= v@.subrange(0, i as int).push(v@[i as int]));
                    }
                    proof {
                        broadcast use vstd::std_specs::vec::group_vec_axioms;

                        assert(decreases_to!(*self => (*self)->Compound_0));
                        assert((*self)->Compound_0 == *v);
                        assert(decreases_to!(*v => v@));
                        assert(decreases_to!(v@ => v@[i as int]));
                        assert(decreases_to!(*self => v@[i as int]));
                    }
                    v[i].encode_named_into(out);
                    i = i + 1;
                }
                out.push(0u8);
                proof {
                    assert(v@.subrange(0, v@.len() as int) =~= v@);
                    assert(out@ =~= old(out)@ + tag_payload(*self));
                }
            },
            NBT::IntArray(v) => {
                push_be(out, v.len() as u64, 4);
                let ghost mid = out@;
                let mut i: usize = 0;
                while i < v.len()
                    invariant
                        i <= v@.len(),
                        out@ == mid + ints_payload(v@.subrange(0, i as int)),
                    decreases v@.len() - i,
                {
                    proof {
                        lemma_ints_payload_snoc(v@.subrange(0, i as int), v@[i as int]);
                        assert(v@.subrange(0, i + 1) =~= v@.subrange(0, i as int).push(v@[i as int]));
                    }
                    let x = v[i];
                    let w: u32 = x as u32;
                    proof {
                        assert(x >= 0 ==> (x as u32) == x) by (bit_vector);
                        assert(x < 0 ==> (x as u32) == x + 0x1_0000_0000) by (bit_vector);
                    }
                    push_be(out, w as u64, 4);
                    i = i + 1;
                }
                proof {
                    assert(v@.subrange(0, v@.len() as int) =~= v@);
                    assert(out@ =~= old(out)@ + tag_payload(*self));
                }
            },
            NBT::LongArray(v) => {
                push_be(out, v.len() as u64, 4);
                let ghost mid = out@;
                let mut i: usize = 0;
                while i < v.len()
                    invariant
                        i <= v@.len(),
                        out@ == mid + longs_payload(v@.subrange(0, i as int)),
                    decreases v@.len() - i,
                {
                    proof {
                        lemma_longs_payload_snoc(v@.subrange(0, i as int), v@[i as int]);
                        assert(v@.subrange(0, i + 1) =~= v@.subrange(0, i as int).push(v@[i as int]));
                    }
                    let x = v[i];
                    let w: u64 = x as u64;
                    proof {
                        assert(x >= 0 ==> (x as u64) == x) by (bit_vector);
                        assert(x < 0 ==> (x as u64) == x + 0x1_0000_0000_0000_0000) by (bit_vector);
                    }
                    push_be(out, w, 8);
                    i = i + 1;
                }
                proof {
                    assert(v@.subrange(0, v@.len() as int) =~= v@);
                    assert(out@ =~= old(out)@ + tag_payload(*self));
                }
            },
        }
    }
}

impl NamedTag {
    pub fn new(name: Vec<u8>, tag: NBT) -> (r: Self)
        ensures
            r.name == name,
            r.tag == tag,
    {
        Self { tag, name }
    }

    /// The full serialization: type byte, name (when `named`), value bytes.
    pub fn to_bytes_internal(&self, named: bool) -> (r: Vec<u8>)
        requires
            wf_named(*self),
        ensures
            r@ == named_tag_bytes(*self, named),
    {
        let mut out: Vec<u8> = Vec::new();
        if named {
            self.encode_named_into(&mut out);
        } else {
            self.encode_root_into(&mut out);
        }
        out
    }

    pub fn to_bytes(&self) -> (r: Vec<u8>)
        requires
            wf_named(*self),
        ensures
            r@ == named_tag_bytes(*self, true),
    {
        self.to_bytes_internal(true)
    }

    fn encode_named_into(&self, out: &mut Vec<u8>) -> (unit: ())
        requires
            wf_named(*self),
        ensures
            final(out)@ == old(out)@ + named_tag_bytes(*self, true),
        decreases self,
    {
        let ty = self.tag.type_id();
        if ty == 0 {
            out.push(0u8);
            assert(out@ =~= old(out)@ + named_tag_bytes(*self, true));
            return ;
        }
        out.push(ty);
        push_be(out, self.name.len() as u64, 2);
        let ghost mid = out@;
        let mut i: usize = 0;
        while i < self.name.len()
            invariant
                i <= self.name@.len(),
                out@ == mid + self.name@.subrange(0, i as int),
            decreases self.name@.len() - i,
        {
            out.push(self.name[i]);
            i = i + 1;
        }
        assert(self.name@.subrange(0, self.name@.len() as int) =~= self.name@);
        self.tag.encode_into(out);
        proof {
            assert(out@ =~= old(out)@ + named_tag_bytes(*self, true));
        }
    }

    fn encode_root_into(&self, out: &mut Vec<u8>) -> (unit: ())
        requires
            wf_named(*self),
        ensures
            final(out)@ == old(out)@ + named_tag_bytes(*self, false),
        decreases self,
    {
        let ty = self.tag.type_id();
        if ty == 0 {
            out.push(0u8);
            assert(out@ =~= old(out)@ + named_tag_bytes(*self, false));
            return ;
        }
        out.push(ty);
        self.tag.encode_into(out);
        proof {
            assert(out@ =~= old(out)@ + named_tag_bytes(*self, false));
        }
    }
}

} // verus!
