//! The type-erased container: a dispatch descriptor followed by a value's
//! bytes, placed at an aligned position inside a caller-supplied buffer.

use vstd::prelude::*;
use vstd::arithmetic::power2::is_pow2;
use vstd::bytes::{
    lemma_auto_spec_u64_to_from_le_bytes, spec_u64_from_le_bytes, spec_u64_to_le_bytes,
    u64_from_le_bytes, u64_to_le_bytes,
};
use vstd::pervasive::unreached;
use vstd::slice::slice_subrange;
use crate::layout::{
    align_offset_for, is_power_of_two, layout_wf, lemma_align_offset_props,
    lemma_pow2_le_divides, lemma_pow2_positive, lemma_round_up_props, spec_align_offset,
    spec_extend_align, spec_extend_offset, spec_extend_size, Layout,
};

verus! {

/// Bytes occupied by an encoded dispatch descriptor: three 64-bit words
/// (value size, value alignment, dispatch tag), little endian.
pub const META_SIZE: usize = 24;

/// Alignment at which a descriptor is stored within the buffer.
pub const META_ALIGN: usize = 8;

/// The dispatch descriptor: enough information to recover the stored
/// value's size and alignment from the buffer alone, plus a tag that
/// identifies the value's dispatch table to the surrounding program.
#[derive(Clone, Copy)]
pub struct Descriptor {
    pub size: usize,
    pub align: usize,
    pub tag: u64,
}

/// A concrete value with its type erased: its raw bytes, the alignment its
/// type demands, and the tag of its dispatch table.
pub struct ErasedValue {
    pub bytes: Vec<u8>,
    pub align: usize,
    pub tag: u64,
}

/// A descriptor is well formed when its alignment is a power of two and
/// the value occupies at least one byte.
pub open spec fn desc_wf(d: Descriptor) -> bool {
    &&& is_pow2(d.align as int)
    &&& d.size >= 1
}

/// A value the container accepts: power-of-two alignment, at least one byte.
pub open spec fn value_shape_ok(v: ErasedValue) -> bool {
    &&& is_pow2(v.align as int)
    &&& v.bytes@.len() >= 1
}

/// The descriptor derived from a value.
pub open spec fn desc_of(v: ErasedValue) -> Descriptor {
    Descriptor { size: v.bytes@.len() as usize, align: v.align, tag: v.tag }
}

/// The layout of the encoded descriptor itself.
pub open spec fn head_layout() -> Layout {
    Layout { size: META_SIZE, align: META_ALIGN }
}

/// The layout of the described value.
pub open spec fn value_layout_of(d: Descriptor) -> Layout {
    Layout { size: d.size, align: d.align }
}

/// Offset of the value's first byte, relative to the descriptor's first byte.
pub open spec fn spec_value_offset(d: Descriptor) -> int {
    spec_extend_offset(head_layout(), value_layout_of(d))
}

/// Alignment of the combined record: the stricter of the descriptor's and
/// the value's.
pub open spec fn spec_combined_align(d: Descriptor) -> int {
    spec_extend_align(head_layout(), value_layout_of(d))
}

/// Size of the combined record: descriptor, padding, value, rounded up to
/// the combined alignment.
pub open spec fn spec_combined_size(d: Descriptor) -> int {
    spec_extend_size(head_layout(), value_layout_of(d))
}

/// The position at which construction places the record for descriptor `d`
/// in a buffer starting at address `addr`: the leading padding that aligns
/// the record.
pub open spec fn spec_align_offset_of(addr: int, d: Descriptor) -> int {
    spec_align_offset(addr, spec_combined_align(d))
}

/// Bytes a buffer starting at address `addr` must have so that the record
/// fits after address-alignment padding.
pub open spec fn spec_needed_len(addr: int, d: Descriptor) -> int {
    spec_align_offset_of(addr, d) + spec_combined_size(d)
}

/// The descriptor's alignment is a power of two.
pub proof fn lemma_meta_align_pow2()
    ensures
        is_pow2(META_ALIGN as int),
{
    reveal_with_fuel(is_pow2, 5);
}

/// Facts about the combined alignment: it is a power of two, and both the
/// descriptor's and the value's alignments divide into it.
pub proof fn lemma_combined_align_props(d: Descriptor)
    requires
        is_pow2(d.align as int),
    ensures
        is_pow2(spec_combined_align(d)),
        spec_combined_align(d) >= 1,
        d.align as int <= spec_combined_align(d),
        META_ALIGN as int <= spec_combined_align(d),
        spec_combined_align(d) % (d.align as int) == 0,
        spec_value_offset(d) >= META_SIZE as int,
        spec_value_offset(d) + d.size <= spec_combined_size(d),
{
    lemma_meta_align_pow2();
    lemma_pow2_positive(d.align as int);
    lemma_pow2_positive(META_ALIGN as int);
    lemma_pow2_le_divides(d.align as int, spec_combined_align(d));
    lemma_round_up_props(META_SIZE as int, d.align as int);
    lemma_round_up_props(spec_value_offset(d) + d.size, spec_combined_align(d));
}

/// The 24-byte little-endian encoding of a descriptor.
pub open spec fn spec_encode_desc(d: Descriptor) -> Seq<u8> {
    spec_u64_to_le_bytes(d.size as u64) + spec_u64_to_le_bytes(d.align as u64)
        + spec_u64_to_le_bytes(d.tag)
}

/// The descriptor read back from 24 bytes.
pub open spec fn spec_decode_desc(s: Seq<u8>) -> Descriptor
    recommends
        s.len() == META_SIZE as int,
{
    Descriptor {
        size: spec_u64_from_le_bytes(s.subrange(0, 8)) as usize,
        align: spec_u64_from_le_bytes(s.subrange(8, 16)) as usize,
        tag: spec_u64_from_le_bytes(s.subrange(16, 24)),
    }
}

/// Decoding inverts encoding: the descriptor written into a buffer is the
/// descriptor read back from it.
pub proof fn lemma_desc_roundtrip(d: Descriptor)
    ensures
        spec_encode_desc(d).len() == META_SIZE as int,
        spec_decode_desc(spec_encode_desc(d)) == d,
{
    lemma_auto_spec_u64_to_from_le_bytes();
    let e = spec_encode_desc(d);
    assert(e.subrange(0, 8) =~= spec_u64_to_le_bytes(d.size as u64));
    assert(e.subrange(8, 16) =~= spec_u64_to_le_bytes(d.align as u64));
    assert(e.subrange(16, 24) =~= spec_u64_to_le_bytes(d.tag));
    let sz = d.size;
    let al = d.align;
    assert(sz as u64 as usize == sz) by (bit_vector);
    assert(al as u64 as usize == al) by (bit_vector);
}

/// `buf` with `data` written over the bytes starting at `at`.
pub open spec fn overwrite(buf: Seq<u8>, at: int, data: Seq<u8>) -> Seq<u8> {
    Seq::new(
        buf.len(),
        |i: int|
            if at <= i < at + data.len() {
                data[i - at]
            } else {
                buf[i]
            },
    )
}

/// The buffer contents after a record for descriptor `d` and value bytes
/// `v` is stored at position `p`.
pub open spec fn spec_store(buf: Seq<u8>, p: int, d: Descriptor, v: Seq<u8>) -> Seq<u8> {
    overwrite(overwrite(buf, p, spec_encode_desc(d)), p + spec_value_offset(d), v)
}

/// The descriptor stored at position `p` of a buffer.
pub open spec fn spec_load_desc(buf: Seq<u8>, p: int) -> Descriptor {
    spec_decode_desc(buf.subrange(p, p + META_SIZE as int))
}

/// The value bytes stored at position `p` of a buffer, located through the
/// descriptor stored there.
pub open spec fn spec_load_value(buf: Seq<u8>, p: int) -> Seq<u8> {
    let d = spec_load_desc(buf, p);
    buf.subrange(p + spec_value_offset(d), p + spec_value_offset(d) + d.size)
}

/// Round trip through the buffer: storing a record and reading it back
/// yields the descriptor and the value bytes that were stored, and no byte
/// outside the descriptor and value regions is touched.
pub proof fn lemma_store_round_trip(buf: Seq<u8>, p: int, d: Descriptor, v: Seq<u8>)
    requires
        desc_wf(d),
        v.len() == d.size,
        0 <= p,
        p + spec_combined_size(d) <= buf.len(),
    ensures
        spec_store(buf, p, d, v).len() == buf.len(),
        spec_load_desc(spec_store(buf, p, d, v), p) == d,
        spec_load_value(spec_store(buf, p, d, v), p) == v,
        forall|i: int|
            0 <= i < buf.len() && !(p <= i < p + META_SIZE as int) && !(p + spec_value_offset(d)
                <= i < p + spec_value_offset(d) + d.size) ==> spec_store(buf, p, d, v)[i]
                == buf[i],
{
    lemma_desc_roundtrip(d);
    lemma_combined_align_props(d);
    let s = spec_store(buf, p, d, v);
    let voff = spec_value_offset(d);
    assert(s.subrange(p, p + META_SIZE as int) =~= spec_encode_desc(d));
    assert(spec_load_desc(s, p) == d);
    assert(s.subrange(p + voff, p + voff + d.size) =~= v);
}

/// Writes `src` over `buf` starting at index `at`.
fn write_bytes(buf: &mut Vec<u8>, at: usize, src: &Vec<u8>)
    requires
        at + src@.len() <= old(buf)@.len(),
    ensures
        final(buf)@ == overwrite(old(buf)@, at as int, src@),
{
    let buf_len = buf.len();
    let n = src.len();
    let mut i: usize = 0;
    while i < n
        invariant
            n == src@.len(),
            at + n <= buf_len,
            at + n <= old(buf)@.len(),
            buf@.len() == old(buf)@.len(),
            0 <= i <= n,
            forall|j: int| 0 <= j < i ==> buf@[at + j] == src@[j],
            forall|j: int|
                0 <= j < buf@.len() && !(at <= j < at + i) ==> buf@[j] == old(buf)@[j],
        decreases n - i,
    {
        let b = src[i];
        buf.set(at + i, b);
        i = i + 1;
    }
    proof {
        assert(buf@ =~= overwrite(old(buf)@, at as int, src@));
    }
}

/// Writes the encoding of `d` over `buf` starting at index `at`.
fn write_descriptor(buf: &mut Vec<u8>, at: usize, d: &Descriptor)
    requires
        at + META_SIZE <= old(buf)@.len(),
    ensures
        final(buf)@ == overwrite(old(buf)@, at as int, spec_encode_desc(*d)),
{
    proof {
        lemma_desc_roundtrip(*d);
    }
    let _buf_len = buf.len();
    let sb = u64_to_le_bytes(d.size as u64);
    write_bytes(buf, at, &sb);
    let ab = u64_to_le_bytes(d.align as u64);
    write_bytes(buf, at + 8, &ab);
    let tb = u64_to_le_bytes(d.tag);
    write_bytes(buf, at + 16, &tb);
    proof {
        assert(buf@ =~= overwrite(old(buf)@, at as int, spec_encode_desc(*d)));
    }
}

/// Reads the descriptor stored at index `at` of `buf`.
fn read_descriptor(buf: &Vec<u8>, at: usize) -> (d: Descriptor)
    requires
        at + META_SIZE <= buf@.len(),
    ensures
        d == spec_load_desc(buf@, at as int),
{
    let _buf_len = buf.len();
    let s0 = slice_subrange(buf.as_slice(), at, at + 8);
    let size64 = u64_from_le_bytes(s0);
    let s1 = slice_subrange(buf.as_slice(), at + 8, at + 16);
    let align64 = u64_from_le_bytes(s1);
    let s2 = slice_subrange(buf.as_slice(), at + 16, at + 24);
    let tag = u64_from_le_bytes(s2);
    proof {
        let r = buf@.subrange(at as int, at + META_SIZE as int);
        assert(buf@.subrange(at as int, at + 8) =~= r.subrange(0, 8));
        assert(buf@.subrange(at + 8, at + 16) =~= r.subrange(8, 16));
        assert(buf@.subrange(at + 16, at + 24) =~= r.subrange(16, 24));
    }
    Descriptor { size: size64 as usize, align: align64 as usize, tag }
}

/// Copies `n` bytes of `buf` starting at index `at` into a fresh vector.
fn copy_range(buf: &Vec<u8>, at: usize, n: usize) -> (out: Vec<u8>)
    requires
        at + n <= buf@.len(),
    ensures
        out@ == buf@.subrange(at as int, at + n),
{
    let buf_len = buf.len();
    let mut out: Vec<u8> = Vec::new();
    let mut i: usize = 0;
    while i < n
        invariant
            at + n <= buf_len,
            at + n <= buf@.len(),
            0 <= i <= n,
            out@.len() == i,
            forall|j: int| 0 <= j < i ==> out@[j] == buf@[at + j],
        decreases n - i,
    {
        let b = buf[at + i];
        out.push(b);
        i = i + 1;
    }
    proof {
        assert(out@ =~= buf@.subrange(at as int, at + n));
    }
    out
}

/// Why a construction attempt was rejected.
pub enum ErrorKind {
    /// The buffer is too short: it has `got` bytes where the record, after
    /// address-alignment padding, needs `needed`.
    InsufficientCapacity { got: usize, needed: usize },
    /// The value's shape cannot be stored: it occupies no bytes, or its
    /// alignment is not a power of two.
    UnsupportedLayout,
}

/// A rejected construction: the untouched buffer and value are handed back
/// together with the reason.
pub struct ConstructError {
    pub mem: Vec<u8>,
    pub value: ErasedValue,
    pub kind: ErrorKind,
}

/// The needed length clamped to what a `usize` can say.
pub open spec fn spec_needed_clamped(addr: int, d: Descriptor) -> int {
    if spec_needed_len(addr, d) <= usize::MAX as int {
        spec_needed_len(addr, d)
    } else {
        usize::MAX as int
    }
}

/// The container: a buffer holding one type-erased value, the number of
/// leading bytes skipped for address alignment, and (as a ghost) the
/// address the buffer was modelled to start at.
pub struct Box {
    align_offset: usize,
    mem: Vec<u8>,
    addr: Ghost<int>,
}

impl Box {
    /// The buffer contents.
    pub closed spec fn spec_buffer(self) -> Seq<u8> {
        self.mem@
    }

    /// Leading bytes skipped so the record starts aligned.
    pub closed spec fn spec_align_offset(self) -> int {
        self.align_offset as int
    }

    /// The modelled start address of the buffer.
    pub closed spec fn spec_addr(self) -> int {
        self.addr@
    }

    /// The descriptor stored in the buffer.
    pub open spec fn spec_desc(self) -> Descriptor {
        spec_load_desc(self.spec_buffer(), self.spec_align_offset())
    }

    /// The value bytes stored in the buffer.
    pub open spec fn spec_value_bytes(self) -> Seq<u8> {
        spec_load_value(self.spec_buffer(), self.spec_align_offset())
    }

    /// The dispatch tag stored in the buffer.
    pub open spec fn spec_tag(self) -> u64 {
        self.spec_desc().tag
    }

    /// Well-formedness: the stored descriptor is valid and correctly
    /// describes a record that lies inside the buffer at an address-aligned
    /// position.
    pub open spec fn wf(self) -> bool {
        let d = self.spec_desc();
        &&& desc_wf(d)
        &&& self.spec_addr() >= 0
        &&& self.spec_align_offset() + spec_combined_size(d) <= self.spec_buffer().len()
        &&& (self.spec_addr() + self.spec_align_offset()) % spec_combined_align(d) == 0
        &&& self.spec_align_offset() < spec_combined_align(d)
    }

    /// Places `value` into `mem`, where `addr` is the address at which the
    /// buffer starts, or reports why it cannot. On failure the buffer and
    /// the value are handed back with no byte of either changed.
    pub fn try_new(mem: Vec<u8>, addr: usize, value: ErasedValue) -> (r: Result<
        Box,
        ConstructError,
    >)
        ensures
            ({
                let d = desc_of(value);
                match r {
                    Ok(b) => {
                        &&& value_shape_ok(value)
                        &&& spec_needed_len(addr as int, d) <= mem@.len()
                        &&& b.wf()
                        &&& b.spec_desc() == d
                        &&& b.spec_addr() == addr as int
                        &&& b.spec_align_offset() == spec_align_offset_of(addr as int, d)
                        &&& b.spec_buffer() == spec_store(
                            mem@,
                            b.spec_align_offset(),
                            d,
                            value.bytes@,
                        )
                        &&& b.spec_buffer().len() == mem@.len()
                        &&& b.spec_value_bytes() == value.bytes@
                    },
                    Err(e) => {
                        &&& e.mem@ == mem@
                        &&& e.value == value
                        &&& if !value_shape_ok(value) {
                            e.kind == ErrorKind::UnsupportedLayout
                        } else {
                            &&& spec_needed_len(addr as int, d) > mem@.len()
                            &&& (e.kind matches ErrorKind::InsufficientCapacity { got, needed }
                                && got == mem@.len() && needed == spec_needed_clamped(
                                addr as int,
                                d,
                            ))
                        }
                    },
                }
            }),
    {
        let size = value.bytes.len();
        if size == 0 || !is_power_of_two(value.align) {
            return Err(ConstructError { mem, value, kind: ErrorKind::UnsupportedLayout });
        }
        let d = Descriptor { size, align: value.align, tag: value.tag };
        proof {
            lemma_meta_align_pow2();
            lemma_combined_align_props(d);
            lemma_align_offset_props(addr as int, spec_combined_align(d));
        }
        let head = Layout { size: META_SIZE, align: META_ALIGN };
        let vl = Layout { size: d.size, align: d.align };
        let got = mem.len();
        match head.extend(&vl) {
            None => Err(
                ConstructError {
                    mem,
                    value,
                    kind: ErrorKind::InsufficientCapacity { got, needed: usize::MAX },
                },
            ),
            Some((combined, voff)) => {
                let ao = align_offset_for(addr, combined.align);
                match ao.checked_add(combined.size) {
                    None => Err(
                        ConstructError {
                            mem,
                            value,
                            kind: ErrorKind::InsufficientCapacity { got, needed: usize::MAX },
                        },
                    ),
                    Some(needed) => {
                        if needed > got {
                            Err(
                                ConstructError {
                                    mem,
                                    value,
                                    kind: ErrorKind::InsufficientCapacity { got, needed },
                                },
                            )
                        } else {
                            proof {
                                lemma_store_round_trip(mem@, ao as int, d, value.bytes@);
                            }
                            let mut buf = mem;
                            write_descriptor(&mut buf, ao, &d);
                            write_bytes(&mut buf, ao + voff, &value.bytes);
                            proof {
                                assert(buf@ =~= spec_store(mem@, ao as int, d, value.bytes@));
                            }
                            Ok(Box { align_offset: ao, mem: buf, addr: Ghost(addr as int) })
                        }
                    },
                }
            },
        }
    }

    /// Places `value` into `mem` like [`Box::try_new`], for callers
    /// that have already sized the buffer; the capacity check cannot fail.
    pub fn new(mem: Vec<u8>, addr: usize, value: ErasedValue) -> (b: Box)
        requires
            value_shape_ok(value),
            spec_needed_len(addr as int, desc_of(value)) <= mem@.len(),
        ensures
            ({
                let d = desc_of(value);
                &&& b.wf()
                &&& b.spec_desc() == d
                &&& b.spec_addr() == addr as int
                &&& b.spec_align_offset() == spec_align_offset_of(addr as int, d)
                &&& b.spec_buffer() == spec_store(mem@, b.spec_align_offset(), d, value.bytes@)
                &&& b.spec_buffer().len() == mem@.len()
                &&& b.spec_value_bytes() == value.bytes@
            }),
    {
        match Self::try_new(mem, addr, value) {
            Ok(b) => b,
            Err(_) => unreached(),
        }
    }

    /// Places `value` into a fresh zero-initialized buffer of `capacity`
    /// bytes that the container owns itself. The owned buffer is modelled
    /// as starting at an aligned address, so no leading padding is needed.
    pub fn try_new_fixed(capacity: usize, value: ErasedValue) -> (r: Result<
        Box,
        ConstructError,
    >)
        ensures
            ({
                let d = desc_of(value);
                let zeros = Seq::<u8>::new(capacity as nat, |i: int| 0u8);
                match r {
                    Ok(b) => {
                        &&& value_shape_ok(value)
                        &&& spec_needed_len(0, d) <= capacity
                        &&& b.wf()
                        &&& b.spec_desc() == d
                        &&& b.spec_addr() == 0
                        &&& b.spec_align_offset() == 0
                        &&& b.spec_buffer() == spec_store(zeros, 0, d, value.bytes@)
                        &&& b.spec_buffer().len() == capacity
                        &&& b.spec_value_bytes() == value.bytes@
                    },
                    Err(e) => {
                        &&& e.mem@ == zeros
                        &&& e.value == value
                        &&& if !value_shape_ok(value) {
                            e.kind == ErrorKind::UnsupportedLayout
                        } else {
                            &&& spec_needed_len(0, d) > capacity
                            &&& (e.kind matches ErrorKind::InsufficientCapacity { got, needed }
                                && got == capacity && needed == spec_needed_clamped(0, d))
                        }
                    },
                }
            }),
    {
        let mem = zeroed_buffer(capacity);
        let r = Self::try_new(mem, 0, value);
        proof {
            if r is Ok {
                let d = desc_of(value);
                lemma_combined_align_props(d);
            }
        }
        r
    }

    /// The descriptor, read back from the buffer.
    fn meta(&self) -> (d: Descriptor)
        requires
            self.wf(),
        ensures
            d == self.spec_desc(),
    {
        proof {
            lemma_combined_align_props(self.spec_desc());
        }
        let _buf_len = self.mem.len();
        read_descriptor(&self.mem, self.align_offset)
    }

    /// The combined layout, the value's offset within it, and the
    /// descriptor, all reconstructed from the buffer alone.
    pub fn layout_meta(&self) -> (r: (Layout, usize, Descriptor))
        requires
            self.wf(),
        ensures
            ({
                let d = self.spec_desc();
                &&& r.0.size == spec_combined_size(d)
                &&& r.0.align == spec_combined_align(d)
                &&& layout_wf(r.0)
                &&& r.1 == spec_value_offset(d)
                &&& r.2 == d
            }),
    {
        let d = self.meta();
        proof {
            lemma_meta_align_pow2();
            lemma_combined_align_props(d);
        }
        let _buf_len = self.mem.len();
        let head = Layout { size: META_SIZE, align: META_ALIGN };
        let vl = Layout { size: d.size, align: d.align };
        match head.extend(&vl) {
            Some(p) => (p.0, p.1, d),
            None => unreached(),
        }
    }

    /// The combined layout needed to store `value` together with its
    /// descriptor: the descriptor first, then the value at the first
    /// suitably aligned offset, rounded up to the stricter alignment.
    pub fn layout_of_dyn(value: &ErasedValue) -> (l: Layout)
        requires
            is_pow2(value.align as int),
            spec_combined_size(desc_of(*value)) <= usize::MAX,
        ensures
            l.size == spec_combined_size(desc_of(*value)),
            l.align == spec_combined_align(desc_of(*value)),
            layout_wf(l),
    {
        let r = meta_offset_layout(value);
        r.1
    }

    /// A copy of the stored value's bytes, reconstructed from the buffer:
    /// the descriptor is read back, the value's offset is recomputed from
    /// it, and the bytes are taken from there.
    pub fn as_ref(&self) -> (v: Vec<u8>)
        requires
            self.wf(),
        ensures
            v@ == self.spec_value_bytes(),
    {
        let (_, voff, d) = self.layout_meta();
        proof {
            lemma_combined_align_props(d);
        }
        let _buf_len = self.mem.len();
        copy_range(&self.mem, self.align_offset + voff, d.size)
    }

    /// Overwrites the stored value's bytes in place. The replacement must
    /// occupy exactly the bytes of the value it replaces, since the
    /// descriptor keeps describing the same concrete type.
    pub fn write_value(&mut self, bytes: &Vec<u8>)
        requires
            old(self).wf(),
            bytes@.len() == old(self).spec_desc().size,
        ensures
            final(self).wf(),
            final(self).spec_desc() == old(self).spec_desc(),
            final(self).spec_value_bytes() == bytes@,
            final(self).spec_addr() == old(self).spec_addr(),
            final(self).spec_align_offset() == old(self).spec_align_offset(),
            final(self).spec_buffer() == overwrite(
                old(self).spec_buffer(),
                old(self).spec_align_offset() + spec_value_offset(old(self).spec_desc()),
                bytes@,
            ),
    {
        let (_, voff, d) = self.layout_meta();
        proof {
            lemma_combined_align_props(d);
        }
        let _buf_len = self.mem.len();
        let start = self.align_offset + voff;
        write_bytes(&mut self.mem, start, bytes);
        proof {
            let p = self.spec_align_offset();
            assert(self.spec_buffer().subrange(p, p + META_SIZE as int) =~= old(
                self,
            ).spec_buffer().subrange(p, p + META_SIZE as int));
            assert(self.spec_value_bytes() =~= bytes@);
        }
    }

    /// The stored dispatch tag.
    pub fn tag(&self) -> (t: u64)
        requires
            self.wf(),
        ensures
            t == self.spec_tag(),
    {
        let d = self.meta();
        d.tag
    }

    /// The stored value's size in bytes.
    pub fn value_len(&self) -> (n: usize)
        requires
            self.wf(),
        ensures
            n == self.spec_desc().size,
    {
        let d = self.meta();
        d.size
    }

    /// Ends the container's life: hands the contained value back out,
    /// exactly once, together with the backing buffer, whose bytes are
    /// returned unchanged. Consuming the container here is what makes a
    /// second destruction impossible.
    pub fn destroy(self) -> (r: (ErasedValue, Vec<u8>))
        requires
            self.wf(),
        ensures
            r.0.bytes@ == self.spec_value_bytes(),
            r.0.align == self.spec_desc().align,
            r.0.tag == self.spec_desc().tag,
            r.1@ == self.spec_buffer(),
    {
        let bytes = self.as_ref();
        let d = self.meta();
        let Box { align_offset: _, mem, addr: _ } = self;
        (ErasedValue { bytes, align: d.align, tag: d.tag }, mem)
    }
}

/// The descriptor a value would be stored under, the combined layout of
/// descriptor plus value, and the value's byte offset within that layout.
pub fn meta_offset_layout(value: &ErasedValue) -> (r: (Descriptor, Layout, usize))
    requires
        is_pow2(value.align as int),
        spec_combined_size(desc_of(*value)) <= usize::MAX,
    ensures
        ({
            let d = desc_of(*value);
            &&& r.0 == d
            &&& r.1.size == spec_combined_size(d)
            &&& r.1.align == spec_combined_align(d)
            &&& layout_wf(r.1)
            &&& r.2 == spec_value_offset(d)
        }),
{
    let d = Descriptor { size: value.bytes.len(), align: value.align, tag: value.tag };
    proof {
        lemma_meta_align_pow2();
    }
    let head = Layout { size: META_SIZE, align: META_ALIGN };
    let vl = Layout { size: d.size, align: d.align };
    match head.extend(&vl) {
        Some(p) => (d, p.0, p.1),
        None => unreached(),
    }
}

/// A fresh buffer of `n` zero bytes.
fn zeroed_buffer(n: usize) -> (out: Vec<u8>)
    ensures
        out@ == Seq::<u8>::new(n as nat, |i: int| 0u8),
{
    let mut out: Vec<u8> = Vec::new();
    let mut i: usize = 0;
    while i < n
        invariant
            0 <= i <= n,
            out@.len() == i,
            forall|j: int| 0 <= j < i ==> out@[j] == 0u8,
        decreases n - i,
    {
        out.push(0u8);
        i = i + 1;
    }
    proof {
        assert(out@ =~= Seq::<u8>::new(n as nat, |j: int| 0u8));
    }
    out
}

} // verus!
