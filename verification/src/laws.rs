//! Container-wide properties stated and proved as theorems: sufficiency of
//! pre-sized buffers at arbitrary start addresses, and alignment of the
//! stored record. The store/load round trip itself is
//! [`crate::container::lemma_store_round_trip`].

use vstd::prelude::*;
use vstd::arithmetic::div_mod::{lemma_add_mod_noop, lemma_small_mod};
use crate::container::{
    desc_of, desc_wf, lemma_combined_align_props, lemma_store_round_trip, spec_align_offset_of,
    spec_combined_align, spec_combined_size, spec_load_desc, spec_load_value, spec_needed_len,
    spec_store, spec_value_offset, value_shape_ok, Box, Descriptor, ErasedValue, META_SIZE,
};
use crate::layout::{
    lemma_align_offset_props, lemma_mod_zero_chain, lemma_pow2_positive, lemma_round_up_props,
};

verus! {

/// Round trip: for every value of acceptable shape and every buffer long
/// enough for it, the buffer contents that construction writes hand back,
/// on access, exactly the descriptor and the value bytes that went in.
pub proof fn lemma_construct_then_access(mem: Seq<u8>, addr: int, v: ErasedValue)
    requires
        value_shape_ok(v),
        v.bytes@.len() <= usize::MAX,
        addr >= 0,
        spec_needed_len(addr, desc_of(v)) <= mem.len(),
    ensures
        ({
            let d = desc_of(v);
            let p = spec_align_offset_of(addr, d);
            &&& spec_load_desc(spec_store(mem, p, d, v.bytes@), p) == d
            &&& spec_load_value(spec_store(mem, p, d, v.bytes@), p) == v.bytes@
        }),
{
    let d = desc_of(v);
    lemma_combined_align_props(d);
    lemma_align_offset_props(addr, spec_combined_align(d));
    lemma_store_round_trip(mem, spec_align_offset_of(addr, d), d, v.bytes@);
}

/// Pre-sizing suffices: a buffer holding the combined size plus one combined
/// alignment's worth of slack is long enough at every start address. In
/// particular, construction succeeds even when the buffer starts at an
/// address that is not aligned for the record, by consuming leading bytes as
/// padding.
pub proof fn lemma_presizing_suffices(addr: int, d: Descriptor, buf_len: int)
    requires
        desc_wf(d),
        addr >= 0,
        buf_len >= spec_combined_size(d) + spec_combined_align(d) - 1,
    ensures
        spec_needed_len(addr, d) <= buf_len,
{
    lemma_combined_align_props(d);
    lemma_align_offset_props(addr, spec_combined_align(d));
}

/// Alignment of the stored record: in a well-formed container the descriptor
/// starts at an address that is a multiple of the combined alignment, and
/// the value starts at an address that is a multiple of its own alignment.
pub proof fn lemma_stored_record_aligned(b: Box)
    requires
        b.wf(),
    ensures
        (b.spec_addr() + b.spec_align_offset()) % spec_combined_align(b.spec_desc()) == 0,
        (b.spec_addr() + b.spec_align_offset() + spec_value_offset(b.spec_desc())) % (
        b.spec_desc().align as int) == 0,
{
    let d = b.spec_desc();
    let va = d.align as int;
    let ca = spec_combined_align(d);
    let start = b.spec_addr() + b.spec_align_offset();
    let voff = spec_value_offset(d);
    lemma_combined_align_props(d);
    lemma_pow2_positive(va);
    lemma_mod_zero_chain(start, va, ca);
    lemma_round_up_props(META_SIZE as int, va);
    lemma_small_mod(0, va as nat);
    lemma_add_mod_noop(start, voff, va);
}

} // verus!
