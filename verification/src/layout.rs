//! Layout arithmetic: `(size, align)` pairs, padding, and the
//! header-then-payload composition rule used to place a dispatch
//! descriptor and a value's bytes contiguously in one buffer.

use vstd::prelude::*;
use vstd::arithmetic::power2::is_pow2;
use vstd::arithmetic::div_mod::{
    lemma_fundamental_div_mod, lemma_mod_bound, lemma_mod_multiples_basic, lemma_small_mod,
};

verus! {

/// A storage requirement: a size in bytes together with an alignment.
/// An alignment is meaningful only when it is a power of two.
pub struct Layout {
    pub size: usize,
    pub align: usize,
}

/// A layout is well formed when its alignment is a power of two.
pub open spec fn layout_wf(l: Layout) -> bool {
    is_pow2(l.align as int)
}

/// Number of leading padding bytes needed so that `addr` plus the padding
/// is a multiple of `a`.
pub open spec fn spec_align_offset(addr: int, a: int) -> int
    recommends
        a >= 1,
{
    if addr % a == 0 {
        0
    } else {
        a - addr % a
    }
}

/// `x` rounded up to the next multiple of `a`.
pub open spec fn spec_round_up(x: int, a: int) -> int
    recommends
        a >= 1,
{
    x + spec_align_offset(x, a)
}

/// A power of two is at least one.
pub proof fn lemma_pow2_positive(a: int)
    requires
        is_pow2(a),
    ensures
        a >= 1,
{
    reveal(is_pow2);
}

/// The padding before an aligned address is less than the alignment,
/// lands on a multiple of the alignment, and is the only padding below
/// the alignment that does so.
pub proof fn lemma_align_offset_props(addr: int, a: int)
    requires
        addr >= 0,
        a >= 1,
    ensures
        0 <= spec_align_offset(addr, a) < a,
        (addr + spec_align_offset(addr, a)) % a == 0,
        forall|p: int|
            0 <= p < a && #[trigger] ((addr + p) % a) == 0 ==> p == spec_align_offset(addr, a),
{
    lemma_mod_bound(addr, a);
    let o = spec_align_offset(addr, a);
    lemma_fundamental_div_mod(addr, a);
    if addr % a == 0 {
    } else {
        assert(addr + o == a * (addr / a) + a) by {
            assert(addr == a * (addr / a) + addr % a);
        }
        assert(a * (addr / a) + a == a * (addr / a + 1)) by (nonlinear_arith);
        lemma_mod_multiples_basic(addr / a + 1, a);
    }
    assert forall|p: int| 0 <= p < a && #[trigger] ((addr + p) % a) == 0 implies p == o by {
        lemma_mod_unique_offset(addr, p, o, a);
    }
}

/// Two paddings below `a` that both land on a multiple of `a` are equal.
proof fn lemma_mod_unique_offset(addr: int, p: int, q: int, a: int)
    requires
        addr >= 0,
        a >= 1,
        0 <= p < a,
        0 <= q < a,
        (addr + p) % a == 0,
        (addr + q) % a == 0,
    ensures
        p == q,
{
    lemma_fundamental_div_mod(addr + p, a);
    lemma_fundamental_div_mod(addr + q, a);
    let dp = (addr + p) / a;
    let dq = (addr + q) / a;
    assert(p - q == a * dp - a * dq);
    assert(a * dp - a * dq == a * (dp - dq)) by (nonlinear_arith);
    if dp == dq {
    } else if dp > dq {
        assert(a * (dp - dq) >= a) by (nonlinear_arith)
            requires
                a >= 1,
                dp - dq >= 1,
        ;
    } else {
        assert(a * (dp - dq) <= -a) by (nonlinear_arith)
            requires
                a >= 1,
                dp - dq <= -1,
        ;
    }
}

/// Rounding up moves by less than one alignment and lands on a multiple
/// of the alignment.
pub proof fn lemma_round_up_props(x: int, a: int)
    requires
        x >= 0,
        a >= 1,
    ensures
        x <= spec_round_up(x, a) < x + a,
        spec_round_up(x, a) % a == 0,
{
    lemma_align_offset_props(x, a);
}

/// If both alignments are powers of two, the larger is a multiple of the
/// smaller.
pub proof fn lemma_pow2_le_divides(a: int, b: int)
    requires
        is_pow2(a),
        is_pow2(b),
        a <= b,
    ensures
        b % a == 0,
    decreases b,
{
    reveal(is_pow2);
    if a == 1 {
        lemma_small_mod(0, 1);
        assert(b % 1 == 0) by {
            lemma_mod_multiples_basic(b, 1);
        }
    } else {
        lemma_pow2_le_divides(a / 2, b / 2);
        lemma_fundamental_div_mod(b / 2, a / 2);
        let q = (b / 2) / (a / 2);
        assert(b / 2 == (a / 2) * q);
        assert(b == 2 * (b / 2)) by {
            lemma_fundamental_div_mod(b, 2);
        }
        assert(a == 2 * (a / 2)) by {
            lemma_fundamental_div_mod(a, 2);
        }
        assert(2 * ((a / 2) * q) == (2 * (a / 2)) * q) by (nonlinear_arith);
        assert(b == a * q);
        assert((a * q) % a == 0) by {
            lemma_mod_multiples_basic(q, a);
        }
    }
}

/// A value that is a multiple of `b` is a multiple of any power-of-two
/// divisor `a` of `b`.
pub proof fn lemma_mod_zero_chain(x: int, a: int, b: int)
    requires
        a >= 1,
        b >= 1,
        b % a == 0,
        x % b == 0,
    ensures
        x % a == 0,
{
    lemma_fundamental_div_mod(x, b);
    lemma_fundamental_div_mod(b, a);
    let qx = x / b;
    let qb = b / a;
    assert(x == b * qx);
    assert(b == a * qb);
    assert((a * qb) * qx == a * (qb * qx)) by (nonlinear_arith);
    assert(x == a * (qb * qx));
    lemma_mod_multiples_basic(qb * qx, a);
}

/// Executable test for the power-of-two predicate, by repeated halving.
pub fn is_power_of_two(n: usize) -> (r: bool)
    ensures
        r == is_pow2(n as int),
{
    if n == 0 {
        proof {
            reveal(is_pow2);
        }
        return false;
    }
    let mut k: usize = n;
    while k % 2 == 0
        invariant
            1 <= k <= n,
            is_pow2(n as int) == is_pow2(k as int),
        decreases k,
    {
        proof {
            reveal(is_pow2);
        }
        k = k / 2;
    }
    proof {
        reveal(is_pow2);
    }
    k == 1
}

/// Leading padding that aligns the address `addr` to `align`.
pub fn align_offset_for(addr: usize, align: usize) -> (r: usize)
    requires
        is_pow2(align as int),
    ensures
        r == spec_align_offset(addr as int, align as int),
        r < align,
        (addr + r) % (align as int) == 0,
{
    proof {
        lemma_pow2_positive(align as int);
        lemma_align_offset_props(addr as int, align as int);
    }
    let rem = addr % align;
    if rem == 0 {
        0
    } else {
        align - rem
    }
}

/// `x` rounded up to the next multiple of `a`, or `None` when that
/// multiple does not fit in a `usize`.
pub fn round_up_checked(x: usize, a: usize) -> (r: Option<usize>)
    requires
        a >= 1,
    ensures
        match r {
            Some(v) => v == spec_round_up(x as int, a as int),
            None => spec_round_up(x as int, a as int) > usize::MAX,
        },
{
    proof {
        lemma_round_up_props(x as int, a as int);
    }
    let rem = x % a;
    if rem == 0 {
        Some(x)
    } else {
        let pad = a - rem;
        if x <= usize::MAX - pad {
            Some(x + pad)
        } else {
            None
        }
    }
}

/// The larger of two alignments.
pub open spec fn spec_max(a: int, b: int) -> int {
    if a >= b {
        a
    } else {
        b
    }
}

/// The byte position, within the composed layout, where the payload of
/// `next` begins after a header of layout `head`.
pub open spec fn spec_extend_offset(head: Layout, next: Layout) -> int {
    spec_round_up(head.size as int, next.align as int)
}

/// The alignment of the composed layout: the stricter of the two.
pub open spec fn spec_extend_align(head: Layout, next: Layout) -> int {
    spec_max(head.align as int, next.align as int)
}

/// The size of the composed layout: header, padding, payload, then a
/// final rounding to the composed alignment so that consecutive records
/// stay aligned.
pub open spec fn spec_extend_size(head: Layout, next: Layout) -> int {
    spec_round_up(spec_extend_offset(head, next) + next.size, spec_extend_align(head, next))
}

impl Layout {
    /// The size in bytes.
    pub fn size(&self) -> (s: usize)
        ensures
            s == self.size,
    {
        self.size
    }

    /// The alignment in bytes.
    pub fn align(&self) -> (a: usize)
        ensures
            a == self.align,
    {
        self.align
    }

    /// Compose `self` as a header with `next` as a payload: the payload is
    /// placed at the first suitably aligned offset after the header, and the
    /// total is rounded up to the stricter alignment. Returns the composed
    /// layout and the payload offset, or `None` when the composed size does
    /// not fit in a `usize`.
    pub fn extend(&self, next: &Layout) -> (r: Option<(Layout, usize)>)
        requires
            layout_wf(*self),
            layout_wf(*next),
        ensures
            match r {
                Some(p) => ({
                    &&& p.0.size == spec_extend_size(*self, *next)
                    &&& p.0.align == spec_extend_align(*self, *next)
                    &&& p.1 == spec_extend_offset(*self, *next)
                    &&& layout_wf(p.0)
                }),
                None => spec_extend_size(*self, *next) > usize::MAX,
            },
    {
        proof {
            lemma_pow2_positive(self.align as int);
            lemma_pow2_positive(next.align as int);
        }
        let ca = if self.align >= next.align {
            self.align
        } else {
            next.align
        };
        let off = match round_up_checked(self.size, next.align) {
            Some(o) => o,
            None => {
                proof {
                    lemma_round_up_overflow_propagates(*self, *next);
                }
                return None;
            },
        };
        if off > usize::MAX - next.size {
            proof {
                lemma_round_up_props(off + next.size, ca as int);
            }
            return None;
        }
        let unpadded = off + next.size;
        match round_up_checked(unpadded, ca) {
            Some(cs) => Some((
                Layout { size: cs, align: ca },
                off,
            )),
            None => None,
        }
    }
}

/// When the payload offset already exceeds `usize`, so does the composed
/// size.
proof fn lemma_round_up_overflow_propagates(head: Layout, next: Layout)
    requires
        layout_wf(head),
        layout_wf(next),
        spec_extend_offset(head, next) > usize::MAX,
    ensures
        spec_extend_size(head, next) > usize::MAX,
{
    lemma_pow2_positive(head.align as int);
    lemma_pow2_positive(next.align as int);
    lemma_round_up_props(head.size as int, next.align as int);
    lemma_round_up_props(
        spec_extend_offset(head, next) + next.size,
        spec_extend_align(head, next),
    );
}

/// The composed size is a multiple of the composed alignment, so records
/// with this layout can be placed one after another without extra padding.
pub proof fn lemma_extend_composes(head: Layout, next: Layout)
    requires
        layout_wf(head),
        layout_wf(next),
    ensures
        spec_extend_size(head, next) % spec_extend_align(head, next) == 0,
{
    lemma_pow2_positive(head.align as int);
    lemma_pow2_positive(next.align as int);
    lemma_round_up_props(head.size as int, next.align as int);
    lemma_round_up_props(
        spec_extend_offset(head, next) + next.size,
        spec_extend_align(head, next),
    );
}

} // verus!
