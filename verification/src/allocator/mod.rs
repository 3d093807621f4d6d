//! The alignment utility shared by the allocators, and the allocators
//! themselves.

use vstd::prelude::*;
use vstd::arithmetic::power::pow;
use vstd::arithmetic::power2::{
    is_pow2, is_pow2_equiv, lemma2_to64, lemma_pow2, lemma_pow2_adds, lemma_pow2_pos,
    lemma_pow2_strictly_increases, pow2,
};
use vstd::bits::lemma_usize_low_bits_mask_is_mod;

pub mod bump;
pub mod fixed_size_block;
pub mod linked_list;

verus! {

/// A request for a block of memory.
pub struct Request {
    /// Number of bytes asked for.
    pub size: usize,
    /// Alignment of the block's address: a power of two.
    pub align: usize,
}

/// Whether `size` and `align` make a layout as Rust's allocators take it:
/// `align` is a power of two, and `size`, rounded up to a multiple of
/// `align`, is no more than `isize::MAX`.
pub open spec fn is_layout(size: usize, align: usize) -> bool {
    &&& is_pow2(align as int)
    &&& spec_align_up(size as int, align as int) <= isize::MAX
}

/// `addr` rounded up to the next multiple of `align`, as a mathematical
/// integer (it may exceed `usize::MAX`).
pub open spec fn spec_align_up(addr: int, align: int) -> int {
    if addr % align == 0 {
        addr
    } else {
        addr + (align - addr % align)
    }
}

/// Align the given address `addr` upwards to alignment `align`: the result
/// is the smallest multiple of `align` that is no less than `addr`.
///
/// Requires that `align` is a power of two.
pub fn align_up(addr: usize, align: usize) -> (aligned: usize)
    requires
        is_pow2(align as int),
        addr + align - 1 <= usize::MAX,
    ensures
        aligned == spec_align_up(addr as int, align as int),
        aligned >= addr,
        aligned % align == 0,
        forall|x: int| addr <= x && #[trigger] (x % (align as int)) == 0 ==> aligned <= x,
{
    proof {
        lemma_pow2_positive(align);
    }
    let mask: usize = align - 1;
    let top: usize = addr + mask;
    let aligned: usize = top & !mask;
    proof {
        lemma_mask_is_mod(top, align);
        assert(top & !mask == top - (top & mask)) by (bit_vector);
        lemma_align_up_is_least(addr as int, align as int);
        assert(aligned == spec_align_up(addr as int, align as int)) by (nonlinear_arith)
            requires
                aligned == top - top % align,
                top == addr + align - 1,
                align > 0,
                spec_align_up(addr as int, align as int) % (align as int) == 0,
                spec_align_up(addr as int, align as int) >= addr,
                spec_align_up(addr as int, align as int) - addr < align,
        ;
    }
    aligned
}

/// Rounds `addr` up to the next multiple of `align`, or returns `None` where
/// that multiple does not fit in a `usize`.
pub fn checked_align_up(addr: usize, align: usize) -> (aligned: Option<usize>)
    requires
        is_pow2(align as int),
    ensures
        spec_align_up(addr as int, align as int) <= usize::MAX ==> aligned == Some(
            spec_align_up(addr as int, align as int) as usize,
        ),
        spec_align_up(addr as int, align as int) > usize::MAX ==> aligned is None,
{
    proof {
        lemma_pow2_positive(align);
        lemma_align_up_overflow(addr as int, align as int);
    }
    if addr > usize::MAX - (align - 1) {
        None
    } else {
        Some(align_up(addr, align))
    }
}

/// Alignment: `spec_align_up(addr, align)` is a multiple of `align`, is at
/// least `addr`, and no smaller value has both properties.
pub proof fn lemma_align_up_is_least(addr: int, align: int)
    requires
        0 <= addr,
        0 < align,
    ensures
        spec_align_up(addr, align) >= addr,
        spec_align_up(addr, align) - addr < align,
        spec_align_up(addr, align) % align == 0,
        forall|x: int| addr <= x && #[trigger] (x % align) == 0 ==> spec_align_up(addr, align) <= x,
{
    let r = spec_align_up(addr, align);
    assert(r % align == 0 && r - addr < align && r >= addr) by (nonlinear_arith)
        requires
            0 <= addr,
            0 < align,
            r == if addr % align == 0 {
                addr
            } else {
                addr + (align - addr % align)
            },
    ;
    assert forall|x: int| addr <= x && #[trigger] (x % align) == 0 implies r <= x by {
        assert(r <= x) by (nonlinear_arith)
            requires
                0 < align,
                addr <= x,
                x % align == 0,
                r % align == 0,
                r - addr < align,
        ;
    }
}

/// For a power of two `align`, rounding `addr` up leaves the range of
/// `usize` exactly when `addr + align - 1` does.
pub proof fn lemma_align_up_overflow(addr: int, align: int)
    requires
        0 <= addr <= usize::MAX,
        is_pow2(align),
        0 < align <= usize::MAX,
    ensures
        spec_align_up(addr, align) > usize::MAX <==> addr + align - 1 > usize::MAX,
{
    lemma_align_up_is_least(addr, align);
    let r = spec_align_up(addr, align);
    if addr + align - 1 > usize::MAX {
        lemma_pow2_divides_word(align as usize);
        assert(r > usize::MAX) by (nonlinear_arith)
            requires
                r % align == 0,
                (usize::MAX + 1) % align == 0,
                r >= addr,
                addr + align - 1 > usize::MAX,
                0 < align,
                0 <= addr,
        ;
    }
}

/// Two to the power of `exponent` is a power of two.
pub proof fn lemma_is_pow2(exponent: nat)
    ensures
        is_pow2(pow2(exponent) as int),
{
    lemma_pow2(exponent);
    is_pow2_equiv(pow2(exponent) as int);
    assert(pow(2, exponent) == pow2(exponent) as int);
}

/// A power of two is positive.
pub proof fn lemma_pow2_positive(align: usize)
    requires
        is_pow2(align as int),
    ensures
        align > 0,
{
    lemma_pow2_exponent(align);
}

/// A multiple of a power of two is a multiple of every smaller power of two.
pub proof fn lemma_aligned_to_smaller(addr: int, small: usize, large: usize)
    requires
        is_pow2(small as int),
        is_pow2(large as int),
        small <= large,
        addr % (large as int) == 0,
    ensures
        addr % (small as int) == 0,
{
    let i = lemma_pow2_exponent(small);
    let j = lemma_pow2_exponent(large);
    if j < i {
        lemma_pow2_strictly_increases(j, i);
    }
    let rest = (j - i) as nat;
    lemma_pow2_adds(i, rest);
    lemma_pow2_pos(rest);
    let factor = pow2(rest) as int;
    assert(addr % (small as int) == 0) by (nonlinear_arith)
        requires
            small > 0,
            factor > 0,
            large == small * factor,
            addr % (large as int) == 0,
    {
        let q = addr / (large as int);
        assert(addr == q * (small * factor));
        assert(addr == (q * factor) * small);
    }
}

/// The exponent of a power of two that fits in a `usize`.
proof fn lemma_pow2_exponent(align: usize) -> (i: nat)
    requires
        is_pow2(align as int),
    ensures
        pow2(i) == align,
        i < usize::BITS,
        align > 0,
{
    is_pow2_equiv(align as int);
    let i = choose|i: nat| pow(2, i) == align as int;
    lemma_pow2(i);
    lemma_pow2_pos(i);
    lemma2_to64();
    assert(i < usize::BITS) by {
        assert(usize::BITS == 32 || usize::BITS == 64);
        if i > 32 {
            lemma_pow2_strictly_increases(32, i);
        }
        if i > 64 {
            lemma_pow2_strictly_increases(64, i);
        }
        assert(usize::BITS == 32 ==> usize::MAX < 0x1_0000_0000);
    }
    i
}

/// For a power of two `align`, masking with `align - 1` takes the remainder
/// of a division by `align`.
proof fn lemma_mask_is_mod(x: usize, align: usize)
    requires
        is_pow2(align as int),
    ensures
        align > 0,
        x & ((align - 1) as usize) == x % align,
{
    let i = lemma_pow2_exponent(align);
    lemma_usize_low_bits_mask_is_mod(x, i);
}

/// Every power of two that fits in a `usize` divides the number of `usize`
/// values.
proof fn lemma_pow2_divides_word(align: usize)
    requires
        is_pow2(align as int),
    ensures
        (usize::MAX + 1) % (align as int) == 0,
{
    let i = lemma_pow2_exponent(align);
    let rest = (usize::BITS - i) as nat;
    lemma_pow2_adds(i, rest);
    lemma2_to64();
    assert(usize::MAX + 1 == pow2(usize::BITS as nat));
    assert((align * pow2(rest)) % (align as int) == 0) by (nonlinear_arith)
        requires
            align > 0,
    ;
}

} // verus!
