//! Sizes and alignments of blocks, and rounding an address up to an alignment.

use vstd::prelude::*;
use vstd::arithmetic::div_mod::lemma_fundamental_div_mod;

verus! {

/// Size and alignment of a block of linear memory, both in bytes.
#[derive(Clone, Copy, Debug)]
pub struct Layout {
    pub size: u32,
    pub align: u32,
}

impl Layout {
    /// An alignment of zero bytes makes no sense; every other layout is valid.
    pub open spec fn valid(self) -> bool {
        self.align >= 1
    }

    /// The number of bytes a block of this layout occupies.
    ///
    /// A block of size zero still occupies one byte, so that every block has
    /// an address that no other block shares.
    pub open spec fn footprint(self) -> int {
        footprint(self.size)
    }
}

/// The number of bytes that a block of `size` bytes occupies: `size`, but at least one.
pub open spec fn footprint(size: u32) -> int {
    if size == 0 {
        1
    } else {
        size as int
    }
}

/// The number of bytes that a block of `size` bytes occupies, as a machine integer.
pub fn occupied(size: u32) -> (n: u64)
    ensures
        n == footprint(size),
{
    if size == 0 {
        1
    } else {
        size as u64
    }
}

/// The least multiple of `align` that is not below `x`.
pub open spec fn align_up(x: int, align: int) -> int {
    if x % align == 0 {
        x
    } else {
        x + align - x % align
    }
}

/// `align_up(x, align)` is a multiple of `align`, lies in `[x, x + align)`,
/// and no multiple of `align` lies between `x` and it.
pub proof fn lemma_align_up(x: int, align: int)
    requires
        0 <= x,
        1 <= align,
    ensures
        align_up(x, align) % align == 0,
        x <= align_up(x, align) < x + align,
        forall|y: int| x <= y && #[trigger] (y % align) == 0 ==> align_up(x, align) <= y,
{
    let up = align_up(x, align);
    let q = x / align;
    let r = x % align;
    lemma_fundamental_div_mod(x, align);
    assert(0 <= r < align) by (nonlinear_arith)
        requires
            r == x % align,
            1 <= align,
    ;
    if r != 0 {
        assert(up == align * (q + 1)) by (nonlinear_arith)
            requires
                up == x + align - r,
                x == align * q + r,
        ;
        assert((align * (q + 1)) % align == 0) by (nonlinear_arith)
            requires
                1 <= align,
        ;
    }
    assert forall|y: int| x <= y && #[trigger] (y % align) == 0 implies up <= y by {
        if r != 0 {
            let k = y / align;
            lemma_fundamental_div_mod(y, align);
            assert(k > q) by (nonlinear_arith)
                requires
                    y == align * k,
                    x == align * q + r,
                    0 < r,
                    x <= y,
                    1 <= align,
            ;
            assert(align * (q + 1) <= align * k) by (nonlinear_arith)
                requires
                    k >= q + 1,
                    1 <= align,
            ;
        }
    }
}

/// Rounds the address `x` up to the next multiple of `align`.
pub fn round_up(x: u64, align: u32) -> (up: u64)
    requires
        x <= u32::MAX,
        align >= 1,
    ensures
        up == align_up(x as int, align as int),
        up <= x + u32::MAX,
{
    proof {
        lemma_align_up(x as int, align as int);
    }
    let r: u64 = x % (align as u64);
    if r == 0 {
        x
    } else {
        x + (align as u64 - r)
    }
}

} // verus!
