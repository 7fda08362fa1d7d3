use vstd::prelude::*;
use vstd::arithmetic::power2::{
    lemma2_to64, lemma_pow2_strictly_increases, lemma_pow2_unfold, pow2,
};

verus! {

/// Whether `n` is a power of two.
pub open spec fn is_power_of_two(n: int) -> bool {
    exists|e: nat| n == #[trigger] pow2(e)
}

/// Size and alignment of a block of memory.
#[derive(Clone, Copy, Debug)]
pub struct Layout {
    size: usize,
    align: usize,
}

/// The size and alignment given do not make a layout.
#[derive(Clone, Copy, Debug)]
pub struct LayoutError;

/// Whether `align` is a power of two.
pub fn power_of_two(align: usize) -> (yes: bool)
    ensures
        yes == is_power_of_two(align as int),
{
    let mut p: usize = 1;
    let ghost mut e: nat = 0;
    proof {
        lemma2_to64();
    }
    while p < align && p <= usize::MAX / 2
        invariant
            p >= 1,
            p == pow2(e),
            forall|d: nat| d < e ==> #[trigger] pow2(d) < align,
        decreases usize::MAX - p,
    {
        proof {
            lemma_pow2_unfold(e + 1);
            assert forall|d: nat| d < e + 1 implies #[trigger] pow2(d) < align by {
                if d < e {
                } else {
                    assert(d == e);
                }
            }
            e = e + 1;
        }
        p = p * 2;
    }
    proof {
        if p == align {
            assert(align == pow2(e));
        } else if is_power_of_two(align as int) {
            let d = choose|d: nat| align as int == #[trigger] pow2(d);
            if d < e {
            } else if d == e {
            } else {
                lemma_pow2_strictly_increases(e, d);
                lemma_pow2_unfold(e + 1);
                if d > e + 1 {
                    lemma_pow2_strictly_increases(e + 1, d);
                }
            }
        }
    }
    p == align
}

impl Layout {
    #[verifier::type_invariant]
    spec fn made_valid(&self) -> bool {
        Self::valid(self.size, self.align)
    }

    /// The size in bytes.
    pub closed spec fn spec_size(&self) -> usize {
        self.size
    }

    /// The alignment in bytes.
    pub closed spec fn spec_align(&self) -> usize {
        self.align
    }

    /// The layout of the given size and alignment.
    pub closed spec fn spec_from(size: usize, align: usize) -> Layout {
        Layout { size, align }
    }

    /// Whether a size and an alignment make a layout: the alignment is a power
    /// of two, and the size rounded up to a multiple of it fits in `isize`.
    pub open spec fn valid(size: usize, align: usize) -> bool {
        is_power_of_two(align as int) && size + align - 1 <= isize::MAX
    }

    /// Every layout that `from_size_align` has made is valid.
    pub open spec fn wf(&self) -> bool {
        Self::valid(self.size(), self.align())
    }

    /// The larger of size and alignment: what a block for this layout must hold.
    pub open spec fn required(&self) -> int {
        if self.size() >= self.align() {
            self.size() as int
        } else {
            self.align() as int
        }
    }

    pub fn from_size_align(size: usize, align: usize) -> (made: Result<Layout, LayoutError>)
        ensures
            made is Ok <==> Self::valid(size, align),
            made matches Ok(layout) ==> layout == Self::spec_from(size, align),
            Self::spec_from(size, align).size() == size,
            Self::spec_from(size, align).align() == align,
    {
        if !power_of_two(align) {
            return Err(LayoutError);
        }
        proof {
            lemma2_to64();
            let e = choose|e: nat| align as int == #[trigger] pow2(e);
            vstd::arithmetic::power2::lemma_pow2_pos(e);
        }
        let limit: usize = isize::MAX as usize;
        if align - 1 > limit || size > limit - (align - 1) {
            return Err(LayoutError);
        }
        Ok(Layout { size, align })
    }

    #[verifier::when_used_as_spec(spec_size)]
    pub fn size(&self) -> (size: usize)
        ensures
            size == self.size(),
            self.wf(),
    {
        proof {
            use_type_invariant(self);
        }
        self.size
    }

    #[verifier::when_used_as_spec(spec_align)]
    pub fn align(&self) -> (align: usize)
        ensures
            align == self.align(),
    {
        self.align
    }
}

} // verus!
