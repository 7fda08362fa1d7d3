use vstd::prelude::*;

verus! {

/// The register file of a task: the integer registers that a switch saves and
/// restores, in the order in which they are laid out, and the saved program
/// counter.
#[derive(Clone, Copy, Debug, PartialEq, Eq, Structural)]
pub struct TaskContext {
    // x1, return address
    pub ra: usize,
    // x2, stack pointer
    pub sp: usize,
    // x4, thread pointer
    pub tp: usize,
    // x5-x7, temporaries
    pub t0: usize,
    pub t1: usize,
    pub t2: usize,
    // x8-x9, callee-saved (s0 is the frame pointer)
    pub s0: usize,
    pub s1: usize,
    // x10-x17, arguments
    pub a0: usize,
    pub a1: usize,
    pub a2: usize,
    pub a3: usize,
    pub a4: usize,
    pub a5: usize,
    pub a6: usize,
    pub a7: usize,
    // x18-x27, callee-saved
    pub s2: usize,
    pub s3: usize,
    pub s4: usize,
    pub s5: usize,
    pub s6: usize,
    pub s7: usize,
    pub s8: usize,
    pub s9: usize,
    pub s10: usize,
    pub s11: usize,
    // x28-x31, temporaries
    pub t3: usize,
    pub t4: usize,
    pub t5: usize,
    pub t6: usize,
    // program counter to return to
    pub mepc: usize,
}

impl TaskContext {
    /// The register file with every register zero.
    pub open spec fn spec_zero() -> TaskContext {
        TaskContext {
            ra: 0,
            sp: 0,
            tp: 0,
            t0: 0,
            t1: 0,
            t2: 0,
            s0: 0,
            s1: 0,
            a0: 0,
            a1: 0,
            a2: 0,
            a3: 0,
            a4: 0,
            a5: 0,
            a6: 0,
            a7: 0,
            s2: 0,
            s3: 0,
            s4: 0,
            s5: 0,
            s6: 0,
            s7: 0,
            s8: 0,
            s9: 0,
            s10: 0,
            s11: 0,
            t3: 0,
            t4: 0,
            t5: 0,
            t6: 0,
            mepc: 0,
        }
    }

    /// A register file with every register zero, from which a new task's
    /// registers are set up.
    #[verifier::when_used_as_spec(spec_zero)]
    pub fn zero() -> (ctx: Self)
        ensures
            ctx == Self::spec_zero(),
    {
        Self {
            ra: 0,
            sp: 0,
            tp: 0,
            t0: 0,
            t1: 0,
            t2: 0,
            s0: 0,
            s1: 0,
            a0: 0,
            a1: 0,
            a2: 0,
            a3: 0,
            a4: 0,
            a5: 0,
            a6: 0,
            a7: 0,
            s2: 0,
            s3: 0,
            s4: 0,
            s5: 0,
            s6: 0,
            s7: 0,
            s8: 0,
            s9: 0,
            s10: 0,
            s11: 0,
            t3: 0,
            t4: 0,
            t5: 0,
            t6: 0,
            mepc: 0,
        }
    }

    /// The register file that a new task starts from: all zero but for the
    /// stack pointer, the return address and program counter, which both hold
    /// the trampoline, and the first argument, which holds the task's entry.
    pub open spec fn spec_initial(
        stack_top: usize,
        trampoline: usize,
        entry_point: usize,
    ) -> TaskContext {
        TaskContext {
            sp: stack_top,
            ra: trampoline,
            a0: entry_point,
            mepc: trampoline,
            ..Self::spec_zero()
        }
    }

    #[verifier::when_used_as_spec(spec_initial)]
    pub fn initial(stack_top: usize, trampoline: usize, entry_point: usize) -> (ctx: Self)
        ensures
            ctx == Self::spec_initial(stack_top, trampoline, entry_point),
    {
        let mut ctx = Self::zero();
        ctx.sp = stack_top;
        ctx.ra = trampoline;
        ctx.a0 = entry_point;
        ctx.mepc = trampoline;
        ctx
    }

    /// The register file as it lies in memory: one word per register, the
    /// register at byte offset `8 * i` at index `i`. `ra` is at offset 0,
    /// `t6` at offset 232 and `mepc` at offset 240.
    pub open spec fn as_words(&self) -> Seq<usize> {
        seq![
            self.ra,
            self.sp,
            self.tp,
            self.t0,
            self.t1,
            self.t2,
            self.s0,
            self.s1,
            self.a0,
            self.a1,
            self.a2,
            self.a3,
            self.a4,
            self.a5,
            self.a6,
            self.a7,
            self.s2,
            self.s3,
            self.s4,
            self.s5,
            self.s6,
            self.s7,
            self.s8,
            self.s9,
            self.s10,
            self.s11,
            self.t3,
            self.t4,
            self.t5,
            self.t6,
            self.mepc,
        ]
    }

    /// The words of the register file in the order of their offsets.
    pub fn to_words(&self) -> (words: [usize; 31])
        ensures
            words@ == self.as_words(),
    {
        let words = [
            self.ra,
            self.sp,
            self.tp,
            self.t0,
            self.t1,
            self.t2,
            self.s0,
            self.s1,
            self.a0,
            self.a1,
            self.a2,
            self.a3,
            self.a4,
            self.a5,
            self.a6,
            self.a7,
            self.s2,
            self.s3,
            self.s4,
            self.s5,
            self.s6,
            self.s7,
            self.s8,
            self.s9,
            self.s10,
            self.s11,
            self.t3,
            self.t4,
            self.t5,
            self.t6,
            self.mepc,
        ];
        proof {
            assert(words@ =~= self.as_words());
        }
        words
    }

    /// The register file whose words are `words`.
    pub fn from_words(words: &[usize; 31]) -> (ctx: Self)
        ensures
            ctx.as_words() == words@,
    {
        let ctx = Self {
            ra: words[0],
            sp: words[1],
            tp: words[2],
            t0: words[3],
            t1: words[4],
            t2: words[5],
            s0: words[6],
            s1: words[7],
            a0: words[8],
            a1: words[9],
            a2: words[10],
            a3: words[11],
            a4: words[12],
            a5: words[13],
            a6: words[14],
            a7: words[15],
            s2: words[16],
            s3: words[17],
            s4: words[18],
            s5: words[19],
            s6: words[20],
            s7: words[21],
            s8: words[22],
            s9: words[23],
            s10: words[24],
            s11: words[25],
            t3: words[26],
            t4: words[27],
            t5: words[28],
            t6: words[29],
            mepc: words[30],
        };
        proof {
            assert(ctx.as_words() =~= words@);
        }
        ctx
    }

    /// Two register files with the same words are the same.
    pub proof fn lemma_words_tell_apart(a: TaskContext, b: TaskContext)
        requires
            a.as_words() == b.as_words(),
        ensures
            a == b,
    {
        assert(a.as_words()[0] == b.as_words()[0]);
        assert(a.as_words()[1] == b.as_words()[1]);
        assert(a.as_words()[2] == b.as_words()[2]);
        assert(a.as_words()[3] == b.as_words()[3]);
        assert(a.as_words()[4] == b.as_words()[4]);
        assert(a.as_words()[5] == b.as_words()[5]);
        assert(a.as_words()[6] == b.as_words()[6]);
        assert(a.as_words()[7] == b.as_words()[7]);
        assert(a.as_words()[8] == b.as_words()[8]);
        assert(a.as_words()[9] == b.as_words()[9]);
        assert(a.as_words()[10] == b.as_words()[10]);
        assert(a.as_words()[11] == b.as_words()[11]);
        assert(a.as_words()[12] == b.as_words()[12]);
        assert(a.as_words()[13] == b.as_words()[13]);
        assert(a.as_words()[14] == b.as_words()[14]);
        assert(a.as_words()[15] == b.as_words()[15]);
        assert(a.as_words()[16] == b.as_words()[16]);
        assert(a.as_words()[17] == b.as_words()[17]);
        assert(a.as_words()[18] == b.as_words()[18]);
        assert(a.as_words()[19] == b.as_words()[19]);
        assert(a.as_words()[20] == b.as_words()[20]);
        assert(a.as_words()[21] == b.as_words()[21]);
        assert(a.as_words()[22] == b.as_words()[22]);
        assert(a.as_words()[23] == b.as_words()[23]);
        assert(a.as_words()[24] == b.as_words()[24]);
        assert(a.as_words()[25] == b.as_words()[25]);
        assert(a.as_words()[26] == b.as_words()[26]);
        assert(a.as_words()[27] == b.as_words()[27]);
        assert(a.as_words()[28] == b.as_words()[28]);
        assert(a.as_words()[29] == b.as_words()[29]);
        assert(a.as_words()[30] == b.as_words()[30]);
    }
}

/// Number of words in a register file.
pub const CONTEXT_WORDS: usize = 31;

/// Byte offset of the saved program counter in a register file.
pub const MEPC_OFFSET: usize = 240;

} // verus!
