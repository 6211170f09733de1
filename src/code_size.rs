use vstd::prelude::*;

verus! {

/// The number of bytes used to write one dictionary code, which also bounds
/// how many codes the dictionary may hold.
#[derive(Debug, Clone, Copy, PartialEq, Eq, Structural)]
pub enum CodeSize {
    Two,
    Three,
    Four,
}

/// Whether `n` names a code width at all.
pub open spec fn is_width(n: int) -> bool {
    n == 2 || n == 3 || n == 4
}

/// `256` raised to the power `n`.
pub open spec fn pow256(n: nat) -> nat
    decreases n,
{
    if n == 0 {
        1
    } else {
        256 * pow256((n - 1) as nat)
    }
}

/// The capacity of every width is at least that of the narrowest, and one
/// short of the number of values its bytes can write.
pub proof fn lemma_max_code(cs: CodeSize)
    ensures
        cs.max_code() + 1 == pow256(cs.width()),
        cs.max_code() >= 65535,
{
    reveal_with_fuel(pow256, 5);
}

impl CodeSize {
    /// Bytes per code.
    pub open spec fn width(self) -> nat {
        match self {
            CodeSize::Two => 2,
            CodeSize::Three => 3,
            CodeSize::Four => 4,
        }
    }

    /// The largest code value, which is also the dictionary's capacity.
    pub open spec fn max_code(self) -> nat {
        (pow256(self.width()) - 1) as nat
    }

    /// The width that `n` selects, for `n` in `{2, 3, 4}`.
    pub open spec fn of_width(n: int) -> CodeSize
        recommends
            is_width(n),
    {
        if n == 2 {
            CodeSize::Two
        } else if n == 3 {
            CodeSize::Three
        } else {
            CodeSize::Four
        }
    }

    pub fn new(size: usize) -> (r: Result<CodeSize, &'static str>)
        ensures
            r is Ok <==> is_width(size as int),
            r is Ok ==> r->Ok_0 == CodeSize::of_width(size as int),
            r is Ok ==> r->Ok_0.width() == size,
            r is Err ==> r == Err::<CodeSize, &'static str>("Invalid code size"),
    {
        match size {
            2 => Ok(CodeSize::Two),
            3 => Ok(CodeSize::Three),
            4 => Ok(CodeSize::Four),
            _ => Err("Invalid code size"),
        }
    }

    pub fn max(&self) -> (r: usize)
        ensures
            r == self.max_code(),
    {
        proof {
            reveal_with_fuel(pow256, 5);
        }
        match self {
            CodeSize::Two => 65_535,
            CodeSize::Three => 16_777_215,
            CodeSize::Four => 4_294_967_295,
        }
    }

    pub fn size(&self) -> (r: usize)
        ensures
            r == self.width(),
    {
        match self {
            CodeSize::Two => 2,
            CodeSize::Three => 3,
            CodeSize::Four => 4,
        }
    }
}

} // verus!
