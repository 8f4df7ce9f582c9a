use vstd::prelude::*;

verus! {

pub const A: u64 = 16807;

pub const C: u64 = 11;

pub const M: u64 = 2147483646;

/// One step of the generator: `(x * A + C) mod M`.
pub open spec fn lcg(x: nat) -> nat {
    (x * 16807 + 11) % 2147483646
}

/// A small linear congruential generator.
pub struct Rand {
    next: u64,
}

impl View for Rand {
    type V = nat;

    /// The number that the next call returns.
    closed spec fn view(&self) -> nat {
        self.next as nat
    }
}

impl Rand {
    #[verifier::type_invariant]
    spec fn small(&self) -> bool {
        self.next < M
    }

    /// The generator seeded with 42.
    pub fn new() -> (r: Rand)
        ensures
            r@ == lcg(42),
    {
        Rand::with_seed(42)
    }

    /// The generator whose first number is one step after `seed`.
    pub fn with_seed(seed: u64) -> (r: Rand)
        requires
            seed * A + C <= u64::MAX,
        ensures
            r@ == lcg(seed as nat),
    {
        Rand { next: (seed * A + C) % M }
    }

    /// Returns the current number and steps the generator.
    pub fn next(&mut self) -> (r: u64)
        ensures
            r == old(self)@,
            final(self)@ == lcg(old(self)@),
    {
        proof {
            use_type_invariant(&*self);
        }
        let res = self.next;
        assert(res * A + C <= u64::MAX) by (nonlinear_arith)
            requires
                res < M,
        ;
        *self = Rand { next: (res * A + C) % M };
        res
    }
}

} // verus!
