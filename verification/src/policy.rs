use vstd::arithmetic::mul::lemma_mul_inequality;
use vstd::prelude::*;

verus! {

/// How many points a challenge is worth, as a function of how many teams
/// have solved it: challenges get cheaper as more teams clear them, with a
/// fixed positive floor.
pub struct ValuePolicy {
    /// Worth of the challenge to its first solver.
    pub initial: u32,
    /// Least worth the challenge can decay to; always positive.
    pub floor: u32,
    /// Points lost with each solve after the first.
    pub decay: u32,
}

impl ValuePolicy {
    pub open spec fn wf(self) -> bool {
        0 < self.floor <= self.initial
    }

    /// Worth of a challenge once `solves` teams have cleared it: the first
    /// solve keeps the full initial value; each further solve lowers the
    /// worth by `decay`, but never below `floor`.
    pub open spec fn value_of(self, solves: nat) -> int {
        if solves <= 1 {
            self.initial as int
        } else if self.initial - self.decay * (solves - 1) < self.floor {
            self.floor as int
        } else {
            self.initial - self.decay * (solves - 1)
        }
    }

    pub fn value(&self, solves: u64) -> (points: u32)
        requires
            self.wf(),
        ensures
            points == self.value_of(solves as nat),
    {
        if solves <= 1 {
            self.initial
        } else {
            let steps: u64 = solves - 1;
            assert((self.decay as u128) * (steps as u128) <= 0xffff_ffff_ffff_ffff_ffff_ffffu128)
                by (nonlinear_arith)
                requires
                    self.decay <= 0xffff_ffffu32,
                    steps <= 0xffff_ffff_ffff_ffffu64,
            ;
            let lost: u128 = (self.decay as u128) * (steps as u128);
            if lost >= (self.initial - self.floor) as u128 {
                self.floor
            } else {
                self.initial - (lost as u32)
            }
        }
    }
}

/// The per-solve value is non-increasing in the solve count and stays
/// between the policy's floor and its initial value, for any monotonically
/// increasing sequence of solve counts.
pub proof fn lemma_value_monotone(p: ValuePolicy, m: nat, n: nat)
    requires
        p.wf(),
        m <= n,
    ensures
        p.value_of(n) <= p.value_of(m),
        p.floor <= p.value_of(n) <= p.initial,
{
    if n > 1 {
        lemma_mul_inequality(0, (n - 1) as int, p.decay as int);
        if m > 1 {
            lemma_mul_inequality((m - 1) as int, (n - 1) as int, p.decay as int);
        }
    }
}

/// The curve the site runs with unless configured otherwise.
pub fn standard_policy() -> (p: ValuePolicy)
    ensures
        p.wf(),
        p.initial == 500,
        p.floor == 100,
        p.decay == 25,
{
    ValuePolicy { initial: 500, floor: 100, decay: 25 }
}

} // verus!
