//! A Lehmer pseudo-random number generator, seeded from the processor's
//! hardware source.
use vstd::prelude::*;

verus! {

/// The multiplier of the generator.
pub const MULTIPLIER: u128 = 48271;

/// The modulus of the generator, the prime 2^31 - 1.
pub const MODULUS: u128 = 2147483647;

/// The state that follows `x`.
pub open spec fn lehmer_next(x: int) -> int {
    (MULTIPLIER * x) % MODULUS as int
}

/// `x`, a value below the modulus, scaled to `[min, max]`.
pub open spec fn scaled(x: int, min: int, max: int) -> int {
    min + (x * (max - min + 1)) / MODULUS as int
}

pub struct RandomNumberGenerator {
    x: Option<u128>,
}

impl RandomNumberGenerator {
    /// The last state, if the generator has one.
    pub closed spec fn state(&self) -> Option<u128> {
        self.x
    }

    pub open spec fn wf(&self) -> bool {
        self.state() matches Some(x) ==> x < MODULUS
    }

    /// A generator whose first state comes from `seed`, the value that the
    /// hardware source gave, or which has no state where it gave none.
    pub fn new(seed: Option<u64>) -> (r: RandomNumberGenerator)
        ensures
            r.wf(),
            r.state() == match seed {
                Some(s) => Some(lehmer_next(s as int) as u128),
                None => None::<u128>,
            },
    {
        let x = match seed {
            Some(s) => Some((MULTIPLIER * (s as u128)) % MODULUS),
            None => None,
        };
        RandomNumberGenerator { x }
    }

    /// The next number, scaled to `[min, max]` (by default 0 and the
    /// modulus less one). A generator without a state takes one from `seed`,
    /// the value that the hardware source gave; with neither there is no number.
    pub fn generate_number(&mut self, min: Option<u128>, max: Option<u128>, seed: Option<u64>) -> (r: Option<u128>)
        requires
            old(self).wf(),
            ({
                let lo = match min { Some(v) => v as int, None => 0 };
                let hi = match max { Some(v) => v as int, None => MODULUS - 1 };
                lo <= hi && (hi - lo + 1) * MODULUS <= u128::MAX
            }),
        ensures
            final(self).wf(),
            ({
                let lo = match min { Some(v) => v as int, None => 0 };
                let hi = match max { Some(v) => v as int, None => MODULUS - 1 };
                let start = match old(self).state() {
                    Some(x) => Some(x as int),
                    None => match seed {
                        Some(s) => Some(lehmer_next(s as int)),
                        None => None::<int>,
                    },
                };
                match start {
                    Some(x) => {
                        &&& final(self).state() == Some(lehmer_next(x) as u128)
                        &&& r.is_some()
                        &&& r.unwrap() as int == scaled(lehmer_next(x), lo, hi)
                        &&& lo <= r.unwrap() <= hi
                    },
                    None => r.is_none() && final(self).state().is_none(),
                }
            }),
    {
        let min = match min {
            Some(v) => v,
            None => 0,
        };
        let max = match max {
            Some(v) => v,
            None => MODULUS - 1,
        };
        let x = match self.x {
            Some(x) => x,
            None => match seed {
                Some(s) => (MULTIPLIER * (s as u128)) % MODULUS,
                None => return None,
            },
        };
        let next = (MULTIPLIER * x) % MODULUS;
        self.x = Some(next);
        let width = max - min + 1;
        assert(next * width <= u128::MAX) by (nonlinear_arith)
            requires next < MODULUS, width * MODULUS <= u128::MAX;
        assert((next as int * width as int) / (MODULUS as int) < width as int) by (nonlinear_arith)
            requires next < MODULUS, width >= 1;
        Some(min + (next * width) / MODULUS)
    }

    /// A random lower-case letter: the next number scaled to `[0, 25]`,
    /// counted from `a`; `None` where `generate_number` gives no number.
    pub fn generate_letter(&mut self, seed: Option<u64>) -> (r: Option<char>)
        requires
            old(self).wf(),
        ensures
            final(self).wf(),
            ({
                let start = match old(self).state() {
                    Some(x) => Some(x as int),
                    None => match seed {
                        Some(s) => Some(lehmer_next(s as int)),
                        None => None::<int>,
                    },
                };
                match start {
                    Some(x) => {
                        &&& final(self).state() == Some(lehmer_next(x) as u128)
                        &&& r == Some(((97 + scaled(lehmer_next(x), 0, 25)) as u8) as char)
                        &&& 'a' <= r.unwrap() <= 'z'
                    },
                    None => r.is_none() && final(self).state().is_none(),
                }
            }),
    {
        match self.generate_number(Some(0), Some(25), seed) {
            Some(n) => {
                let code = (97 + n) as u8;
                assert(code as int == 97 + n as int);
                Some(code as char)
            },
            None => None,
        }
    }
}

} // verus!
