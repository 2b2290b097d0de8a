//! A deliberately simple, cross-platform random stream: a step that is
//! prime relative to the bound walks the residues deterministically.

use vstd::prelude::*;

verus! {

pub open spec fn spec_is_prime(n: nat) -> bool {
    n >= 2 && forall|d: nat| 2 <= d < n ==> #[trigger] (n % d) != 0
}

/// Any proper divisor pairs with one whose square is within `n`.
proof fn lemma_small_divisor(n: nat, d: nat)
    requires
        2 <= d < n,
        n % d == 0,
    ensures
        exists|e: nat| 2 <= e && #[trigger] (e * e) <= n && n % e == 0,
{
    let q = n / d;
    vstd::arithmetic::div_mod::lemma_fundamental_div_mod(n as int, d as int);
    assert(n == d * q);
    assert(q >= 2) by (nonlinear_arith)
        requires
            n == d * q && 2 <= d && d < n,
    ;
    assert(n % q == 0) by (nonlinear_arith)
        requires
            n == d * q && q >= 2,
    ;
    if d * d <= n {
        assert(2 <= d && d * d <= n && n % d == 0);
    } else {
        assert(q * q <= n) by (nonlinear_arith)
            requires
                n == d * q && d * d > n && q >= 2 && d >= 2,
        ;
        assert(2 <= q && q * q <= n && n % q == 0);
    }
}

/// Trial division up to the square root. As a quirk of the scan, zero is
/// reported prime; no caller passes it.
pub fn is_prime(num: u64) -> (r: bool)
    ensures
        r == (num == 0 || spec_is_prime(num as nat)),
{
    if num == 1 {
        return false;
    }
    let mut i: u64 = 2;
    while i <= num / i
        invariant
            2 <= i,
            num != 1,
            forall|d: nat| 2 <= d < i ==> #[trigger] ((num as nat) % d) != 0,
        decreases num - i,
    {
        assert(i * i <= num) by (nonlinear_arith)
            requires
                i >= 2 && i <= num / i,
        ;
        if num % i == 0 {
            assert(i < num) by (nonlinear_arith)
                requires
                    i * i <= num && i >= 2,
            ;
            assert(!spec_is_prime(num as nat)) by {
                assert(2 <= i as nat && (i as nat) < (num as nat) && (num as nat) % (i as nat)
                    == 0);
            }
            assert(num != 0) by (nonlinear_arith)
                requires
                    i * i <= num && i >= 2,
            ;
            return false;
        }
        assert(i + 1 <= num) by (nonlinear_arith)
            requires
                i >= 2 && i * i <= num,
        ;
        i += 1;
    }
    if num == 0 {
        return true;
    }
    assert(i * i > num) by (nonlinear_arith)
        requires
            i >= 2 && i > num / i,
    ;
    assert(spec_is_prime(num as nat)) by {
        assert(num >= 2);
        assert forall|d: nat| 2 <= d < num as nat implies #[trigger] ((num as nat) % d) != 0 by {
            if (num as nat) % d == 0 {
                lemma_small_divisor(num as nat, d);
                let e = choose|e: nat| 2 <= e && #[trigger] (e * e) <= num as nat && (num as nat)
                    % e == 0;
                assert(e < i) by (nonlinear_arith)
                    requires
                        e * e <= num && i * i > num && e >= 2 && i >= 2,
                ;
            }
        }
    }
    true
}

/// The first prime in the upper half of `0..bound`, or 1 if there is none.
pub open spec fn spec_step_from(f: nat, bound: nat) -> nat
    decreases bound - f,
{
    if f >= bound {
        1
    } else if spec_is_prime(f) {
        f
    } else {
        spec_step_from(f + 1, bound)
    }
}

pub open spec fn spec_bad_step(bound: nat) -> nat {
    spec_step_from(bound / 2 + 1, bound)
}

/// A deterministic stream over `0..bound`; bad randomness, reproducible
/// everywhere, which this engine values more than uniformity.
pub struct BadRand {
    seed: u64,
    cap: u64,
    step: u64,
    init: u64,
}

impl BadRand {
    pub closed spec fn spec_seed(self) -> nat {
        self.seed as nat
    }

    pub closed spec fn spec_cap(self) -> nat {
        self.cap as nat
    }

    pub closed spec fn spec_step(self) -> nat {
        self.step as nat
    }

    pub closed spec fn spec_init(self) -> nat {
        self.init as nat
    }

    /// The next value: the seed advanced by the step, modulo the bound.
    pub fn get(&mut self) -> (r: u64)
        ensures
            final(self).spec_cap() == old(self).spec_cap(),
            final(self).spec_step() == old(self).spec_step(),
            final(self).spec_init() == old(self).spec_init(),
            old(self).spec_cap() == 0 ==> r == 0 && final(self).spec_seed() == old(
                self,
            ).spec_seed(),
            old(self).spec_cap() > 0 ==> {
                &&& final(self).spec_seed() == (old(self).spec_seed() + old(self).spec_step())
                    % old(self).spec_cap()
                &&& r as nat == final(self).spec_seed()
            },
    {
        if self.cap == 0 {
            return 0;
        }
        let wide: u128 = self.seed as u128 + self.step as u128;
        let newseed: u64 = (wide % self.cap as u128) as u64;
        proof {
            assert(wide % (self.cap as u128) < self.cap as u128) by (nonlinear_arith)
                requires
                    self.cap > 0,
            ;
        }
        self.seed = newseed;
        newseed
    }

    /// The seed this stream started from.
    pub fn init_seed(&self) -> (r: u64)
        ensures
            r as nat == self.spec_init(),
    {
        self.init
    }
}

pub fn make_bad_rand(s: u64, bound: u64) -> (r: BadRand)
    ensures
        r.spec_seed() == s as nat,
        r.spec_init() == s as nat,
        r.spec_cap() == bound as nat,
        r.spec_step() == spec_bad_step(bound as nat),
{
    let mut f: u64 = bound / 2 + 1;
    let mut setstep: u64 = 1;
    let mut found = false;
    while f < bound && !found
        invariant
            bound / 2 + 1 <= f,
            f <= bound || f == bound / 2 + 1,
            !found ==> setstep == 1 && spec_step_from(f as nat, bound as nat) == spec_bad_step(
                bound as nat,
            ),
            found ==> setstep as nat == spec_bad_step(bound as nat),
        decreases bound - f, (if found {
            0int
        } else {
            1int
        }),
    {
        if is_prime(f) {
            assert(f != 0);
            setstep = f;
            found = true;
        } else {
            f += 1;
        }
    }
    proof {
        if !found {
            assert(spec_step_from(f as nat, bound as nat) == 1);
        }
    }
    BadRand { seed: s, cap: bound, step: setstep, init: s }
}

/// The engine's random stream; the flag is reserved for a platform
/// generator that is not offered yet.
pub fn get_rand_stream(seed: u64, cap: u64, _use_bad_random: bool) -> (r: BadRand)
    ensures
        r.spec_seed() == seed as nat,
        r.spec_init() == seed as nat,
        r.spec_cap() == cap as nat,
        r.spec_step() == spec_bad_step(cap as nat),
{
    make_bad_rand(seed, cap)
}

} // verus!
