//! Sample per-element transform: an iteration-bounded Collatz-like
//! reducer. It repeatedly halves even values and maps odd values to
//! `3 * v + 1`, stopping once the value reaches 1 or after a fixed cap of
//! iterations, and returns the iteration count when 1 was reached within
//! the cap, or the last computed value when the cap was hit first.

use vstd::prelude::*;

verus! {

/// One Collatz step: halve an even value, send an odd value to `3v + 1`.
pub open spec fn collatz_next(v: nat) -> nat {
    if v % 2 == 0 {
        v / 2
    } else {
        3 * v + 1
    }
}

/// Iterate `collatz_next` from `v` until the value reaches 1 or `fuel`
/// steps have been taken; yields the final value and the number of steps
/// actually taken.
pub open spec fn collatz_run(v: nat, fuel: nat) -> (nat, nat)
    decreases fuel,
{
    if v == 1 || fuel == 0 {
        (v, 0)
    } else {
        let rest = collatz_run(collatz_next(v), (fuel - 1) as nat);
        (rest.0, rest.1 + 1)
    }
}

/// The bounded reducer: run at most `k` Collatz steps from `n`; if the
/// run stopped early (value 1 reached before the cap), the result is the
/// step count, otherwise it is the final value.
pub open spec fn transform_spec(n: nat, k: nat) -> nat {
    let run = collatz_run(n, k);
    if run.1 >= k {
        run.0
    } else {
        run.1
    }
}

/// `3^i`; bounds the growth of a value across `i` Collatz steps.
pub open spec fn pow3(i: nat) -> nat
    decreases i,
{
    if i == 0 {
        1nat
    } else {
        3 * pow3((i - 1) as nat)
    }
}

pub proof fn lemma_pow3_mono(i: nat, j: nat)
    requires
        i <= j,
    ensures
        0 < pow3(i) <= pow3(j),
    decreases j,
{
    if j > 0 {
        if i == j {
            lemma_pow3_mono((i - 1) as nat, (j - 1) as nat);
        } else {
            lemma_pow3_mono(i, (j - 1) as nat);
        }
    }
}

/// Along any run of at most `fuel` Collatz steps, the value stays below
/// `pow3(steps) * (start + 1)`: each step at most triples the value and
/// adds one.
proof fn lemma_step_bound(v: nat, i: nat)
    requires
        v + 1 <= i,
    ensures
        collatz_next(v) + 1 <= 3 * i,
{
    if v % 2 == 0 {
        assert(v / 2 <= v);
    }
}

/// Iteration cap of the stock transform.
pub const TRANSFORM_CAP: u64 = 8;

/// Largest input the stock transform accepts: the largest `n` with
/// `pow3(8) * (n + 1) <= u64::MAX + 1`, so no intermediate value can
/// overflow a `u64`.
pub const TRANSFORM_INPUT_MAX: u64 = 2811575076011209;

/// The bounded Collatz-like reducer with an explicit iteration cap `k`.
///
/// The precondition keeps every intermediate value within `u64`: after
/// `i <= k` steps the value is below `pow3(i) * (n + 1)`.
pub fn transform_data_with_cap(n: u64, k: u64) -> (r: u64)
    requires
        pow3(k as nat) * (n as nat + 1) <= u64::MAX as nat + 1,
    ensures
        r == transform_spec(n as nat, k as nat),
{
    let mut value = n;
    let mut iterations: u64 = 0;

    proof {
        assert(pow3(0) == 1);
    }

    while value != 1 && iterations < k
        invariant
            iterations <= k,
            pow3(k as nat) * (n as nat + 1) <= u64::MAX as nat + 1,
            value as nat + 1 <= pow3(iterations as nat) * (n as nat + 1),
            collatz_run(n as nat, k as nat).0 == collatz_run(
                value as nat,
                (k - iterations) as nat,
            ).0,
            collatz_run(n as nat, k as nat).1 == collatz_run(
                value as nat,
                (k - iterations) as nat,
            ).1 + iterations,
        decreases k - iterations,
    {
        proof {
            lemma_pow3_mono((iterations + 1) as nat, k as nat);
            lemma_step_bound(value as nat, pow3(iterations as nat) * (n as nat + 1));
            assert(pow3((iterations + 1) as nat) == 3 * pow3(iterations as nat));
            assert(3 * (pow3(iterations as nat) * (n as nat + 1)) == pow3(
                (iterations + 1) as nat,
            ) * (n as nat + 1)) by (nonlinear_arith);
            assert(pow3((iterations + 1) as nat) * (n as nat + 1) <= pow3(k as nat) * (n as nat
                + 1)) by (nonlinear_arith)
                requires
                    pow3((iterations + 1) as nat) <= pow3(k as nat),
                    n as nat + 1 > 0,
            ;
            assert(collatz_next(value as nat) + 1 <= u64::MAX as nat + 1);
        }
        if value % 2 == 0 {
            value = value / 2;
        } else {
            value = value * 3 + 1;
        }
        iterations = iterations + 1;
    }

    if iterations >= k {
        value
    } else {
        iterations
    }
}

/// The stock transform: the bounded reducer with cap 8.
pub fn transform_data(n: u64) -> (r: u64)
    requires
        n <= TRANSFORM_INPUT_MAX,
    ensures
        r == transform_spec(n as nat, TRANSFORM_CAP as nat),
{
    proof {
        reveal_with_fuel(pow3, 9);
        assert(pow3(8) == 6561);
    }
    transform_data_with_cap(n, TRANSFORM_CAP)
}

} // verus!
