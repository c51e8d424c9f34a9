use vstd::prelude::*;

verus! {

/// `r` is the floor of the square root of `x`.
pub open spec fn is_floor_sqrt(r: int, x: int) -> bool {
    0 <= r && r * r <= x && x < (r + 1) * (r + 1)
}

/// The floor of the square root of a natural number.
pub open spec fn floor_sqrt(x: nat) -> nat
    decreases x,
{
    if x == 0 {
        0
    } else {
        let r = floor_sqrt((x - 1) as nat);
        if (r + 1) * (r + 1) <= x {
            (r + 1) as nat
        } else {
            r
        }
    }
}

/// `floor_sqrt` meets its defining inequalities.
pub proof fn lemma_floor_sqrt(x: nat)
    ensures
        is_floor_sqrt(floor_sqrt(x) as int, x as int),
    decreases x,
{
    if x > 0 {
        lemma_floor_sqrt((x - 1) as nat);
        let r = floor_sqrt((x - 1) as nat) as int;
        assert((r + 1) * (r + 1) <= x || x < (r + 1) * (r + 1));
        if (r + 1) * (r + 1) <= x {
            assert(x < (r + 2) * (r + 2)) by (nonlinear_arith)
                requires
                    x - 1 < (r + 1) * (r + 1),
                    r >= 0,
            ;
        }
    }
}

/// Two floors of the square root of one number are equal.
pub proof fn lemma_floor_sqrt_unique(r1: int, r2: int, x: int)
    requires
        is_floor_sqrt(r1, x),
        is_floor_sqrt(r2, x),
    ensures
        r1 == r2,
{
    if r1 < r2 {
        assert((r1 + 1) * (r1 + 1) <= r2 * r2) by (nonlinear_arith)
            requires
                0 <= r1 + 1 <= r2,
        ;
    } else if r2 < r1 {
        assert((r2 + 1) * (r2 + 1) <= r1 * r1) by (nonlinear_arith)
            requires
                0 <= r2 + 1 <= r1,
        ;
    }
}

/// The exact characterisation of the result of the integer square root.
pub proof fn lemma_floor_sqrt_is(r: int, x: nat)
    requires
        is_floor_sqrt(r, x as int),
    ensures
        r == floor_sqrt(x),
{
    lemma_floor_sqrt(x);
    lemma_floor_sqrt_unique(r, floor_sqrt(x) as int, x as int);
}

/// For a square `s * s <= x` and any divisor `t`, `x / t + t >= 2 * s`.
proof fn lemma_newton_lower(x: int, t: int, s: int)
    requires
        t > 0,
        s >= 0,
        s * s <= x,
    ensures
        x / t + t >= 2 * s,
{
    let q = x / t;
    assert(x < (q + 1) * t) by (nonlinear_arith)
        requires
            t > 0,
            q == x / t,
    ;
    if q + t < 2 * s {
        assert(q >= 0) by (nonlinear_arith)
            requires
                t > 0,
                x >= 0,
                q == x / t,
        ;
        assert((q + 1) * t <= (2 * s - t) * t) by (nonlinear_arith)
            requires
                q + 1 <= 2 * s - t,
                t > 0,
        ;
        assert((2 * s - t) * t <= s * s) by (nonlinear_arith);
    }
}

/// One Newton step from any positive guess never falls below the root.
proof fn lemma_newton_step_above(x: int, t: int)
    requires
        t > 0,
        x >= 0,
    ensures
        ((x / t + t) / 2 + 1) * ((x / t + t) / 2 + 1) > x,
{
    let n = (x / t + t) / 2;
    if (n + 1) * (n + 1) <= x {
        lemma_newton_lower(x, t, n + 1);
    }
}

/// A guess whose square exceeds `x` is lowered by a Newton step.
proof fn lemma_newton_step_descends(x: int, t: int)
    requires
        t > 0,
        x >= 0,
        t * t > x,
    ensures
        (x / t + t) / 2 < t,
{
    assert(x / t < t) by (nonlinear_arith)
        requires
            t > 0,
            x >= 0,
            t * t > x,
    ;
}

/// The floor of the square root of `x`: a lookup by bands below 100 and
/// Newton's method from `x` above.
pub fn sqrt_u128(x: u128) -> (r: u128)
    ensures
        is_floor_sqrt(r as int, x as int),
        r == floor_sqrt(x as nat),
{
    let r: u128 = if x == 0 {
        0
    } else if x < 100 {
        if x <= 3 {
            1
        } else if x <= 8 {
            2
        } else if x <= 15 {
            3
        } else if x <= 24 {
            4
        } else if x <= 35 {
            5
        } else if x <= 48 {
            6
        } else if x <= 63 {
            7
        } else if x <= 80 {
            8
        } else {
            9
        }
    } else {
        let mut result: u128 = x;
        let mut temp: u128 = (x / 2) + (x % 2);
        assert(temp == (x / result + result) / 2) by (nonlinear_arith)
            requires
                result == x,
                x >= 100,
                temp == x / 2 + x % 2,
        ;
        assert((result + 1) * (result + 1) > x) by (nonlinear_arith)
            requires
                result == x,
                x >= 100,
        ;
        proof {
            lemma_newton_step_above(x as int, x as int);
        }
        while temp < result
            invariant
                x >= 100,
                0 < result <= x,
                result == x || result <= x / 2 + x % 2,
                (result + 1) * (result + 1) > x,
                temp == (x / result + result) / 2,
                (temp + 1) * (temp + 1) > x,
            decreases result,
        {
            assert(temp <= x / 2 + x % 2) by (nonlinear_arith)
                requires
                    temp < result,
                    result == x || result <= x / 2 + x % 2,
                    temp == (x / result + result) / 2,
                    x >= 100,
            ;
            result = temp;
            assert(result >= 10) by (nonlinear_arith)
                requires
                    (result + 1) * (result + 1) > x,
                    x >= 100,
            ;
            assert(x / result <= x / 2) by (nonlinear_arith)
                requires
                    result >= 2,
                    x >= 0,
            ;
            assert(x / 2 + (x / 2 + x % 2) == x);
            temp = (x / temp + temp) / 2;
            proof {
                lemma_newton_step_above(x as int, result as int);
            }
        }
        proof {
            if (result as int) * (result as int) > x as int {
                lemma_newton_step_descends(x as int, result as int);
            }
        }
        result
    };
    proof {
        lemma_floor_sqrt_is(r as int, x as nat);
    }
    r
}

} // verus!
