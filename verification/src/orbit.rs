//! The orbit of the generator of GF(2^8) under repeated doubling, followed on
//! the eight coefficient bits of an element.

use vstd::prelude::*;

verus! {

/// A field element as its eight coefficient bits, lowest first.
pub struct Bits {
    pub b0: bool,
    pub b1: bool,
    pub b2: bool,
    pub b3: bool,
    pub b4: bool,
    pub b5: bool,
    pub b6: bool,
    pub b7: bool,
}

/// Multiplication by the generator on the coefficient bits: a shift, with
/// the bits of the polynomial 0x11d folded in when the top bit is set.
pub open spec fn step(x: Bits) -> Bits {
    Bits {
        b0: x.b7,
        b1: x.b0,
        b2: x.b1 != x.b7,
        b3: x.b2 != x.b7,
        b4: x.b3 != x.b7,
        b5: x.b4,
        b6: x.b5,
        b7: x.b6,
    }
}

/// The element 1.
pub open spec fn one() -> Bits {
    Bits { b0: true, b1: false, b2: false, b3: false, b4: false, b5: false, b6: false, b7: false }
}

/// `x` is the element 1.
spec fn is_one(x: Bits) -> bool {
    x.b0 && !x.b1 && !x.b2 && !x.b3 && !x.b4 && !x.b5 && !x.b6 && !x.b7
}

/// `step` applied `n` times to `c`.
pub open spec fn steps(c: Bits, n: nat) -> Bits
    decreases n,
{
    if n == 0 {
        c
    } else {
        steps(step(c), (n - 1) as nat)
    }
}

/// None of the `n` values `c, step(c), ..` is the element 1.
spec fn no_one(c: Bits, n: nat) -> bool
    decreases n,
{
    n == 0 || (!is_one(c) && no_one(step(c), (n - 1) as nat))
}

/// Two to the power `j`.
spec fn span(j: nat) -> nat
    decreases j,
{
    if j == 0 {
        1
    } else {
        2 * span((j - 1) as nat)
    }
}

/// `step` applied `span(j)` times to `c`, by doubling.
spec fn leap(c: Bits, j: nat) -> Bits
    decreases j,
{
    if j == 0 {
        step(c)
    } else {
        leap(leap(c, (j - 1) as nat), (j - 1) as nat)
    }
}

/// None of the `span(j)` values `c, step(c), ..` is the element 1, by
/// doubling.
spec fn clear(c: Bits, j: nat) -> bool
    decreases j,
{
    if j == 0 {
        !is_one(c)
    } else {
        clear(c, (j - 1) as nat) && clear(leap(c, (j - 1) as nat), (j - 1) as nat)
    }
}

/// The orbit of 1, evaluated by doubling: 1 + 2 + 4 + .. + 128 steps lead
/// back to 1.
proof fn lemma_eval_return()
    ensures
        leap(leap(leap(leap(leap(leap(leap(leap(one(), 0), 1), 2), 3), 4), 5), 6), 7) == one(),
{
    reveal_with_fuel(leap, 9);
}

/// The orbit of 1, evaluated by doubling: none of the 128 + 64 + .. + 2
/// values after 1 is 1.
proof fn lemma_eval_clear()
    ensures
        ({
            let e0 = leap(one(), 0);
            let e1 = leap(e0, 7);
            let e2 = leap(e1, 6);
            let e3 = leap(e2, 5);
            let e4 = leap(e3, 4);
            let e5 = leap(e4, 3);
            let e6 = leap(e5, 2);
            clear(e0, 7) && clear(e1, 6) && clear(e2, 5) && clear(e3, 4) && clear(e4, 3) && clear(
                e5,
                2,
            ) && clear(e6, 1)
        }),
{
    reveal_with_fuel(leap, 9);
    reveal_with_fuel(clear, 9);
}

/// Stepping `a` times and then `b` times is stepping `a + b` times.
pub proof fn lemma_steps_add(c: Bits, a: nat, b: nat)
    ensures
        steps(steps(c, a), b) == steps(c, a + b),
    decreases a,
{
    if a > 0 {
        lemma_steps_add(step(c), (a - 1) as nat, b);
    }
}

/// One more step may be taken last as well as first.
pub proof fn lemma_steps_last(c: Bits, n: nat)
    ensures
        steps(c, n + 1) == step(steps(c, n)),
{
    lemma_steps_add(c, n, 1);
    reveal_with_fuel(steps, 2);
}

/// Two stretches without 1, one after the other, are one stretch without
/// 1.
proof fn lemma_no_one_add(c: Bits, a: nat, b: nat)
    requires
        no_one(c, a),
        no_one(steps(c, a), b),
    ensures
        no_one(c, a + b),
    decreases a,
{
    if a > 0 {
        lemma_no_one_add(step(c), (a - 1) as nat, b);
    }
}

/// In a stretch without 1 no value is 1.
proof fn lemma_no_one_at(c: Bits, n: nat, j: nat)
    requires
        no_one(c, n),
        j < n,
    ensures
        steps(c, j) != one(),
    decreases j,
{
    if j > 0 {
        lemma_no_one_at(step(c), (n - 1) as nat, (j - 1) as nat);
    }
}

/// The first eight powers of two.
proof fn lemma_span_values()
    ensures
        span(0) == 1,
        span(1) == 2,
        span(2) == 4,
        span(3) == 8,
        span(4) == 16,
        span(5) == 32,
        span(6) == 64,
        span(7) == 128,
{
    reveal_with_fuel(span, 9);
}

/// A leap is as many steps as its span.
proof fn lemma_leap_steps(c: Bits, j: nat)
    ensures
        leap(c, j) == steps(c, span(j)),
    decreases j,
{
    if j == 0 {
        reveal_with_fuel(steps, 2);
    } else {
        let h = (j - 1) as nat;
        lemma_leap_steps(c, h);
        lemma_leap_steps(leap(c, h), h);
        lemma_steps_add(c, span(h), span(h));
    }
}

/// What doubling finds clear is a stretch without 1.
proof fn lemma_clear_no_one(c: Bits, j: nat)
    requires
        clear(c, j),
    ensures
        no_one(c, span(j)),
    decreases j,
{
    if j == 0 {
        reveal_with_fuel(no_one, 2);
    } else {
        let h = (j - 1) as nat;
        lemma_clear_no_one(c, h);
        lemma_clear_no_one(leap(c, h), h);
        lemma_leap_steps(c, h);
        lemma_no_one_add(c, span(h), span(h));
    }
}

/// A leap of `span(j)` steps after `n` steps from 1.
proof fn lemma_leap_from(n: nat, j: nat)
    ensures
        leap(steps(one(), n), j) == steps(one(), n + span(j)),
{
    lemma_leap_steps(steps(one(), n), j);
    lemma_steps_add(one(), n, span(j));
}

/// After 255 steps the orbit of 1 is back at 1.
pub proof fn lemma_orbit_period()
    ensures
        steps(one(), 255) == one(),
{
    lemma_eval_return();
    lemma_span_values();
    lemma_leap_from(0, 0);
    lemma_leap_from(1, 1);
    lemma_leap_from(3, 2);
    lemma_leap_from(7, 3);
    lemma_leap_from(15, 4);
    lemma_leap_from(31, 5);
    lemma_leap_from(63, 6);
    lemma_leap_from(127, 7);
}

/// A stretch of `span(j)` values without 1, joined to the `n` before it.
proof fn lemma_clear_from(n: nat, j: nat)
    requires
        no_one(steps(one(), 1), n),
        clear(steps(one(), 1 + n), j),
    ensures
        no_one(steps(one(), 1), n + span(j)),
        leap(steps(one(), 1 + n), j) == steps(one(), 1 + n + span(j)),
{
    lemma_clear_no_one(steps(one(), 1 + n), j);
    lemma_steps_add(one(), 1, n);
    lemma_no_one_add(steps(one(), 1), n, span(j));
    lemma_leap_from(1 + n, j);
}

/// The orbit of 1 does not come back to 1 before that.
pub proof fn lemma_orbit_no_return(d: nat)
    requires
        0 < d < 255,
    ensures
        steps(one(), d) != one(),
{
    lemma_eval_clear();
    lemma_span_values();
    lemma_leap_from(0, 0);
    lemma_clear_from(0, 7);
    lemma_clear_from(128, 6);
    lemma_clear_from(192, 5);
    lemma_clear_from(224, 4);
    lemma_clear_from(240, 3);
    lemma_clear_from(248, 2);
    lemma_clear_from(252, 1);
    lemma_no_one_at(steps(one(), 1), 254, (d - 1) as nat);
    lemma_steps_add(one(), 1, (d - 1) as nat);
}

} // verus!
