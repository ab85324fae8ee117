//! Powers of two and the modular arithmetic of wrapping cursors.
use vstd::arithmetic::div_mod::{
    lemma_fundamental_div_mod, lemma_fundamental_div_mod_converse, lemma_mod_multiples_basic, lemma_mod_multiples_vanish,
};
use vstd::arithmetic::power2::{lemma2_to64, lemma_pow2_unfold, pow2};
use vstd::prelude::*;

verus! {

/// `n` is a positive power of two.
pub open spec fn is_power_of_two(n: int) -> bool
    decreases n,
{
    if n <= 0 {
        false
    } else if n == 1 {
        true
    } else {
        n % 2 == 0 && is_power_of_two(n / 2)
    }
}

/// The number of distinct `usize` values; wrapping arithmetic works modulo this.
pub open spec fn usize_modulus() -> int {
    usize::MAX as int + 1
}

/// `x` reduced into the range of `usize`, as wrapping arithmetic does.
pub open spec fn wrap(x: int) -> int {
    x % usize_modulus()
}

/// Wrapping a value that is at most one modulus out of range.
pub proof fn lemma_wrap_small(x: int)
    requires
        -usize_modulus() <= x < 2 * usize_modulus(),
    ensures
        wrap(x) == if x < 0 {
            x + usize_modulus()
        } else if x < usize_modulus() {
            x
        } else {
            x - usize_modulus()
        },
{
    let m = usize_modulus();
    if x < 0 {
        lemma_fundamental_div_mod_converse(x, m, -1, x + m);
    } else if x < m {
        lemma_fundamental_div_mod_converse(x, m, 0, x);
    } else {
        lemma_fundamental_div_mod_converse(x, m, 1, x - m);
    }
}

/// A power of two divides every power of two that is at least as large.
pub proof fn lemma_pow2_divides(n: int, m: int)
    requires
        is_power_of_two(n),
        is_power_of_two(m),
        n <= m,
    ensures
        m % n == 0,
    decreases n,
{
    if n != 1 {
        lemma_pow2_divides(n / 2, m / 2);
        let h = n / 2;
        let q = (m / 2) / h;
        lemma_fundamental_div_mod(m / 2, h);
        assert(m == n * q) by (nonlinear_arith)
            requires
                m == 2 * (m / 2),
                m / 2 == h * q,
                n == 2 * h,
        ;
        lemma_mod_multiples_basic(q, n);
    }
}

proof fn lemma_pow2_exponent_is_power_of_two(e: nat)
    ensures
        is_power_of_two(pow2(e) as int),
    decreases e,
{
    if e > 0 {
        lemma_pow2_unfold(e);
        lemma_pow2_exponent_is_power_of_two((e - 1) as nat);
        let p = pow2((e - 1) as nat) as int;
        assert(pow2(e) as int == 2 * p);
        lemma_power_of_two_double(p);
    } else {
        lemma2_to64();
    }
}

/// The `usize` modulus is a power of two.
pub proof fn lemma_modulus_is_power_of_two()
    ensures
        is_power_of_two(usize_modulus()),
{
    vstd::layout::unsigned_int_max_values();
    lemma_pow2_exponent_is_power_of_two(usize::BITS as nat);
}

/// Reducing modulo the `usize` modulus does not change a value modulo a
/// power of two that fits in `usize`.
pub proof fn lemma_wrap_mod(a: int, cap: int)
    requires
        is_power_of_two(cap),
        cap <= usize::MAX,
    ensures
        wrap(a) % cap == a % cap,
{
    let m = usize_modulus();
    lemma_modulus_is_power_of_two();
    lemma_pow2_divides(cap, m);
    let q = m / cap;
    lemma_fundamental_div_mod(m, cap);
    lemma_fundamental_div_mod(a, m);
    let k = a / m;
    assert(a == m * k + wrap(a));
    assert(m * k == cap * (q * k)) by (nonlinear_arith)
        requires
            m == cap * q,
    ;
    lemma_mod_multiples_vanish(q * k, wrap(a), cap);
}

/// A power of two is 1 or even.
pub proof fn lemma_power_of_two_even(n: int)
    requires
        is_power_of_two(n),
        n != 1,
    ensures
        n % 2 == 0,
        n >= 2,
        is_power_of_two(n / 2),
{
}

/// Twice a power of two is a power of two.
pub proof fn lemma_power_of_two_double(n: int)
    requires
        is_power_of_two(n),
    ensures
        is_power_of_two(2 * n),
{
    assert((2 * n) % 2 == 0 && (2 * n) / 2 == n);
}

} // verus!

verus! {

/// Shifting a wrapped value keeps its residue modulo a power of two.
pub proof fn lemma_wrap_shift(a: int, r: int, cap: int)
    requires
        is_power_of_two(cap),
        cap <= usize::MAX,
    ensures
        (wrap(a) + r) % cap == (a + r) % cap,
{
    lemma_wrap_mod(a, cap);
    vstd::arithmetic::div_mod::lemma_add_mod_noop(wrap(a), r, cap);
    vstd::arithmetic::div_mod::lemma_add_mod_noop(a, r, cap);
}

/// The offset of slot `(h + a) mod cap` from `h`, taken modulo `cap`, is `a`.
pub proof fn lemma_slot_offset(h: int, a: int, cap: int)
    requires
        cap > 0,
        0 <= a < cap,
    ensures
        ((h + a) % cap - h) % cap == a,
        0 <= (h + a) % cap < cap,
{
    lemma_fundamental_div_mod(h + a, cap);
    let q = (h + a) / cap;
    assert((h + a) % cap - h == cap * (-q) + a) by (nonlinear_arith)
        requires
            h + a == cap * q + (h + a) % cap,
    ;
    lemma_mod_multiples_vanish(-q, a, cap);
    vstd::arithmetic::div_mod::lemma_small_mod(a as nat, cap as nat);
}

/// Distinct offsets below `cap` from the same base land in distinct slots.
pub proof fn lemma_slot_injective(h: int, a: int, b: int, cap: int)
    requires
        cap > 0,
        0 <= a < cap,
        0 <= b < cap,
        a != b,
    ensures
        (h + a) % cap != (h + b) % cap,
{
    lemma_slot_offset(h, a, cap);
    lemma_slot_offset(h, b, cap);
}

/// Every slot is at some offset below `cap` from any base.
pub proof fn lemma_slot_surjective(h: int, s: int, cap: int)
    requires
        cap > 0,
        0 <= s < cap,
    ensures
        0 <= (s - h) % cap < cap,
        (h + (s - h) % cap) % cap == s,
{
    let a = (s - h) % cap;
    lemma_fundamental_div_mod(s - h, cap);
    let q = (s - h) / cap;
    assert(h + a == cap * q * (-1) + s) by (nonlinear_arith)
        requires
            s - h == cap * q + a,
    ;
    assert(h + a == cap * (-q) + s) by (nonlinear_arith)
        requires
            h + a == cap * q * (-1) + s,
    ;
    lemma_mod_multiples_vanish(-q, s, cap);
    vstd::arithmetic::div_mod::lemma_small_mod(s as nat, cap as nat);
}

} // verus!

verus! {

/// Values that differ by a multiple of the modulus wrap to the same value.
pub proof fn lemma_wrap_congruent(a: int, b: int, k: int)
    requires
        a == b + k * usize_modulus(),
    ensures
        wrap(a) == wrap(b),
{
    assert(a == usize_modulus() * k + b) by (nonlinear_arith)
        requires
            a == b + k * usize_modulus(),
    ;
    lemma_mod_multiples_vanish(k, b, usize_modulus());
}

/// Wrapping commutes with adding an offset.
pub proof fn lemma_wrap_add(a: int, d: int)
    ensures
        wrap(wrap(a) + d) == wrap(a + d),
{
    lemma_fundamental_div_mod(a, usize_modulus());
    lemma_wrap_congruent(wrap(a) + d, a + d, -(a / usize_modulus()));
}

} // verus!

verus! {

/// Moving a cursor by `d` moves its slot by `d`, wrapping around `cap`.
pub proof fn lemma_slot_step(h: int, d: int, cap: int)
    requires
        is_power_of_two(cap),
        cap <= usize::MAX,
    ensures
        wrap(h + d) % cap == (h % cap + d + cap) % cap,
{
    lemma_wrap_mod(h + d, cap);
    vstd::arithmetic::div_mod::lemma_add_mod_noop_right(d, h, cap);
    vstd::arithmetic::div_mod::lemma_mod_add_multiples_vanish(h % cap + d, cap);
}

} // verus!
