//! Powers of two.

use vstd::prelude::*;

verus! {

pub open spec fn is_power_of_two(n: nat) -> bool
    decreases n,
{
    n == 1 || (n > 1 && n % 2 == 0 && is_power_of_two(n / 2))
}

/// The smaller of two powers of two divides the larger.
pub proof fn lemma_smaller_divides(small: nat, large: nat)
    requires
        is_power_of_two(small),
        is_power_of_two(large),
        small <= large,
    ensures
        large % small == 0,
    decreases small,
{
    if small > 1 {
        lemma_smaller_divides(small / 2, large / 2);
        let half = small / 2;
        let q = (large / 2) / half;
        vstd::arithmetic::div_mod::lemma_fundamental_div_mod((large / 2) as int, half as int);
        assert(large == q * small) by (nonlinear_arith)
            requires
                large == 2 * (large / 2),
                small == 2 * half,
                large / 2 == half * q,
        ;
        vstd::arithmetic::div_mod::lemma_mod_multiples_basic(q as int, small as int);
    } else {
        assert(large % 1 == 0);
    }
}

/// There are as many 32-bit numbers as a power of two says.
pub proof fn lemma_word_range()
    ensures
        is_power_of_two(0x1_0000_0000),
{
    reveal_with_fuel(is_power_of_two, 33);
}

/// The least number from `from` on, doubling, that is no less than `n`.
pub open spec fn doubled_to(from: nat, n: nat) -> nat
    decreases (if n > from { n - from } else { 0 }),
{
    if from >= n || from == 0 {
        from
    } else {
        doubled_to(2 * from, n)
    }
}

/// The least power of two that is no less than `n`.
pub open spec fn next_power(n: nat) -> nat {
    doubled_to(1, n)
}

proof fn lemma_doubled_to(from: nat, n: nat)
    requires
        is_power_of_two(from),
        from == 1 || from / 2 < n,
    ensures
        is_power_of_two(doubled_to(from, n)),
        doubled_to(from, n) >= n,
        doubled_to(from, n) >= from,
        doubled_to(from, n) == 1 || doubled_to(from, n) / 2 < n,
    decreases (if n > from { n - from } else { 0 }),
{
    if from < n {
        assert(is_power_of_two(2 * from));
        lemma_doubled_to(2 * from, n);
    }
}

pub proof fn lemma_next_power(n: nat)
    ensures
        is_power_of_two(next_power(n)),
        next_power(n) >= n,
        next_power(n) == 1 || next_power(n) / 2 < n,
        n <= 0x8000_0000 ==> next_power(n) <= 0x8000_0000,
{
    lemma_doubled_to(1, n);
    if n <= 0x8000_0000 && next_power(n) > 0x8000_0000 {
        reveal_with_fuel(is_power_of_two, 33);
        assert(is_power_of_two(0x8000_0000));
        let half = next_power(n) / 2;
        assert(is_power_of_two(half));
        lemma_smaller_divides(half, 0x8000_0000);
        lemma_smaller_divides(0x8000_0000, next_power(n));
        assert(false) by (nonlinear_arith)
            requires
                half < 0x8000_0000,
                next_power(n) == 2 * half,
                next_power(n) > 0x8000_0000,
                next_power(n) % 0x8000_0000 == 0,
        ;
    }
}

pub fn next_power_of_two(n: u32) -> (power: u32)
    requires
        n <= 0x8000_0000,
    ensures
        power == next_power(n as nat),
{
    let mut power: u32 = 1;
    proof {
        lemma_next_power(n as nat);
    }
    while power < n
        invariant
            0 < power,
            n <= 0x8000_0000,
            is_power_of_two(power as nat),
            power == 1 || power / 2 < n,
            next_power(n as nat) <= 0x8000_0000,
            next_power(n as nat) == doubled_to(power as nat, n as nat),
        decreases (if n > power { n - power } else { 0 }),
    {
        proof {
            assert(is_power_of_two(2 * power as nat));
            lemma_doubled_to(2 * power as nat, n as nat);
        }
        power = power * 2;
    }
    power
}

} // verus!
