//! Sizes for people: a number below 1024 as it is, any other to one decimal in its unit.

use crate::size;
use crate::text;
use vstd::prelude::*;

verus! {

/// The units are powers of 1024.
pub proof fn law_units()
    ensures
        size::scale(0) == 1,
        size::scale(1) == 1024,
        size::scale(2) == 1_048_576,
        size::scale(3) == 1_073_741_824,
        size::scale(4) == 1_099_511_627_776,
        size::scale(5) == 1_125_899_906_842_624,
        size::unit_name(0) == "B"@,
        size::unit_name(1) == "K"@,
        size::unit_name(2) == "M"@,
        size::unit_name(3) == "G"@,
        size::unit_name(4) == "T"@,
        size::unit_name(5) == "P"@,
{
    reveal_with_fuel(size::scale, 6);
}

/// A number below 1024 is written as it is, in bytes.
pub proof fn law_small_sizes(b: nat)
    requires
        b < 1024,
    ensures
        size::human_text(b) == text::decimal(b) + " B"@,
{
    law_units();
    lemma_exact(b);
    reveal_strlit(" B");
    reveal_strlit(" ");
    reveal_strlit("B");
    assert(" "@ + "B"@ == " B"@);
    assert(text::decimal(b) + " "@ + "B"@ == text::decimal(b) + (" "@ + "B"@));
}

proof fn lemma_exact(b: nat)
    requires
        b < 0x20_0000_0000_0000,
    ensures
        size::rounded(b) == b,
{
    assert(size::gap(b, 1) == 1);
    assert(b / 1 == b && b % 1 == 0);
}

proof fn lemma_nearest(n: nat, d: nat)
    requires
        d > 0,
    ensures
        2 * size::nearest(n, d) * d <= 2 * n + d,
        2 * size::nearest(n, d) * d + d >= 2 * n,
        2 * size::nearest(n, d) * d == 2 * n + d || 2 * size::nearest(n, d) * d + d == 2 * n
            ==> size::nearest(n, d) % 2 == 0,
{
    let q = n / d;
    let r = n % d;
    vstd::arithmetic::div_mod::lemma_fundamental_div_mod(n as int, d as int);
    vstd::arithmetic::div_mod::lemma_mod_bound(n as int, d as int);
    assert(2 * q * d == 2 * (d * q)) by (nonlinear_arith);
    assert(2 * (q + 1) * d == 2 * (d * q) + 2 * d) by (nonlinear_arith);
}

proof fn lemma_unit(v: nat, i: nat)
    requires
        i <= 5,
        v >= size::scale(i),
    ensures
        i <= size::unit_from(v, i) <= 5,
        v >= size::scale(size::unit_from(v, i)),
        size::unit_from(v, i) < 5 ==> v < size::scale(size::unit_from(v, i) + 1),
    decreases 5 - i,
{
    if i < 5 && v >= size::scale(i + 1) {
        lemma_unit(v, i + 1);
    }
}

/// From 1024 on a size is written in tenths of the largest unit of which it holds one, and the
/// tenths are the nearest ones, the even ones of two that are equally near. Before that it is
/// rounded to 53 bits, which keeps what has no more.
pub proof fn law_large_sizes(b: nat) -> (r: (nat, nat))
    requires
        1024 <= b <= u64::MAX,
    ensures
        ({
            let (i, tenths) = r;
            let v = size::rounded(b);
            &&& b < 0x20_0000_0000_0000 ==> v == b
            &&& 1 <= i <= 5
            &&& size::scale(i) <= v
            &&& i < 5 ==> v < size::scale(i + 1)
            &&& 2 * tenths * size::scale(i) <= 20 * v + size::scale(i)
            &&& 2 * tenths * size::scale(i) + size::scale(i) >= 20 * v
            &&& 2 * tenths * size::scale(i) == 20 * v + size::scale(i) || 2 * tenths * size::scale(i)
                + size::scale(i) == 20 * v ==> tenths % 2 == 0
            &&& size::human_text(b) == text::decimal(tenths / 10) + "."@ + text::decimal(tenths % 10)
                + " "@ + size::unit_name(i)
        }),
{
    law_units();
    law_rounding(b);
    let v = size::rounded(b);
    assert(v >= 1024);
    lemma_unit(v, 0);
    let i = size::unit_from(v, 0);
    assert(i != 0);
    let tenths = size::nearest(10 * v, size::scale(i));
    lemma_nearest(10 * v, size::scale(i));
    (i, tenths)
}

/// What is returned for a size is what is written of it.
pub proof fn law_human(b: u64, r: String)
    requires
        call_ensures(size::human, (b,), r),
    ensures
        b < 1024 ==> r@ == text::decimal(b as nat) + " B"@,
        r@ == size::human_text(b as nat),
{
    if b < 1024 {
        law_small_sizes(b as nat);
    }
}

/// Rounding to 53 bits keeps a number of up to 53 bits, and moves no other one by more than half of
/// the distance between its neighbours; of two that are equally near, the even one is taken.
pub proof fn law_rounding(b: nat)
    requires
        b <= u64::MAX,
    ensures
        b < 0x20_0000_0000_0000 ==> size::rounded(b) == b,
        2 * size::rounded(b) <= 2 * b + size::gap(b, 1),
        2 * size::rounded(b) + size::gap(b, 1) >= 2 * b,
        size::gap(b, 1) <= 2048,
        size::rounded(b) % size::gap(b, 1) == 0,
        2 * size::rounded(b) == 2 * b + size::gap(b, 1) || 2 * size::rounded(b) + size::gap(b, 1) == 2
            * b ==> size::rounded(b) % (2 * size::gap(b, 1)) == 0,
{
    if b < 0x20_0000_0000_0000 {
        lemma_exact(b);
    }
    reveal_with_fuel(size::gap, 13);
    let g = size::gap(b, 1);
    assert(g > 0);
    lemma_nearest(b, g);
    let k = size::nearest(b, g);
    assert(2 * k * g == 2 * (k * g)) by (nonlinear_arith);
    vstd::arithmetic::div_mod::lemma_mod_multiples_basic(k as int, g as int);
    if k % 2 == 0 {
        let h = k / 2;
        assert(k * g == h * (2 * g)) by (nonlinear_arith)
            requires
                k == 2 * h,
        ;
        vstd::arithmetic::div_mod::lemma_mod_multiples_basic(h as int, (2 * g) as int);
    }
}

/// Of two integers that are equally near, the even one is taken.
pub proof fn law_ties_go_to_the_even_one(n: nat, d: nat, q: nat)
    requires
        d > 0,
        2 * n == (2 * q + 1) * d,
    ensures
        size::nearest(n, d) % 2 == 0,
        size::nearest(n, d) == q || size::nearest(n, d) == q + 1,
{
    let r = n - q * d;
    assert(2 * r == d) by (nonlinear_arith)
        requires
            2 * n == (2 * q + 1) * d,
            r == n - q * d,
    ;
    vstd::arithmetic::div_mod::lemma_fundamental_div_mod_converse(
        n as int,
        d as int,
        q as int,
        r,
    );
}

/// The numbers around one of 64 bits that have 53 significant bits are one apart up to 53 bits, and
/// twice as far with every bit more.
pub proof fn law_distances(b: nat)
    requires
        b <= u64::MAX,
    ensures
        b < size::gap(b, 1) * 0x20_0000_0000_0000,
        size::gap(b, 1) == 1 || 2 * b >= size::gap(b, 1) * 0x20_0000_0000_0000,
        b < 0x20_0000_0000_0000 ==> size::gap(b, 1) == 1,
{
    reveal_with_fuel(size::gap, 13);
}

} // verus!
