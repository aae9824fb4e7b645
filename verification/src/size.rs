//! Byte counts for people: a number with one decimal and a unit.

use crate::text;
use vstd::prelude::*;

verus! {

/// The integer nearest to `n / d`; of two that are equally near, the even one.
pub open spec fn nearest(n: nat, d: nat) -> nat {
    let q = n / d;
    let r = n % d;
    if 2 * r < d || (2 * r == d && q % 2 == 0) {
        q
    } else {
        q + 1
    }
}

/// The distance, at least `g`, between the numbers around `b` that have 53 significant bits.
pub open spec fn gap(b: nat, g: nat) -> nat
    decreases b - g,
{
    if g == 0 || b < g * 0x20_0000_0000_0000 {
        g
    } else {
        gap(b, 2 * g)
    }
}

/// `b` to 53 significant bits.
pub open spec fn rounded(b: nat) -> nat {
    nearest(b, gap(b, 1)) * gap(b, 1)
}

/// The powers of 1024.
pub open spec fn scale(i: nat) -> nat
    decreases i,
{
    if i == 0 {
        1
    } else {
        1024 * scale((i - 1) as nat)
    }
}

/// The largest unit, from unit `i` on and up to the last one, of which `v` holds at least one.
pub open spec fn unit_from(v: nat, i: nat) -> nat
    decreases 5 - i,
{
    if i < 5 && v >= scale(i + 1) {
        unit_from(v, i + 1)
    } else {
        i
    }
}

/// The names of the units.
pub open spec fn unit_name(i: nat) -> Seq<char> {
    if i == 0 {
        "B"@
    } else if i == 1 {
        "K"@
    } else if i == 2 {
        "M"@
    } else if i == 3 {
        "G"@
    } else if i == 4 {
        "T"@
    } else {
        "P"@
    }
}

/// `b` bytes: below 1024 the number itself, else to one decimal in the largest unit that fits.
pub open spec fn human_text(b: nat) -> Seq<char> {
    let v = rounded(b);
    let i = unit_from(v, 0);
    if i == 0 {
        text::decimal(b) + " "@ + unit_name(0)
    } else {
        let tenths = nearest(10 * v, scale(i));
        text::decimal(tenths / 10) + "."@ + text::decimal(tenths % 10) + " "@ + unit_name(i)
    }
}

fn nearest_of(n: u128, d: u128) -> (r: u128)
    requires
        0 < d <= 0x1_0000_0000_0000_0000,
        n <= 0x100_0000_0000_0000_0000,
    ensures
        r == nearest(n as nat, d as nat),
{
    let q: u128 = n / d;
    let r: u128 = n % d;
    proof {
        vstd::arithmetic::div_mod::lemma_mod_bound(n as int, d as int);
        vstd::arithmetic::div_mod::lemma_div_is_ordered_by_denominator(n as int, 1, d as int);
    }
    if 2 * r < d || (2 * r == d && q % 2 == 0) {
        q
    } else {
        q + 1
    }
}

fn push_unit(out: &mut String, i: u32)
    requires
        i <= 5,
    ensures
        final(out)@ == old(out)@ + unit_name(i as nat),
{
    if i == 0 {
        out.append("B");
    } else if i == 1 {
        out.append("K");
    } else if i == 2 {
        out.append("M");
    } else if i == 3 {
        out.append("G");
    } else if i == 4 {
        out.append("T");
    } else {
        out.append("P");
    }
}

/// `b` bytes as text.
pub fn human(b: u64) -> (r: String)
    ensures
        r@ == human_text(b as nat),
{
    let b128: u128 = b as u128;
    let mut g: u128 = 1;
    while b128 >= g * 0x20_0000_0000_0000
        invariant
            b128 == b,
            1 <= g <= 0x1000,
            gap(b as nat, g as nat) == gap(b as nat, 1),
        decreases 0x2000 - g,
    {
        g = 2 * g;
    }
    let m = nearest_of(b128, g);
    proof {
        assert(g as nat == gap(b as nat, 1));
        assert(b as nat / g as nat <= 0x1f_ffff_ffff_ffff) by (nonlinear_arith)
            requires
                b < g * 0x20_0000_0000_0000,
                g >= 1,
        ;
        assert(m * g <= 0x20_0000_0000_0000 * 0x1000) by (nonlinear_arith)
            requires
                m <= 0x20_0000_0000_0000,
                g <= 0x1000,
        ;
    }
    let v: u128 = m * g;
    let mut i: u32 = 0;
    let mut s: u128 = 1;
    proof {
        reveal_with_fuel(scale, 7);
    }
    while i < 5 && v >= s * 1024
        invariant
            i <= 5,
            v == rounded(b as nat),
            v <= 0x2_0000_0000_0000_0000,
            s == scale(i as nat),
            scale(0) == 1,
            scale(1) == 1024,
            scale(2) == 0x10_0000,
            scale(3) == 0x4000_0000,
            scale(4) == 0x100_0000_0000,
            scale(5) == 0x4_0000_0000_0000,
            unit_from(v as nat, i as nat) == unit_from(v as nat, 0),
        decreases 5 - i,
    {
        s = s * 1024;
        i = i + 1;
    }
    let mut out = String::new();
    if i == 0 {
        text::push_decimal(&mut out, b);
        out.append(" ");
        push_unit(&mut out, 0);
        assert(out@ == human_text(b as nat));
    } else {
        let tenths = nearest_of(10 * v, s);
        proof {
            assert(10 * v / s as int <= 10 * v) by (nonlinear_arith)
                requires
                    s >= 1,
                    v >= 0,
            ;
            assert(tenths / 10 <= u64::MAX) by (nonlinear_arith)
                requires
                    tenths <= 10 * v / s as int + 1,
                    s >= 1024,
                    v <= 0x2_0000_0000_0000_0000,
            ;
        }
        text::push_decimal(&mut out, (tenths / 10) as u64);
        out.append(".");
        text::push_decimal(&mut out, (tenths % 10) as u64);
        out.append(" ");
        push_unit(&mut out, i);
        assert(out@ == human_text(b as nat));
    }
    out
}

} // verus!
