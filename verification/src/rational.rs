//! Exact integer arithmetic used by the point model: greatest common
//! divisors for keeping coordinates in lowest terms, and exact comparison
//! of non-negative fractions by cross multiplication.

use vstd::prelude::*;
use vstd::arithmetic::div_mod::{
    lemma_fundamental_div_mod, lemma_fundamental_div_mod_converse_div,
    lemma_fundamental_div_mod_converse_mod, lemma_mod_division_less_than_divisor,
    lemma_mod_multiples_basic, lemma_mod_self_0,
};

verus! {

/// Greatest common divisor in Euclid's form.
pub open spec fn gcd(a: nat, b: nat) -> nat
    decreases b,
{
    if b == 0 {
        a
    } else {
        gcd(b, a % b)
    }
}

/// Greatest common divisor of the four components of a fraction triple
/// (three numerators and the shared denominator).
pub open spec fn gcd4(x: nat, y: nat, z: nat, d: nat) -> nat {
    gcd(gcd(x, y), gcd(z, d))
}

/// A multiple of a divisor of `g` is itself divisible by `g`.
proof fn lemma_multiple_divisible(k: int, b: int, g: int)
    requires
        g > 0,
        b % g == 0,
    ensures
        (k * b) % g == 0,
{
    lemma_fundamental_div_mod(b, g);
    assert(b == g * (b / g));
    assert(k * b == (k * (b / g)) * g) by (nonlinear_arith)
        requires
            b == g * (b / g),
    ;
    lemma_mod_multiples_basic(k * (b / g), g);
}

/// The gcd is positive and divides both of its arguments, as long as at
/// least one of them is positive.
pub proof fn lemma_gcd_divides(a: nat, b: nat)
    requires
        a > 0 || b > 0,
    ensures
        gcd(a, b) > 0,
        a % gcd(a, b) == 0,
        b % gcd(a, b) == 0,
    decreases b,
{
    if b == 0 {
        lemma_mod_self_0(a as int);
    } else {
        lemma_mod_division_less_than_divisor(a as int, b as int);
        let r = (a % b) as nat;
        lemma_gcd_divides(b, r);
        let g = gcd(b, r);
        lemma_fundamental_div_mod(a as int, b as int);
        assert(a as int == (a as int / b as int) * b + r) by {
            vstd::arithmetic::mul::lemma_mul_is_commutative(b as int, a as int / b as int);
        }
        lemma_multiple_divisible(a as int / b as int, b as int, g as int);
        let m = (a as int / b as int) * b;
        lemma_fundamental_div_mod(m, g as int);
        assert(m == g * (m / g as int));
        lemma_fundamental_div_mod(r as int, g as int);
        assert(r == g * (r as int / g as int));
        assert(a as int == (m / g as int + r as int / g as int) * g) by (nonlinear_arith)
            requires
                a as int == m + r,
                m == g * (m / g as int),
                r == g * (r as int / g as int),
        ;
        lemma_fundamental_div_mod_converse_mod(
            a as int,
            g as int,
            m / g as int + r as int / g as int,
            0,
        );
    }
}

/// A positive number is at least as large as any of its divisors.
pub proof fn lemma_divisor_le(d: nat, n: nat)
    requires
        n > 0,
        d > 0,
        n % d == 0,
    ensures
        d <= n,
        n / d >= 1,
{
    lemma_fundamental_div_mod(n as int, d as int);
    assert(n == d * (n / d));
    if n / d == 0 {
        assert(n == 0) by (nonlinear_arith)
            requires
                n == d * (n / d),
                n / d == 0,
        ;
    }
    assert(d <= n) by (nonlinear_arith)
        requires
            n == d * (n / d),
            n / d >= 1,
            d > 0,
    ;
}

/// Dividing both arguments by a common divisor divides the gcd by it too.
pub proof fn lemma_gcd_quotients(a: nat, b: nat, g: nat)
    requires
        g > 0,
        a % g == 0,
        b % g == 0,
    ensures
        gcd(a / g, b / g) == gcd(a, b) / g,
    decreases b,
{
    if b == 0 {
        assert(b / g == 0) by {
            lemma_fundamental_div_mod(0, g as int);
            lemma_fundamental_div_mod_converse_div(0, g as int, 0, 0);
        }
    } else {
        lemma_divisor_le(g, b);
        let q = a as int / b as int;
        let r = (a % b) as nat;
        lemma_mod_division_less_than_divisor(a as int, b as int);
        lemma_fundamental_div_mod(a as int, b as int);
        assert(a as int == q * b + r) by {
            vstd::arithmetic::mul::lemma_mul_is_commutative(b as int, q);
        }
        // The remainder is also a multiple of g.
        lemma_multiple_divisible(q, b as int, g as int);
        let m = q * (b as int);
        lemma_fundamental_div_mod(m, g as int);
        lemma_fundamental_div_mod(a as int, g as int);
        lemma_fundamental_div_mod(b as int, g as int);
        let a1 = a as int / g as int;
        let b1 = b as int / g as int;
        assert(r as int == (a1 - m / g as int) * g + 0) by (nonlinear_arith)
            requires
                a as int == m + r,
                a as int == g * a1,
                m == g * (m / g as int),
        ;
        lemma_fundamental_div_mod_converse_mod(r as int, g as int, a1 - m / g as int, 0);
        lemma_fundamental_div_mod_converse_div(r as int, g as int, a1 - m / g as int, 0);
        lemma_fundamental_div_mod(r as int, g as int);
        let r1 = r as int / g as int;
        assert(a as int == g * a1 && b as int == g * b1 && r as int == g * r1 && m == g * (m
            / g as int));
        // Cancel g in the division identity to land in the quotient world.
        assert(a1 == q * b1 + (m / g as int + r1 - q * b1)) by (nonlinear_arith)
            requires
                a as int == g * a1,
                a as int == m + r,
                m == g * (m / g as int),
                r == g * r1,
                g > 0,
        ;
        assert(m / g as int == q * b1) by (nonlinear_arith)
            requires
                m == q * (b as int),
                b as int == g * b1,
                m == g * (m / g as int),
                g > 0,
        ;
        assert(r1 < b1) by (nonlinear_arith)
            requires
                r < b,
                r as int == g * r1,
                b as int == g * b1,
                g > 0,
        ;
        assert(r1 >= 0) by (nonlinear_arith)
            requires
                r as int == g * r1,
                r >= 0,
                g > 0,
        ;
        lemma_fundamental_div_mod_converse_mod(a1, b1, q, r1);
        lemma_fundamental_div_mod_converse_div(a1, b1, q, r1);
        assert((a / g) % (b / g) == r / g);
        lemma_gcd_quotients(b, r, g);
    }
}

/// gcd(a, 1) is always 1.
pub proof fn lemma_gcd_one(a: nat)
    ensures
        gcd(a, 1) == 1,
{
    assert(a % 1 == 0) by {
        lemma_mod_multiples_basic(a as int, 1int);
    }
    assert(gcd(a, 1) == gcd(1, 0));
}

/// The four-way gcd is positive and divides every component, whenever the
/// denominator component is positive.
pub proof fn lemma_gcd4_divides(x: nat, y: nat, z: nat, d: nat)
    requires
        d > 0,
    ensures
        gcd4(x, y, z, d) > 0,
        x % gcd4(x, y, z, d) == 0,
        y % gcd4(x, y, z, d) == 0,
        z % gcd4(x, y, z, d) == 0,
        d % gcd4(x, y, z, d) == 0,
        gcd4(x, y, z, d) <= d,
{
    let gxy = gcd(x, y);
    let gzd = gcd(z, d);
    let g = gcd(gxy, gzd);
    lemma_gcd_divides(z, d);
    lemma_gcd_divides(gxy, gzd);
    lemma_divides_transitive(g, gzd, z);
    lemma_divides_transitive(g, gzd, d);
    if x > 0 || y > 0 {
        lemma_gcd_divides(x, y);
        // Divisibility is transitive: g | gxy | x.
        lemma_divides_transitive(g, gxy, x);
        lemma_divides_transitive(g, gxy, y);
    } else {
        assert(x % g == 0 && y % g == 0) by {
            lemma_mod_multiples_basic(0, g as int);
        }
    }
    lemma_divisor_le(g, d);
}

/// Divisibility is transitive.
pub proof fn lemma_divides_transitive(g: nat, m: nat, n: nat)
    requires
        g > 0,
        m > 0,
        m % g == 0,
        n % m == 0,
    ensures
        n % g == 0,
{
    lemma_fundamental_div_mod(n as int, m as int);
    assert(n as int == (n as int / m as int) * m) by {
        vstd::arithmetic::mul::lemma_mul_is_commutative(m as int, n as int / m as int);
    }
    lemma_multiple_divisible(n as int / m as int, m as int, g as int);
}

/// Reducing all four components by their gcd leaves components with gcd 1.
pub proof fn lemma_gcd4_reduced(x: nat, y: nat, z: nat, d: nat)
    requires
        d > 0,
    ensures
        gcd4(
            x / gcd4(x, y, z, d),
            y / gcd4(x, y, z, d),
            z / gcd4(x, y, z, d),
            d / gcd4(x, y, z, d),
        ) == 1,
{
    let g = gcd4(x, y, z, d);
    lemma_gcd4_divides(x, y, z, d);
    let gxy = gcd(x, y);
    let gzd = gcd(z, d);
    lemma_gcd_divides(z, d);
    lemma_gcd_divides(gxy, gzd);
    lemma_gcd_quotients(x, y, g);
    lemma_gcd_quotients(z, d, g);
    lemma_gcd_quotients(gxy, gzd, g);
    // gxy % g == 0 and gzd % g == 0 are needed by the quotient lemmas above.
    assert(gcd(gxy / g, gzd / g) == gcd(gxy, gzd) / g);
    assert(gcd(gxy, gzd) == g);
    lemma_fundamental_div_mod(g as int, g as int);
    lemma_fundamental_div_mod_converse_div(g as int, g as int, 1, 0);
}

/// Quotient of a bounded multiple stays bounded: if x <= c * d and g
/// divides both x and d, then x/g <= c * (d/g).
pub proof fn lemma_quotient_bound(x: nat, c: nat, d: nat, g: nat)
    requires
        g > 0,
        x % g == 0,
        d % g == 0,
        x <= c * d,
    ensures
        x / g <= c * (d / g),
{
    lemma_fundamental_div_mod(x as int, g as int);
    lemma_fundamental_div_mod(d as int, g as int);
    assert(x / g <= c * (d / g)) by (nonlinear_arith)
        requires
            x as int == g * (x as int / g as int),
            d as int == g * (d as int / g as int),
            x <= c * d,
            g > 0,
            x / g == x as int / g as int,
            d / g == d as int / g as int,
    ;
}

/// Euclid's algorithm.
pub fn gcd_u64(a: u64, b: u64) -> (g: u64)
    ensures
        g == gcd(a as nat, b as nat),
{
    let mut x = a;
    let mut y = b;
    while y != 0
        invariant
            gcd(x as nat, y as nat) == gcd(a as nat, b as nat),
        decreases y,
    {
        let r = x % y;
        x = y;
        y = r;
    }
    x
}

/// Greatest common divisor of four numbers at once.
pub fn gcd4_u64(x: u64, y: u64, z: u64, d: u64) -> (g: u64)
    ensures
        g == gcd4(x as nat, y as nat, z as nat, d as nat),
{
    let gxy = gcd_u64(x, y);
    let gzd = gcd_u64(z, d);
    gcd_u64(gxy, gzd)
}

} // verus!
