//! Bounded exact rational coordinates.
//!
//! A coordinate is a rational number held as a reduced numerator/denominator
//! pair of machine integers. The mathematical model of a value is [`Frac`],
//! an unbounded integer pair; two fractions stand for the same rational
//! exactly when they cross-multiply equally ([`feq`]).

use vstd::arithmetic::div_mod::*;
use vstd::prelude::*;

verus! {

/// Largest numerator magnitude a coordinate may hold.
pub const NUM_MAX: i64 = 131072;

/// Largest denominator a coordinate may hold.
pub const DEN_MAX: i64 = 128;

/// Mathematical model of a rational number: a numerator and a positive
/// denominator, both unbounded integers.
pub ghost struct Frac {
    pub n: int,
    pub d: int,
}

/// A fraction is well formed when its denominator is positive.
pub open spec fn fwf(a: Frac) -> bool {
    a.d > 0
}

/// Two fractions stand for the same rational.
pub open spec fn feq(a: Frac, b: Frac) -> bool {
    a.n * b.d == b.n * a.d
}

/// `a <= b` as rationals (for well-formed fractions).
pub open spec fn fle(a: Frac, b: Frac) -> bool {
    a.n * b.d <= b.n * a.d
}

/// `a < b` as rationals (for well-formed fractions).
pub open spec fn flt(a: Frac, b: Frac) -> bool {
    a.n * b.d < b.n * a.d
}

/// Sum of two fractions.
pub open spec fn fadd(a: Frac, b: Frac) -> Frac {
    Frac { n: a.n * b.d + b.n * a.d, d: a.d * b.d }
}

/// Difference of two fractions.
pub open spec fn fsub(a: Frac, b: Frac) -> Frac {
    Frac { n: a.n * b.d - b.n * a.d, d: a.d * b.d }
}

/// Product of two fractions.
pub open spec fn fmul(a: Frac, b: Frac) -> Frac {
    Frac { n: a.n * b.n, d: a.d * b.d }
}

/// Quotient of two fractions; the sign moves into the numerator so the
/// denominator stays positive whenever `b.n != 0`.
pub open spec fn fdiv(a: Frac, b: Frac) -> Frac {
    if b.n >= 0 {
        Frac { n: a.n * b.d, d: a.d * b.n }
    } else {
        Frac { n: -(a.n * b.d), d: a.d * -b.n }
    }
}

/// Negation of a fraction.
pub open spec fn fneg(a: Frac) -> Frac {
    Frac { n: -a.n, d: a.d }
}

/// Absolute value of an integer.
pub open spec fn iabs(x: int) -> int {
    if x < 0 {
        -x
    } else {
        x
    }
}

/// Greatest common divisor by Euclid's recursion.
pub open spec fn gcd(a: nat, b: nat) -> nat
    decreases b,
{
    if b == 0 {
        a
    } else {
        gcd(b, a % b)
    }
}

/// The reduced form of a fraction: both parts divided by their greatest
/// common divisor.
pub open spec fn canon(a: Frac) -> Frac {
    let g = gcd(iabs(a.n) as nat, a.d as nat) as int;
    Frac { n: a.n / g, d: a.d / g }
}

/// Whether a fraction's reduced form fits within the coordinate limits.
pub open spec fn representable(a: Frac) -> bool {
    &&& -NUM_MAX <= canon(a).n <= NUM_MAX
    &&& canon(a).d <= DEN_MAX
}

/// A well-formed fraction stands for a positive rational exactly when
/// its numerator is positive.
pub open spec fn fpos(a: Frac) -> bool {
    a.n > 0
}

/// A well-formed fraction within the coordinate limits as a value:
/// between the smallest and largest whole-number coordinates.
pub open spec fn in_range(a: Frac) -> bool {
    &&& fwf(a)
    &&& a.n <= NUM_MAX * a.d
    &&& -(NUM_MAX * a.d) <= a.n
}

/// `d` divides `x` evenly.
pub open spec fn divides(d: int, x: int) -> bool {
    x % d == 0
}

proof fn lemma_gcd_pos(a: nat, b: nat)
    requires
        a > 0 || b > 0,
    ensures
        gcd(a, b) > 0,
    decreases b,
{
    if b == 0 {
    } else {
        lemma_mod_division_less_than_divisor(a as int, b as int);
        lemma_gcd_pos(b, a % b);
    }
}

/// A multiple of `c` plus another multiple of `c` is a multiple of `c`.
proof fn lemma_divides_combo(c: int, x: int, y: int, k: int)
    requires
        c > 0,
        divides(c, x),
        divides(c, y),
    ensures
        divides(c, k * x + y),
{
    let p = x / c;
    let q = y / c;
    lemma_fundamental_div_mod(x, c);
    lemma_fundamental_div_mod(y, c);
    assert(k * x + y == (k * p + q) * c) by (nonlinear_arith)
        requires
            x == c * p,
            y == c * q,
    ;
    lemma_mod_multiples_basic(k * p + q, c);
}

/// Euclid's recursion yields a common divisor of both arguments.
proof fn lemma_gcd_divides(a: nat, b: nat)
    requires
        a > 0 || b > 0,
    ensures
        divides(gcd(a, b) as int, a as int),
        divides(gcd(a, b) as int, b as int),
    decreases b,
{
    lemma_gcd_pos(a, b);
    if b == 0 {
        let g = gcd(a, b) as int;
        lemma_mod_self_0(g);
        lemma_small_mod(0, a);
    } else {
        lemma_mod_division_less_than_divisor(a as int, b as int);
        lemma_gcd_divides(b, a % b);
        let g = gcd(a, b) as int;
        lemma_fundamental_div_mod(a as int, b as int);
        lemma_divides_combo(g, b as int, (a % b) as int, a as int / b as int);
    }
}

/// Any common divisor of both arguments divides their gcd.
proof fn lemma_gcd_greatest(a: nat, b: nat, c: int)
    requires
        c > 0,
        divides(c, a as int),
        divides(c, b as int),
    ensures
        divides(c, gcd(a, b) as int),
    decreases b,
{
    if b == 0 {
    } else {
        lemma_mod_division_less_than_divisor(a as int, b as int);
        lemma_fundamental_div_mod(a as int, b as int);
        lemma_divides_combo(c, b as int, a as int, -(a as int / b as int));
        assert(-(a as int / b as int) * b + a == a % b) by (nonlinear_arith)
            requires
                a as int == b as int * (a as int / b as int) + a as int % b as int,
        ;
        lemma_gcd_greatest(b, a % b, c);
    }
}

/// Cancelling a positive common factor on both sides of an equality.
proof fn lemma_cancel_factor(g: int, x: int, y: int)
    by (nonlinear_arith)
    requires
        g > 0,
        g * x == g * y,
    ensures
        x == y,
{
}

/// A common factor moves through Euclid's recursion unchanged.
proof fn lemma_gcd_scale(k: nat, a: nat, b: nat)
    requires
        k > 0,
    ensures
        gcd(k * a, k * b) == k * gcd(a, b),
    decreases b,
{
    if b == 0 {
        assert(k * b == 0) by (nonlinear_arith)
            requires
                b == 0,
        ;
    } else {
        assert(k * b > 0) by (nonlinear_arith)
            requires
                k > 0,
                b > 0,
        ;
        lemma_truncate_middle(a as int, k as int, b as int);
        assert((k * a) % (k * b) == k * (a % b));
        lemma_mod_division_less_than_divisor(a as int, b as int);
        lemma_gcd_scale(k, b, a % b);
    }
}

/// The reduced form of a pair is coprime.
proof fn lemma_coprime_after_reduce(a: nat, b: nat)
    requires
        b > 0,
    ensures
        gcd(a / gcd(a, b), b / gcd(a, b)) == 1,
{
    let g = gcd(a, b);
    lemma_gcd_pos(a, b);
    lemma_gcd_divides(a, b);
    lemma_fundamental_div_mod(a as int, g as int);
    lemma_fundamental_div_mod(b as int, g as int);
    let qa = a / g;
    let qb = b / g;
    assert(a == g * qa && b == g * qb);
    lemma_gcd_scale(g, qa, qb);
    lemma_cancel_factor(g as int, gcd(qa, qb) as int, 1);
}

/// If `d` is coprime to `n` and divides `n * k`, it divides `k`.
proof fn lemma_coprime_divides(d: nat, n: nat, k: int)
    requires
        d > 0,
        gcd(n, d) == 1,
        divides(d as int, n * k),
    ensures
        divides(d as int, k),
{
    if k == 0 {
        lemma_small_mod(0, d);
    } else {
        let ka = iabs(k) as nat;
        assert(n * ka == iabs(n * k)) by (nonlinear_arith)
            requires
                ka == iabs(k),
        ;
        assert(divides(d as int, (n * ka) as int)) by {
            if k < 0 {
                lemma_fundamental_div_mod(n * k, d as int);
                let q = (n * k) / d as int;
                assert(n * k == d * q);
                assert(-(n * k) == d * -q) by (nonlinear_arith)
                    requires
                        n * k == d * q,
                ;
                lemma_mod_multiples_basic(-q, d as int);
                assert((-q * d) == d * -q) by (nonlinear_arith);
            }
        }
        lemma_gcd_scale(ka, n, d);
        assert(gcd(ka * n, ka * d) == ka) by {
            assert(ka * n == n * ka && ka * d == d * ka) by (nonlinear_arith);
            assert(ka * gcd(n, d) == ka) by (nonlinear_arith)
                requires
                    gcd(n, d) == 1,
            ;
        }
        assert(divides(d as int, (ka * n) as int)) by {
            assert(ka * n == n * ka) by (nonlinear_arith);
        }
        assert(divides(d as int, (ka * d) as int)) by {
            lemma_mod_multiples_basic(ka as int, d as int);
        }
        lemma_gcd_greatest(ka * n, ka * d, d as int);
        assert(divides(d as int, ka as int));
        if k < 0 {
            lemma_fundamental_div_mod(ka as int, d as int);
            let q = ka as int / d as int;
            assert(k == d * -q) by (nonlinear_arith)
                requires
                    ka == iabs(k),
                    k < 0,
                    ka as int == d * q + 0,
            ;
            lemma_mod_multiples_basic(-q, d as int);
            assert((-q * d) == d * -q) by (nonlinear_arith);
        }
    }
}

/// Positive integers that divide each other are equal.
proof fn lemma_divides_antisym(x: nat, y: nat)
    requires
        x > 0,
        y > 0,
        divides(x as int, y as int),
        divides(y as int, x as int),
    ensures
        x == y,
{
    lemma_fundamental_div_mod(y as int, x as int);
    lemma_fundamental_div_mod(x as int, y as int);
    let p = y as int / x as int;
    let q = x as int / y as int;
    assert(x == y) by (nonlinear_arith)
        requires
            x > 0,
            y > 0,
            y as int == x * p,
            x as int == y * q,
    ;
}

/// The canonical decomposition of a well-formed fraction: the reduced form
/// is well formed, stands for the same rational, is coprime, and reducing
/// again changes nothing.
pub(crate) proof fn lemma_canon_parts(a: Frac)
    requires
        fwf(a),
    ensures
        fwf(canon(a)),
        feq(canon(a), a),
        a.n == gcd(iabs(a.n) as nat, a.d as nat) * canon(a).n,
        a.d == gcd(iabs(a.n) as nat, a.d as nat) * canon(a).d,
        gcd(iabs(canon(a).n) as nat, canon(a).d as nat) == 1,
        canon(canon(a)) == canon(a),
        iabs(canon(a).n) <= iabs(a.n),
        canon(a).d <= a.d,
        iabs(canon(a).n) == iabs(a.n) / gcd(iabs(a.n) as nat, a.d as nat) as int,
        a.n >= 0 ==> canon(a).n >= 0,
        a.n < 0 ==> canon(a).n < 0,
{
    let na = iabs(a.n) as nat;
    let da = a.d as nat;
    let g = gcd(na, da);
    lemma_gcd_pos(na, da);
    lemma_gcd_divides(na, da);
    lemma_fundamental_div_mod(na as int, g as int);
    lemma_fundamental_div_mod(da as int, g as int);
    let qn = na as int / g as int;
    let qd = da as int / g as int;
    assert(na as int == g * qn && da as int == g * qd);
    assert(qn >= 0 && qd > 0) by (nonlinear_arith)
        requires
            g > 0,
            na as int == g * qn,
            da as int == g * qd,
            na >= 0,
            da > 0,
    ;
    assert(a.d / g as int == qd);
    if a.n >= 0 {
        assert(a.n / g as int == qn);
        assert(a.n == g * qn);
    } else {
        assert(a.n == g as int * -qn) by (nonlinear_arith)
            requires
                iabs(a.n) == g * qn,
                a.n < 0,
        ;
        assert(a.n / g as int == (g as int * -qn) / g as int);
        lemma_div_multiples_vanish(-qn, g as int);
        assert(a.n / g as int == -qn);
    }
    let c = canon(a);
    assert(feq(c, a)) by (nonlinear_arith)
        requires
            a.n == g * c.n,
            a.d == g * c.d,
    ;
    assert(iabs(c.n) == qn);
    lemma_coprime_after_reduce(na, da);
    assert(gcd(iabs(c.n) as nat, c.d as nat) == 1);
    assert(canon(c) == c) by {
        lemma_div_basics(c.n);
        lemma_div_basics(c.d);
    }
    assert(qn <= na && qd <= da as int) by (nonlinear_arith)
        requires
            g >= 1,
            qn >= 0,
            qd > 0,
            na as int == g * qn,
            da as int == g * qd,
    ;
    if a.n < 0 {
        assert(qn > 0) by (nonlinear_arith)
            requires
                g > 0,
                na > 0,
                na as int == g * qn,
        ;
    }
}

/// Well-formed fractions standing for the same rational have the same
/// reduced form: the canonical representation is unique.
pub(crate) proof fn lemma_canon_unique(a: Frac, b: Frac)
    requires
        fwf(a),
        fwf(b),
        feq(a, b),
    ensures
        canon(a) == canon(b),
{
    lemma_canon_parts(a);
    lemma_canon_parts(b);
    let x = canon(a);
    let y = canon(b);
    assert(feq(x, y)) by (nonlinear_arith)
        requires
            feq(x, a),
            feq(a, b),
            feq(y, b),
            a.d > 0,
            b.d > 0,
            x.d > 0,
            y.d > 0,
    ;
    let xd = x.d as nat;
    let yd = y.d as nat;
    // Each reduced denominator divides the other.
    assert(divides(xd as int, iabs(x.n) * y.d)) by {
        assert(x.n * y.d == y.n * x.d);
        if x.n >= 0 {
            assert(iabs(x.n) * y.d == y.n * x.d);
            lemma_mod_multiples_basic(y.n, x.d);
            assert(y.n * x.d == x.d as int * y.n) by (nonlinear_arith);
            assert((y.n * xd as int) % xd as int == 0);
        } else {
            assert(iabs(x.n) * y.d == -(y.n * x.d)) by (nonlinear_arith)
                requires
                    x.n * y.d == y.n * x.d,
                    x.n < 0,
            ;
            lemma_mod_multiples_basic(-y.n, x.d);
            assert(-y.n * x.d == -(y.n * x.d)) by (nonlinear_arith);
        }
    }
    assert(gcd(iabs(x.n) as nat, xd) == 1);
    lemma_coprime_divides(xd, iabs(x.n) as nat, y.d);
    assert(divides(yd as int, iabs(y.n) * x.d)) by {
        assert(y.n * x.d == x.n * y.d) by (nonlinear_arith)
            requires
                feq(x, y),
        ;
        if y.n >= 0 {
            assert(iabs(y.n) * x.d == x.n * y.d);
            lemma_mod_multiples_basic(x.n, y.d);
            assert(x.n * y.d == y.d as int * x.n) by (nonlinear_arith);
        } else {
            assert(iabs(y.n) * x.d == -(x.n * y.d)) by (nonlinear_arith)
                requires
                    y.n * x.d == x.n * y.d,
                    y.n < 0,
            ;
            lemma_mod_multiples_basic(-x.n, y.d);
            assert(-x.n * y.d == -(x.n * y.d)) by (nonlinear_arith);
        }
    }
    lemma_coprime_divides(yd, iabs(y.n) as nat, x.d);
    lemma_divides_antisym(xd, yd);
    assert(x.n == y.n) by (nonlinear_arith)
        requires
            feq(x, y),
            x.d == y.d,
            x.d > 0,
    ;
}

/// Reduced forms, and so representability, depend only on the rational a
/// fraction stands for, not on the pair chosen to write it down.
pub(crate) proof fn lemma_representable_same(a: Frac, b: Frac)
    requires
        fwf(a),
        fwf(b),
        feq(a, b),
    ensures
        representable(a) == representable(b),
{
    lemma_canon_unique(a, b);
}

/// Negating a fraction negates its reduced form.
pub(crate) proof fn lemma_canon_neg(a: Frac)
    requires
        fwf(a),
    ensures
        canon(fneg(a)) == fneg(canon(a)),
{
    lemma_canon_parts(a);
    let g = gcd(iabs(a.n) as nat, a.d as nat) as int;
    let c = canon(a);
    assert(iabs(-a.n) == iabs(a.n));
    assert(-a.n == g * -c.n) by (nonlinear_arith)
        requires
            a.n == g * c.n,
    ;
    lemma_gcd_pos(iabs(a.n) as nat, a.d as nat);
    lemma_div_multiples_vanish(-c.n, g);
    assert(canon(fneg(a)).n == -c.n);
    assert(canon(fneg(a)).d == c.d);
}

/// Largest raw numerator or denominator magnitude the reducing
/// constructor accepts; intermediate computations stay within it.
pub(crate) const RAW_MAX: i128 = 85070591730234615865843651857942052864;

fn gcd_u128(a: u128, b: u128) -> (g: u128)
    ensures
        g as nat == gcd(a as nat, b as nat),
{
    let mut x = a;
    let mut y = b;
    while y != 0
        invariant
            gcd(x as nat, y as nat) == gcd(a as nat, b as nat),
        decreases y,
    {
        let t = x % y;
        x = y;
        y = t;
    }
    x
}

/// An exact rational coordinate: a reduced fraction with numerator
/// magnitude at most [`NUM_MAX`] and denominator at most [`DEN_MAX`].
#[derive(Clone, Copy, Debug)]
pub struct Rat {
    n: i64,
    d: i64,
}

impl View for Rat {
    type V = Frac;

    closed spec fn view(&self) -> Frac {
        Frac { n: self.n as int, d: self.d as int }
    }
}

impl Rat {
    /// Every coordinate is a reduced fraction within the coordinate
    /// limits; the verifier enforces this on every value of the type.
    #[verifier::type_invariant]
    pub closed spec fn inv(self) -> bool {
        &&& 1 <= self.d <= DEN_MAX
        &&& -NUM_MAX <= self.n <= NUM_MAX
        &&& self@ == canon(self@)
    }

    /// What the type invariant says of a coordinate's model.
    pub proof fn lemma_wf(self)
        requires
            self.inv(),
        ensures
            fwf(self@),
            self@ == canon(self@),
            -NUM_MAX <= self@.n <= NUM_MAX,
            1 <= self@.d <= DEN_MAX,
            in_range(self@),
    {
        assert(NUM_MAX * 1 <= NUM_MAX * self@.d && -(NUM_MAX * self@.d) <= -(NUM_MAX * 1))
            by (nonlinear_arith)
            requires
                1 <= self@.d,
        ;
    }

    /// Build a coordinate from a raw numerator/denominator pair held in
    /// wide words, reducing it; reports nothing when the reduced form
    /// exceeds the coordinate limits.
    pub(crate) fn from_i128(n: i128, d: i128) -> (r: Option<Rat>)
        requires
            1 <= d <= RAW_MAX,
            -RAW_MAX <= n <= RAW_MAX,
        ensures
            r is Some <==> representable(Frac { n: n as int, d: d as int }),
            r matches Some(q) ==> q@ == canon(Frac { n: n as int, d: d as int }),
    {
        let ghost f = Frac { n: n as int, d: d as int };
        let neg = n < 0;
        let na: u128 = if neg {
            (-n) as u128
        } else {
            n as u128
        };
        let da: u128 = d as u128;
        proof {
            assert(na as nat == iabs(f.n));
            lemma_canon_parts(f);
            lemma_gcd_pos(na as nat, da as nat);
        }
        let g = gcd_u128(na, da);
        let nr = na / g;
        let dr = da / g;
        proof {
            assert(nr as int == iabs(f.n) / gcd(iabs(f.n) as nat, f.d as nat) as int);
            assert(dr as int == canon(f).d);
            assert(nr as int == iabs(canon(f).n));
        }
        if nr <= NUM_MAX as u128 && dr <= DEN_MAX as u128 {
            let q = if neg {
                Rat { n: -(nr as i64), d: dr as i64 }
            } else {
                Rat { n: nr as i64, d: dr as i64 }
            };
            proof {
                assert(q@ == canon(f));
                lemma_canon_parts(f);
                assert(q.inv());
            }
            Some(q)
        } else {
            proof {
                assert(!representable(f));
            }
            None
        }
    }

    /// Build a coordinate from a numerator and a denominator; the sign
    /// moves to the numerator, the pair is reduced, and `None` reports a
    /// zero denominator or a reduced form beyond the coordinate limits.
    pub fn new(n: i64, d: i64) -> (r: Option<Rat>)
        ensures
            d == 0 ==> r is None,
            d != 0 ==> {
                let f = if d < 0 {
                    Frac { n: -n as int, d: -d as int }
                } else {
                    Frac { n: n as int, d: d as int }
                };
                &&& (r is Some <==> representable(f))
                &&& (r matches Some(q) ==> q@ == canon(f))
            },
    {
        if d == 0 {
            None
        } else if d < 0 {
            Self::from_i128(-(n as i128), -(d as i128))
        } else {
            Self::from_i128(n as i128, d as i128)
        }
    }

    /// Build a whole-number coordinate.
    pub fn from_int(n: i64) -> (r: Rat)
        requires
            -NUM_MAX <= n <= NUM_MAX,
        ensures
            r@ == (Frac { n: n as int, d: 1 }),
    {
        proof {
            let f = Frac { n: n as int, d: 1 };
            lemma_canon_parts(f);
            assert(canon(f).d == 1);
            assert(iabs(canon(f).n) == iabs(f.n)) by (nonlinear_arith)
                requires
                    f.n == gcd(iabs(f.n) as nat, 1nat) * canon(f).n,
                    1 == gcd(iabs(f.n) as nat, 1nat) * canon(f).d,
                    canon(f).d == 1,
            ;
            assert(canon(f) == f);
        }
        Rat { n, d: 1 }
    }

    /// The stored reduced numerator and denominator, with the bounds the
    /// type invariant grants.
    pub(crate) fn parts(self) -> (r: (i64, i64))
        ensures
            r.0 as int == self@.n,
            r.1 as int == self@.d,
            -NUM_MAX <= r.0 <= NUM_MAX,
            1 <= r.1 <= DEN_MAX,
            self@ == canon(self@),
    {
        proof {
            use_type_invariant(self);
        }
        (self.n, self.d)
    }

    /// The reduced numerator of the coordinate.
    pub fn numer(self) -> (n: i64)
        ensures
            n as int == self@.n,
            -NUM_MAX <= n <= NUM_MAX,
    {
        proof {
            use_type_invariant(self);
        }
        self.n
    }

    /// The reduced denominator of the coordinate, always positive.
    pub fn denom(self) -> (d: i64)
        ensures
            d as int == self@.d,
            1 <= d <= DEN_MAX,
    {
        proof {
            use_type_invariant(self);
        }
        self.d
    }

    /// `self <= rhs` as rationals.
    pub fn le(self, rhs: Rat) -> (r: bool)
        ensures
            r == fle(self@, rhs@),
    {
        proof {
            use_type_invariant(self);
            use_type_invariant(rhs);
            lemma_mul_abs_bound(self.n as int, rhs.d as int, NUM_MAX as int, DEN_MAX as int);
            lemma_mul_abs_bound(rhs.n as int, self.d as int, NUM_MAX as int, DEN_MAX as int);
        }
        (self.n as i128) * (rhs.d as i128) <= (rhs.n as i128) * (self.d as i128)
    }

    /// `self < rhs` as rationals.
    pub fn lt(self, rhs: Rat) -> (r: bool)
        ensures
            r == flt(self@, rhs@),
    {
        proof {
            use_type_invariant(self);
            use_type_invariant(rhs);
            lemma_mul_abs_bound(self.n as int, rhs.d as int, NUM_MAX as int, DEN_MAX as int);
            lemma_mul_abs_bound(rhs.n as int, self.d as int, NUM_MAX as int, DEN_MAX as int);
        }
        (self.n as i128) * (rhs.d as i128) < (rhs.n as i128) * (self.d as i128)
    }

    /// The smaller of two coordinates.
    pub fn min(self, rhs: Rat) -> (r: Rat)
        ensures
            r == if fle(self@, rhs@) {
                self
            } else {
                rhs
            },
    {
        if self.le(rhs) {
            self
        } else {
            rhs
        }
    }

    /// The larger of two coordinates.
    pub fn max(self, rhs: Rat) -> (r: Rat)
        ensures
            r == if fle(self@, rhs@) {
                rhs
            } else {
                self
            },
    {
        if self.le(rhs) {
            rhs
        } else {
            self
        }
    }

    /// Negation; exact for every coordinate.
    pub fn neg(self) -> (r: Rat)
        ensures
            r@ == fneg(self@),
    {
        proof {
            use_type_invariant(self);
            lemma_canon_neg(self@);
        }
        let q = Rat { n: -self.n, d: self.d };
        proof {
            assert(q.inv());
        }
        q
    }

    /// Sum; `None` when the reduced result exceeds the coordinate limits.
    pub fn add(self, rhs: Rat) -> (r: Option<Rat>)
        ensures
            r is Some <==> representable(fadd(self@, rhs@)),
            r matches Some(q) ==> q@ == canon(fadd(self@, rhs@)),
    {
        proof {
            use_type_invariant(self);
            use_type_invariant(rhs);
            lemma_mul_abs_bound(self.n as int, rhs.d as int, NUM_MAX as int, DEN_MAX as int);
            lemma_mul_abs_bound(rhs.n as int, self.d as int, NUM_MAX as int, DEN_MAX as int);
            lemma_mul_abs_bound(self.d as int, rhs.d as int, DEN_MAX as int, DEN_MAX as int);
            lemma_mul_pos_range(self.d as int, rhs.d as int, DEN_MAX as int, DEN_MAX as int);
        }
        let n = (self.n as i128) * (rhs.d as i128) + (rhs.n as i128) * (self.d as i128);
        let d = (self.d as i128) * (rhs.d as i128);
        Self::from_i128(n, d)
    }

    /// Difference; `None` when the reduced result exceeds the coordinate
    /// limits.
    pub fn sub(self, rhs: Rat) -> (r: Option<Rat>)
        ensures
            r is Some <==> representable(fsub(self@, rhs@)),
            r matches Some(q) ==> q@ == canon(fsub(self@, rhs@)),
    {
        proof {
            use_type_invariant(self);
            use_type_invariant(rhs);
            lemma_mul_abs_bound(self.n as int, rhs.d as int, NUM_MAX as int, DEN_MAX as int);
            lemma_mul_abs_bound(rhs.n as int, self.d as int, NUM_MAX as int, DEN_MAX as int);
            lemma_mul_abs_bound(self.d as int, rhs.d as int, DEN_MAX as int, DEN_MAX as int);
            lemma_mul_pos_range(self.d as int, rhs.d as int, DEN_MAX as int, DEN_MAX as int);
        }
        let n = (self.n as i128) * (rhs.d as i128) - (rhs.n as i128) * (self.d as i128);
        let d = (self.d as i128) * (rhs.d as i128);
        Self::from_i128(n, d)
    }

    /// Product; `None` when the reduced result exceeds the coordinate
    /// limits.
    pub fn mul(self, rhs: Rat) -> (r: Option<Rat>)
        ensures
            r is Some <==> representable(fmul(self@, rhs@)),
            r matches Some(q) ==> q@ == canon(fmul(self@, rhs@)),
    {
        proof {
            use_type_invariant(self);
            use_type_invariant(rhs);
            lemma_mul_abs_bound(self.n as int, rhs.n as int, NUM_MAX as int, NUM_MAX as int);
            lemma_mul_abs_bound(self.d as int, rhs.d as int, DEN_MAX as int, DEN_MAX as int);
            lemma_mul_pos_range(self.d as int, rhs.d as int, DEN_MAX as int, DEN_MAX as int);
        }
        let n = (self.n as i128) * (rhs.n as i128);
        let d = (self.d as i128) * (rhs.d as i128);
        Self::from_i128(n, d)
    }

    /// Quotient; the divisor must not be zero, and `None` reports a
    /// reduced result beyond the coordinate limits.
    pub fn div(self, rhs: Rat) -> (r: Option<Rat>)
        requires
            rhs@.n != 0,
        ensures
            r is Some <==> representable(fdiv(self@, rhs@)),
            r matches Some(q) ==> q@ == canon(fdiv(self@, rhs@)),
    {
        proof {
            use_type_invariant(self);
            use_type_invariant(rhs);
            lemma_mul_abs_bound(self.n as int, rhs.d as int, NUM_MAX as int, DEN_MAX as int);
            lemma_mul_abs_bound(self.d as int, rhs.n as int, DEN_MAX as int, NUM_MAX as int);
        }
        let n = (self.n as i128) * (rhs.d as i128);
        let d = (self.d as i128) * (rhs.n as i128);
        if rhs.n >= 0 {
            proof {
                lemma_mul_pos_range(self.d as int, rhs.n as int, DEN_MAX as int, NUM_MAX as int);
            }
            Self::from_i128(n, d)
        } else {
            proof {
                lemma_mul_pos_range(self.d as int, -rhs.n as int, DEN_MAX as int, NUM_MAX as int);
                assert(self.d as int * -(rhs.n as int) == -(self.d as int * rhs.n as int))
                    by (nonlinear_arith);
            }
            Self::from_i128(-n, -d)
        }
    }
}

/// The rational order is transitive.
pub proof fn lemma_fle_trans(a: Frac, b: Frac, c: Frac)
    by (nonlinear_arith)
    requires
        fwf(a),
        fwf(b),
        fwf(c),
        fle(a, b),
        fle(b, c),
    ensures
        fle(a, c),
{
}

/// Rational comparisons respect rational equality on either side.
pub proof fn lemma_cmp_feq(a: Frac, b: Frac, a2: Frac, b2: Frac)
    by (nonlinear_arith)
    requires
        fwf(a),
        fwf(b),
        fwf(a2),
        fwf(b2),
        feq(a, a2),
        feq(b, b2),
    ensures
        fle(a, b) == fle(a2, b2),
        flt(a, b) == flt(a2, b2),
        feq(a, b) == feq(a2, b2),
{
}

/// Rational equality is transitive (for well-formed fractions).
pub proof fn lemma_feq_trans(a: Frac, b: Frac, c: Frac)
    by (nonlinear_arith)
    requires
        fwf(a),
        fwf(b),
        fwf(c),
        feq(a, b),
        feq(b, c),
    ensures
        feq(a, c),
{
}

/// Rational equality is transitive through any pair with a nonzero
/// denominator, well formed or not.
pub proof fn lemma_feq_trans_nz(a: Frac, b: Frac, c: Frac)
    requires
        b.d != 0,
        feq(a, b),
        feq(b, c),
    ensures
        feq(a, c),
{
    assert((a.n * c.d) * b.d == (a.n * b.d) * c.d) by (nonlinear_arith);
    assert((a.n * b.d) * c.d == (b.n * a.d) * c.d);
    assert((b.n * a.d) * c.d == (b.n * c.d) * a.d) by (nonlinear_arith);
    assert((b.n * c.d) * a.d == (c.n * b.d) * a.d);
    assert((c.n * b.d) * a.d == (c.n * a.d) * b.d) by (nonlinear_arith);
    assert(a.n * c.d == c.n * a.d) by (nonlinear_arith)
        requires
            (a.n * c.d) * b.d == (c.n * a.d) * b.d,
            b.d != 0,
    ;
}

/// Sums and differences of equal fractions are equal.
pub proof fn lemma_fadd_congr(a: Frac, b: Frac, a2: Frac, b2: Frac)
    requires
        feq(a, a2),
        feq(b, b2),
    ensures
        feq(fadd(a, b), fadd(a2, b2)),
        feq(fsub(a, b), fsub(a2, b2)),
{
    broadcast use vstd::arithmetic::mul::group_mul_properties;

    assert((a.n * b.d + b.n * a.d) * (a2.d * b2.d) == (a.n * a2.d) * (b.d * b2.d) + (b.n * b2.d)
        * (a.d * a2.d));
    assert((a.n * b.d - b.n * a.d) * (a2.d * b2.d) == (a.n * a2.d) * (b.d * b2.d) - (b.n * b2.d)
        * (a.d * a2.d));
    assert((a.n * a2.d) * (b.d * b2.d) == (a2.n * a.d) * (b.d * b2.d));
    assert((b.n * b2.d) * (a.d * a2.d) == (b2.n * b.d) * (a.d * a2.d));
    assert((a2.n * a.d) * (b.d * b2.d) + (b2.n * b.d) * (a.d * a2.d) == (a2.n * b2.d + b2.n
        * a2.d) * (a.d * b.d));
    assert((a2.n * a.d) * (b.d * b2.d) - (b2.n * b.d) * (a.d * a2.d) == (a2.n * b2.d - b2.n
        * a2.d) * (a.d * b.d));
}

/// Products of equal fractions are equal.
pub proof fn lemma_fmul_congr(a: Frac, b: Frac, a2: Frac, b2: Frac)
    requires
        feq(a, a2),
        feq(b, b2),
    ensures
        feq(fmul(a, b), fmul(a2, b2)),
{
    assert((a.n * b.n) * (a2.d * b2.d) == (a.n * a2.d) * (b.n * b2.d)) by (nonlinear_arith);
    assert((a.n * a2.d) * (b.n * b2.d) == (a2.n * a.d) * (b2.n * b.d));
    assert((a2.n * a.d) * (b2.n * b.d) == (a2.n * b2.n) * (a.d * b.d)) by (nonlinear_arith);
}

/// Equal fractions with positive denominators have numerators of the
/// same sign.
pub proof fn lemma_feq_sign(a: Frac, b: Frac)
    by (nonlinear_arith)
    requires
        fwf(a),
        fwf(b),
        feq(a, b),
    ensures
        a.n > 0 <==> b.n > 0,
        a.n == 0 <==> b.n == 0,
        a.n < 0 <==> b.n < 0,
{
}

/// Quotients of equal fractions are equal.
pub proof fn lemma_fdiv_congr(a: Frac, b: Frac, a2: Frac, b2: Frac)
    requires
        fwf(a),
        fwf(b),
        fwf(a2),
        fwf(b2),
        feq(a, a2),
        feq(b, b2),
    ensures
        feq(fdiv(a, b), fdiv(a2, b2)),
{
    lemma_feq_sign(b, b2);
    assert((a.n * b.d) * (a2.d * b2.n) == (a.n * a2.d) * (b.d * b2.n)) by (nonlinear_arith);
    assert((b2.n * b.d) * (a.n * a2.d) == (a.n * a2.d) * (b.d * b2.n)) by (nonlinear_arith);
    assert((b2.n * b.d) * (a.n * a2.d) == (b.n * b2.d) * (a.n * a2.d));
    assert((b.n * b2.d) * (a.n * a2.d) == (b.n * b2.d) * (a2.n * a.d)) by {
        assert(a.n * a2.d == a2.n * a.d);
    }
    assert((b.n * b2.d) * (a2.n * a.d) == (a2.n * b2.d) * (a.d * b.n)) by (nonlinear_arith);
    assert((a.n * b.d) * (a2.d * b2.n) == (a2.n * b2.d) * (a.d * b.n));
    if b.n >= 0 {
        assert(fdiv(a, b) == Frac { n: a.n * b.d, d: a.d * b.n });
        assert(fdiv(a2, b2) == Frac { n: a2.n * b2.d, d: a2.d * b2.n });
    } else {
        assert(fdiv(a, b) == Frac { n: -(a.n * b.d), d: a.d * -b.n });
        assert(fdiv(a2, b2) == Frac { n: -(a2.n * b2.d), d: a2.d * -b2.n });
        assert((-(a.n * b.d)) * (a2.d * -b2.n) == (a.n * b.d) * (a2.d * b2.n))
            by (nonlinear_arith);
        assert((-(a2.n * b2.d)) * (a.d * -b.n) == (a2.n * b2.d) * (a.d * b.n))
            by (nonlinear_arith);
    }
}

/// A product of two positive factors stays within positive bounds.
pub(crate) proof fn lemma_mul_pos_range(x: int, y: int, bx: int, by: int)
    by (nonlinear_arith)
    requires
        1 <= x <= bx,
        1 <= y <= by,
    ensures
        1 <= x * y <= bx * by,
{
}

/// Bounds on a product follow from bounds on its factors.
pub(crate) proof fn lemma_mul_abs_bound(x: int, y: int, bx: int, by: int)
    by (nonlinear_arith)
    requires
        -bx <= x <= bx,
        -by <= y <= by,
        0 <= bx,
        0 <= by,
    ensures
        -(bx * by) <= x * y <= bx * by,
{
}

impl PartialEq for Rat {
    /// Coordinates compare equal exactly when they stand for the same
    /// rational.
    fn eq(&self, other: &Rat) -> (r: bool) {
        proof {
            use_type_invariant(*self);
            use_type_invariant(*other);
            lemma_mul_abs_bound(self.n as int, other.d as int, NUM_MAX as int, DEN_MAX as int);
            lemma_mul_abs_bound(other.n as int, self.d as int, NUM_MAX as int, DEN_MAX as int);
        }
        (self.n as i128) * (other.d as i128) == (other.n as i128) * (self.d as i128)
    }
}

impl vstd::std_specs::cmp::PartialEqSpecImpl for Rat {
    open spec fn obeys_eq_spec() -> bool {
        true
    }

    open spec fn eq_spec(&self, other: &Rat) -> bool {
        feq(self@, other@)
    }
}

} // verus!
