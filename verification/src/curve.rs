//! Points on the twisted Edwards curve E-521 and the operations on them:
//! the validity predicate, the complete addition law, decompression of a
//! point from its x-coordinate, and ladder-based scalar multiplication.

use vstd::prelude::*;

use crate::bignat::{big_eq, bit_at, bit_len, bitlen, BigNat};
use crate::field::{d_val, fadd, fmul, fsub, has_inv, inv_val, inverse, lemma_p_facts, make_d,
    make_p, p_val, sqrt, sqrt_spec, Error};

verus! {

use vstd::arithmetic::power2::{pow2, lemma2_to64};
use vstd::arithmetic::div_mod::{lemma_add_mod_noop, lemma_add_mod_noop_right, lemma_div_basics,
    lemma_mod_bound, lemma_mul_mod_noop_general, lemma_mul_mod_noop_left,
    lemma_mul_mod_noop_right, lemma_small_mod, lemma_sub_mod_noop, lemma_sub_mod_noop_right};
use vstd::arithmetic::mul::{lemma_mul_basics, lemma_mul_is_associative};

/// A point of the curve: a pair of field coordinates.
#[derive(Clone)]
pub struct Point {
    pub x: BigNat,
    pub y: BigNat,
}

impl View for Point {
    type V = (int, int);

    open spec fn view(&self) -> (int, int) {
        (self.x@ as int, self.y@ as int)
    }
}

/// The identity element of the curve group: the point (0, 1).
pub open spec fn ident() -> (int, int) {
    (0int, 1int)
}

/// The curve equation on canonical coordinates:
/// x^2 + y^2 == 1 + d * x^2 * y^2 over the field.
pub open spec fn on_curve(pt: (int, int)) -> bool {
    (pt.0 * pt.0 + pt.1 * pt.1) % p_val() == (1 + d_val() * (pt.0 * pt.0) * (pt.1 * pt.1))
        % p_val()
}

/// The shared product d * x1 * x2 * y1 * y2 of the addition law.
pub open spec fn pt_prod(p1: (int, int), p2: (int, int)) -> int {
    d_val() * (p1.0 * p2.0) * (p1.1 * p2.1)
}

/// Denominator of the new x-coordinate.
pub open spec fn add_den_x(p1: (int, int), p2: (int, int)) -> int {
    (1 + pt_prod(p1, p2)) % p_val()
}

/// Denominator of the new y-coordinate.
pub open spec fn add_den_y(p1: (int, int), p2: (int, int)) -> int {
    (1 - pt_prod(p1, p2)) % p_val()
}

/// Both denominators of the addition law are nonzero residues; over the
/// prime field that is exactly when both are invertible.
pub open spec fn add_ok(p1: (int, int), p2: (int, int)) -> bool {
    add_den_x(p1, p2) != 0 && add_den_y(p1, p2) != 0
}

/// The twisted Edwards addition law on canonical coordinates; meaningful
/// only when [`add_ok`] holds.
pub open spec fn e_add(p1: (int, int), p2: (int, int)) -> (int, int) {
    (
        ((p1.0 * p2.1 + p1.1 * p2.0) * inv_val(add_den_x(p1, p2))) % p_val(),
        ((p1.1 * p2.1 - p1.0 * p2.0) * inv_val(add_den_y(p1, p2))) % p_val(),
    )
}

/// Bit `k` (of weight `2^k`) of the scalar `n`.
pub open spec fn nat_bit(n: nat, k: nat) -> bool {
    ((n as int) / (pow2(k) as int)) % 2 == 1
}

/// State of the ladder over base point `pt` and scalar `n` after the bits
/// of weight `w - 1` down to `k` have been processed, starting from the
/// pair (identity, `pt`). `None` records that some step's addition law had
/// a non-invertible denominator.
pub open spec fn ladder_state(pt: (int, int), n: nat, w: nat, k: nat) -> Option<
    ((int, int), (int, int)),
>
    decreases w - k,
{
    if k >= w {
        Option::Some((ident(), pt))
    } else {
        match ladder_state(pt, n, w, (k + 1) as nat) {
            Option::None => Option::None,
            Option::Some(st) => {
                let r0 = st.0;
                let r1 = st.1;
                if nat_bit(n, k) {
                    if add_ok(r0, r1) && add_ok(r1, r1) {
                        Option::Some((e_add(r0, r1), e_add(r1, r1)))
                    } else {
                        Option::None
                    }
                } else {
                    if add_ok(r0, r1) && add_ok(r0, r0) {
                        Option::Some((e_add(r0, r0), e_add(r0, r1)))
                    } else {
                        Option::None
                    }
                }
            },
        }
    }
}

/// The result of the ladder: the first register after every bit of `n`,
/// most significant first, has been processed.
pub open spec fn ladder_spec(pt: (int, int), n: nat) -> Option<(int, int)> {
    match ladder_state(pt, n, bitlen(n), 0) {
        Option::Some(st) => Option::Some(st.0),
        Option::None => Option::None,
    }
}

/// A failure at bit `k` makes the whole ladder fail.
proof fn lemma_ladder_none(pt: (int, int), n: nat, w: nat, j: nat, k: nat)
    requires
        j <= k <= w,
        ladder_state(pt, n, w, k) is None,
    ensures
        ladder_state(pt, n, w, j) is None,
    decreases k - j,
{
    if j < k {
        lemma_ladder_none(pt, n, w, (j + 1) as nat, k);
        assert(j < w);
    }
}

/// Operations a curve point offers.
pub trait PointOperations {
    /// The coordinates of the point, as integers.
    spec fn pt(&self) -> (int, int);

    /// Scalar multiplication by the ladder.
    fn multiple_number_by_montgomery(&self, n: &BigNat) -> (r: Result<Point, Error>)
        ensures
            (r is Ok) == (ladder_spec(self.pt(), n@) is Some),
            r matches Ok(q) ==> ladder_spec(self.pt(), n@) == Option::Some(q@),
            r matches Err(e) ==> e == Error::NonInvertible,
    ;

    /// The curve addition law.
    fn add(&self, point: &Point) -> (r: Result<Point, Error>)
        ensures
            (r is Ok) == add_ok(self.pt(), point@),
            r matches Ok(q) ==> q@ == e_add(self.pt(), point@),
            r matches Err(e) ==> e == Error::NonInvertible,
    ;
}

impl Point {
    /// The identity point (0, 1).
    pub fn identity() -> (r: Point)
        ensures
            r@ == ident(),
    {
        Point { x: BigNat::zero(), y: BigNat::one() }
    }

    /// A verified copy of the point.
    pub fn dup(&self) -> (r: Point)
        ensures
            r@ == self@,
    {
        Point { x: self.x.dup(), y: self.y.dup() }
    }

    /// Both coordinates are equal as integers.
    pub fn coords_equal(&self, other: &Point) -> (r: bool)
        ensures
            r == (self@ == other@),
    {
        let rx = big_eq(&self.x, &other.x);
        let ry = big_eq(&self.y, &other.y);
        rx && ry
    }

    /// The point with the given x-coordinate and an odd y, as the twisted
    /// Edwards addition-law decompression gives it.
    pub fn from(x: &BigNat) -> (r: Result<Point, Error>)
        ensures
            (r is Ok) == (pfx_spec(x@ as int, true) is Ok),
            r matches Ok(pt) ==> pfx_spec(x@ as int, true) == Result::<(int, int), Error>::Ok(
                pt@,
            ),
            r matches Err(e) ==> pfx_spec(x@ as int, true) == Result::<(int, int), Error>::Err(e),
    {
        point_from_x(x, true)
    }

    /// The curve equation holds of this point's coordinates.
    pub fn is_on_curve(&self) -> (r: bool)
        ensures
            r == on_curve(self@),
    {
        let p = make_p();
        let one = BigNat::one();
        let d = make_d();
        proof {
            lemma_p_facts();
        }
        let xi = &self.x;
        let yi = &self.y;
        let x2 = fmul(xi, xi, &p);
        let y2 = fmul(yi, yi, &p);
        let left = fadd(&x2, &y2, &p);
        let dx2 = fmul(&d, &x2, &p);
        let dx2y2 = fmul(&dx2, &y2, &p);
        let right = fadd(&one, &dx2y2, &p);
        let r = big_eq(&left, &right);
        proof {
            let x = xi@ as int;
            let y = yi@ as int;
            let pp = p_val();
            lemma_add_mod_noop(x * x, y * y, pp);
            lemma_mul_mod_noop_right(d_val(), x * x, pp);
            lemma_mul_mod_noop_general(d_val() * (x * x), y * y, pp);
            lemma_add_mod_noop_right(1, d_val() * (x * x) * (y * y), pp);
        }
        r
    }
}

impl PointOperations for Point {
    open spec fn pt(&self) -> (int, int) {
        self@
    }

    fn multiple_number_by_montgomery(&self, n: &BigNat) -> (r: Result<Point, Error>) {
        Point::scalar_mul(self, n)
    }

    fn add(&self, point: &Point) -> (r: Result<Point, Error>) {
        Point::add(self, point)
    }
}

impl Point {
    /// The twisted Edwards addition law. Fails with
    /// [`Error::NonInvertible`] exactly when one of the two denominators
    /// is congruent to 0 modulo p.
    pub fn add(&self, other: &Point) -> (r: Result<Point, Error>)
        ensures
            (r is Ok) == add_ok(self@, other@),
            r matches Ok(q) ==> q@ == e_add(self@, other@),
            r matches Err(e) ==> e == Error::NonInvertible,
    {
        let p = make_p();
        let one = BigNat::one();
        let d = make_d();
        proof {
            lemma_p_facts();
        }
        let x1 = &self.x;
        let y1 = &self.y;
        let x2 = &other.x;
        let y2 = &other.y;
        let x1x2 = fmul(x1, x2, &p);
        let y1y2 = fmul(y1, y2, &p);
        let t = fmul(&x1x2, &y1y2, &p);
        let dt = fmul(&d, &t, &p);
        proof {
            let a = self@;
            let b = other@;
            let pp = p_val();
            lemma_mul_mod_noop_general(a.0 * b.0, a.1 * b.1, pp);
            lemma_mul_mod_noop_right(d_val(), (a.0 * b.0) * (a.1 * b.1), pp);
            lemma_mul_is_associative(d_val(), a.0 * b.0, a.1 * b.1);
            assert(dt@ as int == pt_prod(a, b) % pp);
            lemma_add_mod_noop_right(1, pt_prod(a, b), pp);
            lemma_sub_mod_noop_right(1, pt_prod(a, b), pp);
        }
        let den_x = fadd(&one, &dt, &p);
        let den_y = fsub(&one, &dt, &p);
        let x1y2 = fmul(x1, y2, &p);
        let y1x2 = fmul(y1, x2, &p);
        let x_num = fadd(&x1y2, &y1x2, &p);
        let y_num = fsub(&y1y2, &x1x2, &p);
        proof {
            let a = self@;
            let b = other@;
            let pp = p_val();
            lemma_add_mod_noop(a.0 * b.1, a.1 * b.0, pp);
            lemma_sub_mod_noop(a.1 * b.1, a.0 * b.0, pp);
            lemma_mod_bound(1 + pt_prod(a, b), pp);
            lemma_mod_bound(1 - pt_prod(a, b), pp);
            lemma_small_mod(add_den_x(a, b) as nat, pp as nat);
            lemma_small_mod(add_den_y(a, b) as nat, pp as nat);
        }
        let ix = match inverse(&den_x) {
            Ok(v) => v,
            Err(_) => {
                return Err(Error::NonInvertible);
            },
        };
        let iy = match inverse(&den_y) {
            Ok(v) => v,
            Err(_) => {
                return Err(Error::NonInvertible);
            },
        };
        let x_new = fmul(&x_num, &ix, &p);
        let y_new = fmul(&y_num, &iy, &p);
        proof {
            let a = self@;
            let b = other@;
            let pp = p_val();
            lemma_mul_mod_noop_left(a.0 * b.1 + a.1 * b.0, inv_val(add_den_x(a, b)), pp);
            lemma_mul_mod_noop_left(a.1 * b.1 - a.0 * b.0, inv_val(add_den_y(a, b)), pp);
        }
        Ok(Point { x: x_new, y: y_new })
    }

    /// Scalar multiplication by the Montgomery-style ladder: one addition
    /// and one doubling for every bit of the scalar, most significant
    /// first. A zero scalar yields the identity point. Fails with
    /// [`Error::NonInvertible`] exactly when one of the additions along
    /// the way does.
    pub fn scalar_mul(&self, n: &BigNat) -> (r: Result<Point, Error>)
        ensures
            (r is Ok) == (ladder_spec(self@, n@) is Some),
            r matches Ok(q) ==> ladder_spec(self@, n@) == Option::Some(q@),
            r matches Err(e) ==> e == Error::NonInvertible,
    {
        let w = bit_len(n);
        let mut r0 = Point::identity();
        let mut r1 = self.dup();
        let mut k = w;
        while k > 0
            invariant
                k <= w,
                w == bitlen(n@),
                ladder_state(self@, n@, bitlen(n@), k as nat) == Option::Some((r0@, r1@)),
            decreases k,
        {
            k = k - 1;
            let bit = bit_at(n, k);
            proof {
                assert(bit == nat_bit(n@, k as nat));
            }
            if bit {
                let t0 = match r0.add(&r1) {
                    Ok(q) => q,
                    Err(_) => {
                        proof {
                            lemma_ladder_none(self@, n@, bitlen(n@), 0, k as nat);
                        }
                        return Err(Error::NonInvertible);
                    },
                };
                let t1 = match r1.add(&r1) {
                    Ok(q) => q,
                    Err(_) => {
                        proof {
                            lemma_ladder_none(self@, n@, bitlen(n@), 0, k as nat);
                        }
                        return Err(Error::NonInvertible);
                    },
                };
                r0 = t0;
                r1 = t1;
            } else {
                let t1 = match r0.add(&r1) {
                    Ok(q) => q,
                    Err(_) => {
                        proof {
                            lemma_ladder_none(self@, n@, bitlen(n@), 0, k as nat);
                        }
                        return Err(Error::NonInvertible);
                    },
                };
                let t0 = match r0.add(&r0) {
                    Ok(q) => q,
                    Err(_) => {
                        proof {
                            lemma_ladder_none(self@, n@, bitlen(n@), 0, k as nat);
                        }
                        return Err(Error::NonInvertible);
                    },
                };
                r0 = t0;
                r1 = t1;
            }
        }
        Ok(r0)
    }
}

/// One is its own inverse in the field.
proof fn lemma_inv_one()
    ensures
        has_inv(1),
        inv_val(1) == 1,
{
    lemma_p_facts();
    lemma_small_mod(1nat, p_val() as nat);
    assert((1int * 1int) % p_val() == 1);
    assert(has_inv(1));
    let w = inv_val(1);
    assert(0 <= w < p_val() && (1int * w) % p_val() == 1);
    lemma_small_mod(w as nat, p_val() as nat);
}

/// The identity point is neutral on both sides of the addition law, and
/// adding it never fails.
pub proof fn lemma_add_identity(pt: (int, int))
    requires
        0 <= pt.0 < p_val(),
        0 <= pt.1 < p_val(),
    ensures
        add_ok(pt, ident()),
        add_ok(ident(), pt),
        e_add(pt, ident()) == pt,
        e_add(ident(), pt) == pt,
{
    lemma_p_facts();
    lemma_inv_one();
    let p = p_val();
    lemma_mul_basics(pt.0);
    lemma_mul_basics(pt.1);
    lemma_mul_basics(d_val());
    lemma_mul_basics(pt.0 * ident().0);
    lemma_mul_basics(pt.1 * ident().1);
    lemma_mul_basics(ident().0 * pt.0);
    lemma_mul_basics(ident().1 * pt.1);
    lemma_mul_basics(d_val() * (pt.0 * ident().0));
    lemma_mul_basics(d_val() * (ident().0 * pt.0));
    lemma_mul_basics(pt.0 * ident().1 + pt.1 * ident().0);
    lemma_mul_basics(pt.1 * ident().1 - pt.0 * ident().0);
    lemma_mul_basics(ident().0 * pt.1 + ident().1 * pt.0);
    lemma_mul_basics(ident().1 * pt.1 - ident().0 * pt.0);
    assert(pt_prod(pt, ident()) == 0);
    assert(pt_prod(ident(), pt) == 0);
    lemma_small_mod(1nat, p as nat);
    assert(add_den_x(pt, ident()) == 1);
    assert(add_den_y(pt, ident()) == 1);
    assert(add_den_x(ident(), pt) == 1);
    assert(add_den_y(ident(), pt) == 1);
    lemma_small_mod(pt.0 as nat, p as nat);
    lemma_small_mod(pt.1 as nat, p as nat);
    assert(pt.0 * ident().1 + pt.1 * ident().0 == pt.0);
    assert(pt.1 * ident().1 - pt.0 * ident().0 == pt.1);
    assert(ident().0 * pt.1 + ident().1 * pt.0 == pt.0);
    assert(ident().1 * pt.1 - ident().0 * pt.0 == pt.1);
    assert(e_add(pt, ident()).0 == pt.0);
    assert(e_add(pt, ident()).1 == pt.1);
    assert(e_add(ident(), pt).0 == pt.0);
    assert(e_add(ident(), pt).1 == pt.1);
}

/// A zero scalar yields the identity point.
pub proof fn lemma_scalar_zero(pt: (int, int))
    ensures
        ladder_spec(pt, 0) == Option::Some(ident()),
{
    assert(bitlen(0) == 0);
    assert(ladder_state(pt, 0, 0, 0) == Option::Some((ident(), pt)));
}

/// A scalar of one yields the base point back, whenever the doubling the
/// ladder performs beside it is defined.
pub proof fn lemma_scalar_one(pt: (int, int))
    requires
        0 <= pt.0 < p_val(),
        0 <= pt.1 < p_val(),
        add_ok(pt, pt),
    ensures
        ladder_spec(pt, 1) == Option::Some(pt),
{
    lemma_add_identity(pt);
    lemma2_to64();
    assert(bitlen(0) == 0);
    assert(bitlen(1) == 1);
    lemma_div_basics(1);
    assert(nat_bit(1, 0));
    assert(ladder_state(pt, 1, 1, 1) == Option::Some((ident(), pt)));
    assert(ladder_state(pt, 1, 1, 0) == Option::Some((e_add(ident(), pt), e_add(pt, pt))));
}

/// A scalar of two performs exactly one doubling: the ladder returns
/// `pt + pt`, whenever the additions it performs are defined.
pub proof fn lemma_scalar_two(pt: (int, int))
    requires
        0 <= pt.0 < p_val(),
        0 <= pt.1 < p_val(),
        add_ok(pt, pt),
        add_ok(pt, e_add(pt, pt)),
    ensures
        ladder_spec(pt, 2) == Option::Some(e_add(pt, pt)),
{
    lemma_add_identity(pt);
    lemma2_to64();
    assert(bitlen(0) == 0);
    assert(bitlen(1) == 1);
    assert(bitlen(2) == 2);
    lemma_div_basics(2);
    assert(nat_bit(2, 1));
    assert(!nat_bit(2, 0));
    let dd = e_add(pt, pt);
    assert(ladder_state(pt, 2, 2, 2) == Option::Some((ident(), pt)));
    assert(ladder_state(pt, 2, 2, 1) == Option::Some((pt, dd)));
    assert(ladder_state(pt, 2, 2, 0) == Option::Some((dd, e_add(pt, dd))));
}

/// Denominator 1 - d * x^2 of the decompression radicand.
pub open spec fn pfx_den(x: int) -> int {
    (1 - d_val() * (x * x)) % p_val()
}

/// The decompression radicand (1 - x^2) / (1 - d * x^2) over the field;
/// meaningful only when the denominator is invertible.
pub open spec fn pfx_rad(x: int) -> int {
    ((1 - x * x) * inv_val(pfx_den(x))) % p_val()
}

/// What decompression returns for an x-coordinate and a requested y
/// parity: the point, or the error that stops it. The radicand's
/// denominator fails exactly when its canonical residue is zero.
pub open spec fn pfx_spec(x: int, lsb: bool) -> Result<(int, int), Error> {
    if pfx_den(x) == 0 {
        Result::Err(Error::NonInvertible)
    } else {
        match sqrt_spec(pfx_rad(x), lsb) {
            Option::Some(y) => Result::Ok((x, y)),
            Option::None => Result::Err(Error::NoSquareRoot),
        }
    }
}

/// The point of the curve with the given x-coordinate and the given parity
/// of y, reconstructed through the curve equation and the modular square
/// root. Fails with [`Error::NoSquareRoot`] when `x` belongs to no point
/// of the curve, and with [`Error::NonInvertible`] when the radicand's
/// denominator is congruent to 0 modulo p.
pub fn point_from_x(x: &BigNat, lsb: bool) -> (r: Result<Point, Error>)
    ensures
        (r is Ok) == (pfx_spec(x@ as int, lsb) is Ok),
        r matches Ok(pt) ==> pfx_spec(x@ as int, lsb) == Result::<(int, int), Error>::Ok(pt@),
        r matches Err(e) ==> pfx_spec(x@ as int, lsb) == Result::<(int, int), Error>::Err(e),
{
    let p = make_p();
    let one = BigNat::one();
    let d = make_d();
    proof {
        lemma_p_facts();
    }
    let x2 = fmul(x, x, &p);
    let num = fsub(&one, &x2, &p);
    let dx2 = fmul(&d, &x2, &p);
    let den = fsub(&one, &dx2, &p);
    proof {
        let xi = x@ as int;
        let pp = p_val();
        lemma_sub_mod_noop_right(1, xi * xi, pp);
        lemma_mul_mod_noop_right(d_val(), xi * xi, pp);
        lemma_sub_mod_noop_right(1, d_val() * (xi * xi), pp);
        lemma_mod_bound(1 - d_val() * (xi * xi), pp);
        lemma_small_mod(pfx_den(xi) as nat, pp as nat);
    }
    let iv = match inverse(&den) {
        Ok(v) => v,
        Err(_) => {
            return Err(Error::NonInvertible);
        },
    };
    let rad = fmul(&num, &iv, &p);
    proof {
        let xi = x@ as int;
        lemma_mul_mod_noop_left(1 - xi * xi, inv_val(pfx_den(xi)), p_val());
    }
    match sqrt(&rad, lsb) {
        Ok(y) => Ok(Point { x: x.dup(), y }),
        Err(_) => Err(Error::NoSquareRoot),
    }
}

} // verus!
