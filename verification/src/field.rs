//! Arithmetic in the prime field of the curve: the field of integers
//! modulo the 521-bit Mersenne prime p = 2^521 - 1.
//!
//! All residues are kept canonical, in `[0, p)`. Besides the four modular
//! operations, the module provides the modular inverse (which fails on a
//! value with no inverse) and the modular square root that is valid for a
//! prime congruent to 3 modulo 4.

use vstd::prelude::*;

use crate::bignat::{add_plain, as_nat, big_eq, bit_at, inv_mod, lemma_as_nat_push, mul_plain,
    pow_mod, rem, sub_plain, BigNat};

verus! {

use vstd::arithmetic::power::pow;
use vstd::arithmetic::power2::pow2;
use vstd::arithmetic::power2::{lemma2_to64, lemma_pow2_adds, lemma_pow2_pos,
    lemma_pow2_strictly_increases};
use vstd::arithmetic::div_mod::{lemma_div_basics, lemma_div_by_multiple,
    lemma_fundamental_div_mod_converse_mod, lemma_mod_add_multiples_vanish, lemma_mod_bound,
    lemma_mul_mod_noop_left, lemma_mul_mod_noop_right, lemma_small_mod};
use vstd::arithmetic::mul::{lemma_mul_basics, lemma_mul_is_associative, lemma_mul_is_commutative};

/// The field prime: the Mersenne prime 2^521 - 1.
pub open spec fn p_val() -> int {
    pow2(521) - 1
}

/// The curve parameter d = -376014, as a canonical residue modulo p.
pub open spec fn d_val() -> int {
    p_val() - 376014
}

/// Failure modes of the arithmetic layer.
#[derive(Clone, Copy, Debug, PartialEq, Eq, Structural)]
pub enum Error {
    /// A modular inverse was requested for a value that has none.
    NonInvertible,
    /// The square-root candidate failed its verification: the radicand is
    /// not a quadratic residue.
    NoSquareRoot,
}

/// Facts about the prime that the routines below lean on; in particular
/// p == 3 (mod 4), which the square-root formula requires.
pub proof fn lemma_p_facts()
    ensures
        p_val() >= 4,
        p_val() % 4 == 3,
        (p_val() + 1) / 4 == pow2(519),
        376014 < p_val(),
{
    lemma2_to64();
    lemma_pow2_adds(2, 519);
    lemma_pow2_pos(519);
    lemma_pow2_strictly_increases(2, 521);
    lemma_pow2_strictly_increases(19, 521);
    assert(pow2(521) == 4 * pow2(519));
    lemma_fundamental_div_mod_converse_mod(p_val(), 4, pow2(519) as int - 1, 3);
    lemma_div_by_multiple(pow2(519) as int, 4);
    assert((pow2(519) as int * 4) / 4 == pow2(519) as int);
}

/// The field prime as an integer value.
pub fn make_p() -> (r: BigNat)
    ensures
        r@ as int == p_val(),
{
    let mut bytes: Vec<u8> = Vec::new();
    bytes.push(1u8);
    proof {
        assert(bytes@ =~= Seq::<u8>::empty().push(1u8));
        lemma_as_nat_push(Seq::<u8>::empty(), 1u8);
        lemma2_to64();
    }
    let mut i: usize = 0;
    while i < 65
        invariant
            i <= 65,
            as_nat(bytes@) == pow2(8 * (i as nat) + 1) - 1,
        decreases 65 - i,
    {
        let ghost prev = bytes@;
        bytes.push(255u8);
        i += 1;
        proof {
            lemma_as_nat_push(prev, 255u8);
            lemma_pow2_adds(8 * ((i - 1) as nat) + 1, 8);
            lemma2_to64();
        }
    }
    BigNat::from_bytes(bytes)
}

/// The exponent (p + 1) / 4 = 2^519 used by the square root.
fn make_sqrt_exp() -> (r: BigNat)
    ensures
        r@ == pow2(519),
{
    let mut bytes: Vec<u8> = Vec::new();
    bytes.push(128u8);
    proof {
        assert(bytes@ =~= Seq::<u8>::empty().push(128u8));
        lemma_as_nat_push(Seq::<u8>::empty(), 128u8);
        lemma2_to64();
    }
    let mut i: usize = 0;
    while i < 64
        invariant
            i <= 64,
            as_nat(bytes@) == pow2(7 + 8 * (i as nat)),
        decreases 64 - i,
    {
        let ghost prev = bytes@;
        bytes.push(0u8);
        i += 1;
        proof {
            lemma_as_nat_push(prev, 0u8);
            lemma_pow2_adds(7 + 8 * ((i - 1) as nat), 8);
            lemma2_to64();
        }
    }
    BigNat::from_bytes(bytes)
}

/// The curve parameter d as a canonical residue modulo p.
pub fn make_d() -> (r: BigNat)
    ensures
        r@ as int == d_val(),
{
    let p = make_p();
    let mut bytes: Vec<u8> = Vec::new();
    bytes.push(5u8);
    bytes.push(188u8);
    bytes.push(206u8);
    proof {
        lemma_p_facts();
        assert(bytes@ =~= Seq::<u8>::empty().push(5u8).push(188u8).push(206u8));
        lemma_as_nat_push(Seq::<u8>::empty(), 5u8);
        lemma_as_nat_push(Seq::<u8>::empty().push(5u8), 188u8);
        lemma_as_nat_push(Seq::<u8>::empty().push(5u8).push(188u8), 206u8);
    }
    let small = BigNat::from_bytes(bytes);
    let r = fsub(&BigNat::zero(), &small, &p);
    proof {
        lemma_mod_add_multiples_vanish(0 - 376014, p_val());
        lemma_small_mod((p_val() - 376014) as nat, p_val() as nat);
    }
    r
}

/// Modular addition with a canonical result.
pub(crate) fn fadd(a: &BigNat, b: &BigNat, p: &BigNat) -> (r: BigNat)
    requires
        p@ >= 1,
    ensures
        r@ as int == ((a@ + b@) as int) % (p@ as int),
        r@ < p@,
{
    let s = add_plain(a, b);
    let r = rem(&s, p);
    proof {
        lemma_mod_bound((a@ + b@) as int, p@ as int);
    }
    r
}

/// Modular subtraction of canonical residues, with a canonical result.
pub(crate) fn fsub(a: &BigNat, b: &BigNat, p: &BigNat) -> (r: BigNat)
    requires
        p@ >= 1,
        a@ < p@,
        b@ < p@,
    ensures
        r@ as int == ((a@ as int) - (b@ as int)) % (p@ as int),
        r@ < p@,
{
    let s = add_plain(a, p);
    let t = sub_plain(&s, b);
    let r = rem(&t, p);
    proof {
        lemma_mod_add_multiples_vanish((a@ as int) - (b@ as int), p@ as int);
        lemma_mod_bound((a@ as int) - (b@ as int), p@ as int);
    }
    r
}

/// Modular multiplication with a canonical result.
pub(crate) fn fmul(a: &BigNat, b: &BigNat, p: &BigNat) -> (r: BigNat)
    requires
        p@ >= 1,
    ensures
        r@ as int == ((a@ * b@) as int) % (p@ as int),
        r@ < p@,
{
    let s = mul_plain(a, b);
    let r = rem(&s, p);
    proof {
        lemma_mod_bound((a@ * b@) as int, p@ as int);
    }
    r
}

/// There is a residue `b` with `a * b == 1 (mod p)`.
pub open spec fn has_inv(a: int) -> bool {
    exists|b: int| 0 <= b < p_val() && #[trigger] ((a * b) % p_val()) == 1
}

/// The inverse of `a` modulo p; meaningful only when [`has_inv`] holds.
pub open spec fn inv_val(a: int) -> int {
    choose|b: int| 0 <= b < p_val() && #[trigger] ((a * b) % p_val()) == 1
}

/// A modular inverse is unique among canonical residues.
pub proof fn lemma_inv_unique(a: int, b1: int, b2: int)
    requires
        0 <= b1 < p_val(),
        0 <= b2 < p_val(),
        (a * b1) % p_val() == 1,
        (a * b2) % p_val() == 1,
    ensures
        b1 == b2,
{
    let p = p_val();
    lemma_p_facts();
    lemma_mul_mod_noop_right(b1, a * b2, p);
    assert(b1 * ((a * b2) % p) == b1);
    lemma_small_mod(b1 as nat, p as nat);
    assert(b1 == (b1 * (a * b2)) % p);
    lemma_mul_is_associative(b1, a, b2);
    lemma_mul_is_commutative(b1, a);
    assert(b1 * (a * b2) == (a * b1) * b2);
    lemma_mul_mod_noop_left(a * b1, b2, p);
    lemma_small_mod(b2 as nat, p as nat);
    assert((b1 * (a * b2)) % p == (((a * b1) % p) * b2) % p);
    assert(b1 == b2);
}

/// A multiple of the prime has no inverse: its products are all multiples
/// of the prime, never 1.
pub proof fn lemma_zero_not_inv(a: int)
    requires
        a % p_val() == 0,
    ensures
        !has_inv(a),
{
    lemma_p_facts();
    if has_inv(a) {
        let b = choose|b: int| 0 <= b < p_val() && #[trigger] ((a * b) % p_val()) == 1;
        lemma_mul_mod_noop_left(a, b, p_val());
        lemma_mul_basics(b);
        lemma_small_mod(0nat, p_val() as nat);
        assert((a * b) % p_val() == 0);
        assert(false);
    }
}

/// The modular inverse of `a`. Fails with [`Error::NonInvertible`] exactly
/// when no inverse exists, which for this prime field is exactly when `a`
/// is congruent to 0 modulo p.
pub fn inverse(a: &BigNat) -> (r: Result<BigNat, Error>)
    ensures
        (r is Ok) == ((a@ as int) % p_val() != 0),
        (r is Ok) == has_inv(a@ as int),
        r matches Ok(v) ==> (v@ as int) < p_val() && v@ as int == inv_val(a@ as int),
        r matches Err(e) ==> e == Error::NonInvertible,
{
    let p = make_p();
    proof {
        lemma_p_facts();
    }
    match inv_mod(a, &p) {
        None => {
            proof {
                lemma_zero_not_inv(a@ as int);
            }
            Err(Error::NonInvertible)
        },
        Some(v) => {
            let zero = BigNat::zero();
            let vr = fadd(&v, &zero, &p);
            proof {
                let ai = a@ as int;
                let pi = p_val();
                lemma_mul_mod_noop_right(ai, v@ as int, pi);
                assert((ai * (vr@ as int)) % pi == 1);
                assert(has_inv(ai));
                let w = inv_val(ai);
                assert(0 <= w < pi && (ai * w) % pi == 1);
                lemma_inv_unique(ai, vr@ as int, w);
            }
            Ok(vr)
        },
    }
}

/// The square-root candidate v^((p + 1) / 4) mod p.
pub open spec fn sqrt_cand(v: int) -> int {
    pow(v, pow2(519)) % p_val()
}

/// The square root of `v` modulo p with the requested parity of the result:
/// zero for zero; otherwise the candidate when its parity already matches,
/// and else the negated candidate, which is checked to square back to `v`.
/// `None` means the check failed: `v` is not a quadratic residue.
pub open spec fn sqrt_spec(v: int, lsb: bool) -> Option<int> {
    if v == 0 {
        Option::Some(0)
    } else {
        let r = sqrt_cand(v);
        if (r % 2 == 1) == lsb {
            Option::Some(r)
        } else {
            let w = p_val() - r;
            if (w * w) % p_val() == v {
                Option::Some(w)
            } else {
                Option::None
            }
        }
    }
}

/// Modular square root of a canonical residue, choosing the root whose
/// least-significant bit is `lsb`. Fails with [`Error::NoSquareRoot`]
/// exactly when [`sqrt_spec`] has no value.
pub fn sqrt(v: &BigNat, lsb: bool) -> (r: Result<BigNat, Error>)
    requires
        (v@ as int) < p_val(),
    ensures
        (r is Ok) == (sqrt_spec(v@ as int, lsb) is Some),
        r matches Ok(y) ==> sqrt_spec(v@ as int, lsb) == Option::Some(y@ as int),
        r matches Err(e) ==> e == Error::NoSquareRoot,
{
    let p = make_p();
    proof {
        lemma_p_facts();
        // The formula below is sound only for a prime p == 3 (mod 4); a
        // change of field prime must be caught here.
        assert(p_val() % 4 == 3);
    }
    let zero = BigNat::zero();
    if big_eq(v, &zero) {
        return Ok(zero);
    }
    let e = make_sqrt_exp();
    let cand = pow_mod(v, &e, &p);
    let odd = bit_at(&cand, 0);
    proof {
        lemma2_to64();
        lemma_div_basics(cand@ as int);
        assert(odd == ((cand@ as int) % 2 == 1));
    }
    if odd == lsb {
        Ok(cand)
    } else {
        let w = sub_plain(&p, &cand);
        let sq = fmul(&w, &w, &p);
        if big_eq(&sq, v) {
            Ok(w)
        } else {
            Err(Error::NoSquareRoot)
        }
    }
}

} // verus!
