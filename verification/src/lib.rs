//! Elliptic-curve Diffie-Hellman key agreement over the twisted Edwards
//! curve E-521: the curve x^2 + y^2 = 1 + d * x^2 * y^2 with d = -376014
//! over the prime field of 2^521 - 1 elements.
//!
//! The protocol layer: key-pair generation, shared-secret derivation, and
//! compression of a shared secret into a fixed-length symmetric key.

use vstd::prelude::*;

use num_bigint_dig::RandBigInt;

pub mod bignat;
pub mod curve;
pub mod field;

pub use crate::bignat::{as_nat, min_be_bytes, BigNat};
pub use crate::curve::{ladder_spec, pfx_spec, point_from_x, Point};
pub use crate::field::Error;
use crate::bignat::{mul_plain, sha3_256};

verus! {

use vstd::arithmetic::power2::pow2;

pub use crate::bignat::sha3_256_of;
pub use crate::curve::PointOperations;

/// The big-endian bytes of the fixed generator x-coordinate.
pub open spec fn gen_x_bytes() -> Seq<u8> {
    seq![
        117u8, 44u8, 180u8, 92u8, 72u8, 100u8, 139u8, 24u8, 157u8, 249u8, 12u8,
        178u8, 41u8, 107u8, 40u8, 120u8, 163u8, 191u8, 217u8, 244u8, 47u8, 198u8,
        200u8, 24u8, 236u8, 139u8, 243u8, 201u8, 192u8, 198u8, 32u8, 57u8, 19u8,
        246u8, 236u8, 197u8, 204u8, 199u8, 36u8, 52u8, 177u8, 174u8, 148u8, 157u8,
        86u8, 143u8, 201u8, 156u8, 96u8, 89u8, 208u8, 251u8, 19u8, 54u8, 72u8,
        56u8, 170u8, 48u8, 42u8, 148u8, 10u8, 47u8, 25u8, 186u8, 108u8,
    ]
}

/// The fixed generator x-coordinate as an integer.
pub open spec fn gen_x() -> int {
    as_nat(gen_x_bytes()) as int
}

/// The fixed generator x-coordinate as a value.
pub fn generator_x() -> (r: BigNat)
    ensures
        r@ as int == gen_x(),
{
    let mut bytes: Vec<u8> = Vec::new();
    bytes.push(117u8);
    bytes.push(44u8);
    bytes.push(180u8);
    bytes.push(92u8);
    bytes.push(72u8);
    bytes.push(100u8);
    bytes.push(139u8);
    bytes.push(24u8);
    bytes.push(157u8);
    bytes.push(249u8);
    bytes.push(12u8);
    bytes.push(178u8);
    bytes.push(41u8);
    bytes.push(107u8);
    bytes.push(40u8);
    bytes.push(120u8);
    bytes.push(163u8);
    bytes.push(191u8);
    bytes.push(217u8);
    bytes.push(244u8);
    bytes.push(47u8);
    bytes.push(198u8);
    bytes.push(200u8);
    bytes.push(24u8);
    bytes.push(236u8);
    bytes.push(139u8);
    bytes.push(243u8);
    bytes.push(201u8);
    bytes.push(192u8);
    bytes.push(198u8);
    bytes.push(32u8);
    bytes.push(57u8);
    bytes.push(19u8);
    bytes.push(246u8);
    bytes.push(236u8);
    bytes.push(197u8);
    bytes.push(204u8);
    bytes.push(199u8);
    bytes.push(36u8);
    bytes.push(52u8);
    bytes.push(177u8);
    bytes.push(174u8);
    bytes.push(148u8);
    bytes.push(157u8);
    bytes.push(86u8);
    bytes.push(143u8);
    bytes.push(201u8);
    bytes.push(156u8);
    bytes.push(96u8);
    bytes.push(89u8);
    bytes.push(208u8);
    bytes.push(251u8);
    bytes.push(19u8);
    bytes.push(54u8);
    bytes.push(72u8);
    bytes.push(56u8);
    bytes.push(170u8);
    bytes.push(48u8);
    bytes.push(42u8);
    bytes.push(148u8);
    bytes.push(10u8);
    bytes.push(47u8);
    bytes.push(25u8);
    bytes.push(186u8);
    bytes.push(108u8);
    proof {
        assert(bytes@ =~= gen_x_bytes());
    }
    BigNat::from_bytes(bytes)
}

/// The fixed generator point of the curve, decompressed from its
/// x-coordinate with an even y.
pub fn generator() -> (r: Result<Point, Error>)
    ensures
        (r is Ok) == (pfx_spec(gen_x(), false) is Ok),
        r matches Ok(pt) ==> pfx_spec(gen_x(), false) == Result::<(int, int), Error>::Ok(pt@),
        r matches Err(e) ==> pfx_spec(gen_x(), false) == Result::<(int, int), Error>::Err(e),
{
    let x = generator_x();
    point_from_x(&x, false)
}

/// Relies on `rand::thread_rng` and `num_bigint_dig::RandBigInt::gen_biguint`:
/// 128 fresh random bits, written as the minimal big-endian encoding of a
/// value below 2^128 — between 1 and 16 bytes, with no leading zero byte
/// except the single zero byte for a zero draw.
#[verifier::external_body]
pub fn generate_salt() -> (r: Vec<u8>)
    ensures
        1 <= r@.len() <= 16,
        r@.len() > 1 ==> r@[0] != 0,
        as_nat(r@) < pow2(128),
{
    let mut rng = rand::thread_rng();
    let salt = rng.gen_biguint(128);
    salt.to_bytes_be()
}

/// Relies on `rand::thread_rng` and `num_bigint_dig::RandBigInt::gen_biguint`:
/// a fresh private scalar of at most 1000 random bits.
#[verifier::external_body]
pub fn generate_private_key() -> (r: BigNat)
    ensures
        r@ < pow2(1000),
{
    let mut rng = rand::thread_rng();
    let key = rng.gen_biguint(1000);
    BigNat::from_bytes(key.to_bytes_be())
}

/// The public key for a private scalar: the generator point times the
/// scalar. Errors of decompressing the generator or of the ladder are
/// passed through.
pub fn generate_public_key(private_key: &BigNat) -> (r: Result<Point, Error>)
    ensures
        pfx_spec(gen_x(), false) matches Ok(g) ==> {
            &&& (r is Ok) == (ladder_spec(g, private_key@) is Some)
            &&& (r matches Ok(q) ==> ladder_spec(g, private_key@) == Option::Some(q@))
            &&& (ladder_spec(g, private_key@) is None ==> r == Result::<Point, Error>::Err(
                Error::NonInvertible,
            ))
        },
        pfx_spec(gen_x(), false) matches Err(e0) ==> r == Result::<Point, Error>::Err(e0),
{
    let g = match generator() {
        Ok(g) => g,
        Err(e) => {
            return Err(e);
        },
    };
    g.scalar_mul(private_key)
}

/// The shared secret: the peer's public point times the local private
/// scalar.
pub fn diffie_hellman(private_key: &BigNat, public_key: &Point) -> (r: Result<Point, Error>)
    ensures
        (r is Ok) == (ladder_spec(public_key@, private_key@) is Some),
        r matches Ok(q) ==> ladder_spec(public_key@, private_key@) == Option::Some(q@),
        r matches Err(e) ==> e == Error::NonInvertible,
{
    public_key.scalar_mul(private_key)
}

/// The symmetric key for a shared point: the SHA3-256 digest of the
/// minimal big-endian bytes of the product x * y of its coordinates.
pub fn generate_secret_key(point: Point) -> (r: Vec<u8>)
    ensures
        r@ == sha3_256_of(min_be_bytes(point.x@ * point.y@)),
        r@.len() == 32,
{
    let prod = mul_plain(&point.x, &point.y);
    let mut bs = prod.to_bytes_be();
    if bs.len() == 0 {
        bs.push(0u8);
        proof {
            assert(bs@ =~= seq![0u8]);
        }
    } else {
        proof {
            crate::bignat::lemma_pos_be_roundtrip(bs@);
        }
    }
    sha3_256(&bs)
}

} // verus!
