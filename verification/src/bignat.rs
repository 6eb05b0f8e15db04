//! Arbitrary-precision unsigned integers, held as big-endian bytes.
//!
//! The heavy arithmetic (add, sub, mul, rem, modular exponentiation and
//! inversion) is delegated to the `num-bigint-dig` crate through small
//! trusted wrappers; everything built on top of them is verified against
//! the mathematical value [`as_nat`] of the byte string.

use vstd::prelude::*;

use num_bigint_dig::BigUint;
use num_bigint_dig::ModInverse;

verus! {

use vstd::arithmetic::div_mod::{lemma_basic_div, lemma_div_by_multiple, lemma_div_denominator,
    lemma_div_is_ordered, lemma_fundamental_div_mod_converse, lemma_hoist_over_denominator,
    lemma_mod_multiples_vanish, lemma_small_mod};
use vstd::arithmetic::mul::{lemma_mul_basics, lemma_mul_inequality, lemma_mul_is_associative,
    lemma_mul_is_commutative, lemma_mul_is_distributive_sub_other_way};
use vstd::arithmetic::power2::{pow2, lemma2_to64, lemma_pow2_adds, lemma_pow2_pos,
    lemma_pow2_strictly_increases};

/// The value of a big-endian byte string: most significant byte first.
pub open spec fn as_nat(s: Seq<u8>) -> nat
    decreases s.len(),
{
    if s.len() == 0 {
        0
    } else {
        as_nat(s.drop_last()) * 256 + (s.last() as nat)
    }
}

/// The minimal big-endian encoding of a positive integer: no leading zero byte.
pub open spec fn pos_be_bytes(n: nat) -> Seq<u8>
    decreases n,
{
    if n == 0 {
        Seq::empty()
    } else {
        pos_be_bytes(n / 256).push((n % 256) as u8)
    }
}

/// The byte string the bignum library produces for `n`: minimal big-endian,
/// with zero encoded as a single zero byte.
pub open spec fn min_be_bytes(n: nat) -> Seq<u8> {
    if n == 0 {
        seq![0u8]
    } else {
        pos_be_bytes(n)
    }
}

/// Number of bits needed to write `n`: zero for zero.
pub open spec fn bitlen(n: nat) -> nat
    decreases n,
{
    if n == 0 {
        0
    } else {
        1 + bitlen(n / 2)
    }
}

/// An unsigned arbitrary-precision integer, as big-endian bytes.
/// Leading zero bytes are allowed and do not change the value.
#[derive(Clone)]
pub struct BigNat {
    bytes: Vec<u8>,
}

impl View for BigNat {
    type V = nat;

    closed spec fn view(&self) -> nat {
        as_nat(self.bytes@)
    }
}

/// Digest of the SHA3-256 hash function, as the `sha3` crate computes it.
/// The result depends on the input bytes alone.
pub uninterp spec fn sha3_256_of(s: Seq<u8>) -> Seq<u8>;

impl BigNat {
    /// The integer written by the given big-endian bytes.
    pub fn from_bytes(bytes: Vec<u8>) -> (r: BigNat)
        ensures
            r@ == as_nat(bytes@),
    {
        BigNat { bytes }
    }

    pub fn zero() -> (r: BigNat)
        ensures
            r@ == 0,
    {
        BigNat { bytes: Vec::new() }
    }

    pub fn one() -> (r: BigNat)
        ensures
            r@ == 1,
    {
        let mut bytes: Vec<u8> = Vec::new();
        bytes.push(1u8);
        proof {
            assert(bytes@ =~= Seq::<u8>::empty().push(1u8));
            lemma_as_nat_push(Seq::<u8>::empty(), 1u8);
        }
        BigNat { bytes }
    }

    /// A verified copy of the value.
    pub fn dup(&self) -> (r: BigNat)
        ensures
            r@ == self@,
    {
        let mut bytes: Vec<u8> = Vec::new();
        let mut i: usize = 0;
        while i < self.bytes.len()
            invariant
                i <= self.bytes@.len(),
                bytes@ =~= self.bytes@.take(i as int),
            decreases self.bytes@.len() - i,
        {
            bytes.push(self.bytes[i]);
            i += 1;
        }
        proof {
            assert(bytes@ =~= self.bytes@);
        }
        BigNat { bytes }
    }

    /// The minimal big-endian encoding of the value; empty for zero.
    pub fn to_bytes_be(&self) -> (r: Vec<u8>)
        ensures
            as_nat(r@) == self@,
            r@.len() > 0 ==> r@[0] != 0,
    {
        let mut i: usize = 0;
        proof {
            assert(self.bytes@.skip(0) =~= self.bytes@);
        }
        while i < self.bytes.len() && self.bytes[i] == 0
            invariant
                i <= self.bytes@.len(),
                as_nat(self.bytes@.skip(i as int)) == self@,
            decreases self.bytes@.len() - i,
        {
            proof {
                lemma_as_nat_strip_zero(self.bytes@.skip(i as int));
                assert(self.bytes@.skip(i as int).drop_first() =~= self.bytes@.skip(
                    i as int + 1,
                ));
            }
            i += 1;
        }
        let mut r: Vec<u8> = Vec::new();
        let start: usize = i;
        while i < self.bytes.len()
            invariant
                start <= i <= self.bytes@.len(),
                r@ =~= self.bytes@.subrange(start as int, i as int),
            decreases self.bytes@.len() - i,
        {
            r.push(self.bytes[i]);
            i += 1;
        }
        proof {
            assert(r@ =~= self.bytes@.skip(start as int));
        }
        r
    }
}

/// Appending one byte multiplies the value by 256 and adds the byte.
pub proof fn lemma_as_nat_push(s: Seq<u8>, b: u8)
    ensures
        as_nat(s.push(b)) == as_nat(s) * 256 + b,
{
    assert(s.push(b).drop_last() =~= s);
    assert(s.push(b).last() == b);
}

/// A leading zero byte does not change the value.
pub proof fn lemma_as_nat_strip_zero(s: Seq<u8>)
    requires
        s.len() > 0,
        s[0] == 0,
    ensures
        as_nat(s) == as_nat(s.drop_first()),
    decreases s.len(),
{
    if s.len() == 1 {
        assert(s.drop_last() =~= Seq::<u8>::empty());
        assert(s.drop_first() =~= Seq::<u8>::empty());
    } else {
        lemma_as_nat_strip_zero(s.drop_last());
        assert(s.drop_last().drop_first() =~= s.drop_first().drop_last());
        assert(s.drop_first().last() == s.last());
    }
}

/// A byte string without a leading zero writes a positive value, and is
/// the one minimal encoding of that value.
pub proof fn lemma_pos_be_roundtrip(s: Seq<u8>)
    requires
        s.len() > 0,
        s[0] != 0,
    ensures
        as_nat(s) > 0,
        pos_be_bytes(as_nat(s)) == s,
    decreases s.len(),
{
    if s.len() == 1 {
        assert(s.drop_last() =~= Seq::<u8>::empty());
        assert(as_nat(Seq::<u8>::empty()) == 0);
        assert(as_nat(s) == s[0]);
        lemma_basic_div(as_nat(s) as int, 256);
        lemma_small_mod(as_nat(s), 256);
        assert(pos_be_bytes(0) == Seq::<u8>::empty());
        assert(pos_be_bytes(as_nat(s)) =~= s);
    } else {
        let prefix = s.drop_last();
        lemma_pos_be_roundtrip(prefix);
        lemma_fundamental_div_mod_converse(
            as_nat(s) as int,
            256,
            as_nat(prefix) as int,
            s.last() as int,
        );
        assert(as_nat(s) / 256 == as_nat(prefix));
        assert(as_nat(s) % 256 == s.last());
        assert(pos_be_bytes(as_nat(s)) == pos_be_bytes(as_nat(prefix)).push(s.last()));
        assert(prefix.push(s.last()) =~= s);
    }
}

/// Relies on `num_bigint_dig::BigUint`: `Add` on values read back and forth
/// through the big-endian byte encoding.
#[verifier::external_body]
pub(crate) fn add_plain(a: &BigNat, b: &BigNat) -> (r: BigNat)
    ensures
        r@ == a@ + b@,
{
    let x = BigUint::from_bytes_be(&a.bytes) + BigUint::from_bytes_be(&b.bytes);
    BigNat { bytes: x.to_bytes_be() }
}

/// Relies on `num_bigint_dig::BigUint`: `Sub`, which requires the minuend to
/// be at least the subtrahend.
#[verifier::external_body]
pub(crate) fn sub_plain(a: &BigNat, b: &BigNat) -> (r: BigNat)
    requires
        b@ <= a@,
    ensures
        r@ == a@ - b@,
{
    let x = BigUint::from_bytes_be(&a.bytes) - BigUint::from_bytes_be(&b.bytes);
    BigNat { bytes: x.to_bytes_be() }
}

/// Relies on `num_bigint_dig::BigUint`: `Mul`.
#[verifier::external_body]
pub(crate) fn mul_plain(a: &BigNat, b: &BigNat) -> (r: BigNat)
    ensures
        r@ == a@ * b@,
{
    let x = BigUint::from_bytes_be(&a.bytes) * BigUint::from_bytes_be(&b.bytes);
    BigNat { bytes: x.to_bytes_be() }
}

/// Relies on `num_bigint_dig::BigUint`: `Rem`, the Euclidean remainder for
/// unsigned values, which panics on a zero modulus.
#[verifier::external_body]
pub(crate) fn rem(a: &BigNat, m: &BigNat) -> (r: BigNat)
    requires
        m@ >= 1,
    ensures
        r@ == a@ % m@,
{
    let x = BigUint::from_bytes_be(&a.bytes) % BigUint::from_bytes_be(&m.bytes);
    BigNat { bytes: x.to_bytes_be() }
}

/// Relies on `num_bigint_dig::BigUint::modpow`: `(a ^ e) % m`, reduced into
/// `[0, m)`; it panics on a zero modulus.
#[verifier::external_body]
pub(crate) fn pow_mod(a: &BigNat, e: &BigNat, m: &BigNat) -> (r: BigNat)
    requires
        m@ >= 2,
    ensures
        r@ as int == vstd::arithmetic::power::pow(a@ as int, e@) % (m@ as int),
        r@ < m@,
{
    let x = BigUint::from_bytes_be(&a.bytes).modpow(
        &BigUint::from_bytes_be(&e.bytes),
        &BigUint::from_bytes_be(&m.bytes),
    );
    BigNat { bytes: x.to_bytes_be() }
}

/// Relies on `num_bigint_dig::ModInverse` for `BigUint`: `Some` exactly when
/// the argument and modulus are coprime, and then a Bezout coefficient made
/// nonnegative, so a value whose product with the argument is 1 modulo `m`.
/// The modulus is fixed to the Mersenne prime 2^521 - 1, whose primality is
/// a published fact; for a prime modulus, coprime means exactly "not a
/// multiple of the modulus".
#[verifier::external_body]
pub(crate) fn inv_mod(a: &BigNat, m: &BigNat) -> (r: Option<BigNat>)
    requires
        m@ as int == pow2(521) - 1,
    ensures
        r matches Some(v) ==> (a@ as int * v@ as int) % (m@ as int) == 1,
        (r is None) == ((a@ as int) % (m@ as int) == 0),
{
    let x = BigUint::from_bytes_be(&a.bytes).mod_inverse(&BigUint::from_bytes_be(&m.bytes))?;
    Some(BigNat { bytes: x.to_biguint().unwrap().to_bytes_be() })
}

/// Equality of two byte strings.
fn bytes_eq(x: &Vec<u8>, y: &Vec<u8>) -> (r: bool)
    ensures
        r == (x@ == y@),
{
    if x.len() != y.len() {
        return false;
    }
    let mut i: usize = 0;
    while i < x.len()
        invariant
            i <= x@.len(),
            x@.len() == y@.len(),
            forall|j: int| 0 <= j < i ==> x@[j] == y@[j],
        decreases x@.len() - i,
    {
        if x[i] != y[i] {
            return false;
        }
        i += 1;
    }
    proof {
        assert(x@ =~= y@);
    }
    true
}

/// Equality of the values: two numbers are equal exactly when their
/// minimal big-endian encodings are.
pub(crate) fn big_eq(a: &BigNat, b: &BigNat) -> (r: bool)
    ensures
        r == (a@ == b@),
{
    let x = a.to_bytes_be();
    let y = b.to_bytes_be();
    let r = bytes_eq(&x, &y);
    proof {
        if a@ == b@ {
            if x@.len() > 0 && y@.len() > 0 {
                lemma_pos_be_roundtrip(x@);
                lemma_pos_be_roundtrip(y@);
                assert(x@ == y@);
            } else if x@.len() > 0 {
                lemma_pos_be_roundtrip(x@);
                assert(false);
            } else if y@.len() > 0 {
                lemma_pos_be_roundtrip(y@);
                assert(false);
            } else {
                assert(x@ =~= y@);
            }
        }
    }
    r
}

/// The value of a byte string is below 2^(8 * len).
pub proof fn lemma_as_nat_bound(s: Seq<u8>)
    ensures
        as_nat(s) < pow2(8 * s.len()),
    decreases s.len(),
{
    lemma2_to64();
    if s.len() > 0 {
        lemma_as_nat_bound(s.drop_last());
        lemma_pow2_adds(8 * (s.len() - 1) as nat, 8);
        lemma_mul_inequality(
            as_nat(s.drop_last()) as int,
            pow2(8 * (s.len() - 1) as nat) as int - 1,
            256,
        );
    }
}

/// Bit `8 * j + r` of the value is bit `r` of the byte `j` places from the
/// end of the string.
proof fn lemma_as_nat_bit(s: Seq<u8>, j: nat, r: nat)
    requires
        j < s.len(),
        r < 8,
    ensures
        ((as_nat(s) as int) / (pow2(8 * j + r) as int)) % 2 == ((s[s.len() - 1 - j] as int) / (
        pow2(r) as int)) % 2,
    decreases j,
{
    lemma2_to64();
    lemma_pow2_pos(r);
    lemma_pow2_pos(8 * j + r);
    let h = as_nat(s.drop_last()) as int;
    let last = s.last() as int;
    assert(as_nat(s) as int == h * 256 + last);
    if j == 0 {
        let pr = pow2(r) as int;
        let q = pow2((8 - r) as nat) as int;
        let w = pow2((7 - r) as nat) as int;
        lemma_pow2_adds(r, (8 - r) as nat);
        assert(pr * q == 256);
        lemma_pow2_adds(1, (7 - r) as nat);
        assert(q == 2 * w);
        lemma_mul_is_associative(h, q, pr);
        lemma_mul_is_commutative(q, pr);
        assert((h * q) * pr == h * 256);
        lemma_hoist_over_denominator(last, h * q, pr as nat);
        assert((as_nat(s) as int) / pr == h * q + last / pr);
        lemma_mul_is_associative(h, 2, w);
        lemma_mul_is_commutative(h, 2);
        lemma_mul_is_associative(2, h, w);
        assert(h * q == 2 * (h * w));
        lemma_mod_multiples_vanish(h * w, last / pr, 2);
        assert((h * q + last / pr) % 2 == (last / pr) % 2);
    } else {
        let d = pow2((8 * (j - 1) + r) as nat) as int;
        lemma_pow2_adds(8, (8 * (j - 1) + r) as nat);
        assert(pow2(8 * j + r) as int == 256 * d);
        lemma_fundamental_div_mod_converse(as_nat(s) as int, 256, h, last);
        assert((as_nat(s) as int) / 256 == h);
        lemma_div_denominator(as_nat(s) as int, 256, d);
        assert((as_nat(s) as int) / (pow2(8 * j + r) as int) == h / d);
        lemma_as_nat_bit(s.drop_last(), (j - 1) as nat, r);
        assert(s.drop_last()[s.drop_last().len() - 1 - (j - 1)] == s[s.len() - 1 - j]);
    }
}

/// Bit `k` (of weight `2^k`) of the value, read from the byte string.
pub(crate) fn bit_at(n: &BigNat, k: u128) -> (r: bool)
    ensures
        r == (((n@ as int) / (pow2(k as nat) as int)) % 2 == 1),
{
    let len = n.bytes.len();
    if k / 8 >= len as u128 {
        proof {
            lemma_as_nat_bound(n.bytes@);
            lemma_pow2_pos(k as nat);
            if 8 * (len as nat) < k as nat {
                lemma_pow2_strictly_increases(8 * (len as nat), k as nat);
            }
            lemma_basic_div(n@ as int, pow2(k as nat) as int);
        }
        return false;
    }
    let j: usize = (k / 8) as usize;
    let rbits: usize = (k % 8) as usize;
    proof {
        assert(j as int == k as int / 8);
        assert(rbits as int == k as int % 8);
    }
    let b = n.bytes[len - 1 - j];
    let divisor: u8 = match rbits {
        0 => 1,
        1 => 2,
        2 => 4,
        3 => 8,
        4 => 16,
        5 => 32,
        6 => 64,
        _ => 128,
    };
    let q = b / divisor;
    let res = q % 2 == 1;
    proof {
        lemma2_to64();
        assert(divisor as int == pow2((k as nat) % 8) as int);
        lemma_as_nat_bit(n.bytes@, (k as nat) / 8, (k as nat) % 8);
        assert(8 * ((k as nat) / 8) + (k as nat) % 8 == k as nat);
    }
    res
}

/// The leading byte brackets the value:
/// s[0] * 2^(8(len-1)) <= as_nat(s) < (s[0] + 1) * 2^(8(len-1)).
proof fn lemma_as_nat_first_byte(s: Seq<u8>)
    requires
        s.len() > 0,
    ensures
        (s[0] as int) * (pow2(8 * (s.len() - 1) as nat) as int) <= as_nat(s) as int,
        (as_nat(s) as int) < ((s[0] as int) + 1) * (pow2(8 * (s.len() - 1) as nat) as int),
    decreases s.len(),
{
    lemma2_to64();
    if s.len() == 1 {
        assert(s.drop_last() =~= Seq::<u8>::empty());
        assert(as_nat(Seq::<u8>::empty()) == 0);
        lemma_mul_basics(s[0] as int);
        lemma_mul_basics((s[0] as int) + 1);
    } else {
        let t = s.drop_last();
        lemma_as_nat_first_byte(t);
        let p1 = pow2(8 * (t.len() - 1) as nat) as int;
        let p2 = pow2(8 * (s.len() - 1) as nat) as int;
        lemma_pow2_adds(8 * (t.len() - 1) as nat, 8);
        assert(p2 == p1 * 256);
        let h = as_nat(t) as int;
        let b0 = s[0] as int;
        assert(t[0] == s[0]);
        assert(as_nat(s) as int == h * 256 + s.last());
        lemma_mul_inequality(b0 * p1, h, 256);
        lemma_mul_is_associative(b0, p1, 256);
        assert(b0 * p2 <= h * 256);
        lemma_mul_inequality(h, (b0 + 1) * p1 - 1, 256);
        lemma_mul_is_distributive_sub_other_way(256, (b0 + 1) * p1, 1);
        lemma_mul_is_associative(b0 + 1, p1, 256);
        assert(h * 256 <= (b0 + 1) * p2 - 256);
    }
}

/// The bit length of a value is fixed by the power-of-two window it lies in.
proof fn lemma_bitlen_from_bounds(n: nat, k: nat)
    requires
        k >= 1,
        pow2((k - 1) as nat) <= n,
        n < pow2(k),
    ensures
        bitlen(n) == k,
    decreases k,
{
    lemma2_to64();
    lemma_pow2_pos((k - 1) as nat);
    if k == 1 {
        assert(n == 1);
        assert(bitlen(0) == 0);
    } else {
        lemma_pow2_adds((k - 2) as nat, 1);
        lemma_pow2_adds((k - 1) as nat, 1);
        let lo = pow2((k - 2) as nat) as int;
        let hi = pow2((k - 1) as nat) as int;
        lemma_div_is_ordered(lo * 2, n as int, 2);
        lemma_div_by_multiple(lo, 2);
        lemma_div_is_ordered(n as int, hi * 2 - 1, 2);
        lemma_fundamental_div_mod_converse(hi * 2 - 1, 2, hi - 1, 1);
        lemma_bitlen_from_bounds(n / 2, (k - 1) as nat);
    }
}

/// The number of bits of the value: eight per byte of its minimal
/// encoding, less the unused leading bits of the first byte.
pub(crate) fn bit_len(n: &BigNat) -> (r: u128)
    ensures
        r == bitlen(n@),
{
    let m = n.to_bytes_be();
    if m.len() == 0 {
        proof {
            assert(bitlen(0) == 0);
        }
        return 0;
    }
    let first = m[0];
    let fb: u128 = if first >= 128 {
        8
    } else if first >= 64 {
        7
    } else if first >= 32 {
        6
    } else if first >= 16 {
        5
    } else if first >= 8 {
        4
    } else if first >= 4 {
        3
    } else if first >= 2 {
        2
    } else {
        1
    };
    let r = 8 * (m.len() as u128 - 1) + fb;
    proof {
        lemma2_to64();
        let len = m@.len();
        let fbn = fb as nat;
        assert(pow2((fbn - 1) as nat) <= first as nat && (first as nat) < pow2(fbn));
        lemma_as_nat_first_byte(m@);
        let pw = pow2(8 * (len - 1) as nat) as int;
        lemma_pow2_pos(8 * (len - 1) as nat);
        lemma_mul_inequality(pow2((fbn - 1) as nat) as int, m@[0] as int, pw);
        lemma_pow2_adds((fbn - 1) as nat, 8 * (len - 1) as nat);
        lemma_mul_inequality(m@[0] as int + 1, pow2(fbn) as int, pw);
        lemma_pow2_adds(fbn, 8 * (len - 1) as nat);
        lemma_bitlen_from_bounds(n@, (8 * (len - 1) + fbn) as nat);
    }
    r
}

/// Relies on `sha3::Sha3_256::digest`: the 32-byte SHA3-256 digest of the
/// input bytes, a function of those bytes alone.
#[verifier::external_body]
pub(crate) fn sha3_256(data: &Vec<u8>) -> (r: Vec<u8>)
    ensures
        r@ == sha3_256_of(data@),
        r@.len() == 32,
{
    <sha3::Sha3_256 as sha3::Digest>::digest(data.as_slice()).as_slice().to_vec()
}

} // verus!
