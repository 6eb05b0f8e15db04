//! End-to-end tests of the E-521 Diffie-Hellman library, checked against
//! independently computed values.

use e521::field::{inverse, sqrt};
use e521::{
    diffie_hellman, generate_private_key, generate_public_key, generate_salt,
    generate_secret_key, generator, generator_x, point_from_x, BigNat, Error, Point,
    PointOperations,
};

fn gen_point() -> Point {
    generator().expect("the fixed generator must decompress")
}

#[test]
fn generator_decompresses_to_y_12() {
    let g = gen_point();
    assert_eq!(g.x.to_bytes_be(), vec![117, 44, 180, 92, 72, 100, 139, 24, 157, 249, 12, 178, 41, 107, 40, 120, 163, 191, 217, 244, 47, 198, 200, 24, 236, 139, 243, 201, 192, 198, 32, 57, 19, 246, 236, 197, 204, 199, 36, 52, 177, 174, 148, 157, 86, 143, 201, 156, 96, 89, 208, 251, 19, 54, 72, 56, 170, 48, 42, 148, 10, 47, 25, 186, 108]);
    assert_eq!(g.y.to_bytes_be(), vec![12]);
    assert!(g.is_on_curve());
}

#[test]
fn identity_is_neutral_for_add() {
    let g = gen_point();
    let id = Point::identity();
    let r1 = g.add(&id).unwrap();
    let r2 = id.add(&g).unwrap();
    assert!(r1.coords_equal(&g));
    assert!(r2.coords_equal(&g));
}

#[test]
fn addition_stays_on_curve() {
    let g = gen_point();
    let g2 = g.add(&g).unwrap();
    assert!(g2.is_on_curve());
    let g3 = g.add(&g2).unwrap();
    assert!(g3.is_on_curve());
    let g4 = g2.add(&g2).unwrap();
    assert!(g4.is_on_curve());
}

#[test]
fn doubling_the_generator_matches_reference() {
    let g = gen_point();
    let g2 = g.add(&g).unwrap();
    assert_eq!(g2.x.to_bytes_be(), vec![170, 213, 119, 76, 29, 205, 128, 165, 131, 229, 14, 73, 228, 32, 174, 198, 48, 148, 61, 92, 42, 195, 121, 243, 68, 182, 107, 193, 244, 65, 78, 79, 167, 203, 24, 252, 66, 229, 108, 44, 179, 66, 209, 85, 242, 146, 177, 174, 109, 74, 102, 38, 98, 108, 93, 147, 7, 116, 247, 128, 82, 158, 166, 56, 183]);
    assert_eq!(g2.y.to_bytes_be(), vec![1, 149, 113, 69, 188, 94, 5, 108, 168, 220, 219, 248, 9, 236, 145, 47, 238, 173, 80, 104, 220, 10, 47, 151, 62, 175, 84, 243, 190, 96, 40, 23, 193, 194, 26, 169, 191, 165, 150, 152, 210, 155, 171, 255, 169, 57, 195, 12, 50, 149, 110, 7, 72, 181, 2, 212, 147, 69, 146, 144, 157, 137, 239, 26, 112, 43]);
}

#[test]
fn scalar_zero_gives_identity() {
    let g = gen_point();
    let zero = BigNat::from_bytes(vec![]);
    let r = g.scalar_mul(&zero).unwrap();
    assert!(r.coords_equal(&Point::identity()));
    let zero_padded = BigNat::from_bytes(vec![0, 0, 0]);
    let r2 = g.scalar_mul(&zero_padded).unwrap();
    assert!(r2.coords_equal(&Point::identity()));
}

#[test]
fn scalar_one_gives_base_point() {
    let g = gen_point();
    let one = BigNat::from_bytes(vec![1]);
    let r = g.scalar_mul(&one).unwrap();
    assert!(r.coords_equal(&g));
}

#[test]
fn scalar_two_is_one_doubling() {
    let g = gen_point();
    let two = BigNat::from_bytes(vec![2]);
    let r = g.scalar_mul(&two).unwrap();
    let g2 = g.add(&g).unwrap();
    assert!(r.coords_equal(&g2));
}

#[test]
fn scalar_five_matches_reference() {
    let g = gen_point();
    let five = BigNat::from_bytes(vec![5]);
    let r = g.multiple_number_by_montgomery(&five).unwrap();
    assert_eq!(r.x.to_bytes_be(), vec![176, 142, 217, 82, 84, 51, 220, 37, 72, 148, 22, 42, 45, 207, 239, 145, 54, 33, 253, 100, 150, 149, 42, 128, 162, 200, 72, 106, 127, 143, 22, 156, 35, 157, 112, 32, 223, 68, 46, 137, 169, 76, 197, 217, 146, 222, 174, 169, 225, 233, 35, 143, 177, 91, 189, 53, 55, 183, 120, 246, 192, 6, 56, 73, 252]);
    assert_eq!(r.y.to_bytes_be(), vec![1, 94, 132, 199, 214, 228, 7, 222, 133, 194, 63, 174, 178, 38, 222, 92, 118, 63, 2, 64, 63, 5, 168, 219, 245, 175, 121, 122, 175, 101, 211, 194, 221, 30, 124, 151, 0, 179, 94, 126, 246, 172, 247, 70, 35, 22, 97, 229, 2, 121, 204, 1, 150, 129, 39, 158, 105, 18, 76, 102, 247, 167, 112, 154, 58, 209]);
}

#[test]
fn scalar_multiple_stays_on_curve() {
    let g = gen_point();
    let n = BigNat::from_bytes(vec![0x12, 0x34, 0x56, 0x78, 0x9a]);
    let r = g.scalar_mul(&n).unwrap();
    assert!(r.is_on_curve());
}

#[test]
fn shared_secret_commutes_for_fixed_scalars() {
    let a = BigNat::from_bytes(vec![18, 52, 86, 120, 144, 171, 205, 239]);
    let b = BigNat::from_bytes(vec![254, 220, 186, 9, 135, 101, 67, 33]);
    let pub_a = generate_public_key(&a).unwrap();
    let pub_b = generate_public_key(&b).unwrap();
    let s_ab = diffie_hellman(&a, &pub_b).unwrap();
    let s_ba = diffie_hellman(&b, &pub_a).unwrap();
    assert!(s_ab.coords_equal(&s_ba));
    let key_ab = generate_secret_key(s_ab);
    let key_ba = generate_secret_key(s_ba);
    assert_eq!(key_ab, key_ba);
    assert_eq!(key_ab, vec![146, 121, 97, 9, 234, 78, 63, 181, 82, 14, 81, 160, 216, 250, 138, 71, 128, 168, 243, 98, 205, 44, 58, 119, 189, 182, 22, 8, 84, 4, 251, 10]);
}

#[test]
fn shared_secret_commutes_for_random_scalars() {
    let a = generate_private_key();
    let b = generate_private_key();
    let pub_a = generate_public_key(&a).unwrap();
    let pub_b = generate_public_key(&b).unwrap();
    let s_ab = diffie_hellman(&a, &pub_b).unwrap();
    let s_ba = diffie_hellman(&b, &pub_a).unwrap();
    assert!(s_ab.coords_equal(&s_ba));
    assert_eq!(generate_secret_key(s_ab), generate_secret_key(s_ba));
}

#[test]
fn point_from_x_round_trips_the_y_parity() {
    let g = gen_point();
    let y_bytes = g.y.to_bytes_be();
    let parity = y_bytes.last().map(|b| b & 1 == 1).unwrap_or(false);
    let again = point_from_x(&g.x, parity).unwrap();
    assert_eq!(again.y.to_bytes_be(), g.y.to_bytes_be());
    let other = point_from_x(&generator_x(), !parity).unwrap();
    assert_ne!(other.y.to_bytes_be(), g.y.to_bytes_be());
    assert!(other.is_on_curve());
}

#[test]
fn point_from_x_rejects_a_non_residue() {
    let x = BigNat::from_bytes(vec![5]);
    match point_from_x(&x, true) {
        Err(Error::NoSquareRoot) => {},
        _ => panic!("expected NoSquareRoot"),
    }
}

#[test]
fn unchecked_parity_match_can_leave_the_curve() {
    // The square root verifies its candidate only when it flips the
    // parity, so the other parity yields a point that is not on the
    // curve; is_on_curve is the caller's validity check.
    let x = BigNat::from_bytes(vec![5]);
    let p = point_from_x(&x, false).unwrap();
    assert!(!p.is_on_curve());
}

#[test]
fn point_from_default_parity_is_odd() {
    let g = gen_point();
    let p = Point::from(&g.x).unwrap();
    let y_bytes = p.y.to_bytes_be();
    assert_eq!(y_bytes.last().map(|b| b & 1), Some(1));
    assert!(p.is_on_curve());
}

#[test]
fn sqrt_of_four_picks_the_requested_parity() {
    let four = BigNat::from_bytes(vec![4]);
    let even = sqrt(&four, false).unwrap();
    assert_eq!(even.to_bytes_be(), vec![2]);
    let odd = sqrt(&four, true).unwrap();
    assert_eq!(odd.to_bytes_be(), vec![1, 255, 255, 255, 255, 255, 255, 255, 255, 255, 255, 255, 255, 255, 255, 255, 255, 255, 255, 255, 255, 255, 255, 255, 255, 255, 255, 255, 255, 255, 255, 255, 255, 255, 255, 255, 255, 255, 255, 255, 255, 255, 255, 255, 255, 255, 255, 255, 255, 255, 255, 255, 255, 255, 255, 255, 255, 255, 255, 255, 255, 255, 255, 255, 255, 253]);
}

#[test]
fn sqrt_of_zero_is_zero() {
    let zero = BigNat::from_bytes(vec![]);
    let r = sqrt(&zero, true).unwrap();
    assert_eq!(r.to_bytes_be(), Vec::<u8>::new());
}

#[test]
fn inverse_of_two_is_the_half_constant() {
    let two = BigNat::from_bytes(vec![2]);
    let r = inverse(&two).unwrap();
    assert_eq!(r.to_bytes_be(), vec![1, 0, 0, 0, 0, 0, 0, 0, 0, 0, 0, 0, 0, 0, 0, 0, 0, 0, 0, 0, 0, 0, 0, 0, 0, 0, 0, 0, 0, 0, 0, 0, 0, 0, 0, 0, 0, 0, 0, 0, 0, 0, 0, 0, 0, 0, 0, 0, 0, 0, 0, 0, 0, 0, 0, 0, 0, 0, 0, 0, 0, 0, 0, 0, 0, 0]);
}

#[test]
fn inverse_of_zero_fails() {
    let zero = BigNat::from_bytes(vec![]);
    match inverse(&zero) {
        Err(Error::NonInvertible) => {},
        _ => panic!("expected NonInvertible"),
    }
}

#[test]
fn secret_key_of_generator_matches_reference() {
    let g = gen_point();
    let key = generate_secret_key(g);
    assert_eq!(key.len(), 32);
    assert_eq!(key, vec![58, 213, 69, 31, 186, 25, 107, 128, 93, 145, 80, 94, 182, 15, 73, 102, 28, 27, 88, 124, 4, 81, 250, 67, 9, 72, 86, 183, 43, 104, 64, 83]);
}

#[test]
fn secret_key_of_identity_hashes_a_zero_byte() {
    let id = Point::identity();
    let key = generate_secret_key(id);
    assert_eq!(key.len(), 32);
    // x * y == 0, encoded as the single zero byte before hashing.
    assert_eq!(key, vec![93, 83, 70, 159, 32, 254, 244, 248, 234, 181, 43, 136, 4, 78, 222, 105, 199, 122, 106, 104, 166, 7, 40, 96, 159, 196, 166, 95, 245, 49, 231, 208]);
}

#[test]
fn salt_is_at_most_sixteen_bytes() {
    let salt = generate_salt();
    assert!(salt.len() <= 16);
    let key = generate_private_key();
    let bytes = key.to_bytes_be();
    assert!(bytes.len() <= 125);
}

#[test]
fn generator_x_matches_decimal_constant() {
    let decimal = "1571054894184995387535939749894317568645297350402905821437625181152304994381188529632591196067604100772673927915114267193389905003276673749012051148356041324";
    let parsed = num_bigint_dig::BigUint::parse_bytes(decimal.as_bytes(), 10).unwrap();
    assert_eq!(parsed.to_bytes_be(), generator_x().to_bytes_be());
}

#[test]
fn add_through_the_trait_matches_the_inherent_law() {
    let g = gen_point();
    let via_trait = PointOperations::add(&g, &g).unwrap();
    let direct = g.add(&g).unwrap();
    assert!(via_trait.coords_equal(&direct));
}
