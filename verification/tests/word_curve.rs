use portal_verkle::commitment::{commit_sparse, Commitment};
use portal_verkle::curve::{scalar_one, scalar_zero, Curve};
use portal_verkle::numbers::{u64_to_le_bytes, u64_to_le_bytes32};
use portal_verkle::primitives::Stem;
use portal_verkle::word_curve::{
    add_bytes, mul_byte, mul_bytes, shift_byte, sub_bytes, WordCurve, WordPoint, WordScalar,
};

fn word(x: u128) -> [u8; 32] {
    let mut bytes = [0u8; 32];
    bytes[..16].copy_from_slice(&x.to_le_bytes());
    bytes
}

#[test]
fn words_add_with_carry() {
    assert_eq!(add_bytes(&word(1), &word(2)), word(3));
    assert_eq!(add_bytes(&word(0xff), &word(1)), word(0x100));
    let mut carried = [0u8; 32];
    carried[16] = 1;
    assert_eq!(add_bytes(&word(u128::MAX), &word(1)), carried);
    // 2^256 - 1 + 1 wraps to 0
    assert_eq!(add_bytes(&[0xff; 32], &word(1)), [0u8; 32]);
}

#[test]
fn words_subtract_with_borrow() {
    assert_eq!(sub_bytes(&word(5), &word(3)), word(2));
    assert_eq!(sub_bytes(&word(0x100), &word(1)), word(0xff));
    assert_eq!(sub_bytes(&word(0), &word(1)), [0xff; 32]);
    assert_eq!(sub_bytes(&word(7), &word(7)), word(0));
}

#[test]
fn words_multiply() {
    assert_eq!(mul_byte(&word(300), 3), word(900));
    assert_eq!(shift_byte(&word(0x1234)), word(0x123400));
    assert_eq!(mul_bytes(&word(1 << 64), &word(1 << 63)), word(1 << 127));
    assert_eq!(mul_bytes(&word(123_456_789), &word(987_654_321)), word(121_932_631_112_635_269));
    // (2^256 - 1)^2 = 1 modulo 2^256
    assert_eq!(mul_bytes(&[0xff; 32], &[0xff; 32]), word(1));
    let mut top = [0u8; 32];
    top[31] = 0x80;
    // 2^255 * 2 wraps to 0
    assert_eq!(mul_bytes(&top, &word(2)), word(0));
}

#[test]
fn numbers_spell_little_endian() {
    assert_eq!(u64_to_le_bytes(0x0102_0304_0506_0708), [8, 7, 6, 5, 4, 3, 2, 1]);
    assert_eq!(u64_to_le_bytes32(258)[..3], [2, 1, 0]);
    assert_eq!(u64_to_le_bytes32(u64::MAX)[8..], [0u8; 24]);
}

#[test]
fn scalars_from_bytes() {
    assert_eq!(WordCurve::scalar_from_le_bytes(&[]), WordScalar { bytes: [0; 32] });
    assert_eq!(WordCurve::scalar_from_le_bytes(&[7, 1]), WordScalar { bytes: word(263) });
    // bytes beyond the 32nd fall away
    let long = [3u8; 40];
    assert_eq!(WordCurve::scalar_from_le_bytes(&long), WordScalar { bytes: [3; 32] });
    assert_eq!(scalar_zero::<WordCurve>(), WordScalar { bytes: word(0) });
    assert_eq!(scalar_one::<WordCurve>(), WordScalar { bytes: word(1) });
    assert!(WordCurve::scalar_is_zero(&scalar_zero::<WordCurve>()));
    assert!(!WordCurve::scalar_is_zero(&scalar_one::<WordCurve>()));
    let five = WordScalar { bytes: word(5) };
    assert_eq!(WordCurve::scalar_to_le_bytes(&five), word(5));
    assert_eq!(WordCurve::scalar_sub(&five, &scalar_one::<WordCurve>()).bytes, word(4));
}

#[test]
fn stems_are_scalars_little_endian() {
    let mut bytes = [0u8; 31];
    bytes[0] = 2;
    bytes[30] = 1;
    let scalar = Stem::new(bytes).to_scalar::<WordCurve>();
    let mut expected = [0u8; 32];
    expected[0] = 2;
    expected[30] = 1;
    assert_eq!(scalar.bytes, expected);
}

#[test]
fn the_group_laws_hold_on_samples() {
    let a = WordPoint { bytes: [0x11; 32] };
    let b = WordPoint { bytes: [0xfe; 32] };
    let c = WordPoint { bytes: word(0xdead_beef) };
    let zero = WordCurve::point_zero();
    assert_eq!(WordCurve::point_add(&a, &b), WordCurve::point_add(&b, &a));
    assert_eq!(
        WordCurve::point_add(&WordCurve::point_add(&a, &b), &c),
        WordCurve::point_add(&a, &WordCurve::point_add(&b, &c))
    );
    assert_eq!(WordCurve::point_add(&a, &zero), a);
    assert!(WordCurve::point_is_zero(&zero));
    assert!(!WordCurve::point_is_zero(&a));
    assert!(WordCurve::point_eq(&a, &a));
    assert!(!WordCurve::point_eq(&a, &b));
    assert_eq!(WordCurve::map_to_scalar_field(&zero), WordScalar { bytes: [0; 32] });
}

#[test]
fn commitments_are_linear_in_the_scalar() {
    let s = WordScalar { bytes: [0x77; 32] };
    let t = WordScalar { bytes: [0x9a; 32] };
    let difference = WordCurve::scalar_sub(&s, &t);
    for index in [0u8, 1, 17, 255] {
        let whole = WordCurve::commit_single(index, &s);
        let parts = WordCurve::point_add(
            &WordCurve::commit_single(index, &t),
            &WordCurve::commit_single(index, &difference),
        );
        assert_eq!(whole, parts);
        assert!(WordCurve::point_is_zero(&WordCurve::commit_single(
            index,
            &scalar_zero::<WordCurve>()
        )));
    }
    assert_ne!(WordCurve::commit_single(0, &s), WordCurve::commit_single(1, &s));
}

#[test]
fn sparse_commitment_is_the_sum_of_single_ones() {
    let s = WordScalar { bytes: [0x77; 32] };
    let t = WordScalar { bytes: [0x9a; 32] };
    let sparse = commit_sparse::<WordCurve>(&[(3, s), (200, t)]);
    let sum = WordCurve::point_add(
        &WordCurve::commit_single(3, &s),
        &WordCurve::commit_single(200, &t),
    );
    assert_eq!(sparse, sum);
    assert_eq!(commit_sparse::<WordCurve>(&[]), WordCurve::point_zero());
}

#[test]
fn commitment_remembers_its_image_until_it_changes() {
    let mut commitment = Commitment::<WordCurve>::zero();
    assert!(commitment.is_zero());
    assert_eq!(commitment.commitment_hash(), scalar_zero::<WordCurve>());
    let delta = WordPoint { bytes: word(5) };
    commitment.add_delta(&delta);
    assert_eq!(*commitment.commitment(), delta);
    let image = commitment.commitment_hash();
    assert_eq!(image, WordCurve::map_to_scalar_field(&delta));
    assert_eq!(commitment.commitment_hash(), image);
    commitment.add_delta(&delta);
    assert_eq!(
        commitment.commitment_hash(),
        WordCurve::map_to_scalar_field(&WordPoint { bytes: word(10) })
    );
}
