use subotai::hash::{SubotaiHash, HASH_SIZE};
use subotai::node::hash::Sha1Hash;
use std::cmp::Ordering;

#[test]
fn random_generation() {
    assert!(SubotaiHash::random() != SubotaiHash::random());
}

#[test]
fn xor() {
    let alpha = SubotaiHash::random();
    let beta = SubotaiHash { raw: alpha.raw };

    let reference_xor = alpha.xor(&beta);
    let value_xor = beta.xor(&alpha);

    for (a, b) in reference_xor.raw.iter().zip(value_xor.raw.iter()) {
        assert_eq!(*a, 0x00);
        assert_eq!(*b, 0x00);
    }
}

#[test]
fn computing_height() {
    let mut test_hash = SubotaiHash::blank();
    assert!(test_hash.height().is_none());

    // First bit
    test_hash.raw[0] = 1;
    assert_eq!(test_hash.height(), Some(0));

    // Fourth bit (index 3)
    test_hash.raw[0] = test_hash.raw[0] | (1 << 3);
    assert_eq!(test_hash.height(), Some(3));

    // Last bit (index 159)
    test_hash.raw[19] = 1 << 7;
    assert_eq!(test_hash.height(), Some(159));
}

#[test]
fn bit_flipping() {
    let mut test_hash = SubotaiHash::blank();
    test_hash.flip_bit(9);
    assert_eq!(test_hash.raw[1], 2);
    test_hash.flip_bit(9);
    assert_eq!(test_hash.raw[1], 0);
}

#[test]
fn iterating_over_ones() {
    let mut test_hash = SubotaiHash::blank();
    let bits = vec![5usize, 20, 40];

    for bit in &bits {
        test_hash.flip_bit(*bit);
    }

    let mut ones = test_hash.ones();
    for expected in bits {
        assert_eq!(ones.next(), Some(expected));
    }
    assert_eq!(ones.next(), None);
}

#[test]
fn random_at_a_distance() {
    let test_hash = SubotaiHash::random();
    let distance = 30usize;
    let random_at_30 = SubotaiHash::random_at_distance(&test_hash, distance);
    let distance_hash = test_hash.xor(&random_at_30);

    // Every bit from the distance up is the reference's, so the XOR
    // distance has no bit set there.
    match distance_hash.height() {
        Some(h) => assert!(h < distance),
        None => (),
    }
    for i in distance..HASH_SIZE {
        assert_eq!(test_hash.bit(i), random_at_30.bit(i));
    }
}

#[test]
fn random_at_distance_zero_is_the_reference() {
    let reference = SubotaiHash::random();
    assert_eq!(SubotaiHash::random_at_distance(&reference, 0), reference);
}

#[test]
fn at_distance_takes_low_bits_from_noise() {
    let reference = SubotaiHash::blank();
    let mut noise = SubotaiHash::blank();
    noise.raw = [0xFF; 20];
    let mixed = SubotaiHash::at_distance_with(&reference, 10, &noise);
    assert_eq!(mixed.raw[0], 0xFF);
    assert_eq!(mixed.raw[1], 0x03);
    assert_eq!(mixed.raw[2], 0x00);
    assert_eq!(mixed.height(), Some(9));
}

#[test]
fn flipping_twice_is_the_identity() {
    let start = SubotaiHash::random();
    let mut h = start;
    h.flip_bit(77);
    assert!(h != start);
    h.flip_bit(77);
    assert_eq!(h, start);
}

#[test]
fn flipping_out_of_range_does_nothing() {
    let start = SubotaiHash::random();
    let mut h = start;
    h.flip_bit(160);
    assert_eq!(h, start);
}

#[test]
fn xor_with_self_is_blank() {
    let a = SubotaiHash::random();
    assert_eq!(a.xor(&a), SubotaiHash::blank());
}

#[test]
fn xor_of_known_bytes() {
    let mut a = SubotaiHash::blank();
    let mut b = SubotaiHash::blank();
    a.raw[3] = 0b1010;
    b.raw[3] = 0b0110;
    let x = a.xor(&b);
    assert_eq!(x.raw[3], 0b1100);
    assert_eq!(x.height(), Some(27));
}

#[test]
fn comparing_by_numeric_value() {
    let mut low = SubotaiHash::blank();
    let mut high = SubotaiHash::blank();
    low.raw[0] = 0xFF;
    high.raw[19] = 0x01;
    assert_eq!(low.compare(&high), Ordering::Less);
    assert_eq!(high.compare(&low), Ordering::Greater);
    assert_eq!(low.compare(&low), Ordering::Equal);
}

#[test]
fn iterating_over_zeroes_both_ways() {
    let mut h = SubotaiHash::blank();
    h.raw = [0xFF; 20];
    h.flip_bit(3);
    h.flip_bit(150);
    let mut zeroes = h.zeroes();
    assert_eq!(zeroes.next(), Some(3));
    assert_eq!(zeroes.next_back(), Some(150));
    assert_eq!(zeroes.next(), None);
    assert_eq!(zeroes.next_back(), None);
}

#[test]
fn consuming_iterators() {
    let mut h = SubotaiHash::blank();
    h.flip_bit(0);
    h.flip_bit(159);
    let mut ones = h.into_ones();
    assert_eq!(ones.next_back(), Some(159));
    assert_eq!(ones.next_back(), Some(0));
    assert_eq!(ones.next(), None);
    let mut zeroes = h.into_zeroes();
    assert_eq!(zeroes.next(), Some(1));
    assert_eq!(zeroes.next_back(), Some(158));
}

#[test]
fn generating_key_from_string() {
    let input = "The quick brown fox jumps over the lazy dog";
    let output_string = "2fd4e1c67a2d28fced849ee1bb76e7391b93eb12";
    let hash = Sha1Hash::from_string(input);

    assert_eq!(output_string, hash.to_string());
}

#[test]
fn hex_of_small_bytes_has_no_leading_zero() {
    let mut hash = Sha1Hash::new();
    hash.raw[0] = 0x0a;
    hash.raw[1] = 0xb0;
    let s = hash.to_string();
    assert!(s.starts_with("ab0000"));
    assert_eq!(s.len(), 2 + 1 + 18);
}
