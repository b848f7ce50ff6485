use hypervector::binary_hdv::{BinaryAccumulator, BinaryHDV};
use hypervector::bipolar_hdv::BipolarHDV;
use hypervector::{nearest_binary, nearest_bipolar};
use mersenne_twister_rs::MersenneTwister;

#[test]
fn binary_permute_unpermute_round_trip() {
    let mut rng = MersenneTwister::new(3);
    let v = BinaryHDV::random(&mut rng, 7);
    for k in [0usize, 1, 3, 6, 7, 8, 100] {
        assert_eq!(v.permute(k).unpermute(k), v);
    }
}

#[test]
fn bipolar_permute_unpermute_round_trip() {
    let mut rng = MersenneTwister::new(4);
    let v = BipolarHDV::random(&mut rng, 33);
    for k in [0usize, 1, 5, 32, 33, 34, 1000] {
        assert_eq!(v.permute(k).unpermute(k), v);
    }
}

#[test]
fn binary_permute_rotates_words() {
    let v = BinaryHDV { data: vec![10, 20, 30, 40] };
    let p = v.permute(1);
    assert_eq!(p.data, vec![20, 30, 40, 10]);
    let q = v.unpermute(1);
    assert_eq!(q.data, vec![40, 10, 20, 30]);
}

#[test]
fn binary_multiply_is_xor() {
    let a = BinaryHDV { data: vec![0b1100, 0b1010] };
    let b = BinaryHDV { data: vec![0b1010, 0b0110] };
    let c = a.multiply(&b);
    assert_eq!(c.data, vec![0b0110, 0b1100]);
    // self-inverse: unbinding with b recovers a exactly
    assert_eq!(c.unbind(&b), a);
}

#[test]
fn binary_xnor_marks_agreement() {
    let a = BinaryHDV { data: vec![0b1100] };
    let b = BinaryHDV { data: vec![0b1010] };
    let c = a.xnor(&b);
    assert_eq!(c.data, vec![!0b0110u64]);
}

#[test]
fn binary_pmultiply_permutes_then_multiplies() {
    let a = BinaryHDV { data: vec![1, 2, 3, 4] };
    let b = BinaryHDV { data: vec![5, 6, 7, 8] };
    let r = a.pmultiply(1, &b, 2);
    // rotate(a, 1) = [2, 3, 4, 1]; rotate(b, 2) = [7, 8, 5, 6]
    assert_eq!(r.data, vec![2 ^ 7, 3 ^ 8, 4 ^ 5, 1 ^ 6]);
    assert_eq!(a.pbind(1, &b, 2), r);
    assert_eq!(a.punbind(1, &b, 2), r);
}

#[test]
fn bipolar_pmultiply_permutes_then_multiplies() {
    let a = BipolarHDV::from_slice(&[1, -1, 1]);
    let b = BipolarHDV::from_slice(&[-1, 1, 1]);
    let r = a.pmultiply(1, &b, 2);
    // rotate(a, 1) = [-1, 1, 1]; rotate(b, 2) = [1, -1, 1]
    assert_eq!(r, BipolarHDV::from_slice(&[-1, -1, 1]));
}

#[test]
fn binary_zero_ident_is_zero() {
    let z = BinaryHDV::zero(3);
    assert!(z.is_zero());
    assert_eq!(BinaryHDV::ident(3), z);
    let mut nz = BinaryHDV::zero(3);
    nz.data[2] = 4;
    assert!(!nz.is_zero());
    // the identity is neutral for binding
    assert_eq!(nz.bind(&BinaryHDV::ident(3)), nz);
}

#[test]
fn bipolar_ident_is_all_ones() {
    let e = BipolarHDV::ident(4);
    assert_eq!(e, BipolarHDV::from_slice(&[1, 1, 1, 1]));
    let v = BipolarHDV::from_slice(&[1, -1, -1, 1]);
    assert_eq!(v.bind(&e), v);
}

#[test]
fn binary_from_slice_packs_bits() {
    let v = BinaryHDV::from_slice(&[1, -1, 1, -1, -1, 1], 1);
    assert_eq!(v.data, vec![0b100101]);
    // a full-width sample
    let w = BinaryHDV::from_slice(&[1; 64], 1);
    assert_eq!(w.data, vec![u64::MAX]);
}

#[test]
fn binary_as_u8_vec_lists_bits() {
    let v = BinaryHDV { data: vec![5] };
    let bits = v.as_u8_vec();
    assert_eq!(bits.len(), 64);
    assert_eq!(&bits[0..4], &[1, 0, 1, 0]);
    assert_eq!(bits[4..].iter().map(|&b| b as usize).sum::<usize>(), 0);
}

#[test]
fn binary_hamming_distance_counts_differing_bits() {
    let a = BinaryHDV { data: vec![0b1111, 0] };
    let b = BinaryHDV { data: vec![0b0101, 1] };
    assert_eq!(a.hamming_distance(&b), 3);
    assert_eq!(b.hamming_distance(&a), 3);
    assert_eq!(a.hamming_distance(&a), 0);
}

#[test]
fn bipolar_dot_counts_agreement() {
    let a = BipolarHDV::from_slice(&[1, 1, -1, -1]);
    let b = BipolarHDV::from_slice(&[1, -1, -1, 1]);
    assert_eq!(a.dot(&b), 0);
    assert_eq!(a.dot(&a), 4);
    let c = BipolarHDV::from_slice(&[-1, -1, 1, 1]);
    assert_eq!(a.dot(&c), -4);
}

#[test]
fn binary_blend_takes_listed_bits_from_other() {
    let a = BinaryHDV { data: vec![0xF0] };
    let b = BinaryHDV { data: vec![0x0F] };
    let r = a.blend(&b, &[0, 1]);
    assert_eq!(r.data, vec![0xF3]);
    let unchanged = a.blend(&b, &[]);
    assert_eq!(unchanged, a);
}

#[test]
fn binary_flip_inverts_exactly_that_many_bits() {
    let mut rng = MersenneTwister::new(11);
    let v = BinaryHDV::zero(2);
    let f = v.flip(5, &mut rng);
    assert_eq!(v.hamming_distance(&f), 5);
    let same = v.flip(0, &mut rng);
    assert_eq!(same, v);
    let all = v.flip(1000, &mut rng);
    assert_eq!(v.hamming_distance(&all), 128);
}

#[test]
fn binary_write_csv_renders_bits() {
    let v = BinaryHDV { data: vec![5] };
    let line = v.write_csv();
    let mut expected = Vec::new();
    for i in 0..64u64 {
        if i > 0 {
            expected.push(b',');
        }
        expected.push(if (5u64 >> i) & 1 == 1 { b'1' } else { b'0' });
    }
    expected.push(b'\n');
    assert_eq!(line, expected);
    assert_eq!(&line[0..6], b"1,0,1,");
    assert_eq!(line.len(), 128);
}

#[test]
fn nearest_prefers_smallest_distance() {
    let x = BinaryHDV { data: vec![0b1111] };
    let c0 = BinaryHDV { data: vec![0] };
    let c1 = BinaryHDV { data: vec![0b0111] };
    let c2 = BinaryHDV { data: vec![0b1111] };
    let idx = nearest_binary(&x, &vec![c0, c1, c2]);
    assert_eq!(idx, 2);

    let sx = BipolarHDV::from_slice(&[1, 1, 1, 1]);
    let s0 = BipolarHDV::from_slice(&[-1, -1, -1, -1]);
    let s1 = BipolarHDV::from_slice(&[1, 1, -1, -1]);
    let s2 = BipolarHDV::from_slice(&[1, 1, 1, -1]);
    let idx = nearest_bipolar(&sx, &vec![s0, s1, s2]);
    assert_eq!(idx, 2);
}

#[test]
fn binary_random_has_requested_dimension() {
    let mut rng = MersenneTwister::new(9);
    let v = BinaryHDV::random(&mut rng, 13);
    assert_eq!(v.data.len(), 13);
    let s = BipolarHDV::random(&mut rng, 10);
    assert_eq!(s.data.len(), 10);
    for e in &s.data {
        assert!(*e == 1 || *e == -1);
    }
}

#[test]
fn binary_weighted_votes_compare_to_batch_with_copies() {
    // weight w behaves like feeding the vector w times
    let v1 = BinaryHDV { data: vec![0b0011] };
    let v2 = BinaryHDV { data: vec![0b0101] };
    let batch = BinaryHDV::bundle(&[&v1, &v1, &v1, &v2, &v2]);
    let mut acc = BinaryAccumulator::new(1);
    acc.add(&v1, 3);
    acc.add(&v2, 2);
    assert_eq!(acc.finalize(), batch);
}
