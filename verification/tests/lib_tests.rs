use hypervector::binary_hdv::{BinaryAccumulator, BinaryHDV};
use hypervector::bipolar_hdv::{BipolarAccumulator, BipolarHDV};
use hypervector::{example_mexican_dollar_binary, example_mexican_dollar_bipolar, Accumulator};
use mersenne_twister_rs::MersenneTwister;

#[test]
fn test_binary_accumulate() {
    let v1 = BinaryHDV::from_slice(&[1, -1, 1, -1, -1], 64);
    let v2 = BinaryHDV::from_slice(&[1, -1, -1, -1, -1], 64);
    let v3 = BinaryHDV::from_slice(&[1, -1, -1, 1, -1], 64);
    let expected = BinaryHDV::from_slice(&[1, -1, -1, -1, -1], 64);

    let mut acc = BinaryAccumulator::new(64);
    acc.add(&v1, 1);
    acc.add(&v2, 1);
    acc.add(&v3, 1);
    let result = acc.finalize();
    assert_eq!(result, expected);

    let result = BinaryHDV::bundle(&[&v1, &v2, &v3]);
    assert_eq!(result, expected);
}

#[test]
fn test_bipolar_accumulate() {
    let v1 = BipolarHDV::from_slice(&[1, -1, 1, -1, -1]);
    let v2 = BipolarHDV::from_slice(&[1, -1, -1, -1, -1]);
    let v3 = BipolarHDV::from_slice(&[1, -1, -1, 1, -1]);
    let expected = BipolarHDV::from_slice(&[1, -1, -1, -1, -1]);

    let mut acc = BipolarAccumulator::new(5);
    acc.add(&v1, 1);
    acc.add(&v2, 1);
    acc.add(&v3, 1);
    let result = acc.finalize();
    assert_eq!(result, expected);

    let result = BipolarHDV::bundle(&[&v1, &v2, &v3]);
    assert_eq!(result, expected);
}

#[test]
fn test_binary_bind_unbind() {
    let mut rng = MersenneTwister::new(42);
    let a = BinaryHDV::random(&mut rng, 64);
    let b = BinaryHDV::random(&mut rng, 64);
    let c = a.bind(&b);
    let d = c.unbind(&b);
    let dist = a.hamming_distance(&d) as f32 / (64.0 * 64.0);
    assert!(dist <= 0.0);
}

#[test]
fn test_bipolar_bind_unbind() {
    let mut rng = MersenneTwister::new(42);
    let a = BipolarHDV::random(&mut rng, 1024);
    let b = BipolarHDV::random(&mut rng, 1024);
    let c = a.bind(&b);
    let d = c.unbind(&b);
    let dist = 1.0 - a.dot(&d) as f32 / 1024.0;
    assert!(dist <= 0.01);
}

#[test]
fn binary_mexican_dollar() {
    // 16 words of 64 bits = 1024 bits
    assert_eq!(example_mexican_dollar_binary(16), "mpe");
}

#[test]
fn bipolar_mexican_dollar() {
    assert_eq!(example_mexican_dollar_bipolar(1024), "mpe");
}

#[test]
fn binary_bundle_golden_triple() {
    // Two words of 64 bits; bit patterns 0b0101/0b0, 0b0001/0b0, 0b1001/0b1.
    let a = BinaryHDV { data: vec![5, 0] };
    let b = BinaryHDV { data: vec![1, 0] };
    let c = BinaryHDV { data: vec![9, 1] };
    let r = BinaryHDV::bundle(&[&a, &b, &c]);
    assert_eq!(r.data, vec![1, 0]);
}

#[test]
fn batch_and_incremental_bundling_agree() {
    // Equal weights: the accumulator fed each vector twice with weight 1,
    // or once with weight 2, must match the batch majority vote (there are
    // no ties here, three vectors voting on every bit).
    let v1 = BinaryHDV { data: vec![0x00ff_00ff_00ff_00ffu64] };
    let v2 = BinaryHDV { data: vec![0x0f0f_0f0f_0f0f_0f0fu64] };
    let v3 = BinaryHDV { data: vec![0x3333_3333_3333_3333u64] };
    let batch = BinaryHDV::bundle(&[&v1, &v2, &v3]);

    let mut acc1 = BinaryAccumulator::new(1);
    acc1.add(&v1, 1);
    acc1.add(&v2, 1);
    acc1.add(&v3, 1);
    assert_eq!(acc1.finalize(), batch);

    let mut acc2 = BinaryAccumulator::new(1);
    acc2.add(&v1, 2);
    acc2.add(&v2, 2);
    acc2.add(&v3, 2);
    assert_eq!(acc2.finalize(), batch);

    let s1 = BipolarHDV::from_slice(&[1, 1, -1, -1, 1]);
    let s2 = BipolarHDV::from_slice(&[1, -1, 1, -1, -1]);
    let s3 = BipolarHDV::from_slice(&[-1, 1, 1, -1, 1]);
    let sbatch = BipolarHDV::bundle(&[&s1, &s2, &s3]);
    let mut sacc = BipolarAccumulator::new(5);
    sacc.add(&s1, 3);
    sacc.add(&s2, 3);
    sacc.add(&s3, 3);
    assert_eq!(sacc.finalize(), sbatch);
}

#[test]
fn accumulator_finalize_is_repeatable() {
    let v = BipolarHDV::from_slice(&[1, -1, 1]);
    let mut acc = BipolarAccumulator::new(3);
    acc.add(&v, 2);
    let first = acc.finalize();
    let second = acc.finalize();
    assert_eq!(first, second);
    acc.add(&v, 1);
    let third = acc.finalize();
    assert_eq!(third, first);
}

#[test]
fn accumulator_is_empty() {
    let mut acc = BinaryAccumulator::new(2);
    assert!(acc.is_empty());
    acc.add(&BinaryHDV::zero(2), 0);
    assert!(acc.is_empty());
    acc.add(&BinaryHDV::zero(2), 1);
    assert!(!acc.is_empty());

    let mut sacc = BipolarAccumulator::new(4);
    assert!(sacc.is_empty());
    sacc.add(&BipolarHDV::ident(4), 1);
    assert!(!sacc.is_empty());
}

#[test]
fn random_vectors_are_near_orthogonal() {
    // For 1024 bits the normalized Hamming distance of two independent
    // random vectors concentrates around one half...
    let mut rng = MersenneTwister::new(7);
    let a = BinaryHDV::random(&mut rng, 16);
    let b = BinaryHDV::random(&mut rng, 16);
    let d = a.hamming_distance(&b) as f64 / 1024.0;
    assert!(d > 0.4 && d < 0.6);

    // ...and the cosine distance of two random sign vectors around one.
    let sa = BipolarHDV::random(&mut rng, 1024);
    let sb = BipolarHDV::random(&mut rng, 1024);
    let sd = 1.0 - sa.dot(&sb) as f64 / 1024.0;
    assert!(sd > 0.8 && sd < 1.2);
}

#[test]
fn bundling_one_vector_returns_it() {
    let v = BinaryHDV { data: vec![0xdead_beefu64] };
    assert_eq!(BinaryHDV::bundle(&[&v]), v);
    let s = BipolarHDV::from_slice(&[1, -1, -1, 1]);
    assert_eq!(BipolarHDV::bundle(&[&s]), s);
}

#[test]
fn tied_votes_decide_only_the_tied_bit_freely() {
    // Two voters disagree on bit 0 only: that bit is drawn at random, every
    // other bit has a clear majority and is pinned.
    let a = BinaryHDV { data: vec![0b11u64] };
    let b = BinaryHDV { data: vec![0b10u64] };
    let r = BinaryHDV::bundle(&[&a, &b]);
    assert_eq!(r.data[0] & !1u64, 0b10u64);

    let sa = BipolarHDV::from_slice(&[1, 1, -1]);
    let sb = BipolarHDV::from_slice(&[-1, 1, -1]);
    let sr = BipolarHDV::bundle(&[&sa, &sb]);
    assert!(sr.data[0] == 1 || sr.data[0] == -1);
    assert_eq!(&sr.data[1..], &[1, -1]);
}

#[test]
fn accumulator_trait_dispatch() {
    let v = BinaryHDV { data: vec![0b101u64] };
    let mut acc = <BinaryAccumulator as Accumulator<BinaryHDV>>::new(1);
    Accumulator::add(&mut acc, &v, 2);
    let r = Accumulator::finalize(&acc);
    assert_eq!(r, v);

    let s = BipolarHDV::from_slice(&[1, -1, 1]);
    let mut sacc = <BipolarAccumulator as Accumulator<BipolarHDV>>::new(3);
    Accumulator::add(&mut sacc, &s, 1);
    let sr = Accumulator::finalize(&sacc);
    assert_eq!(sr, s);
}
