use hidden_in_plain_sight::curve::{generate_kzg_setup, kzg_commit, CurvePoint};
use hidden_in_plain_sight::domain::Domain;
use hidden_in_plain_sight::field::Scalar;
use hidden_in_plain_sight::generate::{
    build_blinded_polynomial, find_matches, generate_challenge, issue_challenges, recover_blinding,
    verify_candidate, Error,
};
use hidden_in_plain_sight::poly::{divide_by_vanishing, evaluate, mul_by_vanishing, poly_add, scale};
use rand::Rng;

fn s(v: u64) -> Scalar {
    Scalar::from_u64(v)
}

fn seq(vs: &[u64]) -> Vec<Scalar> {
    vs.iter().map(|v| s(*v)).collect()
}

fn limbs(v: &[Scalar]) -> Vec<[u64; 4]> {
    v.iter().map(|x| x.limbs).collect()
}

fn random_scalar<R: Rng>(rng: &mut R) -> Scalar {
    // the top limb stays below the modulus' top limb
    let l = [rng.gen::<u64>(), rng.gen::<u64>(), rng.gen::<u64>(), rng.gen::<u64>() % 0x73eda753299d7d48];
    Scalar::from_limbs(l).unwrap()
}

fn random_record<R: Rng>(rng: &mut R, len: usize) -> Vec<Scalar> {
    (0..len).map(|_| s(rng.gen::<u8>() as u64)).collect()
}

fn domain_point(d: &Domain, i: usize) -> Scalar {
    let mut mono = vec![s(0); i + 1];
    mono[i] = s(1);
    evaluate(&mono, &d.gen)
}

#[test]
fn domain_sizes() {
    assert_eq!(Domain::new(1002).unwrap().size(), 1024);
    assert_eq!(Domain::new(8).unwrap().size(), 8);
    assert_eq!(Domain::new(9).unwrap().size(), 16);
    assert_eq!(Domain::new(1).unwrap().size(), 1);
    assert!(Domain::new(0x1_0000_0001).is_none());
}

#[test]
fn scalar_limbs_checked_against_modulus() {
    let p = [0xffffffff00000001u64, 0x53bda402fffe5bfe, 0x3339d80809a1d805, 0x73eda753299d7d48];
    assert!(Scalar::from_limbs(p).is_none());
    let below = [0xffffffff00000000u64, 0x53bda402fffe5bfe, 0x3339d80809a1d805, 0x73eda753299d7d48];
    assert_eq!(Scalar::from_limbs(below).unwrap().limbs, below);
    assert!(s(0).is_zero());
    assert!(!s(7).is_zero());
}

#[test]
fn evaluate_exact_value() {
    // 1 + 2x + 3x^2 at 2
    assert_eq!(evaluate(&seq(&[1, 2, 3]), &s(2)).limbs, s(17).limbs);
    assert_eq!(evaluate(&seq(&[]), &s(5)).limbs, s(0).limbs);
}

#[test]
fn add_and_vanishing_exact_values() {
    assert_eq!(limbs(&poly_add(&seq(&[1, 2]), &seq(&[3, 4, 5]))), limbs(&seq(&[4, 6, 5])));
    let v = mul_by_vanishing(&seq(&[1, 2]), 4);
    assert_eq!(v.len(), 6);
    assert_eq!(v[4].limbs, s(1).limbs);
    assert_eq!(v[5].limbs, s(2).limbs);
    // (1 + 2x)(x^4 - 1) at 3 is 7 * 80
    assert_eq!(evaluate(&v, &s(3)).limbs, s(560).limbs);
}

#[test]
fn transform_inverse() {
    let d = Domain::new(8).unwrap();
    let v = seq(&[3, 1, 4, 1, 5, 9, 2, 6]);
    let c = d.inverse_transform(&v).unwrap();
    assert_eq!(c.len(), 8);
    assert_eq!(limbs(&d.forward_transform(&c).unwrap()), limbs(&v));
    let back = d.inverse_transform(&d.forward_transform(&c).unwrap()).unwrap();
    assert_eq!(limbs(&back), limbs(&c));
    // a constant polynomial takes its value everywhere on the domain
    assert_eq!(limbs(&d.forward_transform(&seq(&[5])).unwrap()), limbs(&seq(&[5; 8])));
    assert!(d.inverse_transform(&seq(&[1; 9])).is_none());
    assert!(d.forward_transform(&seq(&[1; 9])).is_none());
}

#[test]
fn vanishing_at_domain_points_and_elsewhere() {
    let d = Domain::new(4).unwrap();
    for i in 0..4 {
        assert!(d.evaluate_vanishing(&domain_point(&d, i)).is_zero());
    }
    // 3^4 - 1
    assert_eq!(d.evaluate_vanishing(&s(3)).limbs, s(80).limbs);
    let v = d.vanishing_polynomial();
    assert_eq!(v.len(), 5);
    assert_eq!(limbs(&v[1..4]), limbs(&seq(&[0, 0, 0])));
    assert_eq!(v[4].limbs, s(1).limbs);
    assert_eq!(evaluate(&v, &s(3)).limbs, s(80).limbs);
}

#[test]
fn blinding_transparency() {
    let mut rng = rand::thread_rng();
    let d = Domain::new(8).unwrap();
    let record = random_record(&mut rng, 8);
    let blinding = vec![random_scalar(&mut rng), random_scalar(&mut rng)];
    let base = d.inverse_transform(&record).unwrap();
    let blinded = build_blinded_polynomial(&record, &d, &blinding).unwrap();
    assert_eq!(blinded.len(), 10);
    for i in 0..8 {
        let x = domain_point(&d, i);
        assert_eq!(evaluate(&blinded, &x).limbs, evaluate(&base, &x).limbs);
        assert_eq!(evaluate(&blinded, &x).limbs, record[i].limbs);
    }
    let off = s(12345);
    assert_ne!(evaluate(&blinded, &off).limbs, evaluate(&base, &off).limbs);
}

#[test]
fn blinding_size_mismatch() {
    let d = Domain::new(4).unwrap();
    assert_eq!(build_blinded_polynomial(&seq(&[1; 5]), &d, &seq(&[1, 2])).unwrap_err(), Error::SizeMismatch);
    assert_eq!(build_blinded_polynomial(&seq(&[1; 4]), &d, &seq(&[1; 5])).unwrap_err(), Error::SizeMismatch);
}

#[test]
fn recovery_round_trip() {
    let mut rng = rand::thread_rng();
    let d = Domain::new(8).unwrap();
    let record = random_record(&mut rng, 8);
    let (b0, b1) = (random_scalar(&mut rng), random_scalar(&mut rng));
    let blinded = build_blinded_polynomial(&record, &d, &vec![b0, b1]).unwrap();
    let (c1, c2) = (random_scalar(&mut rng), random_scalar(&mut rng));
    let (o1, o2) = issue_challenges(&blinded, &d, &c1, &c2).unwrap();
    assert_eq!(o1.limbs, evaluate(&blinded, &c1).limbs);
    assert_eq!(o2.limbs, evaluate(&blinded, &c2).limbs);
    let base = d.inverse_transform(&record).unwrap();
    let (r0, r1) = recover_blinding(&base, &d, &c1, &c2, &o1, &o2).unwrap();
    assert_eq!(r0.limbs, b0.limbs);
    assert_eq!(r1.limbs, b1.limbs);
}

#[test]
fn degenerate_challenges_rejected() {
    let d = Domain::new(4).unwrap();
    let blinded = build_blinded_polynomial(&seq(&[1, 2, 3, 4]), &d, &seq(&[5, 6])).unwrap();
    let base = d.inverse_transform(&seq(&[1, 2, 3, 4])).unwrap();
    let on_domain = domain_point(&d, 1);
    assert_eq!(issue_challenges(&blinded, &d, &s(7), &s(7)).unwrap_err(), Error::DegenerateChallenge);
    assert_eq!(issue_challenges(&blinded, &d, &on_domain, &s(7)).unwrap_err(), Error::DegenerateChallenge);
    assert_eq!(issue_challenges(&blinded, &d, &s(7), &s(1)).unwrap_err(), Error::DegenerateChallenge);
    let o = s(9);
    assert_eq!(recover_blinding(&base, &d, &s(7), &s(7), &o, &o).unwrap_err(), Error::DegenerateChallenge);
    assert_eq!(recover_blinding(&base, &d, &on_domain, &s(7), &o, &o).unwrap_err(), Error::DegenerateChallenge);
}

#[test]
fn commit_is_deterministic_and_checks_key_length() {
    let key = generate_kzg_setup(s(31337), 4);
    assert_eq!(key.len(), 4);
    let p = seq(&[1, 2, 3]);
    let a = kzg_commit(&p, &key).unwrap();
    let b = kzg_commit(&p, &key).unwrap();
    assert_eq!(a.bytes, b.bytes);
    assert!(a.same(&b));
    assert_eq!(a.bytes.len(), 96);
    let other = kzg_commit(&seq(&[1, 2, 4]), &key).unwrap();
    assert!(!a.same(&other));
    assert!(kzg_commit(&seq(&[1, 2, 3, 4, 5]), &key).is_none());
    // the commitment to the constant one is the first key point, the generator
    assert_eq!(kzg_commit(&seq(&[1]), &key).unwrap().bytes, key[0].bytes);
    // trapdoor one gives the generator at every degree
    let flat = generate_kzg_setup(s(1), 3);
    assert_eq!(flat[1].bytes, flat[0].bytes);
    assert_eq!(flat[2].bytes, flat[0].bytes);
}

#[test]
fn true_record_accepted_and_others_rejected() {
    let mut rng = rand::thread_rng();
    let d = Domain::new(8).unwrap();
    let records: Vec<Vec<Scalar>> = (0..4).map(|_| random_record(&mut rng, 8)).collect();
    let bundle = generate_challenge(
        records.clone(),
        2,
        &d,
        random_scalar(&mut rng),
        random_scalar(&mut rng),
        random_scalar(&mut rng),
        random_scalar(&mut rng),
        random_scalar(&mut rng),
    )
    .unwrap();
    assert_eq!(bundle.setup.len(), 10);
    assert_eq!(verify_candidate(&bundle, &d, &records[2]), Ok(true));
    let mut wrong = records[2].clone();
    wrong[0] = s(1000);
    assert_eq!(verify_candidate(&bundle, &d, &wrong), Ok(false));
    assert_eq!(verify_candidate(&bundle, &d, &seq(&[1; 9])), Err(Error::SizeMismatch));
}

#[test]
fn end_to_end_scan_finds_only_the_target() {
    let mut rng = rand::thread_rng();
    let d = Domain::new(8).unwrap();
    let records: Vec<Vec<Scalar>> = (0..6).map(|_| random_record(&mut rng, 4)).collect();
    let target = 3;
    let bundle = generate_challenge(
        records.clone(),
        target,
        &d,
        random_scalar(&mut rng),
        random_scalar(&mut rng),
        random_scalar(&mut rng),
        random_scalar(&mut rng),
        random_scalar(&mut rng),
    )
    .unwrap();
    assert_eq!(bundle.setup.len(), 10);
    assert_eq!(find_matches(&bundle, &d), Ok(vec![target]));
}

#[test]
fn scan_with_no_match_and_scan_errors() {
    let mut rng = rand::thread_rng();
    let d = Domain::new(4).unwrap();
    let records: Vec<Vec<Scalar>> = (0..3).map(|_| random_record(&mut rng, 4)).collect();
    let mut bundle =
        generate_challenge(records, 0, &d, s(11), s(12), s(13), s(14), s(15)).unwrap();
    bundle.records.remove(0);
    assert_eq!(find_matches(&bundle, &d), Ok(vec![]));
    let mut short = bundle.clone();
    short.setup.pop();
    assert_eq!(find_matches(&short, &d), Err(Error::SizeMismatch));
    let mut same = bundle.clone();
    same.c2 = same.c1;
    assert_eq!(find_matches(&same, &d), Err(Error::DegenerateChallenge));
    let mut long = bundle.clone();
    long.records.push(seq(&[1; 5]));
    assert_eq!(find_matches(&long, &d), Err(Error::SizeMismatch));
}

#[test]
fn generate_challenge_errors() {
    let d = Domain::new(4).unwrap();
    let records = vec![seq(&[1, 2, 3, 4]), seq(&[1, 2, 3, 4, 5])];
    assert_eq!(
        generate_challenge(records.clone(), 2, &d, s(1), s(2), s(3), s(4), s(5)).unwrap_err(),
        Error::NoSuchRecord
    );
    assert_eq!(
        generate_challenge(records.clone(), 1, &d, s(1), s(2), s(3), s(4), s(5)).unwrap_err(),
        Error::SizeMismatch
    );
    assert_eq!(
        generate_challenge(records.clone(), 0, &d, s(1), s(2), s(3), s(4), s(4)).unwrap_err(),
        Error::DegenerateChallenge
    );
    let tiny = Domain::new(1).unwrap();
    assert_eq!(
        generate_challenge(vec![seq(&[1])], 0, &tiny, s(1), s(2), s(3), s(4), s(5)).unwrap_err(),
        Error::SizeMismatch
    );
}

#[test]
fn scale_exact_values() {
    assert_eq!(limbs(&scale(&seq(&[1, 2, 3]), &s(5))), limbs(&seq(&[5, 10, 15])));
    assert_eq!(limbs(&scale(&seq(&[4]), &s(0))), limbs(&seq(&[0])));
}

#[test]
fn divide_blinded_by_vanishing() {
    let mut rng = rand::thread_rng();
    let d = Domain::new(8).unwrap();
    let record = random_record(&mut rng, 8);
    let blinding = vec![random_scalar(&mut rng), random_scalar(&mut rng)];
    let blinded = build_blinded_polynomial(&record, &d, &blinding).unwrap();
    let (q, r) = divide_by_vanishing(&blinded, 8);
    assert_eq!(limbs(&q), limbs(&blinding));
    assert_eq!(limbs(&r), limbs(&d.inverse_transform(&record).unwrap()));
    // an exact multiple leaves a zero remainder
    let (q, r) = divide_by_vanishing(&mul_by_vanishing(&seq(&[3, 4, 5]), 4), 4);
    assert_eq!(limbs(&q), limbs(&seq(&[3, 4, 5])));
    assert!(r.iter().all(|x| x.is_zero()));
    // x^5 + 2 = x (x^4 - 1) + (x + 2)
    let (q, r) = divide_by_vanishing(&seq(&[2, 0, 0, 0, 0, 1]), 4);
    assert_eq!(limbs(&q), limbs(&seq(&[0, 1])));
    assert_eq!(limbs(&r), limbs(&seq(&[2, 1, 0, 0])));
    // a short polynomial is its own remainder
    let (q, r) = divide_by_vanishing(&seq(&[7, 8]), 4);
    assert!(q.is_empty());
    assert_eq!(limbs(&r), limbs(&seq(&[7, 8, 0, 0])));
}

#[test]
fn commit_ignores_trailing_zeros() {
    let key = generate_kzg_setup(s(99), 3);
    let a = kzg_commit(&seq(&[1, 2, 3]), &key).unwrap();
    let b = kzg_commit(&seq(&[1, 2, 3, 0, 0]), &key).unwrap();
    assert_eq!(a.bytes, b.bytes);
    assert!(kzg_commit(&seq(&[1, 2, 3, 0, 4]), &key).is_none());
    assert!(kzg_commit(&seq(&[0, 0, 0, 0]), &key).is_some());
}

#[test]
fn points_must_be_on_the_curve() {
    let key = generate_kzg_setup(s(5), 2);
    assert!(CurvePoint::from_bytes(key[1].bytes.clone()).is_some());
    let mut bad = key[1].bytes.clone();
    bad[3] ^= 1;
    assert!(CurvePoint::from_bytes(bad).is_none());
    assert!(CurvePoint::from_bytes(vec![0u8; 10]).is_none());
}
