use hidden_in_plain_sight::bundle::parse_bundle;
use hidden_in_plain_sight::domain::Domain;
use hidden_in_plain_sight::field::Scalar;
use hidden_in_plain_sight::generate::{find_matches, generate_challenge, Bundle, Error};

fn s(v: u64) -> Scalar {
    Scalar::from_u64(v)
}

fn put_word(out: &mut Vec<u8>, v: u64) {
    out.extend_from_slice(&v.to_le_bytes());
}

fn put_scalar(out: &mut Vec<u8>, x: &Scalar) {
    for l in x.limbs.iter() {
        put_word(out, *l);
    }
}

fn encode(b: &Bundle) -> Vec<u8> {
    let mut out = Vec::new();
    put_word(&mut out, b.setup.len() as u64);
    for p in b.setup.iter() {
        out.extend_from_slice(&p.bytes);
    }
    put_word(&mut out, b.records.len() as u64);
    for r in b.records.iter() {
        put_word(&mut out, r.len() as u64);
        for x in r.iter() {
            put_scalar(&mut out, x);
        }
    }
    put_scalar(&mut out, &b.c1);
    put_scalar(&mut out, &b.c2);
    out.extend_from_slice(&b.commitment.bytes);
    put_scalar(&mut out, &b.o1);
    put_scalar(&mut out, &b.o2);
    out
}

fn sample() -> (Bundle, Domain) {
    let d = Domain::new(4).unwrap();
    let records: Vec<Vec<Scalar>> = (0..3u64).map(|i| (0..4u64).map(|j| s(10 * i + j)).collect()).collect();
    (generate_challenge(records, 1, &d, s(77), s(5), s(6), s(1234), s(5678)).unwrap(), d)
}

#[test]
fn bundle_layout_offsets() {
    let (b, _) = sample();
    let bytes = encode(&b);
    // 6 key points, 3 records of 4 scalars, then the tail
    assert_eq!(bytes.len(), 8 + 6 * 96 + 8 + 3 * (8 + 4 * 32) + 32 + 32 + 96 + 32 + 32);
    // the layout of 1024 key points and 1000 records of 32 scalars
    assert_eq!(8 + 1024 * 96, 98312);
    assert_eq!(98312 + 8 + 1000 * (8 + 32 * 32), 1130320);
}

#[test]
fn bundle_round_trip_through_bytes() {
    let (b, d) = sample();
    let bytes = encode(&b);
    let p = parse_bundle(&bytes, 6, 3, 4).unwrap();
    assert_eq!(p.setup.len(), 6);
    for (x, y) in p.setup.iter().zip(b.setup.iter()) {
        assert_eq!(x.bytes, y.bytes);
    }
    assert_eq!(p.records.len(), 3);
    for (x, y) in p.records.iter().zip(b.records.iter()) {
        let xl: Vec<[u64; 4]> = x.iter().map(|v| v.limbs).collect();
        let yl: Vec<[u64; 4]> = y.iter().map(|v| v.limbs).collect();
        assert_eq!(xl, yl);
    }
    assert_eq!(p.c1.limbs, s(1234).limbs);
    assert_eq!(p.c2.limbs, s(5678).limbs);
    assert_eq!(p.commitment.bytes, b.commitment.bytes);
    assert_eq!(p.o1.limbs, b.o1.limbs);
    assert_eq!(p.o2.limbs, b.o2.limbs);
    assert_eq!(find_matches(&p, &d), Ok(vec![1]));
}

#[test]
fn bundle_corruption_detected() {
    let (b, _) = sample();
    let bytes = encode(&b);
    let mut short = bytes.clone();
    short.pop();
    assert_eq!(parse_bundle(&short, 6, 3, 4).unwrap_err(), Error::BundleCorruption);
    let mut long = bytes.clone();
    long.push(0);
    assert_eq!(parse_bundle(&long, 6, 3, 4).unwrap_err(), Error::BundleCorruption);
    // widths that disagree with the counts in the bytes
    assert_eq!(parse_bundle(&bytes, 5, 3, 4).unwrap_err(), Error::BundleCorruption);
    assert_eq!(parse_bundle(&bytes, 6, 2, 4).unwrap_err(), Error::BundleCorruption);
    assert_eq!(parse_bundle(&bytes, 6, 3, 3).unwrap_err(), Error::BundleCorruption);
    // a challenge at or above the field order
    let mut big = bytes.clone();
    let at = bytes.len() - 224;
    for k in 0..32 {
        big[at + k] = 0xff;
    }
    assert_eq!(parse_bundle(&big, 6, 3, 4).unwrap_err(), Error::BundleCorruption);
    // a wrong record length word
    let mut rec = bytes.clone();
    rec[8 + 6 * 96 + 8] = 5;
    assert_eq!(parse_bundle(&rec, 6, 3, 4).unwrap_err(), Error::BundleCorruption);
    // a point with invalid flag bits
    let mut pt = bytes.clone();
    pt[8 + 95] = 0xff;
    assert_eq!(parse_bundle(&pt, 6, 3, 4).unwrap_err(), Error::BundleCorruption);
    assert_eq!(parse_bundle(&Vec::new(), 0, 0, 0).unwrap_err(), Error::BundleCorruption);
    // a point whose x coordinate was changed is off the curve
    let mut off = bytes.clone();
    off[8 + 10] ^= 1;
    assert_eq!(parse_bundle(&off, 6, 3, 4).unwrap_err(), Error::BundleCorruption);
    // the commitment slot altered the same way
    let mut com = bytes.clone();
    let at = bytes.len() - 224 + 64;
    com[at + 10] ^= 1;
    assert_eq!(parse_bundle(&com, 6, 3, 4).unwrap_err(), Error::BundleCorruption);
}
