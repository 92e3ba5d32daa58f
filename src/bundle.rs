use crate::curve::{all_decode, g1_valid, CurvePoint};
use crate::field::{all_wf, field_order, limb_base, Scalar};
use crate::generate::{Bundle, Error};
use vstd::arithmetic::div_mod::lemma_fundamental_div_mod;
use vstd::arithmetic::mul::lemma_mul_inequality;
use vstd::prelude::*;

verus! {

/// The unsigned integer of the little-endian bytes `b`.
pub open spec fn le_value(b: Seq<u8>) -> int
    decreases b.len(),
{
    if b.len() == 0 {
        0
    } else {
        b[0] + 256 * le_value(b.drop_first())
    }
}

/// The 64-bit little-endian word at `pos`.
pub open spec fn word_at(b: Seq<u8>, pos: int) -> int {
    le_value(b.subrange(pos, pos + 8))
}

/// The 256-bit little-endian integer at `pos`: a scalar's encoding.
pub open spec fn scalar_at(b: Seq<u8>, pos: int) -> int {
    word_at(b, pos) + limb_base() * (word_at(b, pos + 8) + limb_base() * (word_at(b, pos + 16)
        + limb_base() * word_at(b, pos + 24)))
}

/// Bytes of one encoded scalar and of one encoded point.
pub const SCALAR_BYTES: usize = 32;
pub const POINT_BYTES: usize = 96;

/// Where the records start: after the key's count and points.
pub open spec fn records_start(n: int) -> int {
    8 + 96 * n
}

/// Bytes of one record: its length, then its scalars.
pub open spec fn record_bytes(l: int) -> int {
    8 + 32 * l
}

/// Where record `i` starts.
pub open spec fn record_start(n: int, l: int, i: int) -> int {
    records_start(n) + 8 + i * record_bytes(l)
}

/// Where the challenges, commitment and openings start.
pub open spec fn tail_start(n: int, m: int, l: int) -> int {
    record_start(n, l, m)
}

/// The length of a bundle of `n` key points and `m` records of length `l`:
/// the tail holds two scalars, a point and two scalars.
pub open spec fn bundle_len(n: int, m: int, l: int) -> int {
    tail_start(n, m, l) + 224
}

/// The bytes are a bundle of `n` key points and `m` records of length `l`,
/// with every count right and every point and scalar readable.
pub open spec fn is_bundle(b: Seq<u8>, n: int, m: int, l: int) -> bool {
    let t = tail_start(n, m, l);
    &&& b.len() == bundle_len(n, m, l)
    &&& word_at(b, 0) == n
    &&& word_at(b, records_start(n)) == m
    &&& forall|i: int| 0 <= i < n ==> g1_valid(#[trigger] b.subrange(8 + 96 * i, 8 + 96 * i + 96))
    &&& forall|i: int| 0 <= i < m ==> word_at(b, #[trigger] record_start(n, l, i)) == l
    &&& forall|i: int, j: int| 0 <= i < m && 0 <= j < l
        ==> #[trigger] scalar_at(b, record_start(n, l, i) + 8 + 32 * j) < field_order()
    &&& scalar_at(b, t) < field_order()
    &&& scalar_at(b, t + 32) < field_order()
    &&& g1_valid(b.subrange(t + 64, t + 160))
    &&& scalar_at(b, t + 160) < field_order()
    &&& scalar_at(b, t + 192) < field_order()
}

/// Reads the 64-bit little-endian word at `pos`.
pub fn read_word(b: &Vec<u8>, pos: usize) -> (r: u64)
    requires
        pos + 8 <= b@.len(),
    ensures
        r == word_at(b@, pos as int),
{
    let ghost s = b@.subrange(pos as int, pos + 8);
    proof {
        reveal_with_fuel(le_value, 9);
        assert(s.drop_first().drop_first() =~= s.subrange(2, 8));
        assert(s.drop_first() =~= s.subrange(1, 8));
        assert(s.subrange(2, 8).drop_first() =~= s.subrange(3, 8));
        assert(s.subrange(3, 8).drop_first() =~= s.subrange(4, 8));
        assert(s.subrange(4, 8).drop_first() =~= s.subrange(5, 8));
        assert(s.subrange(5, 8).drop_first() =~= s.subrange(6, 8));
        assert(s.subrange(6, 8).drop_first() =~= s.subrange(7, 8));
        assert(s.subrange(7, 8).drop_first() =~= s.subrange(8, 8));
    }
    let len = b.len();
    assert(pos + 8 <= len);
    let x7 = b[pos + 7] as u64;
    let x6 = b[pos + 6] as u64 + 256 * x7;
    let x5 = b[pos + 5] as u64 + 256 * x6;
    let x4 = b[pos + 4] as u64 + 256 * x5;
    let x3 = b[pos + 3] as u64 + 256 * x4;
    let x2 = b[pos + 2] as u64 + 256 * x3;
    let x1 = b[pos + 1] as u64 + 256 * x2;
    b[pos] as u64 + 256 * x1
}

/// Reads the scalar encoded at `pos`, if it is below the field order.
pub fn read_scalar(b: &Vec<u8>, pos: usize) -> (r: Option<Scalar>)
    requires
        pos + 32 <= b@.len(),
    ensures
        r is Some <==> scalar_at(b@, pos as int) < field_order(),
        r is Some ==> r->Some_0.wf() && r->Some_0.val() == scalar_at(b@, pos as int),
{
    let len = b.len();
    assert(pos + 32 <= len);
    let l0 = read_word(b, pos);
    let l1 = read_word(b, pos + 8);
    let l2 = read_word(b, pos + 16);
    let l3 = read_word(b, pos + 24);
    Scalar::from_limbs([l0, l1, l2, l3])
}

/// Reads the point encoded in the 96 bytes at `pos`, if it reads back.
pub fn read_point(b: &Vec<u8>, pos: usize) -> (r: Option<CurvePoint>)
    requires
        pos + 96 <= b@.len(),
    ensures
        r is Some <==> g1_valid(b@.subrange(pos as int, pos + 96)),
        r is Some ==> r->Some_0.bytes@ == b@.subrange(pos as int, pos + 96) && r->Some_0.wf(),
{
    let len = b.len();
    assert(pos + 96 <= len);
    let mut out: Vec<u8> = Vec::new();
    let mut i: usize = 0;
    while i < POINT_BYTES
        invariant
            pos + 96 <= b@.len(),
            len == b@.len(),
            i <= 96,
            out@ == b@.subrange(pos as int, pos + i),
        decreases 96 - i,
    {
        out.push(b[pos + i]);
        i += 1;
        assert(out@ =~= b@.subrange(pos as int, pos + i));
    }
    CurvePoint::from_bytes(out)
}

proof fn lemma_record_start_step(n: int, l: int, i: int, m: int)
    requires
        0 <= i < m,
        0 <= l,
    ensures
        record_start(n, l, i + 1) == record_start(n, l, i) + record_bytes(l),
        record_start(n, l, i + 1) <= record_start(n, l, m),
{
    assert((i + 1) * record_bytes(l) == i * record_bytes(l) + record_bytes(l)) by (nonlinear_arith);
    lemma_mul_inequality(i + 1, m, record_bytes(l));
}

/// Reads the record of `l` scalars at `pos`, after its length word.
fn read_record(b: &Vec<u8>, pos: usize, l: usize) -> (r: Option<Vec<Scalar>>)
    requires
        pos + 8 + 32 * l <= b@.len(),
    ensures
        r is Some <==> (forall|j: int| 0 <= j < l ==> #[trigger] scalar_at(b@, pos + 8 + 32 * j) < field_order()),
        r is Some ==> r->Some_0@.len() == l && all_wf(r->Some_0@)
            && forall|j: int| 0 <= j < l ==> #[trigger] r->Some_0@[j].val() == scalar_at(b@, pos + 8 + 32 * j),
{
    let len = b.len();
    assert(pos + 8 + 32 * l <= len);
    let mut out: Vec<Scalar> = Vec::new();
    let mut j: usize = 0;
    let mut at: usize = pos + 8;
    while j < l
        invariant
            pos + 8 + 32 * l <= b@.len(),
            len == b@.len(),
            j <= l,
            at == pos + 8 + 32 * j,
            out@.len() == j,
            all_wf(out@),
            forall|k: int| 0 <= k < j ==> #[trigger] out@[k].val() == scalar_at(b@, pos + 8 + 32 * k),
            forall|k: int| 0 <= k < j ==> #[trigger] scalar_at(b@, pos + 8 + 32 * k) < field_order(),
        decreases l - j,
    {
        match read_scalar(b, at) {
            None => {
                return None;
            },
            Some(x) => {
                out.push(x);
            },
        }
        j += 1;
        at += SCALAR_BYTES;
    }
    Some(out)
}

/// Reads a bundle of `n` key points and `m` records of `l` scalars each:
/// the key (a count word, then the points), the records (a count word, then
/// each record as a length word and its scalars), the two challenges, the
/// commitment and the two openings. Counts are little-endian 64-bit words,
/// scalars 32 little-endian bytes, points their 96-byte uncompressed encoding.
pub fn parse_bundle(b: &Vec<u8>, n: usize, m: usize, l: usize) -> (r: Result<Bundle, Error>)
    ensures
        r is Ok <==> is_bundle(b@, n as int, m as int, l as int),
        r is Err ==> r == Err::<Bundle, Error>(Error::BundleCorruption),
        r is Ok ==> ({
            let x = r->Ok_0;
            let t = tail_start(n as int, m as int, l as int);
            &&& x.wf()
            &&& x.setup@.len() == n
            &&& forall|i: int| 0 <= i < n ==> (#[trigger] x.setup@[i]).bytes@ == b@.subrange(8 + 96 * i, 8 + 96 * i + 96)
            &&& x.records@.len() == m
            &&& forall|i: int| 0 <= i < m ==> (#[trigger] x.records@[i])@.len() == l
            &&& forall|i: int, j: int| 0 <= i < m && 0 <= j < l ==> (#[trigger] x.records@[i]@[j]).val()
                == scalar_at(b@, record_start(n as int, l as int, i) + 8 + 32 * j)
            &&& x.c1.val() == scalar_at(b@, t)
            &&& x.c2.val() == scalar_at(b@, t + 32)
            &&& x.commitment.bytes@ == b@.subrange(t + 64, t + 160)
            &&& x.o1.val() == scalar_at(b@, t + 160)
            &&& x.o2.val() == scalar_at(b@, t + 192)
        }),
{
    let len = b.len();
    let ghost (ni, mi, li) = (n as int, m as int, l as int);
    proof {
        lemma_fundamental_div_mod(len as int, 8);
        lemma_fundamental_div_mod(len as int, 32);
        lemma_fundamental_div_mod(len as int, 96);
        assert(mi * record_bytes(li) >= 8 * mi) by (nonlinear_arith) requires li >= 0, mi >= 0;
        assert(mi > 0 ==> mi * record_bytes(li) >= 32 * li) by (nonlinear_arith) requires li >= 0, mi >= 0;
    }
    if m > len / 8 || (m > 0 && l > len / 32) || n > len / 96 {
        return Err(Error::BundleCorruption);
    }
    let rb: u128 = 8 + 32 * (l as u128);
    let body: u128 = if m == 0 {
        0
    } else {
        assert(m <= 0x2000_0000_0000_0000 && rb <= 0x1_0000_0000_0000_0010);
        assert(m as u128 * rb <= 0x2000_0000_0000_0000 * 0x1_0000_0000_0000_0010) by (nonlinear_arith)
            requires m <= 0x2000_0000_0000_0000, rb <= 0x1_0000_0000_0000_0010, m >= 0, rb >= 0;
        m as u128 * rb
    };
    assert(body == mi * record_bytes(li));
    let total: u128 = 8 + 96 * (n as u128) + 8 + body + 224;
    if total != len as u128 {
        return Err(Error::BundleCorruption);
    }
    assert(total == bundle_len(ni, mi, li));
    if read_word(b, 0) != n as u64 {
        return Err(Error::BundleCorruption);
    }
    let mut setup: Vec<CurvePoint> = Vec::new();
    let mut i: usize = 0;
    let mut at: usize = 8;
    while i < n
        invariant
            len == b@.len() == bundle_len(ni, mi, li),
            ni == n, mi == m, li == l,
            i <= n,
            at == 8 + 96 * i,
            setup@.len() == i,
            all_decode(setup@),
            forall|k: int| 0 <= k < i ==> (#[trigger] setup@[k]).bytes@ == b@.subrange(8 + 96 * k, 8 + 96 * k + 96),
            forall|k: int| 0 <= k < i ==> g1_valid(#[trigger] b@.subrange(8 + 96 * k, 8 + 96 * k + 96)),
        decreases n - i,
    {
        match read_point(b, at) {
            None => {
                return Err(Error::BundleCorruption);
            },
            Some(p) => {
                setup.push(p);
            },
        }
        i += 1;
        at += POINT_BYTES;
    }
    if read_word(b, at) != m as u64 {
        return Err(Error::BundleCorruption);
    }
    let mut records: Vec<Vec<Scalar>> = Vec::new();
    let mut k: usize = 0;
    let mut pos: usize = at + 8;
    while k < m
        invariant
            len == b@.len() == bundle_len(ni, mi, li),
            ni == n, mi == m, li == l,
            k <= m,
            pos == record_start(ni, li, k as int),
            records@.len() == k,
            forall|q: int| 0 <= q < k ==> (#[trigger] records@[q])@.len() == l && all_wf(records@[q]@),
            forall|q: int, j: int| 0 <= q < k && 0 <= j < l ==> (#[trigger] records@[q]@[j]).val()
                == scalar_at(b@, record_start(ni, li, q) + 8 + 32 * j),
            forall|q: int| 0 <= q < k ==> word_at(b@, #[trigger] record_start(ni, li, q)) == l,
            forall|q: int, j: int| 0 <= q < k && 0 <= j < l
                ==> #[trigger] scalar_at(b@, record_start(ni, li, q) + 8 + 32 * j) < field_order(),
        decreases m - k,
    {
        proof {
            lemma_record_start_step(ni, li, k as int, mi);
        }
        if read_word(b, pos) != l as u64 {
            return Err(Error::BundleCorruption);
        }
        match read_record(b, pos, l) {
            None => {
                return Err(Error::BundleCorruption);
            },
            Some(rec) => {
                records.push(rec);
            },
        }
        k += 1;
        pos += 8 + SCALAR_BYTES * l;
    }
    let c1 = match read_scalar(b, pos) {
        None => return Err(Error::BundleCorruption),
        Some(x) => x,
    };
    let c2 = match read_scalar(b, pos + 32) {
        None => return Err(Error::BundleCorruption),
        Some(x) => x,
    };
    let commitment = match read_point(b, pos + 64) {
        None => return Err(Error::BundleCorruption),
        Some(x) => x,
    };
    let o1 = match read_scalar(b, pos + 160) {
        None => return Err(Error::BundleCorruption),
        Some(x) => x,
    };
    let o2 = match read_scalar(b, pos + 192) {
        None => return Err(Error::BundleCorruption),
        Some(x) => x,
    };
    Ok(Bundle { setup, records, c1, c2, commitment, o1, o2 })
}

} // verus!
