//! The byte-level encoding of records inside a table-file block.
//!
//! Integers are little-endian. A record is a fixed header — sequence
//! number, flag byte, expiration, key length, value length — followed by
//! the key and value bytes. The parser is written as a specification
//! function; the executable encoder is proven to produce exactly what the
//! parser inverts.

use vstd::prelude::*;

use crate::record::RecordModel;
use crate::txn::MAX_KEY_LEN;
use crate::txn::MAX_VALUE_LEN;

verus! {

/// Byte `i` of a little-endian u64.
pub open spec fn byte_of64(x: u64, i: int) -> u8 {
    ((x >> ((8 * i) as u64)) & 0xff) as u8
}

/// A u64 as eight little-endian bytes.
pub open spec fn u64_le(x: u64) -> Seq<u8> {
    Seq::new(8, |i: int| byte_of64(x, i))
}

/// Eight little-endian bytes as a u64.
pub open spec fn le64(b: Seq<u8>) -> u64 {
    (b[0] as u64) | ((b[1] as u64) << 8) | ((b[2] as u64) << 16) | ((b[3] as u64) << 24) | ((
    b[4] as u64) << 32) | ((b[5] as u64) << 40) | ((b[6] as u64) << 48) | ((b[7] as u64) << 56)
}

/// Byte `i` of a little-endian u32.
pub open spec fn byte_of32(x: u32, i: int) -> u8 {
    ((x >> ((8 * i) as u32)) & 0xff) as u8
}

/// A u32 as four little-endian bytes.
pub open spec fn u32_le(x: u32) -> Seq<u8> {
    Seq::new(4, |i: int| byte_of32(x, i))
}

/// Four little-endian bytes as a u32.
pub open spec fn le32(b: Seq<u8>) -> u32 {
    (b[0] as u32) | ((b[1] as u32) << 8) | ((b[2] as u32) << 16) | ((b[3] as u32) << 24)
}

/// Reading back the eight bytes of a u64 yields the u64.
pub proof fn lemma_u64_le_inverse(x: u64)
    ensures
        le64(u64_le(x)) == x,
{
    let b = u64_le(x);
    assert(le64(b) == ((x & 0xff) | (((x >> 8) & 0xff) << 8) | (((x >> 16) & 0xff) << 16) | (((x
        >> 24) & 0xff) << 24) | (((x >> 32) & 0xff) << 32) | (((x >> 40) & 0xff) << 40) | (((x
        >> 48) & 0xff) << 48) | (((x >> 56) & 0xff) << 56))) by {
        assert((x >> 0) & 0xff < 256 && (x >> 8) & 0xff < 256 && (x >> 16) & 0xff < 256 && (x
            >> 24) & 0xff < 256 && (x >> 32) & 0xff < 256 && (x >> 40) & 0xff < 256 && (x >> 48)
            & 0xff < 256 && (x >> 56) & 0xff < 256) by (bit_vector);
        assert(x >> 0 == x) by (bit_vector);
    }
    assert(((x & 0xff) | (((x >> 8) & 0xff) << 8) | (((x >> 16) & 0xff) << 16) | (((x >> 24)
        & 0xff) << 24) | (((x >> 32) & 0xff) << 32) | (((x >> 40) & 0xff) << 40) | (((x >> 48)
        & 0xff) << 48) | (((x >> 56) & 0xff) << 56)) == x) by (bit_vector);
}

/// Reading back the four bytes of a u32 yields the u32.
pub proof fn lemma_u32_le_inverse(x: u32)
    ensures
        le32(u32_le(x)) == x,
{
    let b = u32_le(x);
    assert(le32(b) == ((x & 0xff) | (((x >> 8) & 0xff) << 8) | (((x >> 16) & 0xff) << 16) | (((x
        >> 24) & 0xff) << 24))) by {
        assert((x >> 0) & 0xff < 256 && (x >> 8) & 0xff < 256 && (x >> 16) & 0xff < 256 && (x
            >> 24) & 0xff < 256) by (bit_vector);
        assert(x >> 0 == x) by (bit_vector);
    }
    assert(((x & 0xff) | (((x >> 8) & 0xff) << 8) | (((x >> 16) & 0xff) << 16) | (((x >> 24)
        & 0xff) << 24)) == x) by (bit_vector);
}

/// Appends a u64 in little-endian order.
pub(crate) fn push_u64_le(out: &mut Vec<u8>, x: u64)
    ensures
        final(out)@ == old(out)@ + u64_le(x),
{
    out.push(((x >> 0) & 0xff) as u8);
    out.push(((x >> 8) & 0xff) as u8);
    out.push(((x >> 16) & 0xff) as u8);
    out.push(((x >> 24) & 0xff) as u8);
    out.push(((x >> 32) & 0xff) as u8);
    out.push(((x >> 40) & 0xff) as u8);
    out.push(((x >> 48) & 0xff) as u8);
    out.push(((x >> 56) & 0xff) as u8);
    proof {
        assert(out@ =~= old(out)@ + u64_le(x));
    }
}

/// Appends a u32 in little-endian order.
pub(crate) fn push_u32_le(out: &mut Vec<u8>, x: u32)
    ensures
        final(out)@ == old(out)@ + u32_le(x),
{
    out.push(((x >> 0) & 0xff) as u8);
    out.push(((x >> 8) & 0xff) as u8);
    out.push(((x >> 16) & 0xff) as u8);
    out.push(((x >> 24) & 0xff) as u8);
    proof {
        assert(out@ =~= old(out)@ + u32_le(x));
    }
}

/// Reads a little-endian u64.
pub(crate) fn read_u64_le(buf: &[u8], ofs: usize) -> (r: u64)
    requires
        ofs + 8 <= buf@.len(),
    ensures
        r == le64(buf@.subrange(ofs as int, ofs as int + 8)),
{
    let ghost b = buf@;
    let r = (buf[ofs] as u64) | ((buf[ofs + 1] as u64) << 8) | ((buf[ofs + 2] as u64) << 16) | ((
    buf[ofs + 3] as u64) << 24) | ((buf[ofs + 4] as u64) << 32) | ((buf[ofs + 5] as u64) << 40)
        | ((buf[ofs + 6] as u64) << 48) | ((buf[ofs + 7] as u64) << 56);
    proof {
        let s = b.subrange(ofs as int, ofs as int + 8);
        assert(s[0] == b[ofs as int] && s[1] == b[ofs as int + 1] && s[2] == b[ofs as int + 2]
            && s[3] == b[ofs as int + 3] && s[4] == b[ofs as int + 4] && s[5] == b[ofs as int + 5]
            && s[6] == b[ofs as int + 6] && s[7] == b[ofs as int + 7]);
    }
    r
}

/// Reads a little-endian u32.
pub(crate) fn read_u32_le(buf: &[u8], ofs: usize) -> (r: u32)
    requires
        ofs + 4 <= buf@.len(),
    ensures
        r == le32(buf@.subrange(ofs as int, ofs as int + 4)),
{
    let ghost b = buf@;
    let r = (buf[ofs] as u32) | ((buf[ofs + 1] as u32) << 8) | ((buf[ofs + 2] as u32) << 16) | ((
    buf[ofs + 3] as u32) << 24);
    proof {
        let s = b.subrange(ofs as int, ofs as int + 4);
        assert(s[0] == b[ofs as int] && s[1] == b[ofs as int + 1] && s[2] == b[ofs as int + 2]
            && s[3] == b[ofs as int + 3]);
    }
    r
}

/// A 64-bit fold checksum over a block's plain bytes.
pub open spec fn spec_checksum(b: Seq<u8>) -> u64
    decreases b.len(),
{
    if b.len() == 0 {
        0xcbf29ce484222325
    } else {
        ((((spec_checksum(b.drop_last()) ^ (b.last() as u64)) as int) * 0x100000001b3) % 0x10000000000000000) as u64
    }
}

/// Computes the block checksum.
pub(crate) fn checksum(b: &[u8]) -> (r: u64)
    ensures
        r == spec_checksum(b@),
{
    let mut acc: u64 = 0xcbf29ce484222325;
    let mut i: usize = 0;
    proof {
        assert(b@.take(0) =~= Seq::<u8>::empty());
    }
    while i < b.len()
        invariant
            0 <= i <= b@.len(),
            acc == spec_checksum(b@.take(i as int)),
        decreases b@.len() - i,
    {
        let x = acc ^ (b[i] as u64);
        let prod: u128 = (x as u128) * 0x100000001b3;
        acc = (prod % 0x10000000000000000) as u64;
        proof {
            assert(b@.take(i as int + 1).drop_last() =~= b@.take(i as int));
            assert(b@.take(i as int + 1).last() == b@[i as int]);
        }
        i += 1;
    }
    proof {
        assert(b@.take(b@.len() as int) =~= b@);
    }
    acc
}

/// A record fits the wire format's length fields.
pub open spec fn record_encodable(r: RecordModel) -> bool {
    &&& r.key.len() <= MAX_KEY_LEN
    &&& (match r.value {
        Some(v) => v.len() <= MAX_VALUE_LEN,
        None => true,
    })
}

/// Every record of a run fits the wire format.
pub open spec fn records_encodable(rs: Seq<RecordModel>) -> bool {
    forall|i: int| #![trigger rs[i]] 0 <= i < rs.len() ==> record_encodable(rs[i])
}

/// The record's flag byte: bit zero marks a value (versus a tombstone), bit
/// one an expiration.
pub open spec fn spec_flags(r: RecordModel) -> u8 {
    (((if r.value is Some {
        1int
    } else {
        0int
    }) + (if r.expires_at is Some {
        2int
    } else {
        0int
    })) as u8)
}

/// The record's expiration field; zero stands in when none is set.
pub open spec fn rec_expiry(r: RecordModel) -> u64 {
    match r.expires_at {
        Some(e) => e,
        None => 0,
    }
}

/// The record's value bytes; empty for a tombstone.
pub open spec fn rec_value_bytes(r: RecordModel) -> Seq<u8> {
    match r.value {
        Some(v) => v,
        None => Seq::empty(),
    }
}

/// One record on the wire: header, key, value.
pub open spec fn spec_encode_record(r: RecordModel) -> Seq<u8> {
    u64_le(r.seq) + seq![spec_flags(r)] + u64_le(rec_expiry(r)) + u32_le(r.key.len() as u32)
        + u32_le(rec_value_bytes(r).len() as u32) + r.key + rec_value_bytes(r)
}

/// A run of records on the wire, in order.
pub open spec fn spec_encode_records(rs: Seq<RecordModel>) -> Seq<u8>
    decreases rs.len(),
{
    if rs.len() == 0 {
        Seq::empty()
    } else {
        spec_encode_records(rs.drop_last()) + spec_encode_record(rs.last())
    }
}

/// A record run's encoding starts with its first record's.
pub proof fn lemma_encode_records_first(rs: Seq<RecordModel>)
    requires
        rs.len() > 0,
    ensures
        spec_encode_records(rs) == spec_encode_record(rs.first()) + spec_encode_records(
            rs.drop_first(),
        ),
    decreases rs.len(),
{
    if rs.len() == 1 {
        assert(rs.drop_last() =~= Seq::<RecordModel>::empty());
        assert(rs.drop_first() =~= Seq::<RecordModel>::empty());
        assert(rs.last() == rs.first());
        assert(spec_encode_records(rs) =~= spec_encode_record(rs.first()) + spec_encode_records(
            rs.drop_first(),
        ));
    } else {
        lemma_encode_records_first(rs.drop_last());
        assert(rs.drop_last().first() == rs.first());
        assert(rs.drop_last().drop_first() =~= rs.drop_first().drop_last());
        assert(rs.drop_first().last() == rs.last());
        assert(rs.drop_first().len() > 0);
        assert(spec_encode_records(rs) =~= spec_encode_record(rs.first()) + spec_encode_records(
            rs.drop_first(),
        ));
    }
}

/// The parser for one record at an offset: the header is read, the lengths
/// checked against the buffer, and the key, value and expiration
/// reconstructed; the new offset follows the value.
pub open spec fn spec_parse_record(b: Seq<u8>, ofs: int) -> Option<(RecordModel, int)> {
    if ofs < 0 || ofs + 25 > b.len() {
        None
    } else {
        let seqn = le64(b.subrange(ofs, ofs + 8));
        let flags = b[ofs + 8];
        let expiry = le64(b.subrange(ofs + 9, ofs + 17));
        let klen = le32(b.subrange(ofs + 17, ofs + 21)) as int;
        let vlen = le32(b.subrange(ofs + 21, ofs + 25)) as int;
        if flags > 3 || ofs + 25 + klen + vlen > b.len() {
            None
        } else {
            let key = b.subrange(ofs + 25, ofs + 25 + klen);
            let value = if flags == 1 || flags == 3 {
                Some(b.subrange(ofs + 25 + klen, ofs + 25 + klen + vlen))
            } else {
                None
            };
            let expires_at = if flags >= 2 {
                Some(expiry)
            } else {
                None
            };
            Some((RecordModel { key, value, seq: seqn, expires_at }, ofs + 25 + klen + vlen))
        }
    }
}

/// The parser for a run of `n` records.
pub open spec fn spec_parse_records(b: Seq<u8>, ofs: int, n: int) -> Option<
    (Seq<RecordModel>, int),
>
    decreases n,
{
    if n <= 0 {
        Some((Seq::empty(), ofs))
    } else {
        match spec_parse_record(b, ofs) {
            None => None,
            Some((r, o2)) => match spec_parse_records(b, o2, n - 1) {
                None => None,
                Some((rest, e)) => Some((seq![r] + rest, e)),
            },
        }
    }
}

/// Parsing at the position of an encoded record yields that record.
pub proof fn lemma_parse_one_encoded(b: Seq<u8>, ofs: int, r: RecordModel)
    requires
        record_encodable(r),
        0 <= ofs,
        ofs + spec_encode_record(r).len() <= b.len(),
        b.subrange(ofs, ofs + spec_encode_record(r).len()) == spec_encode_record(r),
    ensures
        spec_parse_record(b, ofs) == Some((r, ofs + spec_encode_record(r).len())),
{
    let enc = spec_encode_record(r);
    let klen = r.key.len() as int;
    let vlen = rec_value_bytes(r).len() as int;
    assert(enc.len() == 25 + klen + vlen);
    assert forall|i: int| 0 <= i < enc.len() implies b[ofs + i] == enc[i] by {
        assert(b.subrange(ofs, ofs + enc.len())[i] == b[ofs + i]);
    }
    let pa = u64_le(r.seq);
    let pf = seq![spec_flags(r)];
    let pe = u64_le(rec_expiry(r));
    let pk = u32_le(r.key.len() as u32);
    let pv = u32_le(rec_value_bytes(r).len() as u32);
    assert(pa.len() == 8 && pf.len() == 1 && pe.len() == 8 && pk.len() == 4 && pv.len() == 4);
    assert(enc == pa + pf + pe + pk + pv + r.key + rec_value_bytes(r));
    assert forall|i: int| 0 <= i < 8 implies enc[i] == pa[i] by {}
    assert(enc[8] == pf[0]);
    assert forall|i: int| 0 <= i < 8 implies enc[9 + i] == pe[i] by {}
    assert forall|i: int| 0 <= i < 4 implies enc[17 + i] == pk[i] by {}
    assert forall|i: int| 0 <= i < 4 implies enc[21 + i] == pv[i] by {}
    assert forall|i: int| 0 <= i < klen implies enc[25 + i] == r.key[i] by {}
    assert forall|i: int| 0 <= i < vlen implies enc[25 + klen + i] == rec_value_bytes(r)[i] by {}
    assert(b.subrange(ofs, ofs + 8) =~= u64_le(r.seq));
    assert(b[ofs + 8] == spec_flags(r));
    assert(b.subrange(ofs + 9, ofs + 17) =~= u64_le(rec_expiry(r)));
    assert(b.subrange(ofs + 17, ofs + 21) =~= u32_le(r.key.len() as u32));
    assert(b.subrange(ofs + 21, ofs + 25) =~= u32_le(rec_value_bytes(r).len() as u32));
    lemma_u64_le_inverse(r.seq);
    lemma_u64_le_inverse(rec_expiry(r));
    lemma_u32_le_inverse(r.key.len() as u32);
    lemma_u32_le_inverse(rec_value_bytes(r).len() as u32);
    assert(b.subrange(ofs + 25, ofs + 25 + klen) =~= r.key);
    assert(b.subrange(ofs + 25 + klen, ofs + 25 + klen + vlen) =~= rec_value_bytes(r));
    assert(spec_flags(r) <= 3);
    match spec_parse_record(b, ofs) {
        None => {
            assert(false);
        },
        Some((pr, pofs)) => {
            assert(pofs == ofs + enc.len());
            assert(pr.key == r.key);
            assert(pr.seq == r.seq);
            match r.value {
                Some(v) => {
                    assert(spec_flags(r) == 1 || spec_flags(r) == 3);
                    assert(pr.value == Some(v));
                },
                None => {
                    assert(spec_flags(r) == 0 || spec_flags(r) == 2);
                    assert(pr.value == None::<Seq<u8>>);
                },
            }
            match r.expires_at {
                Some(e) => {
                    assert(spec_flags(r) >= 2);
                    assert(pr.expires_at == Some(e));
                },
                None => {
                    assert(spec_flags(r) < 2);
                    assert(pr.expires_at == None::<u64>);
                },
            }
            assert(pr == r);
        },
    }
}

/// Parsing at the position of an encoded run yields that run.
pub proof fn lemma_parse_encoded(b: Seq<u8>, ofs: int, rs: Seq<RecordModel>)
    requires
        records_encodable(rs),
        0 <= ofs,
        ofs + spec_encode_records(rs).len() <= b.len(),
        b.subrange(ofs, ofs + spec_encode_records(rs).len()) == spec_encode_records(rs),
    ensures
        spec_parse_records(b, ofs, rs.len() as int) == Some(
            (rs, ofs + spec_encode_records(rs).len()),
        ),
    decreases rs.len(),
{
    if rs.len() == 0 {
        assert(spec_encode_records(rs).len() == 0);
    } else {
        lemma_encode_records_first(rs);
        let first_enc = spec_encode_record(rs.first());
        let rest_enc = spec_encode_records(rs.drop_first());
        assert(spec_encode_records(rs).len() == first_enc.len() + rest_enc.len());
        assert(b.subrange(ofs, ofs + first_enc.len()) =~= first_enc) by {
            assert forall|i: int| 0 <= i < first_enc.len() implies b.subrange(
                ofs,
                ofs + first_enc.len(),
            )[i] == first_enc[i] by {
                assert(b.subrange(ofs, ofs + spec_encode_records(rs).len())[i] == b[ofs + i]);
                assert(spec_encode_records(rs)[i] == first_enc[i]);
            }
        }
        assert(record_encodable(rs.first()));
        lemma_parse_one_encoded(b, ofs, rs.first());
        let ofs2 = ofs + first_enc.len();
        assert(records_encodable(rs.drop_first())) by {
            assert(forall|i: int|
                0 <= i < rs.drop_first().len() ==> rs.drop_first()[i] == #[trigger] rs[i + 1]);
        }
        assert(b.subrange(ofs2, ofs2 + rest_enc.len()) =~= rest_enc) by {
            assert forall|i: int| 0 <= i < rest_enc.len() implies b.subrange(
                ofs2,
                ofs2 + rest_enc.len(),
            )[i] == rest_enc[i] by {
                assert(b.subrange(ofs, ofs + spec_encode_records(rs).len())[first_enc.len() + i]
                    == b[ofs2 + i]);
                assert(spec_encode_records(rs)[first_enc.len() + i] == rest_enc[i]);
            }
        }
        lemma_parse_encoded(b, ofs2, rs.drop_first());
        assert(seq![rs.first()] + rs.drop_first() =~= rs);
    }
}

/// Appends one record's encoding.
pub(crate) fn encode_record_into(out: &mut Vec<u8>, rec: &crate::record::Record)
    requires
        record_encodable(rec@),
    ensures
        final(out)@ == old(out)@ + spec_encode_record(rec@),
{
    push_u64_le(out, rec.seq);
    let has_value: u8 = match &rec.value {
        Some(_) => 1,
        None => 0,
    };
    let has_expiry: u8 = match &rec.expires_at {
        Some(_) => 2,
        None => 0,
    };
    out.push(has_value + has_expiry);
    let expiry: u64 = match &rec.expires_at {
        Some(e) => *e,
        None => 0,
    };
    push_u64_le(out, expiry);
    push_u32_le(out, rec.key.len() as u32);
    let vlen: usize = match &rec.value {
        Some(v) => v.len(),
        None => 0,
    };
    push_u32_le(out, vlen as u32);
    let mut i: usize = 0;
    let ghost mid = out@;
    while i < rec.key.len()
        invariant
            0 <= i <= rec.key@.len(),
            out@ == mid + rec.key@.take(i as int),
        decreases rec.key@.len() - i,
    {
        out.push(rec.key[i]);
        proof {
            assert(rec.key@.take(i as int + 1) =~= rec.key@.take(i as int) + seq![
                rec.key@[i as int],
            ]);
            assert(out@ =~= mid + rec.key@.take(i as int + 1));
        }
        i += 1;
    }
    proof {
        assert(rec.key@.take(rec.key@.len() as int) =~= rec.key@);
    }
    match &rec.value {
        Some(v) => {
            let mut j: usize = 0;
            let ghost mid2 = out@;
            while j < v.len()
                invariant
                    0 <= j <= v@.len(),
                    out@ == mid2 + v@.take(j as int),
                decreases v@.len() - j,
            {
                out.push(v[j]);
                proof {
                    assert(v@.take(j as int + 1) =~= v@.take(j as int) + seq![v@[j as int]]);
                    assert(out@ =~= mid2 + v@.take(j as int + 1));
                }
                j += 1;
            }
            proof {
                assert(v@.take(v@.len() as int) =~= v@);
            }
        },
        None => {},
    }
    proof {
        assert(out@ =~= old(out)@ + spec_encode_record(rec@));
    }
}

} // verus!
