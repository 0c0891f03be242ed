//! Immutable sorted table files: the on-disk form of a flushed or compacted
//! run of records.

use vstd::prelude::*;
use vstd::slice::slice_subrange;
use vstd::slice::slice_to_vec;

use crate::compress::MAX_BLOCK_PLAIN_LEN;
use crate::compress::compress_block;
use crate::compress::decompress_block;
use crate::compress::spec_decompress;
use crate::config::CompressionAlgorithm;
use crate::error::Error;
use crate::record::FoundVersion;
use crate::record::Record;
use crate::record::RecordModel;
use crate::record::found_matches;
use crate::record::records_view;
use crate::memtable::scan_newest;
use crate::visibility::newest_version;
use crate::wire::checksum;
use crate::wire::encode_record_into;
use crate::wire::le32;
use crate::wire::le64;
use crate::wire::lemma_parse_encoded;
use crate::wire::lemma_u32_le_inverse;
use crate::wire::lemma_u64_le_inverse;
use crate::wire::push_u32_le;
use crate::wire::push_u64_le;
use crate::wire::read_u32_le;
use crate::wire::read_u64_le;
use crate::wire::records_encodable;
use crate::wire::spec_checksum;
use crate::wire::spec_encode_records;
use crate::wire::spec_parse_record;
use crate::wire::spec_parse_records;
use crate::wire::u32_le;
use crate::wire::u64_le;

verus! {

/// The codec tag stored in a table image's first byte.
pub open spec fn spec_algo_of_byte(b: u8) -> Option<CompressionAlgorithm> {
    if b == 0 {
        Some(CompressionAlgorithm::NoCompression)
    } else if b == 1 {
        Some(CompressionAlgorithm::Snappy)
    } else if b == 2 {
        Some(CompressionAlgorithm::Zlib)
    } else if b == 3 {
        Some(CompressionAlgorithm::Zstd)
    } else if b == 4 {
        Some(CompressionAlgorithm::Lz4)
    } else {
        None
    }
}

/// What reading a table image yields: the codec tag and checksum are read
/// from the header, the block is decompressed and checked, and the record
/// run is parsed; any violation — unknown codec, failed decompression, a
/// checksum mismatch, malformed records, trailing bytes — makes the image
/// unreadable, never silently accepted.
pub open spec fn spec_table_decode(b: Seq<u8>) -> Option<Seq<RecordModel>> {
    if b.len() < 9 {
        None
    } else {
        match spec_algo_of_byte(b[0]) {
            None => None,
            Some(algo) => {
                let cks = le64(b.subrange(1, 9));
                match spec_decompress(algo, b.subrange(9, b.len() as int)) {
                    None => None,
                    Some(plain) => if spec_checksum(plain) != cks || plain.len() < 4 {
                        None
                    } else {
                        let n = le32(plain.subrange(0, 4)) as int;
                        match spec_parse_records(plain, 4, n) {
                            None => None,
                            Some((rs, e)) => if e == plain.len() {
                                Some(rs)
                            } else {
                                None
                            },
                        }
                    },
                }
            },
        }
    }
}

/// An immutable run of record versions, identified by a file id that is
/// unique for the database's lifetime.
pub struct TableFile {
    pub(crate) id: u64,
    pub(crate) records: Vec<Record>,
}

impl TableFile {
    /// The records this table holds, in storage order.
    pub closed spec fn spec_records(self) -> Seq<RecordModel> {
        records_view(self.records@)
    }

    /// The table's file id.
    pub closed spec fn spec_id(self) -> u64 {
        self.id
    }

    /// Builds a table from a run of records.
    pub fn from_records(id: u64, records: Vec<Record>) -> (r: TableFile)
        ensures
            r.spec_records() == records_view(records@),
            r.spec_id() == id,
    {
        TableFile { id, records }
    }

    /// The table's file id.
    pub(crate) fn file_id(&self) -> (r: u64)
        ensures
            r == self.spec_id(),
    {
        self.id
    }

    /// Borrows the table's records.
    pub fn records_slice(&self) -> (r: &[Record])
        ensures
            records_view(r@) == self.spec_records(),
    {
        self.records.as_slice()
    }

    /// The visible version of `key` at snapshot `snap` among this table's
    /// records.
    pub(crate) fn lookup(&self, key: &[u8], snap: u64) -> (r: Option<FoundVersion>)
        ensures
            found_matches(r, newest_version(self.spec_records(), key@, snap)),
    {
        scan_newest(self.records.as_slice(), key, snap)
    }

    /// Serializes the table into its durable image: one block — the record
    /// count followed by the records on the wire — compressed with the given
    /// codec behind a header carrying the codec tag and a checksum of the
    /// plain block. Reading the image back yields exactly this table's
    /// records: the round trip loses nothing, whatever the codec.
    pub fn serialize(&self, algo: CompressionAlgorithm) -> (r: Result<Vec<u8>, Error>)
        requires
            records_encodable(self.spec_records()),
            self.spec_records().len() <= 0xffff_ffff,
        ensures
            match r {
                Ok(bytes) => spec_table_decode(bytes@) == Some(self.spec_records()) && 4
                    + spec_encode_records(self.spec_records()).len() <= MAX_BLOCK_PLAIN_LEN,
                Err(e) => e == Error::TooLarge && 4 + spec_encode_records(
                    self.spec_records(),
                ).len() > MAX_BLOCK_PLAIN_LEN,
            },
    {
        let ghost rs = self.spec_records();
        let n = self.records.len();
        let mut plain: Vec<u8> = Vec::new();
        push_u32_le(&mut plain, n as u32);
        let mut i: usize = 0;
        proof {
            assert(spec_encode_records(rs.take(0)) =~= Seq::<u8>::empty());
            assert(plain@ =~= u32_le(n as u32) + spec_encode_records(rs.take(0)));
        }
        while i < n
            invariant
                0 <= i <= rs.len(),
                n == self.records@.len(),
                rs == self.spec_records(),
                records_encodable(rs),
                plain@ == u32_le(n as u32) + spec_encode_records(rs.take(i as int)),
            decreases n - i,
        {
            proof {
                assert(rs[i as int] == self.records@[i as int]@);
            }
            encode_record_into(&mut plain, &self.records[i]);
            proof {
                assert(rs.take(i as int + 1).drop_last() =~= rs.take(i as int));
                assert(rs.take(i as int + 1).last() == rs[i as int]);
                assert(plain@ =~= u32_le(n as u32) + spec_encode_records(rs.take(i as int + 1)));
            }
            i += 1;
        }
        proof {
            assert(rs.take(rs.len() as int) =~= rs);
        }
        if plain.len() > MAX_BLOCK_PLAIN_LEN {
            return Err(Error::TooLarge);
        }
        let payload = compress_block(algo, plain.as_slice());
        let cks = checksum(plain.as_slice());
        let tag: u8 = match algo {
            CompressionAlgorithm::NoCompression => 0,
            CompressionAlgorithm::Snappy => 1,
            CompressionAlgorithm::Zlib => 2,
            CompressionAlgorithm::Zstd => 3,
            CompressionAlgorithm::Lz4 => 4,
        };
        let mut out: Vec<u8> = Vec::new();
        out.push(tag);
        push_u64_le(&mut out, cks);
        let mut j: usize = 0;
        let ghost header = out@;
        while j < payload.len()
            invariant
                0 <= j <= payload@.len(),
                out@ == header + payload@.take(j as int),
            decreases payload@.len() - j,
        {
            out.push(payload[j]);
            proof {
                assert(payload@.take(j as int + 1) =~= payload@.take(j as int) + seq![
                    payload@[j as int],
                ]);
                assert(out@ =~= header + payload@.take(j as int + 1));
            }
            j += 1;
        }
        proof {
            assert(payload@.take(payload@.len() as int) =~= payload@);
            let b = out@;
            assert(b.len() == 9 + payload@.len());
            assert(b[0] == tag);
            assert(spec_algo_of_byte(tag) == Some(algo));
            assert(b.subrange(1, 9) =~= u64_le(cks));
            lemma_u64_le_inverse(cks);
            assert(b.subrange(9, b.len() as int) =~= payload@);
            assert(spec_decompress(algo, payload@) == Some(plain@));
            assert(plain@.subrange(0, 4) =~= u32_le(n as u32));
            lemma_u32_le_inverse(n as u32);
            assert(plain@.len() == 4 + spec_encode_records(rs).len());
            assert(plain@.subrange(4, plain@.len() as int) =~= spec_encode_records(rs));
            lemma_parse_encoded(plain@, 4, rs);
            assert(spec_parse_records(plain@, 4, rs.len() as int) == Some(
                (rs, plain@.len() as int),
            ));
            assert(spec_table_decode(b) == Some(rs));
        }
        Ok(out)
    }

    /// Reads a table image back into a table file with the given id. Every
    /// record and its expiration match what was serialized exactly; a
    /// corrupt image — any header, checksum or format violation — is
    /// reported, never silently accepted.
    pub fn deserialize(id: u64, bytes: &[u8]) -> (r: Result<TableFile, Error>)
        ensures
            match r {
                Ok(t) => t.spec_id() == id && spec_table_decode(bytes@) == Some(t.spec_records()),
                Err(e) => e == Error::Corruption && spec_table_decode(bytes@) is None,
            },
    {
        if bytes.len() < 9 {
            return Err(Error::Corruption);
        }
        let tag = bytes[0];
        let algo = if tag == 0 {
            CompressionAlgorithm::NoCompression
        } else if tag == 1 {
            CompressionAlgorithm::Snappy
        } else if tag == 2 {
            CompressionAlgorithm::Zlib
        } else if tag == 3 {
            CompressionAlgorithm::Zstd
        } else if tag == 4 {
            CompressionAlgorithm::Lz4
        } else {
            return Err(Error::Corruption);
        };
        let cks = read_u64_le(bytes, 1);
        let payload = slice_subrange(bytes, 9, bytes.len());
        let plain = match decompress_block(algo, payload) {
            Some(p) => p,
            None => {
                return Err(Error::Corruption);
            },
        };
        if checksum(plain.as_slice()) != cks {
            return Err(Error::Corruption);
        }
        if plain.len() < 4 {
            return Err(Error::Corruption);
        }
        let n = read_u32_le(plain.as_slice(), 0);
        let mut recs: Vec<Record> = Vec::new();
        let mut ofs: usize = 4;
        let mut k: u32 = 0;
        proof {
            assert(records_view(recs@) =~= Seq::<RecordModel>::empty());
        }
        while k < n
            invariant
                0 <= k <= n,
                4 <= ofs <= plain@.len(),
                bytes@.len() >= 9,
                spec_algo_of_byte(bytes@[0]) == Some(algo),
                spec_decompress(algo, bytes@.subrange(9, bytes@.len() as int)) == Some(plain@),
                spec_checksum(plain@) == le64(bytes@.subrange(1, 9)),
                plain@.len() >= 4,
                n == le32(plain@.subrange(0, 4)),
                (match spec_parse_records(plain@, ofs as int, (n - k) as int) {
                    Some((rest, e)) => spec_parse_records(plain@, 4, n as int) == Some(
                        (records_view(recs@) + rest, e),
                    ),
                    None => spec_parse_records(plain@, 4, n as int) is None,
                }),
            decreases n - k,
        {
            match parse_record_exec(plain.as_slice(), ofs) {
                None => {
                    proof {
                        assert(spec_parse_records(plain@, ofs as int, (n - k) as int) is None);
                    }
                    return Err(Error::Corruption);
                },
                Some((rec, no)) => {
                    let ghost rec_m = rec@;
                    let ghost pre_recs = records_view(recs@);
                    recs.push(rec);
                    proof {
                        assert(records_view(recs@) =~= pre_recs + seq![rec_m]);
                        let tail = spec_parse_records(plain@, no as int, (n - k - 1) as int);
                        match tail {
                            Some((rest, e)) => {
                                assert(spec_parse_records(plain@, ofs as int, (n - k) as int)
                                    == Some((seq![rec_m] + rest, e)));
                                assert(pre_recs + (seq![rec_m] + rest) =~= (pre_recs + seq![
                                    rec_m,
                                ]) + rest);
                            },
                            None => {
                                assert(spec_parse_records(plain@, ofs as int, (n - k) as int) is None);
                            },
                        }
                    }
                    ofs = no;
                },
            }
            k += 1;
        }
        proof {
            assert(spec_parse_records(plain@, ofs as int, 0) == Some(
                (Seq::<RecordModel>::empty(), ofs as int),
            ));
            assert(spec_parse_records(plain@, 4, n as int) == Some(
                (records_view(recs@) + Seq::<RecordModel>::empty(), ofs as int),
            ));
            assert(records_view(recs@) + Seq::<RecordModel>::empty() =~= records_view(recs@));
        }
        if ofs != plain.len() {
            return Err(Error::Corruption);
        }
        let t = TableFile { id, records: recs };
        proof {
            assert(spec_table_decode(bytes@) == Some(t.spec_records()));
        }
        Ok(t)
    }
}

/// The round trip is lossless: a table file serialized and read back holds
/// every record — key, value or tombstone, sequence number and expiration —
/// exactly, whatever the codec. `t` is the serialized table and `bytes` its
/// image as `serialize` promises it; `t2` is what `deserialize` promises
/// for those bytes.
pub proof fn lemma_table_round_trip(t: TableFile, bytes: Seq<u8>, t2: TableFile)
    requires
        spec_table_decode(bytes) == Some(t.spec_records()),
        spec_table_decode(bytes) == Some(t2.spec_records()),
    ensures
        t2.spec_records() == t.spec_records(),
{
}

/// Reads one record off the wire, mirroring the specification parser.
fn parse_record_exec(buf: &[u8], ofs: usize) -> (r: Option<(Record, usize)>)
    ensures
        (match r {
            Some((rec, no)) => spec_parse_record(buf@, ofs as int) == Some((rec@, no as int))
                && ofs < no <= buf@.len(),
            None => spec_parse_record(buf@, ofs as int) is None,
        }),
{
    if buf.len() < 25 || ofs > buf.len() - 25 {
        return None;
    }
    let seqn = read_u64_le(buf, ofs);
    let flags = buf[ofs + 8];
    let expiry = read_u64_le(buf, ofs + 9);
    let klen = read_u32_le(buf, ofs + 17) as usize;
    let vlen = read_u32_le(buf, ofs + 21) as usize;
    if flags > 3 {
        return None;
    }
    let body = buf.len() - (ofs + 25);
    if klen > body || vlen > body - klen {
        return None;
    }
    let key = slice_to_vec(slice_subrange(buf, ofs + 25, ofs + 25 + klen));
    let value = if flags == 1 || flags == 3 {
        Some(slice_to_vec(slice_subrange(buf, ofs + 25 + klen, ofs + 25 + klen + vlen)))
    } else {
        None
    };
    let expires_at = if flags >= 2 {
        Some(expiry)
    } else {
        None
    };
    let rec = Record { key, value, seq: seqn, expires_at };
    let no = ofs + 25 + klen + vlen;
    proof {
        assert(spec_parse_record(buf@, ofs as int) == Some((rec@, no as int)));
    }
    Some((rec, no))
}

} // verus!
