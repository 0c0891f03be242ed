//! The in-memory write buffer of one column family: an ordered list of
//! record versions, insert-visible-immediately, bounded by the configured
//! write-buffer size and sealed for flushing when full.

use vstd::prelude::*;

use crate::comparator::Comparator;
use crate::record::FoundVersion;
use crate::record::Record;
use crate::record::RecordModel;
use crate::record::bytes_eq;
use crate::record::copy_opt_bytes;
use crate::record::found_matches;
use crate::record::records_view;
use crate::visibility::newest_version;

verus! {

/// The storage order of a write buffer: `a` may stand before `b` when its
/// key sorts first, or on equal keys when it is the newer version.
pub open spec fn rec_ordered_leq(c: Comparator, a: RecordModel, b: RecordModel) -> bool {
    c.spec_compare(a.key, b.key) < 0 || (c.spec_compare(a.key, b.key) == 0 && a.seq >= b.seq)
}

/// A record run in comparator order, equal keys newest-sequence-first.
pub open spec fn spec_sorted(recs: Seq<RecordModel>, c: Comparator) -> bool {
    forall|i: int, j: int|
        #![trigger recs[i], recs[j]]
        0 <= i < j < recs.len() ==> rec_ordered_leq(c, recs[i], recs[j])
}

/// Fixed per-entry bookkeeping charge towards the write-buffer size.
pub const ENTRY_OVERHEAD_BYTES: u64 = 32;

/// The size charge of one record against the write buffer.
pub open spec fn spec_record_cost(r: RecordModel) -> int {
    r.key.len() + (match r.value {
        Some(v) => v.len() as int,
        None => 0,
    }) + ENTRY_OVERHEAD_BYTES
}

/// The in-memory write buffer: record versions kept in comparator order
/// (ties broken newest-sequence-first), never overwritten in place.
pub struct Memtable {
    pub(crate) entries: Vec<Record>,
    pub(crate) size_bytes: u64,
}

impl Memtable {
    /// The records this buffer holds, in storage order.
    pub closed spec fn spec_records(self) -> Seq<RecordModel> {
        records_view(self.entries@)
    }

    /// The approximate byte size charged against the write buffer.
    pub closed spec fn spec_size_bytes(self) -> u64 {
        self.size_bytes
    }

    /// An empty buffer, trivially in order under any comparator.
    pub fn new() -> (r: Memtable)
        ensures
            r.spec_records() == Seq::<RecordModel>::empty(),
            r.spec_size_bytes() == 0,
            forall|c: Comparator| #[trigger] spec_sorted(r.spec_records(), c),
    {
        let r = Memtable { entries: Vec::new(), size_bytes: 0 };
        proof {
            assert(r.spec_records() =~= Seq::<RecordModel>::empty());
        }
        r
    }

    /// Inserts a record at its comparator position. The buffer after the
    /// call holds exactly the old records with the new one placed among
    /// them, and a buffer in comparator order stays in comparator order —
    /// the write buffer is an ordered structure under the injected
    /// comparator, never a hard-coded one.
    pub fn insert(&mut self, rec: Record, cmp: &Comparator) -> (pos: usize)
        ensures
            0 <= pos <= old(self).spec_records().len(),
            final(self).spec_records() == old(self).spec_records().insert(pos as int, rec@),
            final(self).spec_size_bytes() == spec_sat_add_u64(
                old(self).spec_size_bytes() as int,
                spec_record_cost(rec@),
            ),
            spec_sorted(old(self).spec_records(), *cmp) ==> spec_sorted(
                final(self).spec_records(),
                *cmp,
            ),
    {
        let ghost old_entries = self.entries@;
        let ghost rec_v = rec@;
        let pos = find_insert_position(&self.entries, &rec, cmp);
        let cost = record_cost(&rec);
        self.size_bytes = sat_add_u64(self.size_bytes, cost);
        self.entries.insert(pos, rec);
        proof {
            assert(records_view(self.entries@) =~= records_view(old_entries).insert(
                pos as int,
                rec_v,
            ));
            let c = *cmp;
            let oldr = records_view(old_entries);
            let newr = records_view(self.entries@);
            oldr.insert_ensures(pos as int, rec_v);
            if spec_sorted(oldr, c) {
                assert forall|i: int, j: int|
                    0 <= i < j < newr.len() implies rec_ordered_leq(
                    c,
                    #[trigger] newr[i],
                    #[trigger] newr[j],
                ) by {
                    lemma_insert_pair_ordered(oldr, rec_v, c, pos as int, i, j);
                }
            }
        }
        pos
    }

    /// The visible version of `key` at snapshot `snap` among this buffer's
    /// records.
    pub fn lookup(&self, key: &[u8], snap: u64) -> (r: Option<FoundVersion>)
        ensures
            found_matches(r, newest_version(self.spec_records(), key@, snap)),
    {
        scan_newest(self.entries.as_slice(), key, snap)
    }

    /// Whether the buffer has reached the configured write-buffer size and
    /// should be sealed for flushing.
    pub fn is_full(&self, write_buffer_size: usize) -> (r: bool)
        ensures
            r == (self.spec_size_bytes() >= write_buffer_size as u64),
    {
        self.size_bytes >= write_buffer_size as u64
    }

    /// Surrenders the buffer's records for flushing.
    pub(crate) fn take_entries(self) -> (r: Vec<Record>)
        ensures
            records_view(r@) == self.spec_records(),
    {
        self.entries
    }

    /// The number of buffered record versions.
    pub fn len(&self) -> (r: usize)
        ensures
            r == self.spec_records().len(),
    {
        self.entries.len()
    }
}

/// The comparator position for a new record: the index of the first entry
/// the record may stand before; everything before it stands strictly before
/// the record.
fn find_insert_position(entries: &Vec<Record>, rec: &Record, cmp: &Comparator) -> (r: usize)
    ensures
        r <= entries@.len(),
        forall|k: int|
            #![trigger entries@[k]]
            0 <= k < r ==> !rec_ordered_leq(*cmp, rec@, entries@[k]@),
        r < entries@.len() ==> rec_ordered_leq(*cmp, rec@, entries@[r as int]@),
{
    let mut pos: usize = 0;
    while pos < entries.len()
        invariant
            0 <= pos <= entries@.len(),
            forall|k: int|
                #![trigger entries@[k]]
                0 <= k < pos ==> !rec_ordered_leq(*cmp, rec@, entries@[k]@),
        decreases entries@.len() - pos,
    {
        let e = &entries[pos];
        let c = cmp.compare(rec.key.as_slice(), e.key.as_slice());
        if c < 0 || (c == 0 && rec.seq >= e.seq) {
            return pos;
        }
        pos += 1;
    }
    pos
}

/// Each pair of the buffer stays ordered when a record enters at a position
/// found by `find_insert_position` on an ordered buffer.
proof fn lemma_insert_pair_ordered(
    oldr: Seq<RecordModel>,
    rec: RecordModel,
    c: Comparator,
    pos: int,
    i: int,
    j: int,
)
    requires
        spec_sorted(oldr, c),
        0 <= pos <= oldr.len(),
        forall|k: int| #![trigger oldr[k]] 0 <= k < pos ==> !rec_ordered_leq(c, rec, oldr[k]),
        pos < oldr.len() ==> rec_ordered_leq(c, rec, oldr[pos]),
        0 <= i < j < oldr.insert(pos, rec).len(),
    ensures
        rec_ordered_leq(c, oldr.insert(pos, rec)[i], oldr.insert(pos, rec)[j]),
{
    let newr = oldr.insert(pos, rec);
    oldr.insert_ensures(pos, rec);
    if i != pos && j != pos {
        let oi: int = if i < pos {
            i
        } else {
            i - 1
        };
        let oj: int = if j < pos {
            j
        } else {
            j - 1
        };
        assert(newr[i] == oldr[oi] && newr[j] == oldr[oj]);
        assert(rec_ordered_leq(c, oldr[oi], oldr[oj]));
    } else if j == pos {
        // the earlier entry was passed over: it stands strictly before
        assert(newr[i] == oldr[i]);
        assert(!rec_ordered_leq(c, rec, oldr[i]));
        c.lemma_compare_antisym(rec.key, oldr[i].key);
        assert(rec_ordered_leq(c, oldr[i], rec));
    } else {
        // i == pos: the record stands before its successor, and order
        // carries to everything after it
        let oj = j - 1;
        assert(newr[j] == oldr[oj]);
        assert(rec_ordered_leq(c, rec, oldr[pos]));
        if oj == pos {
        } else {
            assert(rec_ordered_leq(c, oldr[pos], oldr[oj]));
            let y = oldr[pos];
            let z = oldr[oj];
            c.lemma_compare_trans(rec.key, y.key, z.key);
            if c.spec_compare(rec.key, y.key) == 0 && c.spec_compare(y.key, z.key) == 0 {
                c.lemma_compare_eq(rec.key, y.key);
                c.lemma_compare_eq(y.key, z.key);
                c.lemma_compare_eq(rec.key, z.key);
            }
        }
    }
}

/// Scans a record slice for the visible version of `key` at snapshot `snap`:
/// the matching record with the greatest sequence number not above the
/// snapshot, later occurrences winning ties.
pub(crate) fn scan_newest(entries: &[Record], key: &[u8], snap: u64) -> (r: Option<FoundVersion>)
    ensures
        found_matches(r, newest_version(records_view(entries@), key@, snap)),
{
    let ghost recs = records_view(entries@);
    let mut best: Option<FoundVersion> = None;
    let mut i: usize = 0;
    proof {
        assert(recs.take(0) =~= Seq::<RecordModel>::empty());
    }
    while i < entries.len()
        invariant
            0 <= i <= entries@.len(),
            recs == records_view(entries@),
            found_matches(best, newest_version(recs.take(i as int), key@, snap)),
        decreases entries@.len() - i,
    {
        let e = &entries[i];
        proof {
            assert(recs.take(i + 1).drop_last() =~= recs.take(i as int));
            assert(recs.take(i + 1).last() == recs[i as int]);
        }
        if e.seq <= snap && bytes_eq(e.key.as_slice(), key) {
            let replace = match &best {
                None => true,
                Some(b) => e.seq >= b.seq,
            };
            if replace {
                best = Some(
                    FoundVersion {
                        value: copy_opt_bytes(&e.value),
                        seq: e.seq,
                        expires_at: e.expires_at,
                    },
                );
            }
        }
        i += 1;
    }
    proof {
        assert(recs.take(entries@.len() as int) =~= recs);
    }
    best
}

/// The size charge of one record.
pub(crate) fn record_cost(rec: &Record) -> (r: u64)
    ensures
        r == spec_sat_add_u64(0, spec_record_cost(rec@)),
        r == spec_record_cost(rec@) || r == u64::MAX,
{
    let klen = rec.key.len() as u64;
    let vlen: u64 = match &rec.value {
        Some(v) => v.len() as u64,
        None => 0,
    };
    sat_add_u64(sat_add_u64(klen, vlen), ENTRY_OVERHEAD_BYTES)
}

/// Saturating addition on an unbounded mathematical sum.
pub open spec fn spec_sat_add_u64(a: int, b: int) -> u64 {
    if a + b > u64::MAX {
        u64::MAX
    } else {
        (a + b) as u64
    }
}

/// Saturating addition of two machine words.
pub(crate) fn sat_add_u64(a: u64, b: u64) -> (r: u64)
    ensures
        r == spec_sat_add_u64(a as int, b as int),
{
    if a > u64::MAX - b {
        u64::MAX
    } else {
        a + b
    }
}

} // verus!
