//! Record versions: the unit of storage throughout the engine.
//!
//! A record carries a key, a value or a tombstone, the sequence number that
//! orders it against other versions of the same key, and an optional absolute
//! expiration time in seconds.

use vstd::prelude::*;
use vstd::slice::slice_to_vec;

verus! {

/// One stored version of a key. `value == None` is a tombstone recording a
/// deletion; `expires_at == Some(e)` makes the version absent for reads at or
/// after time `e`.
pub struct Record {
    pub key: Vec<u8>,
    pub value: Option<Vec<u8>>,
    pub seq: u64,
    pub expires_at: Option<u64>,
}

/// The mathematical shadow of a `Record`.
pub ghost struct RecordModel {
    pub key: Seq<u8>,
    pub value: Option<Seq<u8>>,
    pub seq: u64,
    pub expires_at: Option<u64>,
}

/// The view of an optional byte buffer.
pub open spec fn opt_bytes_view(v: Option<Vec<u8>>) -> Option<Seq<u8>> {
    match v {
        Some(x) => Some(x@),
        None => None,
    }
}

impl View for Record {
    type V = RecordModel;

    open spec fn view(&self) -> RecordModel {
        RecordModel {
            key: self.key@,
            value: opt_bytes_view(self.value),
            seq: self.seq,
            expires_at: self.expires_at,
        }
    }
}

impl Record {
    /// A field-for-field copy of this record.
    pub fn duplicate(&self) -> (r: Record)
        ensures
            r@ == self@,
    {
        Record {
            key: slice_to_vec(self.key.as_slice()),
            value: copy_opt_bytes(&self.value),
            seq: self.seq,
            expires_at: self.expires_at,
        }
    }
}

/// The outcome of a point lookup in one store: the visible version's value
/// (or tombstone), sequence number and expiration, with the key implied by
/// the query.
pub struct FoundVersion {
    pub value: Option<Vec<u8>>,
    pub seq: u64,
    pub expires_at: Option<u64>,
}

/// Whether a lookup outcome reports exactly the given version.
pub open spec fn found_matches(r: Option<FoundVersion>, x: Option<RecordModel>) -> bool {
    match (r, x) {
        (None, None) => true,
        (Some(f), Some(m)) => opt_bytes_view(f.value) == m.value && f.seq == m.seq && f.expires_at
            == m.expires_at,
        _ => false,
    }
}

/// The view of a record sequence.
pub open spec fn records_view(recs: Seq<Record>) -> Seq<RecordModel> {
    recs.map_values(|r: Record| r@)
}

/// Byte-for-byte equality of two slices.
pub fn bytes_eq(a: &[u8], b: &[u8]) -> (r: bool)
    ensures
        r == (a@ == b@),
{
    if a.len() != b.len() {
        proof {
            assert(a@ != b@) by {
                if a@ == b@ {
                    assert(a@.len() == b@.len());
                }
            }
        }
        return false;
    }
    let mut i: usize = 0;
    while i < a.len()
        invariant
            0 <= i <= a@.len(),
            a@.len() == b@.len(),
            forall|j: int| 0 <= j < i ==> a@[j] == b@[j],
        decreases a@.len() - i,
    {
        if a[i] != b[i] {
            proof {
                assert(a@ != b@) by {
                    if a@ == b@ {
                        assert(a@[i as int] == b@[i as int]);
                    }
                }
            }
            return false;
        }
        i += 1;
    }
    proof {
        assert(a@ =~= b@);
    }
    true
}

/// Copies an optional byte buffer.
pub fn copy_opt_bytes(v: &Option<Vec<u8>>) -> (r: Option<Vec<u8>>)
    ensures
        opt_bytes_view(r) == opt_bytes_view(*v),
{
    match v {
        Some(x) => Some(slice_to_vec(x.as_slice())),
        None => None,
    }
}

} // verus!
