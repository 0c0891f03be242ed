//! The multi-version read rule.
//!
//! A column family's contents are modeled as a sequence of record versions.
//! A reader at snapshot `snap` sees, for a key, the version of that key with
//! the greatest sequence number not above `snap`; a tombstone or an expired
//! version makes the key absent. Everything the engine promises about reads,
//! commits, flushes and compactions is phrased over these functions.

use vstd::prelude::*;

use crate::record::RecordModel;

verus! {

/// Of two optional versions, the one with the higher sequence number; the
/// right argument wins ties (it stands later in the scan order).
pub open spec fn better(a: Option<RecordModel>, b: Option<RecordModel>) -> Option<RecordModel> {
    match (a, b) {
        (x, None) => x,
        (None, y) => y,
        (Some(x), Some(y)) => if y.seq >= x.seq {
            Some(y)
        } else {
            Some(x)
        },
    }
}

/// The version of `key` in `recs` that a reader at snapshot `snap` sees: the
/// candidate (same key, sequence not above the snapshot) with the greatest
/// sequence number, the later occurrence winning ties.
pub open spec fn newest_version(recs: Seq<RecordModel>, key: Seq<u8>, snap: u64) -> Option<
    RecordModel,
>
    decreases recs.len(),
{
    if recs.len() == 0 {
        None
    } else {
        better(
            newest_version(recs.drop_last(), key, snap),
            if recs.last().key == key && recs.last().seq <= snap {
                Some(recs.last())
            } else {
                None
            },
        )
    }
}

/// Whether an expiration stamp is still live (not expired) at time `now`.
pub open spec fn expiry_live_at(e: Option<u64>, now: u64) -> bool {
    match e {
        Some(x) => now < x,
        None => true,
    }
}

/// Whether a version is still live (not expired) at time `now`.
pub open spec fn record_live_at(r: RecordModel, now: u64) -> bool {
    expiry_live_at(r.expires_at, now)
}

/// The value of `key` that a reader at snapshot `snap` and wall-clock time
/// `now` sees in `recs`: `None` when there is no visible version, when the
/// visible version is a tombstone, or when it has expired.
pub open spec fn visible_value(
    recs: Seq<RecordModel>,
    key: Seq<u8>,
    snap: u64,
    now: u64,
) -> Option<Seq<u8>> {
    match newest_version(recs, key, snap) {
        None => None,
        Some(x) => if record_live_at(x, now) {
            x.value
        } else {
            None
        },
    }
}

/// Well-formedness of a record store against the database's sequence
/// allocator: every sequence number was allocated (at least 1, below
/// `next_seq`) and no two versions of one key share a sequence number.
pub open spec fn records_wf(recs: Seq<RecordModel>, next_seq: u64) -> bool {
    &&& forall|i: int|
        #![trigger recs[i]]
        0 <= i < recs.len() ==> 1 <= recs[i].seq < next_seq
    &&& forall|i: int, j: int|
        #![trigger recs[i], recs[j]]
        0 <= i < recs.len() && 0 <= j < recs.len() && i != j && recs[i].key == recs[j].key
            ==> recs[i].seq != recs[j].seq
}

/// Two record stores read the same: every key resolves to the same visible
/// version at every snapshot.
pub open spec fn visible_eq(a: Seq<RecordModel>, b: Seq<RecordModel>) -> bool {
    forall|k: Seq<u8>, s: u64|
        #![trigger newest_version(a, k, s)]
        newest_version(a, k, s) == newest_version(b, k, s)
}

/// Whether the store holds a version of `key` newer than snapshot `snap`.
pub open spec fn spec_has_newer_version(recs: Seq<RecordModel>, key: Seq<u8>, snap: u64) -> bool {
    exists|i: int| 0 <= i < recs.len() && recs[i].key == key && recs[i].seq > snap
}

/// A newer-than-snapshot version exists exactly when the overall newest
/// version of the key is newer than the snapshot.
pub proof fn lemma_has_newer_iff_newest(recs: Seq<RecordModel>, key: Seq<u8>, snap: u64)
    ensures
        spec_has_newer_version(recs, key, snap) == (match newest_version(recs, key, u64::MAX) {
            Some(x) => x.seq > snap,
            None => false,
        }),
{
    lemma_newest_characterization(recs, key, u64::MAX);
    match newest_version(recs, key, u64::MAX) {
        Some(x) => {
            if x.seq > snap {
                let i = choose|i: int| 0 <= i < recs.len() && recs[i] == x;
                assert(spec_has_newer_version(recs, key, snap));
            }
        },
        None => {
            if spec_has_newer_version(recs, key, snap) {
                let i = choose|i: int| 0 <= i < recs.len() && recs[i].key == key && recs[i].seq
                    > snap;
                assert(!(recs[i].key == key && recs[i].seq <= u64::MAX));
            }
        },
    }
}

/// Inserting a freshly allocated record keeps the store well formed under
/// the advanced allocator.
pub proof fn lemma_records_wf_insert_fresh(
    a: Seq<RecordModel>,
    b: Seq<RecordModel>,
    r: RecordModel,
    next_seq: u64,
)
    requires
        records_wf(a + b, next_seq),
        r.seq == next_seq,
        1 <= next_seq < u64::MAX,
    ensures
        records_wf(a + seq![r] + b, (next_seq + 1) as u64),
{
    let old_recs = a + b;
    let new_recs = a + seq![r] + b;
    assert forall|i: int| 0 <= i < new_recs.len() implies 1 <= (#[trigger] new_recs[i]).seq < next_seq
        + 1 by {
        if i < a.len() {
            assert(new_recs[i] == old_recs[i]);
        } else if i == a.len() {
            assert(new_recs[i] == r);
        } else {
            assert(new_recs[i] == old_recs[i - 1]);
        }
    }
    assert forall|i: int, j: int|
        0 <= i < new_recs.len() && 0 <= j < new_recs.len() && i != j && (#[trigger] new_recs[i]).key
            == (#[trigger] new_recs[j]).key implies new_recs[i].seq != new_recs[j].seq by {
        let oi: int = if i < a.len() {
            i
        } else {
            i - 1
        };
        let oj: int = if j < a.len() {
            j
        } else {
            j - 1
        };
        if i == a.len() {
            if j < a.len() {
                assert(new_recs[j] == old_recs[j]);
            } else {
                assert(new_recs[j] == old_recs[j - 1]);
            }
        } else if j == a.len() {
            if i < a.len() {
                assert(new_recs[i] == old_recs[i]);
            } else {
                assert(new_recs[i] == old_recs[i - 1]);
            }
        } else {
            assert(new_recs[i] == old_recs[oi]);
            assert(new_recs[j] == old_recs[oj]);
            assert(oi != oj);
        }
    }
}

/// A well-formed store stays well formed as the allocator advances.
pub proof fn lemma_records_wf_weaken(recs: Seq<RecordModel>, n1: u64, n2: u64)
    requires
        records_wf(recs, n1),
        n1 <= n2,
    ensures
        records_wf(recs, n2),
{
}

/// The visible version of a one-record sequence.
pub proof fn lemma_newest_singleton(r: RecordModel, key: Seq<u8>, snap: u64)
    ensures
        newest_version(seq![r], key, snap) == (if r.key == key && r.seq <= snap {
            Some(r)
        } else {
            None::<RecordModel>
        }),
{
    assert(seq![r].drop_last() =~= Seq::<RecordModel>::empty());
    assert(seq![r].last() == r);
    assert(newest_version(Seq::<RecordModel>::empty(), key, snap) == None::<RecordModel>);
}

/// Scanning a concatenation is scanning each part and keeping the better
/// candidate.
pub proof fn lemma_newest_concat(a: Seq<RecordModel>, b: Seq<RecordModel>, key: Seq<u8>, snap: u64)
    ensures
        newest_version(a + b, key, snap) == better(
            newest_version(a, key, snap),
            newest_version(b, key, snap),
        ),
    decreases b.len(),
{
    if b.len() == 0 {
        assert(a + b =~= a);
    } else {
        assert((a + b).drop_last() =~= a + b.drop_last());
        assert((a + b).last() == b.last());
        lemma_newest_concat(a, b.drop_last(), key, snap);
    }
}

/// What `newest_version` returns: a candidate from the sequence whose
/// sequence number dominates every other candidate's, or nothing exactly when
/// there is no candidate.
pub proof fn lemma_newest_characterization(recs: Seq<RecordModel>, key: Seq<u8>, snap: u64)
    ensures
        match newest_version(recs, key, snap) {
            None => forall|i: int|
                #![trigger recs[i]]
                0 <= i < recs.len() ==> !(recs[i].key == key && recs[i].seq <= snap),
            Some(x) => {
                &&& exists|i: int| 0 <= i < recs.len() && recs[i] == x
                &&& x.key == key
                &&& x.seq <= snap
                &&& forall|i: int|
                    #![trigger recs[i]]
                    0 <= i < recs.len() && recs[i].key == key && recs[i].seq <= snap
                        ==> recs[i].seq <= x.seq
            },
        },
    decreases recs.len(),
{
    if recs.len() > 0 {
        lemma_newest_characterization(recs.drop_last(), key, snap);
        assert(forall|i: int|
            0 <= i < recs.len() - 1 ==> recs.drop_last()[i] == #[trigger] recs[i]);
        match newest_version(recs, key, snap) {
            None => {},
            Some(x) => {
                if recs.last().key == key && recs.last().seq <= snap && (match newest_version(
                    recs.drop_last(),
                    key,
                    snap,
                ) {
                    None => true,
                    Some(y) => recs.last().seq >= y.seq,
                }) {
                    assert(recs[recs.len() - 1] == x);
                } else {
                    let j = choose|j: int|
                        0 <= j < recs.drop_last().len() && recs.drop_last()[j] == x;
                    assert(recs[j] == x);
                }
            },
        }
    }
}

/// Appending a record whose sequence number is above everything in the
/// sequence: it becomes the visible version of its key for snapshots that
/// admit it, and changes nothing else.
pub proof fn lemma_newest_append_fresh(
    recs: Seq<RecordModel>,
    r: RecordModel,
    key: Seq<u8>,
    snap: u64,
)
    requires
        forall|i: int| #![trigger recs[i]] 0 <= i < recs.len() ==> recs[i].seq < r.seq,
    ensures
        newest_version(recs.push(r), key, snap) == (if r.key == key && r.seq <= snap {
            Some(r)
        } else {
            newest_version(recs, key, snap)
        }),
{
    assert(recs.push(r).drop_last() =~= recs);
    assert(recs.push(r).last() == r);
    lemma_newest_characterization(recs, key, snap);
}

/// Inserting a record whose sequence number is above everything already
/// present, at any position: the result reads as if it had been appended.
pub proof fn lemma_newest_insert_fresh(
    a: Seq<RecordModel>,
    b: Seq<RecordModel>,
    r: RecordModel,
    key: Seq<u8>,
    snap: u64,
)
    requires
        forall|i: int| #![trigger a[i]] 0 <= i < a.len() ==> a[i].seq < r.seq,
        forall|i: int| #![trigger b[i]] 0 <= i < b.len() ==> b[i].seq < r.seq,
    ensures
        newest_version(a + seq![r] + b, key, snap) == (if r.key == key && r.seq <= snap {
            Some(r)
        } else {
            newest_version(a + b, key, snap)
        }),
{
    lemma_newest_concat(a + seq![r], b, key, snap);
    lemma_newest_concat(a, seq![r], key, snap);
    lemma_newest_concat(a, b, key, snap);
    lemma_newest_singleton(r, key, snap);
    lemma_newest_characterization(a, key, snap);
    lemma_newest_characterization(b, key, snap);
}

} // verus!
