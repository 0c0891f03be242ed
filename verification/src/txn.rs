//! Transactions: a buffered write set, a snapshot, a savepoint stack.
//!
//! Writes never touch a column family before commit; they are buffered in
//! the transaction's write set in issue order. Savepoints are markers into
//! that log: rolling back to one truncates the log to the marker, releasing
//! one removes only the marker. Reads first consult the transaction's own
//! write set, then the column family at the snapshot the isolation level
//! prescribes.

use vstd::prelude::*;
use vstd::string::StringExecFns;

use crate::clock::wall_clock_seconds;
use crate::config::IsolationLevel;
use crate::db::ColumnFamily;
use crate::db::Database;
use crate::error::Error;
use crate::record::opt_bytes_view;
use vstd::slice::slice_to_vec;

verus! {

/// Longest accepted key, in bytes.
pub const MAX_KEY_LEN: usize = 65536;

/// Longest accepted value, in bytes.
pub const MAX_VALUE_LEN: usize = 16 * 1024 * 1024;

/// One buffered write: a put (with optional expiration) or a delete.
pub struct WriteOp {
    pub cf_id: usize,
    pub key: Vec<u8>,
    /// `None` buffers a deletion.
    pub value: Option<Vec<u8>>,
    pub expires_at: Option<u64>,
}

/// The mathematical shadow of a buffered write.
pub ghost struct WriteOpModel {
    pub cf_id: usize,
    pub key: Seq<u8>,
    pub value: Option<Seq<u8>>,
    pub expires_at: Option<u64>,
}

impl View for WriteOp {
    type V = WriteOpModel;

    open spec fn view(&self) -> WriteOpModel {
        WriteOpModel {
            cf_id: self.cf_id,
            key: self.key@,
            value: opt_bytes_view(self.value),
            expires_at: self.expires_at,
        }
    }
}

/// A named marker into the write-set log.
pub(crate) struct Savepoint {
    pub(crate) name: String,
    pub(crate) ws_len: usize,
}

/// The mathematical shadow of a savepoint.
pub ghost struct SavepointModel {
    pub name: Seq<char>,
    pub ws_len: int,
}

/// A key read under serializable isolation, remembered for the read-write
/// conflict check at commit.
pub(crate) struct ReadKey {
    pub(crate) cf_id: usize,
    pub(crate) key: Vec<u8>,
}

/// The mathematical shadow of a remembered read.
pub ghost struct ReadKeyModel {
    pub cf_id: usize,
    pub key: Seq<u8>,
}

/// The mathematical shadow of a transaction.
pub ghost struct TransactionModel {
    pub txn_id: u64,
    pub snapshot: u64,
    pub isolation: IsolationLevel,
    pub write_set: Seq<WriteOpModel>,
    pub savepoints: Seq<SavepointModel>,
    pub read_set: Seq<ReadKeyModel>,
}

/// A transaction: owned exclusively by its issuer, never shared. It holds
/// its fixed snapshot, its isolation level, the buffered write set and the
/// active savepoint stack.
pub struct Transaction {
    pub(crate) txn_id: u64,
    pub(crate) snapshot: u64,
    pub(crate) isolation: IsolationLevel,
    pub(crate) write_set: Vec<WriteOp>,
    pub(crate) savepoints: Vec<Savepoint>,
    pub(crate) read_set: Vec<ReadKey>,
}

impl View for Transaction {
    type V = TransactionModel;

    closed spec fn view(&self) -> TransactionModel {
        TransactionModel {
            txn_id: self.txn_id,
            snapshot: self.snapshot,
            isolation: self.isolation,
            write_set: self.write_set@.map_values(|op: WriteOp| op@),
            savepoints: self.savepoints@.map_values(
                |sp: Savepoint| SavepointModel { name: sp.name@, ws_len: sp.ws_len as int },
            ),
            read_set: self.read_set@.map_values(
                |rk: ReadKey| ReadKeyModel { cf_id: rk.cf_id, key: rk.key@ },
            ),
        }
    }
}

/// Whether the stack holds a savepoint of this name.
pub open spec fn spec_has_savepoint(sps: Seq<SavepointModel>, name: Seq<char>) -> bool {
    exists|j: int| 0 <= j < sps.len() && sps[j].name == name
}

/// Well-formedness of a transaction: savepoint indices lie inside the write
/// set, grow with stack depth, and names are unique within the active stack.
pub open spec fn txn_wf(t: TransactionModel) -> bool {
    &&& forall|i: int|
        #![trigger t.savepoints[i]]
        0 <= i < t.savepoints.len() ==> 0 <= t.savepoints[i].ws_len <= t.write_set.len()
    &&& forall|i: int, j: int|
        #![trigger t.savepoints[i], t.savepoints[j]]
        0 <= i < j < t.savepoints.len() ==> t.savepoints[i].ws_len <= t.savepoints[j].ws_len
            && t.savepoints[i].name != t.savepoints[j].name
}

impl Transaction {
    /// Buffers a write of `value` under `key` in the given column family,
    /// without expiration, and records in the database that this
    /// transaction references the family. Rejects an empty key, and a key
    /// or value over the size limits; a rejected write leaves both the
    /// transaction and the database unchanged.
    pub fn put(&mut self, db: &mut Database, cf: &ColumnFamily, key: &[u8], value: &[u8]) -> (r:
        Result<(), Error>)
        requires
            old(db).wf(),
        ensures
            final(db).wf(),
            put_op_ensures(*old(self), *final(self), cf.spec_id(), key@, Some(value@), None, r),
            r is Ok ==> crate::db::touch_only_ensures(
                *old(db),
                *final(db),
                old(self)@.txn_id,
                cf.spec_id(),
            ),
            r is Err ==> *final(db) == *old(db),
    {
        self.buffer_op(db, cf, key, Some(value), None)
    }

    /// Buffers a write whose version expires `ttl` seconds after the current
    /// wall-clock time. The expiration stamped on the buffered write is
    /// absolute: whatever time the clock read, the stamp is exactly that
    /// time plus `ttl`, saturating.
    pub fn put_with_ttl(
        &mut self,
        db: &mut Database,
        cf: &ColumnFamily,
        key: &[u8],
        value: &[u8],
        ttl: u64,
    ) -> (r: Result<(), Error>)
        requires
            old(db).wf(),
        ensures
            final(db).wf(),
            exists|now: u64|
                put_op_ensures(
                    *old(self),
                    *final(self),
                    cf.spec_id(),
                    key@,
                    Some(value@),
                    Some(crate::memtable::spec_sat_add_u64(now as int, ttl as int)),
                    r,
                ),
            r is Ok ==> crate::db::touch_only_ensures(
                *old(db),
                *final(db),
                old(self)@.txn_id,
                cf.spec_id(),
            ),
            r is Err ==> *final(db) == *old(db),
    {
        let now = wall_clock_seconds();
        let r = self.put_with_ttl_at(db, cf, key, value, ttl, now);
        r
    }

    /// Buffers a write whose version expires `ttl` seconds after the given
    /// wall-clock time (in seconds); the stamped expiration saturates at the
    /// largest representable time.
    pub fn put_with_ttl_at(
        &mut self,
        db: &mut Database,
        cf: &ColumnFamily,
        key: &[u8],
        value: &[u8],
        ttl: u64,
        now_seconds: u64,
    ) -> (r: Result<(), Error>)
        requires
            old(db).wf(),
        ensures
            final(db).wf(),
            put_op_ensures(
                *old(self),
                *final(self),
                cf.spec_id(),
                key@,
                Some(value@),
                Some(crate::memtable::spec_sat_add_u64(now_seconds as int, ttl as int)),
                r,
            ),
            r is Ok ==> crate::db::touch_only_ensures(
                *old(db),
                *final(db),
                old(self)@.txn_id,
                cf.spec_id(),
            ),
            r is Err ==> *final(db) == *old(db),
    {
        let expires = crate::memtable::sat_add_u64(now_seconds, ttl);
        self.buffer_op(db, cf, key, Some(value), Some(expires))
    }

    /// Buffers a deletion of `key` in the given column family, recording
    /// the reference in the database.
    pub fn delete(&mut self, db: &mut Database, cf: &ColumnFamily, key: &[u8]) -> (r: Result<
        (),
        Error,
    >)
        requires
            old(db).wf(),
        ensures
            final(db).wf(),
            put_op_ensures(*old(self), *final(self), cf.spec_id(), key@, None, None, r),
            r is Ok ==> crate::db::touch_only_ensures(
                *old(db),
                *final(db),
                old(self)@.txn_id,
                cf.spec_id(),
            ),
            r is Err ==> *final(db) == *old(db),
    {
        self.buffer_op(db, cf, key, None, None)
    }

    /// Validates and buffers one write operation, recording the reference.
    fn buffer_op(
        &mut self,
        db: &mut Database,
        cf: &ColumnFamily,
        key: &[u8],
        value: Option<&[u8]>,
        expires_at: Option<u64>,
    ) -> (r: Result<(), Error>)
        requires
            old(db).wf(),
        ensures
            final(db).wf(),
            put_op_ensures(
                *old(self),
                *final(self),
                cf.spec_id(),
                key@,
                match value {
                    Some(v) => Some(v@),
                    None => None,
                },
                expires_at,
                r,
            ),
            r is Ok ==> crate::db::touch_only_ensures(
                *old(db),
                *final(db),
                old(self)@.txn_id,
                cf.spec_id(),
            ),
            r is Err ==> *final(db) == *old(db),
    {
        if key.len() == 0 {
            return Err(Error::InvalidArgs);
        }
        if key.len() > MAX_KEY_LEN {
            return Err(Error::TooLarge);
        }
        if let Some(v) = value {
            if v.len() > MAX_VALUE_LEN {
                return Err(Error::TooLarge);
            }
        }
        db.mark_touched(self.txn_id, cf.id());
        let op = WriteOp {
            cf_id: cf.id(),
            key: slice_to_vec(key),
            value: match value {
                Some(v) => Some(slice_to_vec(v)),
                None => None,
            },
            expires_at,
        };
        self.write_set.push(op);
        proof {
            assert(self@.write_set =~= old(self)@.write_set.push(
                self.write_set@.last()@,
            ));
            assert(self@.savepoints =~= old(self)@.savepoints);
            assert(self@.read_set =~= old(self)@.read_set);
        }
        Ok(())
    }

    /// Reads `key` in the given column family at the current wall-clock
    /// time: the transaction's own buffered writes first (read-your-writes),
    /// then the family's visible versions at the isolation level's snapshot.
    /// Whatever time the clock reads, the result is exactly the transaction
    /// read rule evaluated at that time.
    pub fn get(&mut self, db: &mut Database, cf: &ColumnFamily, key: &[u8]) -> (r: Result<
        Option<Vec<u8>>,
        Error,
    >)
        requires
            old(db).wf(),
        ensures
            final(db).wf(),
            exists|now: u64|
                crate::db::get_ensures(
                    old(self)@,
                    final(self)@,
                    *old(db),
                    *final(db),
                    cf.spec_id(),
                    key@,
                    now,
                    r,
                ),
    {
        let now = wall_clock_seconds();
        let r = db.read_for_txn(self, cf, key, now);
        r
    }

    /// Reads `key` as `get` does, at the given wall-clock time in seconds.
    pub fn get_at(
        &mut self,
        db: &mut Database,
        cf: &ColumnFamily,
        key: &[u8],
        now_seconds: u64,
    ) -> (r: Result<Option<Vec<u8>>, Error>)
        requires
            old(db).wf(),
        ensures
            final(db).wf(),
            crate::db::get_ensures(
                old(self)@,
                final(self)@,
                *old(db),
                *final(db),
                cf.spec_id(),
                key@,
                now_seconds,
                r,
            ),
    {
        db.read_for_txn(self, cf, key, now_seconds)
    }

    /// Commits the transaction: validates the isolation level's conflict
    /// rule against the committed state, then applies the buffered write set
    /// in issue order at freshly allocated sequence numbers, releasing the
    /// transaction's snapshot. A failed commit applies nothing and discards
    /// the write set.
    pub fn commit(self, db: &mut Database) -> (r: Result<(), Error>)
        requires
            old(db).wf(),
        ensures
            final(db).wf(),
            crate::db::commit_ensures(self@, *old(db), *final(db), r),
    {
        db.apply_commit(self)
    }

    /// Rolls the transaction back: discards every buffered write and
    /// releases the transaction's snapshot, leaving the database untouched.
    pub fn rollback(self, db: &mut Database) -> (r: Result<(), Error>)
        requires
            old(db).wf(),
        ensures
            final(db).wf(),
            crate::db::rollback_ensures(self@, *old(db), *final(db), r),
    {
        db.apply_rollback(self)
    }

    /// Creates a savepoint of the given name, recording the current length
    /// of the write-set log. Fails if the name is already on the active
    /// stack.
    pub fn savepoint(&mut self, name: &str) -> (r: Result<(), Error>)
        requires
            txn_wf(old(self)@),
        ensures
            txn_wf(final(self)@),
            match r {
                Ok(()) => !spec_has_savepoint(old(self)@.savepoints, name@) && final(self)@ == (
                TransactionModel {
                    savepoints: old(self)@.savepoints.push(
                        SavepointModel {
                            name: name@,
                            ws_len: old(self)@.write_set.len() as int,
                        },
                    ),
                    ..old(self)@
                }),
                Err(e) => e == Error::Exists && spec_has_savepoint(old(self)@.savepoints, name@)
                    && final(self)@ == old(self)@,
            },
    {
        if self.find_savepoint(name).is_some() {
            return Err(Error::Exists);
        }
        let sp = Savepoint { name: String::from_str(name), ws_len: self.write_set.len() };
        self.savepoints.push(sp);
        proof {
            assert(self@.savepoints =~= old(self)@.savepoints.push(
                SavepointModel { name: name@, ws_len: old(self)@.write_set.len() as int },
            ));
            assert(self@.write_set =~= old(self)@.write_set);
            assert(self@.read_set =~= old(self)@.read_set);
        }
        Ok(())
    }

    /// Rolls the transaction back to the named savepoint: the write-set log
    /// is truncated to its recorded length, discarding exactly the writes
    /// issued after it, and every savepoint created after it is popped. The
    /// named savepoint itself stays on the stack. Fails when the name is
    /// unknown, leaving the transaction unchanged.
    pub fn rollback_to_savepoint(&mut self, name: &str) -> (r: Result<(), Error>)
        requires
            txn_wf(old(self)@),
        ensures
            txn_wf(final(self)@),
            match r {
                Ok(()) => exists|j: int|
                    {
                        &&& 0 <= j < old(self)@.savepoints.len()
                        &&& old(self)@.savepoints[j].name == name@
                        &&& final(self)@ == (TransactionModel {
                            write_set: old(self)@.write_set.take(old(self)@.savepoints[j].ws_len),
                            savepoints: old(self)@.savepoints.take(j + 1),
                            ..old(self)@
                        })
                    },
                Err(e) => e == Error::NotFound && !spec_has_savepoint(
                    old(self)@.savepoints,
                    name@,
                ) && final(self)@ == old(self)@,
            },
    {
        let found = self.find_savepoint(name);
        match found {
            None => Err(Error::NotFound),
            Some(j) => {
                let ws_len = self.savepoints[j].ws_len;
                let stack_len = self.savepoints.len();
                proof {
                    assert(j < stack_len);
                }
                self.write_set.truncate(ws_len);
                self.savepoints.truncate(j + 1);
                proof {
                    let ghost t0 = old(self)@;
                    assert(self@.write_set =~= t0.write_set.take(t0.savepoints[j as int].ws_len));
                    assert(self@.savepoints =~= t0.savepoints.take(j + 1));
                    assert(self@.read_set =~= t0.read_set);
                }
                Ok(())
            },
        }
    }

    /// Releases the named savepoint: the marker is removed from the stack
    /// and the buffered writes are left intact. Fails when the name is
    /// unknown, leaving the transaction unchanged.
    pub fn release_savepoint(&mut self, name: &str) -> (r: Result<(), Error>)
        requires
            txn_wf(old(self)@),
        ensures
            txn_wf(final(self)@),
            match r {
                Ok(()) => exists|j: int|
                    {
                        &&& 0 <= j < old(self)@.savepoints.len()
                        &&& old(self)@.savepoints[j].name == name@
                        &&& final(self)@ == (TransactionModel {
                            savepoints: old(self)@.savepoints.remove(j),
                            ..old(self)@
                        })
                    },
                Err(e) => e == Error::NotFound && !spec_has_savepoint(
                    old(self)@.savepoints,
                    name@,
                ) && final(self)@ == old(self)@,
            },
    {
        let found = self.find_savepoint(name);
        match found {
            None => Err(Error::NotFound),
            Some(j) => {
                self.savepoints.remove(j);
                proof {
                    let ghost t0 = old(self)@;
                    assert(self@.savepoints =~= t0.savepoints.remove(j as int));
                    assert(self@.write_set =~= t0.write_set);
                    assert(self@.read_set =~= t0.read_set);
                }
                Ok(())
            },
        }
    }

    /// The index of the savepoint with this name, if any.
    fn find_savepoint(&self, name: &str) -> (r: Option<usize>)
        ensures
            match r {
                Some(j) => 0 <= j < self@.savepoints.len() && self@.savepoints[j as int].name
                    == name@,
                None => !spec_has_savepoint(self@.savepoints, name@),
            },
    {
        let name_owned = String::from_str(name);
        let mut i: usize = 0;
        while i < self.savepoints.len()
            invariant
                0 <= i <= self@.savepoints.len(),
                self@.savepoints.len() == self.savepoints@.len(),
                name_owned@ == name@,
                forall|j: int|
                    #![trigger self@.savepoints[j]]
                    0 <= j < i ==> self@.savepoints[j].name != name@,
            decreases self.savepoints@.len() - i,
        {
            if self.savepoints[i].name == name_owned {
                return Some(i);
            }
            i += 1;
        }
        None
    }
}

/// A fresh transaction: empty write set, empty savepoint stack, empty read
/// set, with the given snapshot and isolation level.
pub(crate) fn new_txn(txn_id: u64, snapshot: u64, isolation: IsolationLevel) -> (t: Transaction)
    ensures
        t@ == (TransactionModel {
            txn_id,
            snapshot,
            isolation,
            write_set: Seq::<WriteOpModel>::empty(),
            savepoints: Seq::<SavepointModel>::empty(),
            read_set: Seq::<ReadKeyModel>::empty(),
        }),
        txn_wf(t@),
{
    let t = Transaction {
        txn_id,
        snapshot,
        isolation,
        write_set: Vec::new(),
        savepoints: Vec::new(),
        read_set: Vec::new(),
    };
    proof {
        assert(t@.write_set =~= Seq::<WriteOpModel>::empty());
        assert(t@.savepoints =~= Seq::<SavepointModel>::empty());
        assert(t@.read_set =~= Seq::<ReadKeyModel>::empty());
    }
    t
}

/// How a transaction's mathematical shadow is built from its fields.
pub(crate) proof fn lemma_txn_view(t: Transaction)
    ensures
        t@.txn_id == t.txn_id,
        t@.snapshot == t.snapshot,
        t@.isolation == t.isolation,
        t@.write_set == t.write_set@.map_values(|op: WriteOp| op@),
        t@.savepoints == t.savepoints@.map_values(
            |sp: Savepoint| SavepointModel { name: sp.name@, ws_len: sp.ws_len as int },
        ),
        t@.read_set == t.read_set@.map_values(
            |rk: ReadKey| ReadKeyModel { cf_id: rk.cf_id, key: rk.key@ },
        ),
{
}

/// The contract of one buffered write: on success the op is appended to the
/// write-set log and nothing else moves; a rejected write names its reason
/// and leaves the transaction unchanged.
pub open spec fn put_op_ensures(
    pre: Transaction,
    post: Transaction,
    cf_id: usize,
    key: Seq<u8>,
    value: Option<Seq<u8>>,
    expires_at: Option<u64>,
    r: Result<(), Error>,
) -> bool {
    match r {
        Ok(()) => {
            &&& 1 <= key.len() <= MAX_KEY_LEN
            &&& (match value {
                Some(v) => v.len() <= MAX_VALUE_LEN,
                None => true,
            })
            &&& post@ == (TransactionModel {
                write_set: pre@.write_set.push(
                    WriteOpModel { cf_id, key, value, expires_at },
                ),
                ..pre@
            })
            &&& (txn_wf(pre@) ==> txn_wf(post@))
        },
        Err(e) => {
            &&& post@ == pre@
            &&& (e == Error::InvalidArgs <==> key.len() == 0)
            &&& (e == Error::InvalidArgs || e == Error::TooLarge)
            &&& (e == Error::TooLarge ==> (key.len() > MAX_KEY_LEN || (value matches Some(v)
                && v.len() > MAX_VALUE_LEN)))
        },
    }
}

/// Releasing a savepoint undoes its creation exactly. `t0` is a transaction
/// without a savepoint named `name`; `t1` the state after creating it; `t2`
/// the state after releasing it as `release_savepoint` promises. Then `t2`
/// is `t0` again: together with `commit` reading nothing but the write set,
/// snapshot and isolation level, a created-then-released savepoint leaves
/// the committed state identical to one where it never existed.
pub proof fn lemma_savepoint_release_is_identity(
    t0: TransactionModel,
    t1: TransactionModel,
    t2: TransactionModel,
    name: Seq<char>,
)
    requires
        txn_wf(t0),
        !spec_has_savepoint(t0.savepoints, name),
        t1 == (TransactionModel {
            savepoints: t0.savepoints.push(
                SavepointModel { name: name, ws_len: t0.write_set.len() as int },
            ),
            ..t0
        }),
        exists|j: int|
            {
                &&& 0 <= j < t1.savepoints.len()
                &&& t1.savepoints[j].name == name
                &&& t2 == (TransactionModel { savepoints: t1.savepoints.remove(j), ..t1 })
            },
    ensures
        t2 == t0,
{
    let j = choose|j: int|
        {
            &&& 0 <= j < t1.savepoints.len()
            &&& t1.savepoints[j].name == name
            &&& t2 == (TransactionModel { savepoints: t1.savepoints.remove(j), ..t1 })
        };
    if j < t0.savepoints.len() {
        assert(t0.savepoints[j].name == name);
        assert(spec_has_savepoint(t0.savepoints, name));
    }
    assert(j == t0.savepoints.len());
    assert(t1.savepoints.remove(j) =~= t0.savepoints);
}

/// Rolling back to a savepoint discards exactly the writes issued after it.
/// `t1` is the state when the savepoint was created (it sits at index `j`
/// with the then-current write-set length); `t2` a later state whose write
/// set extends `t1`'s by `suffix`; `t3` the state after rolling back as
/// `rollback_to_savepoint` promises. Then `t3` holds precisely the writes
/// issued before the savepoint, and the savepoints created after it are
/// popped while it stays.
pub proof fn lemma_rollback_discards_exactly_the_suffix(
    t1: TransactionModel,
    t2: TransactionModel,
    t3: TransactionModel,
    name: Seq<char>,
    j: int,
    suffix: Seq<WriteOpModel>,
)
    requires
        txn_wf(t2),
        0 <= j < t2.savepoints.len(),
        t2.savepoints[j].name == name,
        t2.savepoints[j].ws_len == t1.write_set.len(),
        t2.write_set == t1.write_set + suffix,
        exists|k: int|
            {
                &&& 0 <= k < t2.savepoints.len()
                &&& t2.savepoints[k].name == name
                &&& t3 == (TransactionModel {
                    write_set: t2.write_set.take(t2.savepoints[k].ws_len),
                    savepoints: t2.savepoints.take(k + 1),
                    ..t2
                })
            },
    ensures
        t3.write_set == t1.write_set,
        t3.savepoints == t2.savepoints.take(j + 1),
{
    let k = choose|k: int|
        {
            &&& 0 <= k < t2.savepoints.len()
            &&& t2.savepoints[k].name == name
            &&& t3 == (TransactionModel {
                write_set: t2.write_set.take(t2.savepoints[k].ws_len),
                savepoints: t2.savepoints.take(k + 1),
                ..t2
            })
        };
    assert(k == j);
    assert(t2.write_set.take(t1.write_set.len() as int) =~= t1.write_set);
}

} // verus!
