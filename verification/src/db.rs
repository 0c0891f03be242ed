//! The database: it owns every column family, the global sequence counter,
//! the comparator registry and the set of live transaction snapshots, and it
//! dispatches transactions.

use vstd::prelude::*;
use vstd::slice::slice_to_vec;
use vstd::string::StringExecFns;

use crate::comparator::Comparator;
use crate::config::ColumnFamilyConfig;
use crate::config::Config;
use crate::config::IsolationLevel;
use crate::error::Error;
use crate::manifest::Manifest;
use crate::manifest::entry_encodable;
use crate::manifest::lemma_log_extends_trans;
use crate::manifest::log_extends;
use crate::manifest::ManifestEntry;
use crate::memtable::Memtable;
use crate::record::FoundVersion;
use crate::record::Record;
use crate::record::bytes_eq;
use crate::record::copy_opt_bytes;
use crate::record::RecordModel;
use crate::record::found_matches;
use crate::record::opt_bytes_view;
use crate::record::records_view;
use crate::table::TableFile;
use crate::txn::ReadKey;
use crate::txn::ReadKeyModel;
use crate::txn::SavepointModel;
use crate::txn::Transaction;
use crate::txn::TransactionModel;
use crate::txn::WriteOp;
use crate::txn::WriteOpModel;
use crate::txn::txn_wf;
use crate::visibility::lemma_newest_concat;
use crate::visibility::lemma_records_wf_insert_fresh;
use crate::visibility::expiry_live_at;
use crate::visibility::spec_has_newer_version;
use crate::visibility::visible_value;
use crate::visibility::visible_eq;
use crate::visibility::newest_version;
use crate::visibility::records_wf;

verus! {

/// A handle naming one column family. It carries no storage itself; every
/// operation validates it against the database it is used with.
pub struct ColumnFamily {
    pub(crate) id: usize,
    pub(crate) name: String,
}

impl ColumnFamily {
    /// The slot this handle points at.
    pub closed spec fn spec_id(self) -> usize {
        self.id
    }

    /// The family name this handle was resolved from.
    pub closed spec fn spec_name(self) -> Seq<char> {
        self.name@
    }

    /// The column family's name.
    pub fn name(&self) -> (r: String)
        ensures
            r@ == self.spec_name(),
    {
        self.name.clone()
    }

    /// The slot index of this handle.
    pub(crate) fn id(&self) -> (r: usize)
        ensures
            r == self.spec_id(),
    {
        self.id
    }

    /// Synchronously flushes this column family: the active write buffer
    /// is sealed, every sealed memtable is serialized to a level-0 table
    /// file, and each new file is registered in the manifest — replaying
    /// the grown log yields the old entries followed only by level-0
    /// additions for this family. The family holds exactly the records it
    /// held before; only their store changes.
    pub fn flush(&self, db: &mut Database) -> (r: Result<(), Error>)
        requires
            old(db).wf(),
        ensures
            final(db).wf(),
            final(db).spec_cf_count() == old(db).spec_cf_count(),
            cfs_preserved(*old(db), *final(db)),
            txns_and_seqs_unchanged(*old(db), *final(db)),
            log_extends(final(db).spec_manifest_log(), old(db).spec_manifest_log()),
            manifest_gains_level0_adds(
                old(db).spec_manifest_log(),
                final(db).spec_manifest_log(),
                self.spec_id(),
            ),
            match r {
                Ok(()) => old(db).spec_cf_is_live(self.spec_id() as int),
                Err(e) => e == Error::NotFound && !old(db).spec_cf_is_live(self.spec_id() as int)
                    && *final(db) == *old(db),
            },
    {
        db.flush_cf(self.id())
    }

    /// Synchronously compacts this column family: everything is flushed and
    /// every level is merged into a single file on the deepest level,
    /// dropping versions shadowed for every retained snapshot and tombstones
    /// nothing can resurrect. Reads at any snapshot at or above the oldest
    /// live one observe no change.
    pub fn compact(&self, db: &mut Database) -> (r: Result<(), Error>)
        requires
            old(db).wf(),
        ensures
            final(db).wf(),
            final(db).spec_cf_count() == old(db).spec_cf_count(),
            txns_and_seqs_unchanged(*old(db), *final(db)),
            log_extends(final(db).spec_manifest_log(), old(db).spec_manifest_log()),
            match r {
                Ok(()) => {
                    &&& old(db).spec_cf_is_live(self.spec_id() as int)
                    &&& cfs_preserved_except(*old(db), *final(db), self.spec_id() as int)
                    &&& final(db).spec_cf_is_live(self.spec_id() as int)
                    &&& final(db).spec_cf_name(self.spec_id() as int) == old(db).spec_cf_name(
                        self.spec_id() as int,
                    )
                    &&& final(db).spec_cf_config(self.spec_id() as int) == old(db).spec_cf_config(
                        self.spec_id() as int,
                    )
                    &&& final(db).spec_cf_records(self.spec_id() as int) == gc_filter(
                        old(db).spec_cf_records(self.spec_id() as int),
                        old(db).spec_cf_records(self.spec_id() as int).len() as int,
                        old(db).spec_min_live_snapshot(),
                    )
                    &&& forall|k: Seq<u8>, s: u64, now: u64|
                        #![trigger visible_value(final(db).spec_cf_records(self.spec_id() as int), k, s, now)]
                        old(db).spec_min_live_snapshot() <= s ==> visible_value(
                            final(db).spec_cf_records(self.spec_id() as int),
                            k,
                            s,
                            now,
                        ) == visible_value(
                            old(db).spec_cf_records(self.spec_id() as int),
                            k,
                            s,
                            now,
                        )
                },
                Err(e) => e == Error::NotFound && !old(db).spec_cf_is_live(self.spec_id() as int)
                    && *final(db) == *old(db),
            },
    {
        db.compact_cf(self.id())
    }
}

/// One tier of table files. Level 0 holds flush output (possibly
/// key-overlapping files); deeper levels hold compaction output.
pub(crate) struct LevelState {
    pub(crate) files: Vec<TableFile>,
}

/// The full state of one column family.
pub(crate) struct ColumnFamilyState {
    pub(crate) name: String,
    pub(crate) config: ColumnFamilyConfig,
    pub(crate) comparator: Comparator,
    pub(crate) memtable: Memtable,
    /// Sealed memtables waiting to be flushed, oldest first.
    pub(crate) immutables: Vec<Memtable>,
    /// levels[0] is level 0.
    pub(crate) levels: Vec<LevelState>,
}

/// A registered transaction: its id, the snapshot it holds alive, and the
/// column family slots it has referenced by a buffered write or a read.
pub(crate) struct LiveTxn {
    pub(crate) txn_id: u64,
    pub(crate) snapshot: u64,
    pub(crate) touched: Vec<usize>,
}

/// A named entry of the comparator registry.
pub(crate) struct RegisteredComparator {
    pub(crate) name: String,
    pub(crate) comparator: Comparator,
}

/// The records of a run of table files, in file order.
pub(crate) open spec fn files_records(files: Seq<TableFile>) -> Seq<RecordModel>
    decreases files.len(),
{
    if files.len() == 0 {
        Seq::empty()
    } else {
        files_records(files.drop_last()) + files.last().spec_records()
    }
}

/// The records of all levels, deepest (oldest) level first.
pub(crate) open spec fn levels_records(levels: Seq<LevelState>) -> Seq<RecordModel>
    decreases levels.len(),
{
    if levels.len() == 0 {
        Seq::empty()
    } else {
        levels_records(levels.drop_first()) + files_records(levels.first().files@)
    }
}

/// The records of a run of sealed memtables, oldest first.
pub(crate) open spec fn memtables_records(ms: Seq<Memtable>) -> Seq<RecordModel>
    decreases ms.len(),
{
    if ms.len() == 0 {
        Seq::empty()
    } else {
        memtables_records(ms.drop_last()) + ms.last().spec_records()
    }
}

/// Every record a column family holds, oldest store first: levels (deepest
/// first), then sealed memtables, then the active write buffer.
pub(crate) open spec fn cf_state_records(cf: ColumnFamilyState) -> Seq<RecordModel> {
    levels_records(cf.levels@) + memtables_records(cf.immutables@) + cf.memtable.spec_records()
}

/// The database.
pub struct Database {
    pub(crate) config: Config,
    /// Column family slots; a dropped family leaves an empty slot so that
    /// handles can never alias a later family.
    pub(crate) cfs: Vec<Option<ColumnFamilyState>>,
    pub(crate) comparators: Vec<RegisteredComparator>,
    pub(crate) live_txns: Vec<LiveTxn>,
    /// The durable record of level membership, appended to by flush and
    /// compaction.
    pub(crate) manifest: Manifest,
    /// The next sequence number to allocate; sequence numbers start at 1.
    pub(crate) next_seq: u64,
    pub(crate) next_txn_id: u64,
    pub(crate) next_file_id: u64,
}

impl Database {
    /// How many column family slots exist (live and dropped).
    pub closed spec fn spec_cf_count(self) -> nat {
        self.cfs@.len()
    }

    /// Whether slot `c` holds a live column family.
    pub closed spec fn spec_cf_is_live(self, c: int) -> bool {
        0 <= c < self.cfs@.len() && self.cfs@[c] is Some
    }

    /// The name of the family in slot `c`.
    pub closed spec fn spec_cf_name(self, c: int) -> Seq<char> {
        match self.cfs@[c] {
            Some(st) => st.name@,
            None => Seq::empty(),
        }
    }

    /// Every record version the family in slot `c` holds.
    pub closed spec fn spec_cf_records(self, c: int) -> Seq<RecordModel> {
        if 0 <= c < self.cfs@.len() {
            match self.cfs@[c] {
                Some(st) => cf_state_records(st),
                None => Seq::empty(),
            }
        } else {
            Seq::empty()
        }
    }

    /// The configuration the family in slot `c` was created with; families
    /// never change configuration after creation.
    pub closed spec fn spec_cf_config(self, c: int) -> Option<ColumnFamilyConfig> {
        if 0 <= c < self.cfs@.len() {
            match self.cfs@[c] {
                Some(st) => Some(st.config),
                None => None,
            }
        } else {
            None
        }
    }

    /// Whether a live column family of this name exists.
    pub closed spec fn spec_has_cf_named(self, name: Seq<char>) -> bool {
        exists|c: int| self.spec_cf_is_live(c) && self.spec_cf_name(c) == name
    }

    /// The next sequence number to be allocated.
    pub closed spec fn spec_next_seq(self) -> u64 {
        self.next_seq
    }

    /// The highest committed sequence number: what a fresh snapshot sees.
    pub closed spec fn spec_last_seq(self) -> u64 {
        (self.next_seq - 1) as u64
    }

    /// Whether a transaction with this id is registered as live.
    pub closed spec fn spec_txn_live(self, txn_id: u64) -> bool {
        exists|i: int| 0 <= i < self.live_txns@.len() && self.live_txns@[i].txn_id == txn_id
    }

    /// How many transactions are live.
    pub closed spec fn spec_live_txn_count(self) -> nat {
        self.live_txns@.len()
    }

    /// Whether the live transaction with this id has referenced the family
    /// in slot `cf` by a buffered write or a read.
    pub closed spec fn spec_txn_touches(self, txn_id: u64, cf: usize) -> bool {
        exists|i: int|
            #![trigger self.live_txns@[i]]
            0 <= i < self.live_txns@.len() && self.live_txns@[i].txn_id == txn_id
                && self.live_txns@[i].touched@.contains(cf)
    }

    /// Whether any live transaction references the family in slot `c`.
    pub closed spec fn spec_cf_referenced(self, c: int) -> bool {
        exists|i: int|
            #![trigger self.live_txns@[i]]
            0 <= i < self.live_txns@.len() && c >= 0 && self.live_txns@[i].touched@.contains(
                c as usize,
            )
    }

    /// The comparator registered under `name`, if any.
    pub closed spec fn spec_comparator(self, name: Seq<char>) -> Option<Comparator> {
        if exists|i: int|
            0 <= i < self.comparators@.len() && self.comparators@[i].name@ == name {
            let i = choose|i: int|
                0 <= i < self.comparators@.len() && self.comparators@[i].name@ == name;
            Some(self.comparators@[i].comparator)
        } else {
            None
        }
    }

    /// Well-formedness: sequence numbers start at 1 and every stored record
    /// was allocated one below `next_seq`, unique per key within its family;
    /// live family names are unique; live snapshots were taken from committed
    /// state; transaction ids are unique and below the allocator.
    pub closed spec fn wf(self) -> bool {
        &&& 1 <= self.next_seq
        &&& comparators_unique(self.comparators@)
        &&& wf_cfs(self.cfs@, self.next_seq)
        &&& wf_txns(self.live_txns@, self.next_seq, self.next_txn_id)
        &&& crate::manifest::log_wf(self.manifest.spec_log())
    }

    /// Opens a database with the given configuration: no column families, no
    /// committed writes, no live transactions.
    pub fn open(config: Config) -> (r: Result<Database, Error>)
        ensures
            match r {
                Ok(db) => {
                    &&& db.wf()
                    &&& db.spec_cf_count() == 0
                    &&& db.spec_last_seq() == 0
                    &&& db.spec_live_txn_count() == 0
                },
                Err(_) => false,
            },
    {
        Ok(
            Database {
                config,
                cfs: Vec::new(),
                comparators: Vec::new(),
                live_txns: Vec::new(),
                manifest: Manifest::new(),
                next_seq: 1,
                next_txn_id: 1,
                next_file_id: 1,
            },
        )
    }

    /// Registers a key comparator under a name, for column families to
    /// resolve at creation. Fails if the name is empty or already taken.
    pub fn register_comparator(&mut self, name: &str, comparator: Comparator) -> (r: Result<
        (),
        Error,
    >)
        requires
            old(self).wf(),
        ensures
            final(self).wf(),
            match r {
                Ok(()) => {
                    &&& name@.len() > 0
                    &&& old(self).spec_comparator(name@) is None
                    &&& final(self).spec_comparator(name@) == Some(comparator)
                },
                Err(e) => {
                    &&& (e == Error::InvalidArgs || e == Error::Exists)
                    &&& *final(self) == *old(self)
                    &&& (e == Error::InvalidArgs <==> name@.len() == 0)
                    &&& (e == Error::Exists <==> name@.len() > 0 && old(self).spec_comparator(
                        name@,
                    ) is Some)
                },
            },
            final(self).spec_cf_count() == old(self).spec_cf_count(),
            cfs_preserved(*old(self), *final(self)),
            final(self).spec_next_seq() == old(self).spec_next_seq(),
            final(self).spec_live_txn_count() == old(self).spec_live_txn_count(),
    {
        if name.is_empty() {
            return Err(Error::InvalidArgs);
        }
        if self.find_comparator(name).is_some() {
            return Err(Error::Exists);
        }
        self.comparators.push(
            RegisteredComparator { name: String::from_str(name), comparator },
        );
        proof {
            let cs = self.comparators@;
            let old_cs = old(self).comparators@;
            assert(cs[cs.len() - 1].name@ == name@);
            assert(self.spec_comparator(name@) == Some(comparator)) by {
                let i = choose|i: int| 0 <= i < cs.len() && cs[i].name@ == name@;
                if i < cs.len() - 1 {
                    assert(old_cs[i].name@ == name@);
                    assert(old(self).spec_comparator(name@) is Some);
                }
            }
            assert(comparators_unique(cs)) by {
                assert(forall|i: int, j: int|
                    0 <= i < j < cs.len() && j < cs.len() - 1 ==> (#[trigger] cs[i]).name@ != (
                    #[trigger] cs[j]).name@);
                assert(forall|i: int|
                    0 <= i < cs.len() - 1 ==> (#[trigger] cs[i]).name@ != name@);
            }
        }
        Ok(())
    }

    /// The comparator registered under `name`.
    pub fn get_comparator(&self, name: &str) -> (r: Result<Comparator, Error>)
        requires
            self.wf(),
        ensures
            match r {
                Ok(c) => self.spec_comparator(name@) == Some(c),
                Err(e) => e == Error::NotFound && self.spec_comparator(name@) is None,
            },
    {
        match self.find_comparator(name) {
            Some(i) => {
                let c = self.comparators[i].comparator;
                proof {
                    let cs = self.comparators@;
                    let j = choose|j: int| 0 <= j < cs.len() && cs[j].name@ == name@;
                    assert(cs[i as int].name@ == name@);
                    if j != i {
                        assert(cs[j].name@ != cs[i as int].name@);
                    }
                }
                Ok(c)
            },
            None => Err(Error::NotFound),
        }
    }

    /// The live column families' names, in slot order.
    pub closed spec fn spec_cf_names(self) -> Seq<Seq<char>> {
        live_names(self.cfs@)
    }

    /// Whether the transaction-id allocator is exhausted.
    pub closed spec fn spec_txn_ids_exhausted(self) -> bool {
        self.next_txn_id == u64::MAX
    }

    /// Creates a column family. The name must be non-empty and new; the
    /// configuration's comparator name must be empty (the default byte
    /// order) or registered. The new family starts empty; nothing else in
    /// the database moves.
    #[verifier::rlimit(100)]
    #[verifier::spinoff_prover]
    pub fn create_column_family(&mut self, name: &str, config: &ColumnFamilyConfig) -> (r: Result<
        (),
        Error,
    >)
        requires
            old(self).wf(),
        ensures
            final(self).wf(),
            match r {
                Ok(()) => {
                    &&& name@.len() > 0
                    &&& !old(self).spec_has_cf_named(name@)
                    &&& final(self).spec_has_cf_named(name@)
                    &&& final(self).spec_cf_count() == old(self).spec_cf_count() + 1
                    &&& final(self).spec_cf_is_live(old(self).spec_cf_count() as int)
                    &&& final(self).spec_cf_name(old(self).spec_cf_count() as int) == name@
                    &&& final(self).spec_cf_records(old(self).spec_cf_count() as int) == Seq::<
                        RecordModel,
                    >::empty()
                    &&& final(self).spec_cf_config(old(self).spec_cf_count() as int) == Some(
                        *config,
                    )
                    &&& final(self).spec_cf_stall_threshold(old(self).spec_cf_count() as int)
                        == config.l0_queue_stall_threshold as nat
                    &&& final(self).spec_cf_l0_file_count(old(self).spec_cf_count() as int) == 0
                    &&& forall|m: Seq<char>|
                        #[trigger] final(self).spec_has_cf_named(m) <==> (old(
                        self,
                        ).spec_has_cf_named(m) || m == name@)
                    &&& cfs_preserved(*old(self), *final(self))
                    &&& txns_and_seqs_unchanged(*old(self), *final(self))
                },
                Err(e) => {
                    &&& (e == Error::InvalidArgs || e == Error::Exists || e == Error::NotFound)
                    &&& *final(self) == *old(self)
                    &&& (e == Error::InvalidArgs <==> name@.len() == 0)
                    &&& (e == Error::Exists <==> name@.len() > 0 && old(self).spec_has_cf_named(
                        name@,
                    ))
                    &&& (e == Error::NotFound <==> name@.len() > 0 && !old(
                        self,
                    ).spec_has_cf_named(name@) && config.comparator_name@.len() > 0 && old(
                        self,
                    ).spec_comparator(config.comparator_name@) is None)
                },
            },
    {
        if name.is_empty() {
            return Err(Error::InvalidArgs);
        }
        if self.find_cf(name).is_some() {
            return Err(Error::Exists);
        }
        let comparator = if config.comparator_name.as_str().is_empty() {
            Comparator::Lexicographic
        } else {
            match self.find_comparator(config.comparator_name.as_str()) {
                Some(i) => self.comparators[i].comparator,
                None => {
                    return Err(Error::NotFound);
                },
            }
        };
        let mut levels: Vec<LevelState> = Vec::new();
        let mut k: usize = 0;
        proof {
            assert(levels_records(levels@) =~= Seq::<RecordModel>::empty());
        }
        while k < config.min_levels
            invariant
                levels_records(levels@) == Seq::<RecordModel>::empty(),
                forall|k2: int| 0 <= k2 < levels@.len() ==> #[trigger] levels@[k2].files@.len() == 0,
            decreases config.min_levels - k,
        {
            let ghost pre = levels@;
            let level = LevelState { files: Vec::new() };
            proof {
                assert(files_records(level.files@) =~= Seq::<RecordModel>::empty());
            }
            levels.push(level);
            proof {
                let l = levels@.last();
                assert(levels@ == pre.push(l));
                lemma_levels_records_push(pre, l);
                assert(levels_records(levels@) =~= Seq::<RecordModel>::empty());
            }
            k += 1;
        }
        let st = ColumnFamilyState {
            name: String::from_str(name),
            config: config.duplicate(),
            comparator,
            memtable: Memtable::new(),
            immutables: Vec::new(),
            levels,
        };
        proof {
            assert(memtables_records(st.immutables@) =~= Seq::<RecordModel>::empty());
            assert(cf_state_records(st) =~= Seq::<RecordModel>::empty());
        }
        let ghost pre_db = *old(self);
        self.cfs.push(Some(st));
        proof {
            let n = pre_db.cfs@.len() as int;
            assert(self.cfs@[n] == Some(st));
            assert(self.spec_cf_records(n) =~= Seq::<RecordModel>::empty());
            assert(forall|c: int| 0 <= c < n ==> self.cfs@[c] == #[trigger] pre_db.cfs@[c]);
            assert(self.spec_cf_is_live(n) && self.spec_cf_name(n) == name@);
            assert(self.spec_has_cf_named(name@));
            assert(self.spec_cf_config(n) == Some(*config));
            assert(self.spec_cf_stall_threshold(n) == config.l0_queue_stall_threshold as nat);
            assert(self.spec_cf_l0_file_count(n) == 0);
            assert forall|m: Seq<char>| #[trigger]
                self.spec_has_cf_named(m) <==> (pre_db.spec_has_cf_named(m) || m == name@) by {
                if self.spec_has_cf_named(m) {
                    let c = choose|c: int|
                        self.spec_cf_is_live(c) && self.spec_cf_name(c) == m;
                    if c != n {
                        assert(0 <= c < pre_db.cfs@.len());
                        assert(pre_db.spec_cf_is_live(c) && pre_db.spec_cf_name(c) == m);
                    }
                }
                if pre_db.spec_has_cf_named(m) {
                    let c = choose|c: int|
                        pre_db.spec_cf_is_live(c) && pre_db.spec_cf_name(c) == m;
                    assert(self.spec_cf_is_live(c) && self.spec_cf_name(c) == m);
                }
                if m == name@ {
                    assert(self.spec_cf_is_live(n) && self.spec_cf_name(n) == m);
                }
            }
            assert(records_wf(cf_state_records(st), self.next_seq));
            let slots = self.cfs@;
            assert forall|c1: int, c2: int|
                0 <= c1 < slots.len() && 0 <= c2 < slots.len() && c1 != c2 && slots[c1] is Some
                    && (#[trigger] slots[c1], #[trigger] slots[c2]).1 is Some implies slot_name(
                slots,
                c1,
            ) != slot_name(slots, c2) by {
                if c1 == n {
                    assert(pre_db.spec_cf_is_live(c2) && pre_db.spec_cf_name(c2) == slot_name(
                        slots,
                        c2,
                    ));
                    assert(!pre_db.spec_has_cf_named(name@));
                } else if c2 == n {
                    assert(pre_db.spec_cf_is_live(c1) && pre_db.spec_cf_name(c1) == slot_name(
                        slots,
                        c1,
                    ));
                    assert(!pre_db.spec_has_cf_named(name@));
                } else {
                    assert(slot_name(slots, c1) == pre_db.spec_cf_name(c1));
                    assert(slot_name(slots, c2) == pre_db.spec_cf_name(c2));
                    assert(pre_db.spec_cf_name(c1) != pre_db.spec_cf_name(c2));
                }
            }
            assert(wf_cfs(slots, self.next_seq));
            assert(self.wf());
            assert(cfs_preserved(pre_db, *self));
            assert(txns_and_seqs_unchanged(pre_db, *self));
            assert(self.spec_cf_count() == pre_db.spec_cf_count() + 1);
        }
        Ok(())
    }

    /// Resolves a handle to the live column family of this name.
    pub fn get_column_family(&self, name: &str) -> (r: Result<ColumnFamily, Error>)
        ensures
            match r {
                Ok(h) => {
                    &&& self.spec_cf_is_live(h.spec_id() as int)
                    &&& self.spec_cf_name(h.spec_id() as int) == name@
                    &&& h.spec_name() == name@
                    &&& self.spec_has_cf_named(name@)
                },
                Err(e) => e == Error::NotFound && !self.spec_has_cf_named(name@),
            },
    {
        match self.find_cf(name) {
            Some(i) => {
                proof {
                    assert(self.spec_cf_is_live(i as int) && self.spec_cf_name(i as int)
                        == name@);
                    assert(self.spec_has_cf_named(name@));
                }
                Ok(ColumnFamily { id: i, name: String::from_str(name) })
            },
            None => Err(Error::NotFound),
        }
    }

    /// The names of all live column families, in creation order.
    pub fn list_column_families(&self) -> (r: Result<Vec<String>, Error>)
        ensures
            match r {
                Ok(names) => names@.map_values(|s: String| s@) == self.spec_cf_names(),
                Err(_) => false,
            },
    {
        let mut out: Vec<String> = Vec::new();
        let mut i: usize = 0;
        proof {
            assert(out@.map_values(|s: String| s@) =~= live_names(self.cfs@.take(0)));
        }
        while i < self.cfs.len()
            invariant
                0 <= i <= self.cfs@.len(),
                out@.map_values(|s: String| s@) == live_names(self.cfs@.take(i as int)),
            decreases self.cfs@.len() - i,
        {
            let ghost pre_out = out@;
            proof {
                assert(self.cfs@.take(i + 1).drop_last() =~= self.cfs@.take(i as int));
                assert(self.cfs@.take(i + 1).last() == self.cfs@[i as int]);
            }
            match &self.cfs[i] {
                Some(st) => {
                    out.push(st.name.clone());
                    proof {
                        assert(out@.map_values(|s: String| s@) =~= pre_out.map_values(
                            |s: String| s@,
                        ) + seq![st.name@]);
                    }
                },
                None => {},
            }
            proof {
                assert(out@.map_values(|s: String| s@) =~= live_names(self.cfs@.take(i + 1)));
            }
            i += 1;
        }
        proof {
            assert(self.cfs@.take(self.cfs@.len() as int) =~= self.cfs@);
        }
        Ok(out)
    }

    /// Drops the named column family, freeing its slot. Fails with
    /// not-found for an unknown name, and refuses — with a conflict — only
    /// while a live transaction references the family through a buffered
    /// write or a read; transactions that have not touched it do not block
    /// the drop. A handle alone is no reference: a later operation through
    /// a handle to the dropped family fails cleanly instead.
    pub fn drop_column_family(&mut self, name: &str) -> (r: Result<(), Error>)
        requires
            old(self).wf(),
        ensures
            final(self).wf(),
            match r {
                Ok(()) => {
                    &&& old(self).spec_has_cf_named(name@)
                    &&& !final(self).spec_has_cf_named(name@)
                    &&& forall|m: Seq<char>|
                        m != name@ ==> (#[trigger] final(self).spec_has_cf_named(m) == old(
                        self,
                        ).spec_has_cf_named(m))
                    &&& final(self).spec_cf_count() == old(self).spec_cf_count()
                    &&& exists|c: int|
                        {
                            &&& 0 <= c < old(self).spec_cf_count()
                            &&& old(self).spec_cf_is_live(c)
                            &&& old(self).spec_cf_name(c) == name@
                            &&& !final(self).spec_cf_is_live(c)
                            &&& cfs_preserved_except(*old(self), *final(self), c)
                        }
                    &&& txns_and_seqs_unchanged(*old(self), *final(self))
                },
                Err(e) => {
                    &&& (e == Error::NotFound || e == Error::Conflict)
                    &&& *final(self) == *old(self)
                    &&& (e == Error::NotFound <==> !old(self).spec_has_cf_named(name@))
                    &&& (e == Error::Conflict <==> (exists|c: int|
                        old(self).spec_cf_is_live(c) && old(self).spec_cf_name(c) == name@ && old(
                            self,
                        ).spec_cf_referenced(c)))
                },
            },
    {
        match self.find_cf(name) {
            None => {
                proof {
                    if exists|c: int|
                        self.spec_cf_is_live(c) && self.spec_cf_name(c) == name@
                            && self.spec_cf_referenced(c) {
                        let c = choose|c: int|
                            self.spec_cf_is_live(c) && self.spec_cf_name(c) == name@
                                && self.spec_cf_referenced(c);
                        assert(self.spec_has_cf_named(name@));
                    }
                }
                Err(Error::NotFound)
            },
            Some(i) => {
                if self.cf_referenced(i) {
                    proof {
                        assert(self.spec_cf_is_live(i as int) && self.spec_cf_name(i as int)
                            == name@ && self.spec_cf_referenced(i as int));
                    }
                    return Err(Error::Conflict);
                }
                proof {
                    // the named slot is the only live slot with this name,
                    // so no live slot with it is referenced
                    assert forall|c: int|
                        self.spec_cf_is_live(c) && self.spec_cf_name(c)
                            == name@ implies !self.spec_cf_referenced(c) by {
                        if c != i {
                            assert(self.spec_cf_name(c) != self.spec_cf_name(i as int));
                        }
                    }
                }
                let ghost pre_db = *self;
                let slot = &mut self.cfs[i];
                *slot = None;
                proof {
                    assert(self.cfs@ =~= pre_db.cfs@.update(i as int, None));
                    assert(!self.spec_cf_is_live(i as int));
                    assert(forall|c: int|
                        0 <= c < self.cfs@.len() && c != i ==> self.cfs@[c]
                            == #[trigger] pre_db.cfs@[c]);
                    assert forall|n2: Seq<char>| self.spec_has_cf_named(n2) implies pre_db
                        .spec_has_cf_named(n2) by {
                        let c = choose|c: int|
                            self.spec_cf_is_live(c) && self.spec_cf_name(c) == n2;
                        assert(pre_db.spec_cf_is_live(c) && pre_db.spec_cf_name(c) == n2);
                    }
                    assert(!self.spec_has_cf_named(name@)) by {
                        if self.spec_has_cf_named(name@) {
                            let c = choose|c: int|
                                self.spec_cf_is_live(c) && self.spec_cf_name(c) == name@;
                            assert(pre_db.spec_cf_name(c) == pre_db.spec_cf_name(i as int));
                        }
                    }
                    assert forall|m: Seq<char>| m != name@ implies #[trigger] self.spec_has_cf_named(
                        m,
                    ) == pre_db.spec_has_cf_named(m) by {
                        if pre_db.spec_has_cf_named(m) {
                            let c = choose|c: int|
                                pre_db.spec_cf_is_live(c) && pre_db.spec_cf_name(c) == m;
                            assert(c != i);
                            assert(self.spec_cf_is_live(c) && self.spec_cf_name(c) == m);
                        }
                    }
                    let slots = self.cfs@;
                    assert forall|c: int| 0 <= c < slots.len() implies match #[trigger] slots[c] {
                        Some(st) => records_wf(cf_state_records(st), self.next_seq),
                        None => true,
                    } by {
                        if c != i {
                            assert(slots[c] == pre_db.cfs@[c]);
                        }
                    }
                    assert forall|c1: int, c2: int|
                        0 <= c1 < slots.len() && 0 <= c2 < slots.len() && c1 != c2 && slots[c1] is Some
                            && (#[trigger] slots[c1], #[trigger] slots[c2]).1 is Some implies
                        slot_name(slots, c1) != slot_name(slots, c2) by {
                        assert(c1 != i && c2 != i);
                        assert(slots[c1] == pre_db.cfs@[c1] && slots[c2] == pre_db.cfs@[c2]);
                        assert(slot_name(slots, c1) == slot_name(pre_db.cfs@, c1));
                        assert(slot_name(slots, c2) == slot_name(pre_db.cfs@, c2));
                    }
                    assert(wf_cfs(slots, self.next_seq));
                }
                Ok(())
            },
        }
    }

    /// Begins a transaction at the read-committed isolation level.
    pub fn begin_transaction(&mut self) -> (r: Result<Transaction, Error>)
        requires
            old(self).wf(),
        ensures
            final(self).wf(),
            begin_txn_ensures(*old(self), *final(self), IsolationLevel::ReadCommitted, r),
    {
        self.begin_transaction_with_isolation(IsolationLevel::ReadCommitted)
    }

    /// Begins a transaction at the given isolation level. The transaction's
    /// snapshot is the highest committed sequence number; the snapshot is
    /// registered as live so that compaction keeps every version it can see.
    pub fn begin_transaction_with_isolation(&mut self, isolation: IsolationLevel) -> (r: Result<
        Transaction,
        Error,
    >)
        requires
            old(self).wf(),
        ensures
            final(self).wf(),
            begin_txn_ensures(*old(self), *final(self), isolation, r),
    {
        if self.next_txn_id == u64::MAX {
            return Err(Error::MemoryLimit);
        }
        let txn_id = self.next_txn_id;
        self.next_txn_id = self.next_txn_id + 1;
        let snapshot = self.next_seq - 1;
        let ghost pre_db = *old(self);
        self.live_txns.push(LiveTxn { txn_id, snapshot, touched: Vec::new() });
        let t = crate::txn::new_txn(txn_id, snapshot, isolation);
        proof {
            assert forall|c: int|
                0 <= c < pre_db.spec_cf_count() implies #[trigger] self.spec_cf_l0_file_count(c)
                == pre_db.spec_cf_l0_file_count(c) by {
                assert(self.cfs@[c] == pre_db.cfs@[c]);
            }
            let n = pre_db.live_txns@.len() as int;
            assert(self.live_txns@[n].txn_id == txn_id);
            assert(self.spec_txn_live(txn_id));
            assert(forall|c: int|
                0 <= c < n ==> self.live_txns@[c] == #[trigger] pre_db.live_txns@[c]);
            assert(!pre_db.spec_txn_live(txn_id)) by {
                if pre_db.spec_txn_live(txn_id) {
                    let i = choose|i: int|
                        0 <= i < pre_db.live_txns@.len() && pre_db.live_txns@[i].txn_id == txn_id;
                    assert(pre_db.live_txns@[i].txn_id < pre_db.next_txn_id);
                }
            }
            assert forall|x: u64| x != txn_id implies #[trigger] self.spec_txn_live(x)
                == pre_db.spec_txn_live(x) by {
                if self.spec_txn_live(x) {
                    let i = choose|i: int|
                        0 <= i < self.live_txns@.len() && self.live_txns@[i].txn_id == x;
                    assert(i < n);
                    assert(pre_db.live_txns@[i].txn_id == x);
                }
                if pre_db.spec_txn_live(x) {
                    let i = choose|i: int|
                        0 <= i < pre_db.live_txns@.len() && pre_db.live_txns@[i].txn_id == x;
                    assert(self.live_txns@[i].txn_id == x);
                }
            }
            assert forall|c: usize| !#[trigger] self.spec_txn_touches(txn_id, c) by {
                if self.spec_txn_touches(txn_id, c) {
                    let i = choose|i: int|
                        #![trigger self.live_txns@[i]]
                        0 <= i < self.live_txns@.len() && self.live_txns@[i].txn_id == txn_id
                            && self.live_txns@[i].touched@.contains(c);
                    if i < n {
                        assert(pre_db.live_txns@[i].txn_id < pre_db.next_txn_id);
                    } else {
                        assert(self.live_txns@[i].touched@.len() == 0);
                    }
                }
            }
            assert forall|x: u64, c: usize| x != txn_id implies #[trigger] self.spec_txn_touches(
                x,
                c,
            ) == pre_db.spec_txn_touches(x, c) by {
                if self.spec_txn_touches(x, c) {
                    let i = choose|i: int|
                        #![trigger self.live_txns@[i]]
                        0 <= i < self.live_txns@.len() && self.live_txns@[i].txn_id == x
                            && self.live_txns@[i].touched@.contains(c);
                    assert(i < n);
                    assert(pre_db.live_txns@[i] == self.live_txns@[i]);
                }
                if pre_db.spec_txn_touches(x, c) {
                    let i = choose|i: int|
                        #![trigger pre_db.live_txns@[i]]
                        0 <= i < pre_db.live_txns@.len() && pre_db.live_txns@[i].txn_id == x
                            && pre_db.live_txns@[i].touched@.contains(c);
                    assert(self.live_txns@[i] == pre_db.live_txns@[i]);
                }
            }
        }
        Ok(t)
    }

    /// How many table files level 0 of the family in slot `c` holds.
    pub closed spec fn spec_cf_l0_file_count(self, c: int) -> nat {
        match self.cfs@[c] {
            Some(st) => if st.levels@.len() == 0 {
                0
            } else {
                st.levels@[0].files@.len()
            },
            None => 0,
        }
    }

    /// The level-0 stall threshold configured for the family in slot `c`.
    pub closed spec fn spec_cf_stall_threshold(self, c: int) -> nat {
        match self.cfs@[c] {
            Some(st) => st.config.l0_queue_stall_threshold as nat,
            None => 0,
        }
    }

    /// Whether any live transaction references the family in slot `c`.
    fn cf_referenced(&self, c: usize) -> (r: bool)
        ensures
            r == self.spec_cf_referenced(c as int),
    {
        let mut i: usize = 0;
        while i < self.live_txns.len()
            invariant
                0 <= i <= self.live_txns@.len(),
                forall|a: int|
                    #![trigger self.live_txns@[a]]
                    0 <= a < i ==> !self.live_txns@[a].touched@.contains(c),
            decreases self.live_txns@.len() - i,
        {
            let touched = &self.live_txns[i].touched;
            let mut j: usize = 0;
            while j < touched.len()
                invariant
                    0 <= j <= touched@.len(),
                    touched@ == self.live_txns@[i as int].touched@,
                    0 <= i < self.live_txns@.len(),
                    forall|b: int| 0 <= b < j ==> #[trigger] touched@[b] != c,
                decreases touched@.len() - j,
            {
                if touched[j] == c {
                    proof {
                        assert(self.live_txns@[i as int].touched@.contains(c));
                        assert(self.spec_cf_referenced(c as int));
                    }
                    return true;
                }
                j += 1;
            }
            proof {
                assert(!self.live_txns@[i as int].touched@.contains(c));
            }
            i += 1;
        }
        proof {
            if self.spec_cf_referenced(c as int) {
                let a = choose|a: int|
                    #![trigger self.live_txns@[a]]
                    0 <= a < self.live_txns@.len() && c as int >= 0
                        && self.live_txns@[a].touched@.contains(c);
                assert(!self.live_txns@[a].touched@.contains(c));
            }
        }
        false
    }

    /// Marks the family in slot `cf_id` as referenced by the live
    /// transaction with this id; a no-op for an unregistered id. Nothing
    /// else in the database moves, and no other reference appears.
    pub(crate) fn mark_touched(&mut self, txn_id: u64, cf_id: usize)
        requires
            old(self).wf(),
        ensures
            final(self).wf(),
            touch_only_ensures(*old(self), *final(self), txn_id, cf_id),
    {
        let ghost pre = *old(self);
        match self.find_live_txn(txn_id) {
            None => {
                proof {
                    assert forall|x: u64, c: usize|
                        #![trigger self.spec_txn_touches(x, c)]
                        self.spec_txn_touches(x, c) == pre.spec_txn_touches(x, c) by {}
                    lemma_cfs_preserved_from_eq(pre, *self);
                    assert forall|c: int|
                        0 <= c < pre.spec_cf_count() implies #[trigger] self.spec_cf_l0_file_count(
                        c,
                    ) == pre.spec_cf_l0_file_count(c) by {
                        assert(self.cfs@[c] == pre.cfs@[c]);
                    }
                }
            },
            Some(i) => {
                let entry = &mut self.live_txns[i];
                entry.touched.push(cf_id);
                proof {
                    let old_l = pre.live_txns@;
                    let new_l = self.live_txns@;
                    assert(new_l =~= old_l.update(i as int, new_l[i as int]));
                    assert(new_l[i as int].txn_id == old_l[i as int].txn_id);
                    assert(new_l[i as int].snapshot == old_l[i as int].snapshot);
                    assert(new_l[i as int].touched@ == old_l[i as int].touched@.push(cf_id));
                    assert(new_l[i as int].touched@.contains(cf_id)) by {
                        assert(new_l[i as int].touched@.last() == cf_id);
                    }
                    assert(self.spec_txn_touches(txn_id, cf_id));
                    assert forall|x: u64|
                        #![trigger self.spec_txn_live(x)]
                        self.spec_txn_live(x) == pre.spec_txn_live(x) by {
                        if self.spec_txn_live(x) {
                            let a = choose|a: int|
                                0 <= a < new_l.len() && new_l[a].txn_id == x;
                            assert(old_l[a].txn_id == x);
                        }
                        if pre.spec_txn_live(x) {
                            let a = choose|a: int|
                                0 <= a < old_l.len() && old_l[a].txn_id == x;
                            assert(new_l[a].txn_id == x);
                        }
                    }
                    assert forall|x: u64, c: usize|
                        #![trigger self.spec_txn_touches(x, c)]
                        {
                            &&& (pre.spec_txn_touches(x, c) ==> self.spec_txn_touches(x, c))
                            &&& (self.spec_txn_touches(x, c) ==> pre.spec_txn_touches(x, c) || (x
                                == txn_id && c == cf_id))
                        } by {
                        if pre.spec_txn_touches(x, c) {
                            let a = choose|a: int|
                                #![trigger old_l[a]]
                                0 <= a < old_l.len() && old_l[a].txn_id == x
                                    && old_l[a].touched@.contains(c);
                            if a == i {
                                let b = choose|b: int|
                                    0 <= b < old_l[a].touched@.len() && old_l[a].touched@[b] == c;
                                assert(new_l[a].touched@[b] == c);
                                assert(new_l[a].touched@.contains(c));
                            }
                            assert(new_l[a].touched@.contains(c));
                        }
                        if self.spec_txn_touches(x, c) {
                            let a = choose|a: int|
                                #![trigger new_l[a]]
                                0 <= a < new_l.len() && new_l[a].txn_id == x
                                    && new_l[a].touched@.contains(c);
                            if a != i {
                                assert(old_l[a] == new_l[a]);
                            } else if !(x == txn_id && c == cf_id) {
                                let b = choose|b: int|
                                    0 <= b < new_l[a].touched@.len() && new_l[a].touched@[b] == c;
                                if b < old_l[a].touched@.len() {
                                    assert(old_l[a].touched@[b] == c);
                                    assert(old_l[a].touched@.contains(c));
                                } else {
                                    assert(new_l[a].touched@[b] == cf_id);
                                    assert(old_l[a].txn_id == txn_id);
                                }
                            }
                        }
                    }
                    assert(wf_txns(new_l, self.next_seq, self.next_txn_id)) by {
                        assert forall|a: int| 0 <= a < new_l.len() implies (
                        #[trigger] new_l[a]).snapshot < self.next_seq && new_l[a].txn_id
                            < self.next_txn_id by {
                            if a != i {
                                assert(new_l[a] == old_l[a]);
                            }
                        }
                        assert forall|a: int, b: int| 0 <= a < b < new_l.len() implies (
                        #[trigger] new_l[a]).txn_id != (#[trigger] new_l[b]).txn_id by {
                            assert(new_l[a].txn_id == old_l[a].txn_id);
                            assert(new_l[b].txn_id == old_l[b].txn_id);
                        }
                    }
                    lemma_cfs_preserved_from_eq(pre, *self);
                    assert forall|c: int|
                        0 <= c < pre.spec_cf_count() implies #[trigger] self.spec_cf_l0_file_count(
                        c,
                    ) == pre.spec_cf_l0_file_count(c) by {
                        assert(self.cfs@[c] == pre.cfs@[c]);
                    }
                }
            },
        }
    }

    /// The registry index of the live transaction with this id.
    fn find_live_txn(&self, txn_id: u64) -> (r: Option<usize>)
        ensures
            match r {
                Some(i) => 0 <= i < self.live_txns@.len() && self.live_txns@[i as int].txn_id
                    == txn_id,
                None => !self.spec_txn_live(txn_id),
            },
    {
        let mut i: usize = 0;
        while i < self.live_txns.len()
            invariant
                0 <= i <= self.live_txns@.len(),
                forall|j: int|
                    #![trigger self.live_txns@[j]]
                    0 <= j < i ==> self.live_txns@[j].txn_id != txn_id,
            decreases self.live_txns@.len() - i,
        {
            if self.live_txns[i].txn_id == txn_id {
                return Some(i);
            }
            i += 1;
        }
        None
    }

    /// Removes the transaction's registration, releasing its snapshot.
    pub(crate) fn deregister_txn(&mut self, txn_id: u64) -> (was_live: bool)
        requires
            old(self).wf(),
        ensures
            final(self).wf(),
            was_live == old(self).spec_txn_live(txn_id),
            !final(self).spec_txn_live(txn_id),
            forall|x: u64|
                x != txn_id ==> #[trigger] final(self).spec_txn_live(x) == old(self).spec_txn_live(
                    x,
                ),
            forall|x: u64, c: usize|
                x != txn_id ==> #[trigger] final(self).spec_txn_touches(x, c) == old(
                    self,
                ).spec_txn_touches(x, c),
            final(self).cfs@ == old(self).cfs@,
            final(self).comparators@ == old(self).comparators@,
            final(self).next_seq == old(self).next_seq,
            final(self).next_txn_id == old(self).next_txn_id,
            final(self).config == old(self).config,
            final(self).next_file_id == old(self).next_file_id,
            final(self).manifest == old(self).manifest,
            !was_live ==> *final(self) == *old(self),
    {
        match self.find_live_txn(txn_id) {
            None => false,
            Some(i) => {
                let ghost pre = *self;
                self.live_txns.remove(i);
                proof {
                    let old_l = pre.live_txns@;
                    let new_l = self.live_txns@;
                    old_l.remove_ensures(i as int);
                    assert(pre.spec_txn_live(txn_id));
                    assert(!self.spec_txn_live(txn_id)) by {
                        if self.spec_txn_live(txn_id) {
                            let j = choose|j: int|
                                0 <= j < new_l.len() && new_l[j].txn_id == txn_id;
                            if j < i {
                                assert(old_l[j].txn_id == txn_id);
                                assert(old_l[j].txn_id != old_l[i as int].txn_id);
                            } else {
                                assert(new_l[j] == old_l[j + 1]);
                                assert(old_l[j + 1].txn_id != old_l[i as int].txn_id);
                            }
                        }
                    }
                    assert forall|x: u64| x != txn_id implies #[trigger] self.spec_txn_live(x)
                        == pre.spec_txn_live(x) by {
                        if self.spec_txn_live(x) {
                            let j = choose|j: int|
                                0 <= j < new_l.len() && new_l[j].txn_id == x;
                            if j < i {
                                assert(old_l[j].txn_id == x);
                            } else {
                                assert(new_l[j] == old_l[j + 1]);
                            }
                        }
                        if pre.spec_txn_live(x) {
                            let j = choose|j: int|
                                0 <= j < old_l.len() && old_l[j].txn_id == x;
                            if j < i {
                                assert(new_l[j].txn_id == x);
                            } else {
                                assert(j > i);
                                assert(new_l[j - 1] == old_l[j]);
                            }
                        }
                    }
                    assert forall|x: u64, c: usize|
                        x != txn_id implies #[trigger] self.spec_txn_touches(x, c)
                        == pre.spec_txn_touches(x, c) by {
                        if self.spec_txn_touches(x, c) {
                            let j = choose|j: int|
                                #![trigger new_l[j]]
                                0 <= j < new_l.len() && new_l[j].txn_id == x
                                    && new_l[j].touched@.contains(c);
                            if j < i {
                                assert(old_l[j] == new_l[j]);
                            } else {
                                assert(new_l[j] == old_l[j + 1]);
                            }
                        }
                        if pre.spec_txn_touches(x, c) {
                            let j = choose|j: int|
                                #![trigger old_l[j]]
                                0 <= j < old_l.len() && old_l[j].txn_id == x
                                    && old_l[j].touched@.contains(c);
                            if j < i {
                                assert(new_l[j] == old_l[j]);
                            } else {
                                assert(j > i);
                                assert(new_l[j - 1] == old_l[j]);
                            }
                        }
                    }
                    assert(wf_txns(new_l, self.next_seq, self.next_txn_id)) by {
                        assert forall|a: int| 0 <= a < new_l.len() implies (#[trigger] new_l[a]).snapshot
                            < self.next_seq && new_l[a].txn_id < self.next_txn_id by {
                            if a < i {
                                assert(new_l[a] == old_l[a]);
                            } else {
                                assert(new_l[a] == old_l[a + 1]);
                            }
                        }
                        assert forall|a: int, b: int| 0 <= a < b < new_l.len() implies (
                        #[trigger] new_l[a]).txn_id != (#[trigger] new_l[b]).txn_id by {
                            let oa: int = if a < i {
                                a
                            } else {
                                a + 1
                            };
                            let ob: int = if b < i {
                                b
                            } else {
                                b + 1
                            };
                            assert(new_l[a] == old_l[oa] && new_l[b] == old_l[ob]);
                            assert(oa < ob);
                        }
                    }
                }
                true
            },
        }
    }

    /// Discards a transaction: deregisters its snapshot and drops its
    /// buffered writes without applying any of them.
    pub(crate) fn apply_rollback(&mut self, txn: Transaction) -> (r: Result<(), Error>)
        requires
            old(self).wf(),
        ensures
            final(self).wf(),
            rollback_ensures(txn@, *old(self), *final(self), r),
    {
        proof {
            crate::txn::lemma_txn_view(txn);
        }
        let was_live = self.deregister_txn(txn.txn_id);
        proof {
            lemma_cfs_preserved_from_eq(*old(self), *self);
            assert forall|c: int|
                0 <= c < old(self).spec_cf_count() implies #[trigger] self.spec_cf_l0_file_count(
                c,
            ) == old(self).spec_cf_l0_file_count(c) by {
                assert(self.cfs@[c] == old(self).cfs@[c]);
            }
        }
        if was_live {
            Ok(())
        } else {
            Err(Error::InvalidDb)
        }
    }

    /// Applies one buffered write to its column family's memtable at the
    /// next sequence number, sealing the memtable if it reached the
    /// configured write-buffer size. The family afterwards reads as its old
    /// records with the new one appended.
    fn apply_one_op(&mut self, op: &WriteOp) -> (rec_m: Ghost<RecordModel>)
        requires
            1 <= old(self).next_seq < u64::MAX,
            wf_cfs(old(self).cfs@, old(self).next_seq),
            old(self).spec_cf_is_live(op.cf_id as int),
        ensures
            rec_m@ == record_of_op(op@, old(self).next_seq),
            final(self).next_seq == old(self).next_seq + 1,
            final(self).cfs@.len() == old(self).cfs@.len(),
            wf_cfs(final(self).cfs@, final(self).next_seq),
            final(self).comparators@ == old(self).comparators@,
            final(self).live_txns@ == old(self).live_txns@,
            final(self).next_txn_id == old(self).next_txn_id,
            final(self).next_file_id == old(self).next_file_id,
            final(self).config == old(self).config,
            final(self).manifest == old(self).manifest,
            forall|c: int|
                #![trigger final(self).spec_cf_records(c)]
                #![trigger final(self).spec_cf_is_live(c)]
                0 <= c < old(self).cfs@.len() ==> {
                    &&& final(self).spec_cf_is_live(c) == old(self).spec_cf_is_live(c)
                    &&& final(self).spec_cf_name(c) == old(self).spec_cf_name(c)
                    &&& final(self).spec_cf_l0_file_count(c) == old(self).spec_cf_l0_file_count(c)
                    &&& final(self).spec_cf_config(c) == old(self).spec_cf_config(c)
                    &&& (c != op.cf_id ==> final(self).spec_cf_records(c) == old(
                        self,
                    ).spec_cf_records(c))
                },
            forall|k: Seq<u8>, s: u64|
                #![trigger newest_version(final(self).spec_cf_records(op.cf_id as int), k, s)]
                newest_version(final(self).spec_cf_records(op.cf_id as int), k, s)
                    == newest_version(
                    old(self).spec_cf_records(op.cf_id as int).push(
                        record_of_op(op@, old(self).next_seq),
                    ),
                    k,
                    s,
                ),
    {
        let ghost pre = *old(self);
        let cf_id = op.cf_id;
        let seq_now = self.next_seq;
        let rec = Record {
            key: slice_to_vec(op.key.as_slice()),
            value: copy_opt_bytes(&op.value),
            seq: seq_now,
            expires_at: op.expires_at,
        };
        proof {
            assert(rec@ == record_of_op(op@, seq_now));
        }
        let ghost rec_m = rec@;
        let slot = &mut self.cfs[cf_id];
        let ghost old_recs = cf_state_records(slot->Some_0);
        match slot {
            Some(st) => {
                let ghost st0 = *st;
                let ghost mem0 = st.memtable.spec_records();
                let pos = st.memtable.insert(rec, &st.comparator);
                let ghost st1 = *st;
                proof {
                    let p = levels_records(st0.levels@) + memtables_records(st0.immutables@);
                    assert(cf_state_records(st0) == p + mem0);
                    assert(pre.cfs@[cf_id as int] == Some(st0));
                    assert(records_wf(cf_state_records(st0), pre.next_seq));
                    let aa = p + mem0.take(pos as int);
                    let bb = mem0.skip(pos as int);
                    let whole = cf_state_records(st0);
                    assert(whole =~= aa + bb);
                    assert forall|i2: int| 0 <= i2 < whole.len() implies (
                    #[trigger] whole[i2]).seq < rec_m.seq by {}
                    assert forall|i2: int| 0 <= i2 < aa.len() implies (#[trigger] aa[i2]).seq
                        < rec_m.seq by {
                        assert(aa[i2] == (aa + bb)[i2]);
                        assert((aa + bb)[i2] == whole[i2]);
                    }
                    assert forall|i2: int| 0 <= i2 < bb.len() implies (#[trigger] bb[i2]).seq
                        < rec_m.seq by {
                        assert(bb[i2] == (aa + bb)[aa.len() + i2]);
                        assert((aa + bb)[aa.len() + i2] == whole[aa.len() + i2]);
                    }
                    assert(st1.memtable.spec_records() == mem0.insert(pos as int, rec_m));
                    assert(mem0.insert(pos as int, rec_m) =~= mem0.take(pos as int) + seq![rec_m]
                        + mem0.skip(pos as int));
                    assert(cf_state_records(st1) =~= (p + mem0.take(pos as int)) + seq![rec_m] + mem0.skip(
                        pos as int,
                    ));
                    assert((p + mem0.take(pos as int)) + mem0.skip(pos as int) =~= cf_state_records(
                        st0,
                    ));
                    lemma_records_wf_insert_fresh(
                        p + mem0.take(pos as int),
                        mem0.skip(pos as int),
                        rec_m,
                        pre.next_seq,
                    );
                    assert(records_wf(cf_state_records(st1), (pre.next_seq + 1) as u64));
                    assert forall|k: Seq<u8>, s: u64|
                        newest_version(cf_state_records(st1), k, s) == newest_version(
                            cf_state_records(st0).push(rec_m),
                            k,
                            s,
                        ) by {
                        crate::visibility::lemma_newest_insert_fresh(
                            p + mem0.take(pos as int),
                            mem0.skip(pos as int),
                            rec_m,
                            k,
                            s,
                        );
                        crate::visibility::lemma_newest_append_fresh(
                            cf_state_records(st0),
                            rec_m,
                            k,
                            s,
                        );
                        assert(cf_state_records(st0).push(rec_m) =~= cf_state_records(st0) + seq![
                            rec_m,
                        ]);
                    }
                }
                if st.memtable.is_full(st.config.write_buffer_size) {
                    let mut fresh = Memtable::new();
                    core::mem::swap(&mut fresh, &mut st.memtable);
                    st.immutables.push(fresh);
                    proof {
                        let st2 = *st;
                        assert(st2.immutables@.drop_last() =~= st1.immutables@);
                        assert(st2.immutables@.last() == st1.memtable);
                        assert(memtables_records(st2.immutables@) == memtables_records(
                            st1.immutables@,
                        ) + st1.memtable.spec_records());
                        assert(st2.memtable.spec_records() =~= Seq::<RecordModel>::empty());
                        assert(cf_state_records(st2) =~= cf_state_records(st1));
                    }
                }
            },
            None => {
                proof {
                    assert(false);
                }
            },
        }
        self.next_seq = self.next_seq + 1;
        proof {
            assert(self.cfs@ =~= pre.cfs@.update(cf_id as int, self.cfs@[cf_id as int]));
            assert forall|c: int| 0 <= c < pre.cfs@.len() && c != cf_id implies self.cfs@[c]
                == #[trigger] pre.cfs@[c] by {}
            assert forall|c: int| 0 <= c < self.cfs@.len() implies match #[trigger] self.cfs@[c] {
                Some(st) => records_wf(cf_state_records(st), self.next_seq),
                None => true,
            } by {
                if c != cf_id {
                    assert(self.cfs@[c] == pre.cfs@[c]);
                    match pre.cfs@[c] {
                        Some(st) => {
                            crate::visibility::lemma_records_wf_weaken(
                                cf_state_records(st),
                                pre.next_seq,
                                self.next_seq,
                            );
                        },
                        None => {},
                    }
                }
            }
            assert forall|c1: int, c2: int|
                0 <= c1 < self.cfs@.len() && 0 <= c2 < self.cfs@.len() && c1 != c2 && self.cfs@[c1] is Some
                    && (#[trigger] self.cfs@[c1], #[trigger] self.cfs@[c2]).1 is Some implies
                slot_name(self.cfs@, c1) != slot_name(self.cfs@, c2) by {
                assert(slot_name(self.cfs@, c1) == slot_name(pre.cfs@, c1));
                assert(slot_name(self.cfs@, c2) == slot_name(pre.cfs@, c2));
            }
            assert(wf_cfs(self.cfs@, self.next_seq));
        }
        Ghost(rec_m)
    }

    /// Commits a transaction: deregisters its snapshot, validates the write
    /// set and the isolation level's conflict rule, then applies every
    /// buffered write in issue order, each at a freshly allocated sequence
    /// number.
    #[verifier::rlimit(100)]
    #[verifier::spinoff_prover]
    pub(crate) fn apply_commit(&mut self, txn: Transaction) -> (r: Result<(), Error>)
        requires
            old(self).wf(),
        ensures
            final(self).wf(),
            commit_ensures(txn@, *old(self), *final(self), r),
    {
        proof {
            crate::txn::lemma_txn_view(txn);
        }
        let ghost pre = *old(self);
        let ghost t = txn@;
        let was_live = self.deregister_txn(txn.txn_id);
        proof {
            lemma_cfs_preserved_from_eq(pre, *self);
        }
        if !was_live {
            proof {
                lemma_txn_live_from_eq(*self, pre);
                lemma_txn_touches_from_eq(*self, pre);
                assert(!self.spec_txn_live(t.txn_id));
            }
            return Err(Error::InvalidDb);
        }
        let ghost mid = *self;
        proof {
            assert(commit_mid_ok(pre, mid, t.txn_id));
        }
        // every buffered write must target a live family
        let mut i: usize = 0;
        while i < txn.write_set.len()
            invariant
                0 <= i <= txn.write_set@.len(),
                pre == *old(self),
                *self == mid,
                t == txn@,
                t.txn_id == txn.txn_id,
                t.write_set == txn.write_set@.map_values(|op: WriteOp| op@),
                commit_mid_ok(pre, mid, t.txn_id),
                forall|j: int|
                    #![trigger t.write_set[j]]
                    0 <= j < i ==> pre.spec_cf_is_live(t.write_set[j].cf_id as int),
            decreases txn.write_set@.len() - i,
        {
            let cf_id = txn.write_set[i].cf_id;
            let live = cf_id < self.cfs.len() && self.cfs[cf_id].is_some();
            if !live {
                proof {
                    assert(t.write_set[i as int].cf_id == cf_id);
                    assert(!pre.spec_cf_is_live(cf_id as int));
                    assert(!spec_ws_cfs_live(pre, t.write_set));
                    lemma_commit_frames(pre, mid, *self, t.txn_id);
                }
                return Err(Error::NotFound);
            }
            i += 1;
        }
        proof {
            assert(spec_ws_cfs_live(pre, t.write_set));
        }
        // the sequence-number window must fit
        if txn.write_set.len() as u64 > u64::MAX - self.next_seq {
            proof {
                lemma_commit_frames(pre, mid, *self, t.txn_id);
            }
            return Err(Error::MemoryLimit);
        }
        // level-0 back-pressure gate
        let mut i: usize = 0;
        while i < txn.write_set.len()
            invariant
                0 <= i <= txn.write_set@.len(),
                pre == *old(self),
                *self == mid,
                t == txn@,
                t.txn_id == txn.txn_id,
                t.write_set == txn.write_set@.map_values(|op: WriteOp| op@),
                commit_mid_ok(pre, mid, t.txn_id),
                pre.spec_next_seq() + t.write_set.len() <= u64::MAX,
                spec_ws_cfs_live(pre, t.write_set),
                forall|j: int|
                    0 <= j < i ==> pre.spec_cf_l0_file_count(
                        #[trigger] t.write_set[j].cf_id as int,
                    ) <= pre.spec_cf_stall_threshold(t.write_set[j].cf_id as int),
            decreases txn.write_set@.len() - i,
        {
            let cf_id = txn.write_set[i].cf_id;
            proof {
                assert(t.write_set[i as int].cf_id == cf_id);
                assert(pre.spec_cf_is_live(cf_id as int));
            }
            match &self.cfs[cf_id] {
                Some(st) => {
                    let l0: usize = if st.levels.len() == 0 {
                        0
                    } else {
                        st.levels[0].files.len()
                    };
                    if l0 > st.config.l0_queue_stall_threshold as usize {
                        proof {
                            assert(pre.spec_cf_l0_file_count(cf_id as int) > pre.spec_cf_stall_threshold(
                                cf_id as int,
                            ));
                            assert(spec_l0_stalled(pre, t.write_set));
                            lemma_commit_frames(pre, mid, *self, t.txn_id);
                        }
                        return Err(Error::MemoryLimit);
                    }
                },
                None => {
                    proof {
                        assert(false);
                    }
                },
            }
            i += 1;
        }
        proof {
            assert(!spec_l0_stalled(pre, t.write_set)) by {
                if spec_l0_stalled(pre, t.write_set) {
                    let j = choose|j: int|
                        0 <= j < t.write_set.len() && pre.spec_cf_l0_file_count(
                            t.write_set[j].cf_id as int,
                        ) > pre.spec_cf_stall_threshold(t.write_set[j].cf_id as int);
                    assert(t.write_set[j] == t.write_set[j]);
                }
            }
        }
        // isolation-level conflict rule
        let check_writes = match txn.isolation {
            IsolationLevel::Snapshot => true,
            IsolationLevel::Serializable => true,
            _ => false,
        };
        if check_writes {
            let mut i: usize = 0;
            while i < txn.write_set.len()
                invariant
                    0 <= i <= txn.write_set@.len(),
                    pre == *old(self),
                    *self == mid,
                    t == txn@,
                    t.txn_id == txn.txn_id,
                    t.write_set == txn.write_set@.map_values(|op: WriteOp| op@),
                    commit_mid_ok(pre, mid, t.txn_id),
                    pre.spec_next_seq() + t.write_set.len() <= u64::MAX,
                    !spec_l0_stalled(pre, t.write_set),
                    txn.snapshot == t.snapshot,
                    t.isolation == IsolationLevel::Snapshot || t.isolation
                        == IsolationLevel::Serializable,
                    spec_ws_cfs_live(pre, t.write_set),
                    forall|j: int|
                        #![trigger t.write_set[j]]
                        0 <= j < i ==> !spec_has_newer_version(
                            pre.spec_cf_records(t.write_set[j].cf_id as int),
                            t.write_set[j].key,
                            t.snapshot,
                        ),
                decreases txn.write_set@.len() - i,
            {
                let op = &txn.write_set[i];
                proof {
                    assert(t.write_set[i as int] == op@);
                    assert(pre.spec_cf_is_live(op.cf_id as int));
                }
                match &self.cfs[op.cf_id] {
                    Some(st) => {
                        let f = cf_state_lookup(st, op.key.as_slice(), u64::MAX);
                        proof {
                            crate::visibility::lemma_has_newer_iff_newest(
                                cf_state_records(*st),
                                op.key@,
                                txn.snapshot,
                            );
                            assert(cf_state_records(*st) == pre.spec_cf_records(
                                op.cf_id as int,
                            ));
                        }
                        let newer = match &f {
                            Some(fv) => fv.seq > txn.snapshot,
                            None => false,
                        };
                        if newer {
                            proof {
                                assert(spec_has_newer_version(
                                    pre.spec_cf_records(t.write_set[i as int].cf_id as int),
                                    t.write_set[i as int].key,
                                    t.snapshot,
                                ));
                                assert(spec_commit_conflict(pre, t));
                                lemma_commit_frames(pre, mid, *self, t.txn_id);
                            }
                            return Err(Error::Conflict);
                        }
                    },
                    None => {
                        proof {
                            assert(false);
                        }
                    },
                }
                i += 1;
            }
        }
        let check_reads = match txn.isolation {
            IsolationLevel::Serializable => true,
            _ => false,
        };
        if check_reads {
            let mut i: usize = 0;
            while i < txn.read_set.len()
                invariant
                    0 <= i <= txn.read_set@.len(),
                    pre == *old(self),
                    *self == mid,
                    t == txn@,
                    t.txn_id == txn.txn_id,
                    t.read_set == txn.read_set@.map_values(
                        |rk: ReadKey| ReadKeyModel { cf_id: rk.cf_id, key: rk.key@ },
                    ),
                    commit_mid_ok(pre, mid, t.txn_id),
                    pre.spec_next_seq() + t.write_set.len() <= u64::MAX,
                    !spec_l0_stalled(pre, t.write_set),
                    spec_ws_cfs_live(pre, t.write_set),
                    txn.snapshot == t.snapshot,
                    t.isolation == IsolationLevel::Serializable,
                    forall|j: int|
                        #![trigger t.read_set[j]]
                        0 <= j < i ==> !spec_has_newer_version(
                            pre.spec_cf_records(t.read_set[j].cf_id as int),
                            t.read_set[j].key,
                            t.snapshot,
                        ),
                decreases txn.read_set@.len() - i,
            {
                let rk = &txn.read_set[i];
                proof {
                    assert(t.read_set[i as int].cf_id == rk.cf_id && t.read_set[i as int].key
                        == rk.key@);
                }
                let newer: bool = if rk.cf_id < self.cfs.len() {
                    match &self.cfs[rk.cf_id] {
                        Some(st) => {
                            let f = cf_state_lookup(st, rk.key.as_slice(), u64::MAX);
                            proof {
                                crate::visibility::lemma_has_newer_iff_newest(
                                    cf_state_records(*st),
                                    rk.key@,
                                    txn.snapshot,
                                );
                                assert(cf_state_records(*st) == pre.spec_cf_records(
                                    rk.cf_id as int,
                                ));
                            }
                            match &f {
                                Some(fv) => fv.seq > txn.snapshot,
                                None => false,
                            }
                        },
                        None => {
                            proof {
                                assert(pre.spec_cf_records(rk.cf_id as int) =~= Seq::<
                                    RecordModel,
                                >::empty());
                            }
                            false
                        },
                    }
                } else {
                    proof {
                        assert(pre.spec_cf_records(rk.cf_id as int) =~= Seq::<
                            RecordModel,
                        >::empty());
                    }
                    false
                };
                if newer {
                    proof {
                        assert(spec_commit_conflict(pre, t));
                        lemma_commit_frames(pre, mid, *self, t.txn_id);
                    }
                    return Err(Error::Conflict);
                }
                i += 1;
            }
        }
        proof {
            assert(!spec_commit_conflict(pre, t));
        }
        // apply the write set in issue order
        let ghost base = self.next_seq;
        let ws_len = txn.write_set.len();
        let n_cfs = self.cfs.len();
        let mut tdx: usize = 0;
        proof {
            assert forall|c: int|
                #![trigger self.spec_cf_records(c)]
                #![trigger self.spec_cf_is_live(c)]
                0 <= c < pre.spec_cf_count() implies {
                &&& self.spec_cf_is_live(c) == pre.spec_cf_is_live(c)
                &&& self.spec_cf_name(c) == pre.spec_cf_name(c)
                &&& self.spec_cf_config(c) == pre.spec_cf_config(c)
                &&& self.spec_cf_l0_file_count(c) == pre.spec_cf_l0_file_count(c)
                &&& visible_eq(
                    self.spec_cf_records(c),
                    pre.spec_cf_records(c) + applied_for_cf(
                        t.write_set.take(0),
                        base as int,
                        c as usize,
                    ),
                )
            } by {
                assert(self.cfs@[c] == pre.cfs@[c]);
                assert(t.write_set.take(0) =~= Seq::<WriteOpModel>::empty());
                assert(applied_for_cf(t.write_set.take(0), base as int, c as usize)
                    =~= Seq::<RecordModel>::empty());
                assert(pre.spec_cf_records(c) + applied_for_cf(
                    t.write_set.take(0),
                    base as int,
                    c as usize,
                ) =~= pre.spec_cf_records(c));
                assert(self.spec_cf_records(c) == pre.spec_cf_records(c));
                assert(self.spec_cf_is_live(c) == pre.spec_cf_is_live(c));
                assert(self.spec_cf_name(c) == pre.spec_cf_name(c));
            }
            assert(commit_loop_cfs_ok(pre, *self, t.write_set, base as int, 0));
        }
        while tdx < ws_len
            invariant
                0 <= tdx <= ws_len,
                pre == *old(self),
                ws_len == txn.write_set@.len(),
                t == txn@,
                t.write_set == txn.write_set@.map_values(|op: WriteOp| op@),
                t.txn_id == txn.txn_id,
                commit_mid_ok(pre, mid, t.txn_id),
                base == pre.next_seq,
                1 <= base,
                base as int + ws_len <= u64::MAX,
                self.next_seq as int == base as int + tdx,
                self.cfs@.len() == pre.cfs@.len(),
                pre.cfs@.len() == n_cfs,
                wf_cfs(self.cfs@, self.next_seq),
                comparators_unique(self.comparators@),
                self.live_txns@ == mid.live_txns@,
                self.comparators@ == mid.comparators@,
                self.next_txn_id == mid.next_txn_id,
                self.next_file_id == mid.next_file_id,
                self.config == mid.config,
                self.manifest == mid.manifest,
                !spec_l0_stalled(pre, t.write_set),
                !spec_commit_conflict(pre, t),
                spec_ws_cfs_live(pre, t.write_set),
                commit_loop_cfs_ok(pre, *self, t.write_set, base as int, tdx as int),
            decreases ws_len - tdx,
        {
            let op = &txn.write_set[tdx];
            let ghost op_m = t.write_set[tdx as int];
            proof {
                assert(op@ == op_m);
                assert(pre.spec_cf_is_live(op_m.cf_id as int));
                assert(self.spec_cf_is_live(op.cf_id as int));
            }
            let ghost snap_self = *self;
            let rec_m_g = self.apply_one_op(op);
            let ghost rec_m = rec_m_g@;
            proof {
                let seq_now = snap_self.next_seq;
                assert(rec_m == record_of_op(op_m, seq_now));
                lemma_applied_seq_bounds(t.write_set.take(tdx as int), base as int, op_m.cf_id);
                assert(commit_loop_cfs_ok(pre, snap_self, t.write_set, base as int, tdx as int));
                assert forall|c: int|
                    #![trigger self.spec_cf_records(c)]
                    #![trigger self.spec_cf_is_live(c)]
                    0 <= c < pre.spec_cf_count() implies {
                    &&& self.spec_cf_is_live(c) == pre.spec_cf_is_live(c)
                    &&& self.spec_cf_name(c) == pre.spec_cf_name(c)
                    &&& self.spec_cf_config(c) == pre.spec_cf_config(c)
                    &&& self.spec_cf_l0_file_count(c) == pre.spec_cf_l0_file_count(c)
                    &&& visible_eq(
                        self.spec_cf_records(c),
                        pre.spec_cf_records(c) + applied_for_cf(
                            t.write_set.take(tdx + 1),
                            base as int,
                            c as usize,
                        ),
                    )
                } by {
                    assert(self.spec_cf_is_live(c) == snap_self.spec_cf_is_live(c));
                    assert(snap_self.spec_cf_is_live(c) == pre.spec_cf_is_live(c));
                    assert(self.spec_cf_name(c) == snap_self.spec_cf_name(c));
                    assert(snap_self.spec_cf_name(c) == pre.spec_cf_name(c));
                    assert(self.spec_cf_config(c) == snap_self.spec_cf_config(c));
                    assert(snap_self.spec_cf_config(c) == pre.spec_cf_config(c));
                    assert(self.spec_cf_l0_file_count(c) == snap_self.spec_cf_l0_file_count(c));
                    assert(snap_self.spec_cf_l0_file_count(c) == pre.spec_cf_l0_file_count(c));
                    assert(t.write_set.take(tdx + 1).drop_last() =~= t.write_set.take(tdx as int));
                    assert(t.write_set.take(tdx + 1).last() == op_m);
                    let rhs_old = pre.spec_cf_records(c) + applied_for_cf(
                        t.write_set.take(tdx as int),
                        base as int,
                        c as usize,
                    );
                    if c == op_m.cf_id {
                        assert(applied_for_cf(t.write_set.take(tdx + 1), base as int, c as usize)
                            =~= applied_for_cf(t.write_set.take(tdx as int), base as int, c as usize)
                            + seq![rec_m]);
                        let rhs_new = pre.spec_cf_records(c) + applied_for_cf(
                            t.write_set.take(tdx + 1),
                            base as int,
                            c as usize,
                        );
                        assert(rhs_new =~= rhs_old.push(rec_m));
                        assert forall|k: Seq<u8>, s: u64| #![trigger newest_version(self.spec_cf_records(c), k, s)] newest_version(
                            self.spec_cf_records(c),
                            k,
                            s,
                        ) == newest_version(rhs_new, k, s) by {
                            assert(newest_version(self.spec_cf_records(c), k, s) == newest_version(
                                snap_self.spec_cf_records(c).push(rec_m),
                                k,
                                s,
                            ));
                            assert(snap_self.spec_cf_records(c).push(rec_m) =~= snap_self.spec_cf_records(c) + seq![rec_m]);
                            lemma_newest_concat(snap_self.spec_cf_records(c), seq![rec_m], k, s);
                            lemma_newest_concat(rhs_old, seq![rec_m], k, s);
                            assert(newest_version(snap_self.spec_cf_records(c), k, s)
                                == newest_version(rhs_old, k, s));
                            assert(rhs_old + seq![rec_m] =~= rhs_new);
                        }
                    } else {
                        assert(applied_for_cf(t.write_set.take(tdx + 1), base as int, c as usize)
                            =~= applied_for_cf(
                            t.write_set.take(tdx as int),
                            base as int,
                            c as usize,
                        ));
                        assert(self.spec_cf_records(c) == snap_self.spec_cf_records(c));
                        assert(pre.spec_cf_records(c) + applied_for_cf(
                            t.write_set.take(tdx + 1),
                            base as int,
                            c as usize,
                        ) =~= rhs_old);
                    }
                }
                assert(commit_loop_cfs_ok(pre, *self, t.write_set, base as int, tdx as int + 1));
            }
            tdx += 1;
        }
        proof {
            assert(t.write_set.take(ws_len as int) =~= t.write_set);
            assert(commit_loop_cfs_ok(pre, *self, t.write_set, base as int, ws_len as int));
            assert forall|c: int|
                #![trigger self.spec_cf_records(c)]
                0 <= c < pre.spec_cf_count() implies {
                &&& self.spec_cf_is_live(c) == pre.spec_cf_is_live(c)
                &&& self.spec_cf_name(c) == pre.spec_cf_name(c)
                &&& self.spec_cf_config(c) == pre.spec_cf_config(c)
                &&& self.spec_cf_l0_file_count(c) == pre.spec_cf_l0_file_count(c)
                &&& visible_eq(
                    self.spec_cf_records(c),
                    pre.spec_cf_records(c) + applied_for_cf(
                        t.write_set,
                        pre.spec_next_seq() as int,
                        c as usize,
                    ),
                )
            } by {
                assert(self.spec_cf_is_live(c) == pre.spec_cf_is_live(c));
                assert(self.spec_cf_config(c) == pre.spec_cf_config(c));
                assert(self.spec_cf_l0_file_count(c) == pre.spec_cf_l0_file_count(c));
                assert(visible_eq(
                    self.spec_cf_records(c),
                    pre.spec_cf_records(c) + applied_for_cf(
                        t.write_set.take(ws_len as int),
                        base as int,
                        c as usize,
                    ),
                ));
                assert(applied_for_cf(t.write_set.take(ws_len as int), base as int, c as usize)
                    == applied_for_cf(t.write_set, pre.spec_next_seq() as int, c as usize));
            }
            lemma_txn_live_from_eq(*self, mid);
            lemma_txn_touches_from_eq(*self, mid);
            assert(!self.spec_txn_live(t.txn_id));
            assert forall|x: u64| x != t.txn_id implies #[trigger] self.spec_txn_live(x)
                == pre.spec_txn_live(x) by {
                assert(self.spec_txn_live(x) == mid.spec_txn_live(x));
            }
            assert forall|x: u64, c: usize| x != t.txn_id implies #[trigger] self.spec_txn_touches(
                x,
                c,
            ) == pre.spec_txn_touches(x, c) by {
                assert(self.spec_txn_touches(x, c) == mid.spec_txn_touches(x, c));
            }
            assert(wf_txns(self.live_txns@, self.next_seq, self.next_txn_id)) by {
                assert(wf_txns(mid.live_txns@, mid.next_seq, mid.next_txn_id));
                assert forall|a: int| 0 <= a < self.live_txns@.len() implies (
                #[trigger] self.live_txns@[a]).snapshot < self.next_seq && self.live_txns@[a].txn_id
                    < self.next_txn_id by {
                    assert(self.live_txns@[a] == mid.live_txns@[a]);
                }
                assert forall|a: int, b: int| 0 <= a < b < self.live_txns@.len() implies (
                #[trigger] self.live_txns@[a]).txn_id != (#[trigger] self.live_txns@[b]).txn_id by {
                    assert(self.live_txns@[a] == mid.live_txns@[a]);
                    assert(self.live_txns@[b] == mid.live_txns@[b]);
                }
            }
        }
        Ok(())
    }

    /// How many stores of the family in slot `c` still wait to reach level
    /// 0: each sealed memtable counts once, a non-empty active write buffer
    /// twice (it first has to be sealed).
    pub closed spec fn spec_cf_flush_pending(self, c: int) -> int {
        match self.cfs@[c] {
            Some(st) => st.immutables@.len() + (if st.memtable.spec_records().len() > 0 {
                2int
            } else {
                0int
            }),
            None => 0,
        }
    }

    /// One step of the flush duty for the family in slot `c`: seals a
    /// non-empty write buffer, or serializes the oldest sealed memtable
    /// into a new level-0 table file and registers that file in the
    /// manifest. Every record stays exactly where readers see it; only its
    /// store changes.
    #[verifier::rlimit(100)]
    #[verifier::spinoff_prover]
    pub(crate) fn flush_step(&mut self, cf_id: usize) -> (more: bool)
        requires
            old(self).wf(),
            old(self).spec_cf_is_live(cf_id as int),
        ensures
            final(self).wf(),
            final(self).cfs@.len() == old(self).cfs@.len(),
            forall|c: int|
                #![trigger final(self).cfs@[c]]
                0 <= c < old(self).cfs@.len() && c != cf_id ==> final(self).cfs@[c] == old(
                    self,
                ).cfs@[c],
            final(self).cfs@[cf_id as int] is Some,
            cf_state_records(final(self).cfs@[cf_id as int]->Some_0) == cf_state_records(
                old(self).cfs@[cf_id as int]->Some_0,
            ),
            final(self).cfs@[cf_id as int]->Some_0.name@ == old(
                self,
            ).cfs@[cf_id as int]->Some_0.name@,
            final(self).cfs@[cf_id as int]->Some_0.config == old(
                self,
            ).cfs@[cf_id as int]->Some_0.config,
            final(self).live_txns@ == old(self).live_txns@,
            final(self).next_seq == old(self).next_seq,
            final(self).next_txn_id == old(self).next_txn_id,
            final(self).comparators@ == old(self).comparators@,
            final(self).config == old(self).config,
            more ==> final(self).spec_cf_flush_pending(cf_id as int) < old(self).spec_cf_flush_pending(cf_id as int),
            !more ==> final(self).spec_cf_flush_pending(cf_id as int) == 0,
            log_extends(final(self).spec_manifest_log(), old(self).spec_manifest_log()),
            manifest_gains_level0_adds(
                old(self).spec_manifest_log(),
                final(self).spec_manifest_log(),
                cf_id,
            ),
    {
        let ghost pre = *old(self);
        let fid = self.next_file_id;
        let mut progressed = false;
        let mut flushed_file: Option<u64> = None;
        let slot = &mut self.cfs[cf_id];
        match slot {
            None => {
                proof {
                    assert(false);
                }
            },
            Some(st) => {
                let ghost st0 = *st;
                if st.immutables.len() > 0 {
                    // serialize the oldest sealed memtable into a level-0 file
                    if st.levels.len() == 0 {
                        st.levels.push(LevelState { files: Vec::new() });
                        proof {
                            let st1 = *st;
                            lemma_levels_records_push(st0.levels@, st1.levels@.last());
                            assert(st1.levels@.last().files@ =~= Seq::<TableFile>::empty());
                            assert(files_records(st1.levels@.last().files@) =~= Seq::<
                                RecordModel,
                            >::empty());
                            assert(levels_records(st1.levels@) =~= levels_records(st0.levels@));
                            assert(cf_state_records(st1) =~= cf_state_records(st0));
                        }
                    }
                    let ghost st1 = *st;
                    let m = st.immutables.remove(0);
                    let tbl = TableFile::from_records(fid, m.take_entries());
                    let ghost tbl_recs = tbl.spec_records();
                    let lvl0 = &mut st.levels[0];
                    lvl0.files.push(tbl);
                    proof {
                        let st2 = *st;
                        lemma_memtables_records_first(st1.immutables@);
                        assert(st2.immutables@ =~= st1.immutables@.drop_first());
                        assert(tbl_recs == st1.immutables@.first().spec_records());
                        // level 0's file run gains the flushed records at its end
                        assert(st2.levels@[0].files@ =~= st1.levels@[0].files@.push(
                            st2.levels@[0].files@.last(),
                        ));
                        assert(st2.levels@[0].files@.drop_last() =~= st1.levels@[0].files@);
                        assert(files_records(st2.levels@[0].files@) == files_records(
                            st1.levels@[0].files@,
                        ) + tbl_recs);
                        assert(st2.levels@.drop_first() =~= st1.levels@.drop_first());
                        assert(st2.levels@.first().files@ == st2.levels@[0].files@);
                        assert(st1.levels@.first().files@ == st1.levels@[0].files@);
                        assert(levels_records(st2.levels@) == levels_records(st1.levels@)
                            + tbl_recs);
                        assert(st2.memtable == st1.memtable);
                        assert(cf_state_records(st2) =~= cf_state_records(st1));
                        assert(cf_state_records(st2) == cf_state_records(st0));
                    }
                    progressed = true;
                    flushed_file = Some(fid);
                    proof {
                        let stf = *st;
                        assert(stf.immutables@.len() < st0.immutables@.len());
                        assert(stf.memtable == st0.memtable);
                    }
                } else if st.memtable.len() > 0 {
                    // seal the active write buffer
                    let mut fresh = Memtable::new();
                    core::mem::swap(&mut fresh, &mut st.memtable);
                    st.immutables.push(fresh);
                    proof {
                        let st2 = *st;
                        assert(st2.immutables@.drop_last() =~= st0.immutables@);
                        assert(st2.immutables@.last() == st0.memtable);
                        assert(memtables_records(st2.immutables@) == memtables_records(
                            st0.immutables@,
                        ) + st0.memtable.spec_records());
                        assert(st2.memtable.spec_records() =~= Seq::<RecordModel>::empty());
                        assert(cf_state_records(st2) =~= cf_state_records(st0));
                    }
                    progressed = true;
                } else {
                    proof {
                        assert(st.immutables@.len() == 0);
                        assert(st.memtable.spec_records().len() == 0);
                    }
                }
            },
        }
        if progressed {
            self.next_file_id = if fid == u64::MAX {
                u64::MAX
            } else {
                fid + 1
            };
        }
        match flushed_file {
            Some(new_fid) => {
                let entry = ManifestEntry::AddFile {
                    cf_id: #[verifier::truncate] (cf_id as u32),
                    level: 0,
                    file_id: new_fid,
                };
                proof {
                    crate::manifest::lemma_replay_append(pre.manifest.spec_log(), entry@);
                }
                self.manifest.append(&entry);
                proof {
                    let old_r = crate::manifest::spec_replay(pre.manifest.spec_log(), 0);
                    let new_r = crate::manifest::spec_replay(self.manifest.spec_log(), 0);
                    assert(new_r == old_r.push(entry@));
                    assert(new_r.take(old_r.len() as int) =~= old_r);
                }
            },
            None => {
                proof {
                    assert(self.manifest == pre.manifest);
                    let r0 = crate::manifest::spec_replay(self.manifest.spec_log(), 0);
                    assert(r0.take(r0.len() as int) =~= r0);
                }
            },
        }
        proof {
            assert(self.manifest.spec_log().take(pre.manifest.spec_log().len() as int)
                =~= pre.manifest.spec_log());
        }
        proof {
            assert forall|c: int| 0 <= c < pre.cfs@.len() && c != cf_id implies self.cfs@[c]
                == #[trigger] pre.cfs@[c] by {}
            assert forall|c: int| 0 <= c < self.cfs@.len() implies match #[trigger] self.cfs@[c] {
                Some(st) => records_wf(cf_state_records(st), self.next_seq),
                None => true,
            } by {
                if c != cf_id {
                    assert(self.cfs@[c] == pre.cfs@[c]);
                } else {
                    assert(cf_state_records(self.cfs@[c]->Some_0) == cf_state_records(
                        pre.cfs@[c]->Some_0,
                    ));
                }
            }
            assert forall|c1: int, c2: int|
                0 <= c1 < self.cfs@.len() && 0 <= c2 < self.cfs@.len() && c1 != c2 && self.cfs@[c1] is Some
                    && (#[trigger] self.cfs@[c1], #[trigger] self.cfs@[c2]).1 is Some implies
                slot_name(self.cfs@, c1) != slot_name(self.cfs@, c2) by {
                assert(slot_name(self.cfs@, c1) == slot_name(pre.cfs@, c1));
                assert(slot_name(self.cfs@, c2) == slot_name(pre.cfs@, c2));
            }
            assert(wf_cfs(self.cfs@, self.next_seq));
            assert(cf_state_records(self.cfs@[cf_id as int]->Some_0) == cf_state_records(
                pre.cfs@[cf_id as int]->Some_0,
            ));
        }
        progressed
    }

    /// Flushes the family in slot `c` completely: the active write buffer is
    /// sealed and every sealed memtable is serialized to a level-0 table
    /// file. Readers observe no change: the family holds exactly the records
    /// it held before.
    pub(crate) fn flush_cf(&mut self, cf_id: usize) -> (r: Result<(), Error>)
        requires
            old(self).wf(),
        ensures
            final(self).wf(),
            final(self).spec_cf_count() == old(self).spec_cf_count(),
            cfs_preserved(*old(self), *final(self)),
            txns_and_seqs_unchanged(*old(self), *final(self)),
            final(self).cfs@.len() == old(self).cfs@.len(),
            forall|c: int|
                #![trigger final(self).cfs@[c]]
                0 <= c < old(self).cfs@.len() && c != cf_id ==> final(self).cfs@[c] == old(
                    self,
                ).cfs@[c],
            final(self).live_txns@ == old(self).live_txns@,
            final(self).next_seq == old(self).next_seq,
            log_extends(final(self).spec_manifest_log(), old(self).spec_manifest_log()),
            manifest_gains_level0_adds(
                old(self).spec_manifest_log(),
                final(self).spec_manifest_log(),
                cf_id,
            ),
            match r {
                Ok(()) => old(self).spec_cf_is_live(cf_id as int)
                    && final(self).spec_cf_flush_pending(cf_id as int) == 0,
                Err(e) => e == Error::NotFound && !old(self).spec_cf_is_live(cf_id as int)
                    && *final(self) == *old(self),
            },
    {
        let live = cf_id < self.cfs.len() && self.cfs[cf_id].is_some();
        proof {
            assert(self.spec_manifest_log().take(old(self).spec_manifest_log().len() as int)
                =~= old(self).spec_manifest_log());
            let r0 = crate::manifest::spec_replay(self.spec_manifest_log(), 0);
            assert(r0.take(r0.len() as int) =~= r0);
        }
        if !live {
            return Err(Error::NotFound);
        }
        let ghost pre = *old(self);
        loop
            invariant
                pre == *old(self),
                self.wf(),
                0 <= cf_id < pre.cfs@.len(),
                pre.cfs@[cf_id as int] is Some,
                self.cfs@.len() == pre.cfs@.len(),
                forall|c: int|
                    #![trigger self.cfs@[c]]
                    0 <= c < pre.cfs@.len() && c != cf_id ==> self.cfs@[c] == pre.cfs@[c],
                self.cfs@[cf_id as int] is Some,
                cf_state_records(self.cfs@[cf_id as int]->Some_0) == cf_state_records(
                    pre.cfs@[cf_id as int]->Some_0,
                ),
                self.cfs@[cf_id as int]->Some_0.name@ == pre.cfs@[cf_id as int]->Some_0.name@,
                self.cfs@[cf_id as int]->Some_0.config == pre.cfs@[cf_id as int]->Some_0.config,
                self.live_txns@ == pre.live_txns@,
                self.next_seq == pre.next_seq,
                self.next_txn_id == pre.next_txn_id,
                log_extends(self.spec_manifest_log(), pre.spec_manifest_log()),
                manifest_gains_level0_adds(
                    pre.spec_manifest_log(),
                    self.spec_manifest_log(),
                    cf_id,
                ),
            ensures
                self.spec_cf_flush_pending(cf_id as int) == 0,
            decreases self.spec_cf_flush_pending(cf_id as int),
        {
            let ghost before = *self;
            let more = self.flush_step(cf_id);
            proof {
                lemma_log_extends_trans(
                    pre.spec_manifest_log(),
                    before.spec_manifest_log(),
                    self.spec_manifest_log(),
                );
                let ra = crate::manifest::spec_replay(pre.spec_manifest_log(), 0);
                let rb = crate::manifest::spec_replay(before.spec_manifest_log(), 0);
                let rc = crate::manifest::spec_replay(self.spec_manifest_log(), 0);
                lemma_take_prefix_trans(ra, rb, rc);
                assert forall|p: int|
                    ra.len() <= p < rc.len() implies (match #[trigger] rc[p] {
                    crate::manifest::ManifestEntryModel::AddFile { cf_id: c2, level, .. } => c2
                        == cf_id as u32 && level == 0,
                    _ => false,
                }) by {
                    if p < rb.len() {
                        assert(rc.take(rb.len() as int)[p] == rc[p]);
                        assert(rc[p] == rb[p]);
                    }
                }
            }
            if !more {
                break ;
            }
        }
        proof {
            lemma_txn_live_from_eq(*self, pre);
            lemma_cfs_preserved_from_slot(pre, *self, cf_id as int);
        }
        Ok(())
    }

    /// The oldest snapshot any live transaction holds; with no live
    /// transaction, the highest committed sequence number. Compaction may
    /// discard only versions that no snapshot at or above this can see.
    pub closed spec fn spec_min_live_snapshot(self) -> u64 {
        min_snap_from(self.live_txns@, self.spec_last_seq())
    }

    /// The oldest live snapshot.
    fn min_live_snapshot(&self) -> (r: u64)
        requires
            self.wf(),
        ensures
            r == self.spec_min_live_snapshot(),
    {
        let mut acc = self.next_seq - 1;
        let mut i: usize = 0;
        proof {
            assert(self.live_txns@.skip(0) =~= self.live_txns@);
        }
        while i < self.live_txns.len()
            invariant
                0 <= i <= self.live_txns@.len(),
                self.spec_min_live_snapshot() == min_snap_from(
                    self.live_txns@.skip(i as int),
                    acc,
                ),
            decreases self.live_txns@.len() - i,
        {
            let snap = self.live_txns[i].snapshot;
            proof {
                assert(self.live_txns@.skip(i as int).first() == self.live_txns@[i as int]);
                assert(self.live_txns@.skip(i as int).drop_first() =~= self.live_txns@.skip(
                    i as int + 1,
                ));
            }
            if snap < acc {
                acc = snap;
            }
            i += 1;
        }
        proof {
            assert(self.live_txns@.skip(self.live_txns@.len() as int) =~= Seq::<LiveTxn>::empty());
        }
        acc
    }

    /// Compacts the family in slot `c`: everything is flushed, every table
    /// file of every level is merged, versions shadowed for every retained
    /// snapshot and tombstones nothing can resurrect are dropped, and the
    /// merged run becomes a single file on the deepest level. Readers at any
    /// retained snapshot observe no change.
    pub(crate) fn compact_cf(&mut self, cf_id: usize) -> (r: Result<(), Error>)
        requires
            old(self).wf(),
        ensures
            final(self).wf(),
            final(self).spec_cf_count() == old(self).spec_cf_count(),
            txns_and_seqs_unchanged(*old(self), *final(self)),
            log_extends(final(self).spec_manifest_log(), old(self).spec_manifest_log()),
            match r {
                Ok(()) => {
                    &&& old(self).spec_cf_is_live(cf_id as int)
                    &&& cfs_preserved_except(*old(self), *final(self), cf_id as int)
                    &&& final(self).spec_cf_is_live(cf_id as int)
                    &&& final(self).spec_cf_name(cf_id as int) == old(self).spec_cf_name(
                        cf_id as int,
                    )
                    &&& final(self).spec_cf_config(cf_id as int) == old(self).spec_cf_config(
                        cf_id as int,
                    )
                    &&& final(self).spec_cf_records(cf_id as int) == gc_filter(
                        old(self).spec_cf_records(cf_id as int),
                        old(self).spec_cf_records(cf_id as int).len() as int,
                        old(self).spec_min_live_snapshot(),
                    )
                    &&& forall|k: Seq<u8>, s: u64, now: u64|
                        #![trigger visible_value(final(self).spec_cf_records(cf_id as int), k, s, now)]
                        old(self).spec_min_live_snapshot() <= s ==> visible_value(
                            final(self).spec_cf_records(cf_id as int),
                            k,
                            s,
                            now,
                        ) == visible_value(old(self).spec_cf_records(cf_id as int), k, s, now)
                },
                Err(e) => e == Error::NotFound && !old(self).spec_cf_is_live(cf_id as int)
                    && *final(self) == *old(self),
            },
    {
        let live = cf_id < self.cfs.len() && self.cfs[cf_id].is_some();
        proof {
            assert(self.spec_manifest_log().take(old(self).spec_manifest_log().len() as int)
                =~= old(self).spec_manifest_log());
            let r0 = crate::manifest::spec_replay(self.spec_manifest_log(), 0);
            assert(r0.take(r0.len() as int) =~= r0);
        }
        if !live {
            return Err(Error::NotFound);
        }
        let ghost pre = *old(self);
        match self.flush_cf(cf_id) {
            Ok(()) => {},
            Err(_) => {
                proof {
                    assert(false);
                }
            },
        }
        let ghost mid = *self;
        let min_live = self.min_live_snapshot();
        proof {
            assert(mid.live_txns@ == pre.live_txns@ && mid.next_seq == pre.next_seq);
            assert(min_live == pre.spec_min_live_snapshot());
            assert(mid.spec_cf_records(cf_id as int) == pre.spec_cf_records(cf_id as int));
            assert(mid.spec_cf_is_live(cf_id as int));
        }
        let fid = self.next_file_id;
        // each superseded file is noted for the manifest
        let mut removed: Vec<ManifestEntry> = Vec::new();
        let slot = &mut self.cfs[cf_id];
        match slot {
            None => {
                proof {
                    assert(false);
                }
            },
            Some(st) => {
                let ghost st0 = *st;
                proof {
                    // after the flush nothing is pending: the family's
                    // records are exactly its levels' records
                    assert(st0.immutables@.len() == 0);
                    assert(st0.memtable.spec_records().len() == 0);
                    assert(memtables_records(st0.immutables@) =~= Seq::<RecordModel>::empty());
                    assert(st0.memtable.spec_records() =~= Seq::<RecordModel>::empty());
                    assert(cf_state_records(st0) =~= levels_records(st0.levels@));
                }
                // gather every record of every level, deepest level first
                let mut all: Vec<Record> = Vec::new();
                let ghost mut processed: Seq<RecordModel> = Seq::empty();
                proof {
                    assert(st.levels@.skip(st.levels@.len() as int) =~= Seq::<LevelState>::empty());
                    assert(records_view(all@) =~= processed);
                }
                let mut li: usize = st.levels.len();
                while li > 0
                    invariant
                        0 <= li <= st.levels@.len(),
                        st.levels@ == st0.levels@,
                        processed == levels_records(st.levels@.skip(li as int)),
                        records_view(all@) == processed,
                        forall|ei: int|
                            0 <= ei < removed@.len() ==> entry_encodable(
                                #[trigger] removed@[ei]@,
                            ),
                    decreases li,
                {
                    li -= 1;
                    let ghost level_base = processed;
                    let files = &st.levels[li].files;
                    let mut fj: usize = 0;
                    proof {
                        assert(files_records(files@.take(0)) =~= Seq::<RecordModel>::empty());
                        assert(processed =~= level_base + files_records(files@.take(0)));
                    }
                    while fj < files.len()
                        invariant
                            0 <= fj <= files@.len(),
                            0 <= li < st.levels@.len(),
                            st.levels@ == st0.levels@,
                            files@ == st.levels@[li as int].files@,
                            level_base == levels_records(st.levels@.skip(li as int + 1)),
                            processed == level_base + files_records(files@.take(fj as int)),
                            records_view(all@) == processed,
                            forall|ei: int|
                                0 <= ei < removed@.len() ==> entry_encodable(
                                    #[trigger] removed@[ei]@,
                                ),
                        decreases files@.len() - fj,
                    {
                        removed.push(
                            ManifestEntry::RemoveFile {
                                cf_id: #[verifier::truncate] (cf_id as u32),
                                level: #[verifier::truncate] (li as u32),
                                file_id: files[fj].file_id(),
                            },
                        );
                        let frecs = files[fj].records_slice();
                        let mut rk: usize = 0;
                        let ghost file_base = processed;
                        while rk < frecs.len()
                            invariant
                                0 <= rk <= frecs@.len(),
                                forall|ei: int|
                                    0 <= ei < removed@.len() ==> entry_encodable(
                                        #[trigger] removed@[ei]@,
                                    ),
                                records_view(frecs@) == files@[fj as int].spec_records(),
                                0 <= fj < files@.len(),
                                processed == file_base + records_view(frecs@).take(rk as int),
                                records_view(all@) == processed,
                            decreases frecs@.len() - rk,
                        {
                            let rec = frecs[rk].duplicate();
                            all.push(rec);
                            proof {
                                processed = processed + seq![records_view(frecs@)[rk as int]];
                                assert(records_view(frecs@).take(rk as int + 1)
                                    =~= records_view(frecs@).take(rk as int) + seq![
                                    records_view(frecs@)[rk as int],
                                ]);
                                assert(processed =~= file_base + records_view(frecs@).take(
                                    rk as int + 1,
                                ));
                                assert(records_view(all@) =~= processed);
                            }
                            rk += 1;
                        }
                        proof {
                            assert(records_view(frecs@).take(frecs@.len() as int) =~= records_view(
                                frecs@,
                            ));
                            assert(files@.take(fj as int + 1).drop_last() =~= files@.take(
                                fj as int,
                            ));
                            assert(files@.take(fj as int + 1).last() == files@[fj as int]);
                            assert(processed =~= level_base + files_records(files@.take(
                                fj as int + 1,
                            )));
                        }
                        fj += 1;
                    }
                    proof {
                        assert(files@.take(files@.len() as int) =~= files@);
                        assert(st.levels@.skip(li as int).drop_first() =~= st.levels@.skip(
                            li as int + 1,
                        ));
                        assert(st.levels@.skip(li as int).first() == st.levels@[li as int]);
                        assert(processed =~= levels_records(st.levels@.skip(li as int)));
                    }
                }
                proof {
                    assert(st.levels@.skip(0) =~= st.levels@);
                    assert(records_view(all@) == cf_state_records(st0));
                }
                // merge: drop what no retained snapshot can see
                let merged = gc_merge(&all, min_live);
                let ghost input = records_view(all@);
                let ghost out_recs = records_view(merged@);
                // rebuild the levels: empty young levels, the merged run as
                // one file on the deepest level
                let n_levels: usize = if st.config.min_levels == 0 {
                    1
                } else {
                    st.config.min_levels
                };
                let mut new_levels: Vec<LevelState> = Vec::new();
                let mut k: usize = 0;
                proof {
                    assert(levels_records(new_levels@) =~= Seq::<RecordModel>::empty());
                }
                while k + 1 < n_levels
                    invariant
                        k < n_levels,
                        levels_records(new_levels@) == Seq::<RecordModel>::empty(),
                    decreases n_levels - k,
                {
                    let ghost prev = new_levels@;
                    let level = LevelState { files: Vec::new() };
                    proof {
                        assert(files_records(level.files@) =~= Seq::<RecordModel>::empty());
                    }
                    new_levels.push(level);
                    proof {
                        let l = new_levels@.last();
                        assert(new_levels@ == prev.push(l));
                        lemma_levels_records_push(prev, l);
                        assert(levels_records(new_levels@) =~= Seq::<RecordModel>::empty());
                    }
                    k += 1;
                }
                let tbl = TableFile::from_records(fid, merged);
                let mut deepest_files: Vec<TableFile> = Vec::new();
                deepest_files.push(tbl);
                proof {
                    assert(deepest_files@.drop_last() =~= Seq::<TableFile>::empty());
                    assert(files_records(Seq::<TableFile>::empty()) =~= Seq::<
                        RecordModel,
                    >::empty());
                    assert(deepest_files@.last().spec_records() == out_recs);
                    assert(files_records(deepest_files@) =~= out_recs);
                }
                let deepest = LevelState { files: deepest_files };
                let ghost young = new_levels@;
                new_levels.push(deepest);
                proof {
                    lemma_levels_records_push(young, new_levels@.last());
                    assert(levels_records(new_levels@) =~= out_recs);
                }
                st.levels = new_levels;
                proof {
                    let st1 = *st;
                    assert(st1.immutables@ == st0.immutables@);
                    assert(st1.memtable == st0.memtable);
                    assert(cf_state_records(st1) =~= out_recs);
                    assert(out_recs == gc_filter(input, input.len() as int, min_live));
                    assert(records_wf(input, mid.next_seq)) by {
                        assert(mid.cfs@[cf_id as int] == Some(st0));
                        assert(cf_state_records(st0) == input);
                    }
                    lemma_gc_filter_wf(input, input.len() as int, min_live, mid.next_seq);
                    assert(records_wf(cf_state_records(st1), mid.next_seq));
                }
            },
        }
        self.next_file_id = if fid == u64::MAX {
            u64::MAX
        } else {
            fid + 1
        };
        let ghost snap2 = *self;
        proof {
            assert(snap2.spec_manifest_log() == mid.spec_manifest_log());
            assert(crate::manifest::log_wf(snap2.spec_manifest_log()));
            assert(self.spec_manifest_log().take(snap2.spec_manifest_log().len() as int)
                =~= snap2.spec_manifest_log());
        }
        let mut ri: usize = 0;
        while ri < removed.len()
            invariant
                0 <= ri <= removed@.len(),
                forall|ei: int|
                    0 <= ei < removed@.len() ==> entry_encodable(#[trigger] removed@[ei]@),
                log_extends(self.spec_manifest_log(), snap2.spec_manifest_log()),
                crate::manifest::log_wf(self.spec_manifest_log()),
                self.cfs@ == snap2.cfs@,
                self.live_txns@ == snap2.live_txns@,
                self.comparators@ == snap2.comparators@,
                self.next_seq == snap2.next_seq,
                self.next_txn_id == snap2.next_txn_id,
                self.next_file_id == snap2.next_file_id,
                self.config == snap2.config,
            decreases removed@.len() - ri,
        {
            let ghost before_append = *self;
            proof {
                crate::manifest::lemma_replay_append(
                    before_append.spec_manifest_log(),
                    removed@[ri as int]@,
                );
            }
            self.manifest.append(&removed[ri]);
            proof {
                assert(self.spec_manifest_log().take(
                    before_append.spec_manifest_log().len() as int,
                ) =~= before_append.spec_manifest_log());
                lemma_log_extends_trans(
                    snap2.spec_manifest_log(),
                    before_append.spec_manifest_log(),
                    self.spec_manifest_log(),
                );
            }
            ri += 1;
        }
        let n_levels_now = match &self.cfs[cf_id] {
            Some(st) => st.levels.len(),
            None => 1,
        };
        let lvl_idx: usize = if n_levels_now == 0 {
            0
        } else {
            n_levels_now - 1
        };
        let added = ManifestEntry::AddFile {
            cf_id: #[verifier::truncate] (cf_id as u32),
            level: #[verifier::truncate] (lvl_idx as u32),
            file_id: fid,
        };
        let ghost before_final = *self;
        proof {
            crate::manifest::lemma_replay_append(before_final.spec_manifest_log(), added@);
        }
        self.manifest.append(&added);
        proof {
            assert(self.spec_manifest_log().take(before_final.spec_manifest_log().len() as int)
                =~= before_final.spec_manifest_log());
            lemma_log_extends_trans(
                snap2.spec_manifest_log(),
                before_final.spec_manifest_log(),
                self.spec_manifest_log(),
            );
            lemma_log_extends_trans(
                mid.spec_manifest_log(),
                snap2.spec_manifest_log(),
                self.spec_manifest_log(),
            );
            lemma_log_extends_trans(
                pre.spec_manifest_log(),
                mid.spec_manifest_log(),
                self.spec_manifest_log(),
            );
            assert forall|c: int| 0 <= c < pre.cfs@.len() && c != cf_id implies self.cfs@[c]
                == #[trigger] mid.cfs@[c] by {}
            assert forall|c: int| 0 <= c < self.cfs@.len() implies match #[trigger] self.cfs@[c] {
                Some(stx) => records_wf(cf_state_records(stx), self.next_seq),
                None => true,
            } by {
                if c != cf_id {
                    assert(self.cfs@[c] == mid.cfs@[c]);
                }
            }
            assert forall|c1: int, c2: int|
                0 <= c1 < self.cfs@.len() && 0 <= c2 < self.cfs@.len() && c1 != c2 && self.cfs@[c1] is Some
                    && (#[trigger] self.cfs@[c1], #[trigger] self.cfs@[c2]).1 is Some implies
                slot_name(self.cfs@, c1) != slot_name(self.cfs@, c2) by {
                assert(slot_name(self.cfs@, c1) == slot_name(mid.cfs@, c1));
                assert(slot_name(self.cfs@, c2) == slot_name(mid.cfs@, c2));
            }
            assert(wf_cfs(self.cfs@, self.next_seq));
            lemma_txn_live_from_eq(*self, mid);
            assert forall|t2: u64| true implies #[trigger] self.spec_txn_live(t2)
                == pre.spec_txn_live(t2) by {
                assert(self.spec_txn_live(t2) == mid.spec_txn_live(t2));
            }
            assert forall|c: int|
                #![trigger self.cfs@[c]]
                0 <= c < pre.cfs@.len() && c != cf_id implies self.cfs@[c] == pre.cfs@[c] by {
                assert(self.cfs@[c] == mid.cfs@[c]);
                assert(mid.cfs@[c] == pre.cfs@[c]);
            }
            lemma_cfs_preserved_except_from_parts(pre, *self, cf_id as int);
            assert(self.spec_cf_is_live(cf_id as int));
            assert(self.spec_cf_name(cf_id as int) == mid.spec_cf_name(cf_id as int));
            assert(mid.spec_cf_records(cf_id as int) == pre.spec_cf_records(cf_id as int));
            assert(mid.spec_cf_name(cf_id as int) == pre.spec_cf_name(cf_id as int));
            // other families are untouched
            assert forall|c: int|
                #![trigger self.spec_cf_records(c)]
                0 <= c < pre.spec_cf_count() && c != cf_id implies {
                &&& self.spec_cf_is_live(c) == pre.spec_cf_is_live(c)
                &&& self.spec_cf_name(c) == pre.spec_cf_name(c)
                &&& self.spec_cf_records(c) == pre.spec_cf_records(c)
            } by {
                assert(self.cfs@[c] == mid.cfs@[c]);
                assert(mid.spec_cf_records(c) == pre.spec_cf_records(c));
            }
            // the compacted family reads the same at every retained snapshot
            let input = cf_state_records(mid.cfs@[cf_id as int]->Some_0);
            assert(mid.spec_cf_records(cf_id as int) == input);
            assert(pre.spec_cf_records(cf_id as int) == input);
            assert(self.spec_cf_records(cf_id as int) == gc_filter(
                input,
                input.len() as int,
                min_live,
            ));
            assert(self.spec_cf_records(cf_id as int) == gc_filter(
                pre.spec_cf_records(cf_id as int),
                pre.spec_cf_records(cf_id as int).len() as int,
                pre.spec_min_live_snapshot(),
            ));
            assert(mid.spec_cf_config(cf_id as int) == pre.spec_cf_config(cf_id as int));
            assert(self.spec_cf_config(cf_id as int) == mid.spec_cf_config(cf_id as int));
            assert(records_wf(input, pre.next_seq));
            assert forall|k: Seq<u8>, s: u64, now: u64|
                #![trigger visible_value(self.spec_cf_records(cf_id as int), k, s, now)]
                pre.spec_min_live_snapshot() <= s implies visible_value(
                self.spec_cf_records(cf_id as int),
                k,
                s,
                now,
            ) == visible_value(pre.spec_cf_records(cf_id as int), k, s, now) by {
                lemma_gc_preserves_visible(input, min_live, pre.next_seq, k, s, now);
            }
        }
        Ok(())
    }

    /// Installs a table file — typically one read back from disk while
    /// reopening a persisted database — as level-0 content of an empty
    /// column family, advancing the sequence allocator past every restored
    /// version so that later commits allocate above them. The family
    /// afterwards holds exactly the table's records. Restoration demands an
    /// empty family and a well-formed run (sequence numbers at least 1 and
    /// below the allocator's ceiling, no key carrying one sequence number
    /// twice); anything else is rejected unchanged. The manifest is not
    /// appended: a reopen replays the log that already records this file.
    pub fn restore_table(&mut self, cf: &ColumnFamily, table: TableFile) -> (r: Result<(), Error>)
        requires
            old(self).wf(),
        ensures
            final(self).wf(),
            final(self).spec_cf_count() == old(self).spec_cf_count(),
            final(self).spec_live_txn_count() == old(self).spec_live_txn_count(),
            forall|x: u64|
                #![trigger final(self).spec_txn_live(x)]
                final(self).spec_txn_live(x) == old(self).spec_txn_live(x),
            final(self).spec_next_seq() >= old(self).spec_next_seq(),
            final(self).spec_manifest_log() == old(self).spec_manifest_log(),
            match r {
                Ok(()) => {
                    &&& old(self).spec_cf_is_live(cf.spec_id() as int)
                    &&& old(self).spec_cf_records(cf.spec_id() as int).len() == 0
                    &&& records_wf(table.spec_records(), u64::MAX)
                    &&& cfs_preserved_except(*old(self), *final(self), cf.spec_id() as int)
                    &&& final(self).spec_cf_is_live(cf.spec_id() as int)
                    &&& final(self).spec_cf_name(cf.spec_id() as int) == old(self).spec_cf_name(
                        cf.spec_id() as int,
                    )
                    &&& final(self).spec_cf_records(cf.spec_id() as int) == table.spec_records()
                    &&& forall|i: int|
                        #![trigger table.spec_records()[i]]
                        0 <= i < table.spec_records().len() ==> table.spec_records()[i].seq
                            < final(self).spec_next_seq()
                },
                Err(e) => {
                    &&& (e == Error::NotFound || e == Error::InvalidArgs)
                    &&& *final(self) == *old(self)
                    &&& (e == Error::NotFound <==> !old(self).spec_cf_is_live(
                        cf.spec_id() as int,
                    ))
                    &&& (e == Error::InvalidArgs <==> old(self).spec_cf_is_live(
                        cf.spec_id() as int,
                    ) && !(old(self).spec_cf_records(cf.spec_id() as int).len() == 0
                        && records_wf(table.spec_records(), u64::MAX)))
                },
            },
    {
        let cf_id = cf.id();
        if !(cf_id < self.cfs.len() && self.cfs[cf_id].is_some()) {
            return Err(Error::NotFound);
        }
        let empty = match &self.cfs[cf_id] {
            Some(st) => cf_state_is_empty(st),
            None => true,
        };
        let restorable = check_restorable(table.records_slice());
        if !empty || !restorable {
            return Err(Error::InvalidArgs);
        }
        let ghost pre = *old(self);
        let ghost tbl_recs = table.spec_records();
        // advance the allocator past every restored sequence number
        let recs = table.records_slice();
        let mut bound: u64 = self.next_seq;
        let mut i: usize = 0;
        while i < recs.len()
            invariant
                0 <= i <= recs@.len(),
                records_view(recs@) == tbl_recs,
                records_wf(tbl_recs, u64::MAX),
                bound >= pre.next_seq,
                1 <= bound,
                forall|j: int| #![trigger tbl_recs[j]] 0 <= j < i ==> tbl_recs[j].seq < bound,
            decreases recs@.len() - i,
        {
            if recs[i].seq >= bound {
                proof {
                    assert(tbl_recs[i as int].seq < u64::MAX);
                }
                bound = recs[i].seq + 1;
            }
            i += 1;
        }
        self.next_seq = bound;
        let slot = &mut self.cfs[cf_id];
        match slot {
            None => {
                proof {
                    assert(false);
                }
            },
            Some(st) => {
                let ghost st0 = *st;
                proof {
                    assert(cf_state_records(st0).len() == 0);
                    assert(levels_records(st0.levels@) =~= Seq::<RecordModel>::empty());
                    assert(memtables_records(st0.immutables@) =~= Seq::<RecordModel>::empty());
                    assert(st0.memtable.spec_records() =~= Seq::<RecordModel>::empty());
                }
                if st.levels.len() == 0 {
                    st.levels.push(LevelState { files: Vec::new() });
                    proof {
                        let st1 = *st;
                        lemma_levels_records_push(st0.levels@, st1.levels@.last());
                        assert(st1.levels@.last().files@ =~= Seq::<TableFile>::empty());
                        assert(files_records(st1.levels@.last().files@) =~= Seq::<
                            RecordModel,
                        >::empty());
                        assert(levels_records(st1.levels@) =~= Seq::<RecordModel>::empty());
                    }
                }
                let ghost st1 = *st;
                let lvl0 = &mut st.levels[0];
                lvl0.files.push(table);
                proof {
                    let st2 = *st;
                    assert(st2.levels@[0].files@.drop_last() =~= st1.levels@[0].files@);
                    assert(st2.levels@[0].files@.last().spec_records() == tbl_recs);
                    assert(files_records(st2.levels@[0].files@) == files_records(
                        st1.levels@[0].files@,
                    ) + tbl_recs);
                    assert(st2.levels@.drop_first() =~= st1.levels@.drop_first());
                    assert(st2.levels@.first().files@ == st2.levels@[0].files@);
                    assert(st1.levels@.first().files@ == st1.levels@[0].files@);
                    assert(levels_records(st2.levels@) == levels_records(st1.levels@) + tbl_recs);
                    assert(st2.immutables@ == st0.immutables@);
                    assert(st2.memtable == st0.memtable);
                    assert(cf_state_records(st2) =~= tbl_recs);
                }
            },
        }
        proof {
            assert forall|c: int| 0 <= c < pre.cfs@.len() && c != cf_id implies self.cfs@[c]
                == #[trigger] pre.cfs@[c] by {}
            assert forall|c: int| 0 <= c < self.cfs@.len() implies match #[trigger] self.cfs@[c] {
                Some(stx) => records_wf(cf_state_records(stx), self.next_seq),
                None => true,
            } by {
                if c != cf_id {
                    assert(self.cfs@[c] == pre.cfs@[c]);
                    match pre.cfs@[c] {
                        Some(stx) => {
                            crate::visibility::lemma_records_wf_weaken(
                                cf_state_records(stx),
                                pre.next_seq,
                                self.next_seq,
                            );
                        },
                        None => {},
                    }
                } else {
                    assert(cf_state_records(self.cfs@[c]->Some_0) == tbl_recs);
                    assert(records_wf(tbl_recs, self.next_seq)) by {
                        assert(forall|j: int|
                            #![trigger tbl_recs[j]]
                            0 <= j < tbl_recs.len() ==> tbl_recs[j].seq < self.next_seq);
                    }
                }
            }
            assert forall|c1: int, c2: int|
                0 <= c1 < self.cfs@.len() && 0 <= c2 < self.cfs@.len() && c1 != c2 && self.cfs@[c1] is Some
                    && (#[trigger] self.cfs@[c1], #[trigger] self.cfs@[c2]).1 is Some implies
                slot_name(self.cfs@, c1) != slot_name(self.cfs@, c2) by {
                assert(slot_name(self.cfs@, c1) == slot_name(pre.cfs@, c1));
                assert(slot_name(self.cfs@, c2) == slot_name(pre.cfs@, c2));
            }
            assert(wf_cfs(self.cfs@, self.next_seq));
            assert(wf_txns(self.live_txns@, self.next_seq, self.next_txn_id)) by {
                assert forall|a: int| 0 <= a < self.live_txns@.len() implies (
                #[trigger] self.live_txns@[a]).snapshot < self.next_seq
                    && self.live_txns@[a].txn_id < self.next_txn_id by {
                    assert(self.live_txns@[a] == pre.live_txns@[a]);
                }
                assert forall|a: int, b: int| 0 <= a < b < self.live_txns@.len() implies (
                #[trigger] self.live_txns@[a]).txn_id != (#[trigger] self.live_txns@[b]).txn_id by {
                    assert(self.live_txns@[a] == pre.live_txns@[a]);
                    assert(self.live_txns@[b] == pre.live_txns@[b]);
                }
            }
            lemma_txn_live_from_eq(*self, pre);
            lemma_cfs_preserved_except_from_parts(pre, *self, cf_id as int);
        }
        Ok(())
    }

    /// Reads `key` in the given column family on behalf of a transaction:
    /// the transaction's own buffered writes first, then the family's
    /// visible versions at the isolation level's snapshot. Under
    /// serializable isolation the read key is remembered for the commit-time
    /// conflict check.
    pub(crate) fn read_for_txn(
        &mut self,
        txn: &mut Transaction,
        cf: &ColumnFamily,
        key: &[u8],
        now: u64,
    ) -> (r: Result<Option<Vec<u8>>, Error>)
        requires
            old(self).wf(),
        ensures
            final(self).wf(),
            get_ensures(old(txn)@, final(txn)@, *old(self), *final(self), cf.spec_id(), key@, now, r),
    {
        proof {
            crate::txn::lemma_txn_view(*old(txn));
        }
        let cf_id = cf.id();
        if cf_id >= self.cfs.len() {
            return Err(Error::InvalidArgs);
        }
        if self.cfs[cf_id].is_none() {
            return Err(Error::InvalidArgs);
        }
        let ghost t0 = old(txn)@;
        let result: Result<Option<Vec<u8>>, Error> = match &self.cfs[cf_id] {
            None => {
                proof {
                    assert(false);
                }
                Err(Error::InvalidArgs)
            },
            Some(st) => {
                let serializable = match txn.isolation {
                    IsolationLevel::Serializable => true,
                    _ => false,
                };
                if serializable {
                    txn.read_set.push(ReadKey { cf_id, key: slice_to_vec(key) });
                    proof {
                        crate::txn::lemma_txn_view(*txn);
                        assert(txn@.read_set =~= old(txn)@.read_set.push(
                            ReadKeyModel { cf_id, key: key@ },
                        ));
                        assert(txn@.write_set =~= old(txn)@.write_set);
                        assert(txn@.savepoints =~= old(txn)@.savepoints);
                    }
                }
                let own = find_own_write(&txn.write_set, cf_id, key);
                proof {
                    assert(txn.write_set@ == old(txn).write_set@);
                    assert(txn@.write_set == t0.write_set);
                }
                match own {
                    Some(f) => {
                        match f.value {
                            None => Ok(None),
                            Some(v) => {
                                if is_expired(&f.expires_at, now) {
                                    Ok(None)
                                } else {
                                    Ok(Some(v))
                                }
                            },
                        }
                    },
                    None => {
                        let snap = match txn.isolation {
                            IsolationLevel::ReadUncommitted => self.next_seq - 1,
                            IsolationLevel::ReadCommitted => self.next_seq - 1,
                            _ => txn.snapshot,
                        };
                        proof {
                            assert(snap == spec_effective_snapshot(t0, *old(self)));
                        }
                        let found = cf_state_lookup(st, key, snap);
                        proof {
                            assert(cf_state_records(*st) == old(self).spec_cf_records(
                                cf_id as int,
                            ));
                        }
                        match found {
                            None => Ok(None),
                            Some(f) => {
                                match f.value {
                                    None => Ok(None),
                                    Some(v) => {
                                        if is_expired(&f.expires_at, now) {
                                            Ok(None)
                                        } else {
                                            Ok(Some(v))
                                        }
                                    },
                                }
                            },
                        }
                    },
                }
            },
        };
        // record the reference for the drop gate
        let tid = txn.txn_id;
        proof {
            assert(tid == t0.txn_id);
        }
        self.mark_touched(tid, cf_id);
        result
    }

    /// The manifest log bytes, for persisting: replaying them reconstructs
    /// the level membership operations in order.
    pub fn manifest_log(&self) -> (r: &[u8])
        ensures
            r@ == self.spec_manifest_log(),
    {
        self.manifest.log_bytes()
    }

    /// The manifest's log bytes.
    pub closed spec fn spec_manifest_log(self) -> Seq<u8> {
        self.manifest.spec_log()
    }

    /// The slot index of the live column family named `name`.
    pub(crate) fn find_cf(&self, name: &str) -> (r: Option<usize>)
        ensures
            match r {
                Some(i) => 0 <= i < self.spec_cf_count() && self.spec_cf_is_live(i as int)
                    && self.spec_cf_name(i as int) == name@,
                None => !self.spec_has_cf_named(name@),
            },
    {
        let name_owned = String::from_str(name);
        let mut i: usize = 0;
        while i < self.cfs.len()
            invariant
                0 <= i <= self.cfs@.len(),
                name_owned@ == name@,
                forall|j: int|
                    #![trigger self.cfs@[j]]
                    0 <= j < i ==> !(self.spec_cf_is_live(j) && self.spec_cf_name(j) == name@),
            decreases self.cfs@.len() - i,
        {
            match &self.cfs[i] {
                Some(st) => {
                    if st.name == name_owned {
                        return Some(i);
                    }
                },
                None => {},
            }
            i += 1;
        }
        proof {
            assert(!self.spec_has_cf_named(name@)) by {
                if self.spec_has_cf_named(name@) {
                    let c = choose|c: int|
                        self.spec_cf_is_live(c) && self.spec_cf_name(c) == name@;
                    assert(0 <= c < self.cfs@.len());
                }
            }
        }
        None
    }

    /// The registry index of the comparator named `name`.
    fn find_comparator(&self, name: &str) -> (r: Option<usize>)
        ensures
            match r {
                Some(i) => 0 <= i < self.comparators@.len() && self.comparators@[i as int].name@
                    == name@,
                None => self.spec_comparator(name@) is None,
            },
    {
        let name_owned = String::from_str(name);
        let mut i: usize = 0;
        while i < self.comparators.len()
            invariant
                0 <= i <= self.comparators@.len(),
                name_owned@ == name@,
                forall|j: int|
                    #![trigger self.comparators@[j]]
                    0 <= j < i ==> self.comparators@[j].name@ != name@,
            decreases self.comparators@.len() - i,
        {
            if self.comparators[i].name == name_owned {
                return Some(i);
            }
            i += 1;
        }
        None
    }
}

/// Column family slots that exist before an operation keep their liveness,
/// name and records across it.
pub open spec fn cfs_preserved(pre: Database, post: Database) -> bool {
    forall|c: int|
        #![trigger post.spec_cf_records(c)]
        0 <= c < pre.spec_cf_count() ==> {
            &&& post.spec_cf_is_live(c) == pre.spec_cf_is_live(c)
            &&& post.spec_cf_name(c) == pre.spec_cf_name(c)
            &&& post.spec_cf_records(c) == pre.spec_cf_records(c)
            &&& post.spec_cf_config(c) == pre.spec_cf_config(c)
        }
}

/// Column family slots other than `except` keep their liveness, name and
/// records across an operation.
pub open spec fn cfs_preserved_except(pre: Database, post: Database, except: int) -> bool {
    forall|c: int|
        #![trigger post.spec_cf_records(c)]
        0 <= c < pre.spec_cf_count() && c != except ==> {
            &&& post.spec_cf_is_live(c) == pre.spec_cf_is_live(c)
            &&& post.spec_cf_name(c) == pre.spec_cf_name(c)
            &&& post.spec_cf_records(c) == pre.spec_cf_records(c)
            &&& post.spec_cf_config(c) == pre.spec_cf_config(c)
        }
}

/// A buffered write or a read changes nothing in the database beyond
/// recording, in the live-transaction registry, that the issuing
/// transaction references the family: records, configurations, level
/// state, allocators, the manifest and every other transaction's state are
/// untouched, and no reference appears beyond the one recorded.
pub open spec fn touch_only_ensures(
    pre: Database,
    post: Database,
    txn_id: u64,
    cf_id: usize,
) -> bool {
    &&& post.spec_cf_count() == pre.spec_cf_count()
    &&& cfs_preserved(pre, post)
    &&& forall|c: int|
        #![trigger post.spec_cf_l0_file_count(c)]
        0 <= c < pre.spec_cf_count() ==> post.spec_cf_l0_file_count(c)
            == pre.spec_cf_l0_file_count(c)
    &&& post.spec_next_seq() == pre.spec_next_seq()
    &&& post.spec_manifest_log() == pre.spec_manifest_log()
    &&& post.spec_live_txn_count() == pre.spec_live_txn_count()
    &&& forall|x: u64|
        #![trigger post.spec_txn_live(x)]
        post.spec_txn_live(x) == pre.spec_txn_live(x)
    &&& (pre.spec_txn_live(txn_id) ==> post.spec_txn_touches(txn_id, cf_id))
    &&& forall|x: u64, c: usize|
        #![trigger post.spec_txn_touches(x, c)]
        {
            &&& (pre.spec_txn_touches(x, c) ==> post.spec_txn_touches(x, c))
            &&& (post.spec_txn_touches(x, c) ==> pre.spec_txn_touches(x, c) || (x == txn_id && c
                == cf_id))
        }
}

/// What a flush writes to the manifest, seen through replay: the old log's
/// entries survive unchanged at the front, and everything appended is the
/// registration of a level-0 table file of this family.
pub open spec fn manifest_gains_level0_adds(
    pre_log: Seq<u8>,
    post_log: Seq<u8>,
    cf_id: usize,
) -> bool {
    let old_r = crate::manifest::spec_replay(pre_log, 0);
    let new_r = crate::manifest::spec_replay(post_log, 0);
    &&& new_r.len() >= old_r.len()
    &&& new_r.take(old_r.len() as int) == old_r
    &&& forall|p: int|
        #![trigger new_r[p]]
        old_r.len() <= p < new_r.len() ==> (match new_r[p] {
            crate::manifest::ManifestEntryModel::AddFile { cf_id: c2, level, .. } => c2 == cf_id
                as u32 && level == 0,
            _ => false,
        })
}

/// A prefix of a prefix is a prefix.
pub(crate) proof fn lemma_take_prefix_trans<A>(a: Seq<A>, b: Seq<A>, c: Seq<A>)
    requires
        b.len() >= a.len(),
        b.take(a.len() as int) == a,
        c.len() >= b.len(),
        c.take(b.len() as int) == b,
    ensures
        c.take(a.len() as int) == a,
{
    assert(c.take(a.len() as int) =~= a) by {
        assert(forall|i: int| 0 <= i < b.len() ==> #[trigger] c[i] == b[i]) by {
            assert(forall|i: int|
                0 <= i < b.len() ==> #[trigger] c.take(b.len() as int)[i] == c[i]);
        }
        assert(forall|i: int| 0 <= i < a.len() ==> #[trigger] b[i] == a[i]) by {
            assert(forall|i: int|
                0 <= i < a.len() ==> #[trigger] b.take(a.len() as int)[i] == b[i]);
        }
    }
}

/// The sequence allocator and the set of live transactions are unchanged.
pub open spec fn txns_and_seqs_unchanged(pre: Database, post: Database) -> bool {
    &&& post.spec_next_seq() == pre.spec_next_seq()
    &&& post.spec_live_txn_count() == pre.spec_live_txn_count()
    &&& forall|t: u64| #![trigger post.spec_txn_live(t)] post.spec_txn_live(t) == pre.spec_txn_live(t)
}

/// The contract of beginning a transaction: a fresh, registered, empty
/// transaction whose snapshot is the highest committed sequence number, with
/// the rest of the database untouched; or a memory-limit error once the
/// transaction-id space is exhausted.
pub open spec fn begin_txn_ensures(
    pre: Database,
    post: Database,
    isolation: IsolationLevel,
    r: Result<Transaction, Error>,
) -> bool {
    match r {
        Ok(t) => {
            &&& !pre.spec_txn_ids_exhausted()
            &&& t@.snapshot == pre.spec_last_seq()
            &&& t@.snapshot as int + 1 == pre.spec_next_seq() as int
            &&& t@.isolation == isolation
            &&& t@.write_set == Seq::<WriteOpModel>::empty()
            &&& t@.savepoints == Seq::<SavepointModel>::empty()
            &&& t@.read_set == Seq::<ReadKeyModel>::empty()
            &&& txn_wf(t@)
            &&& !pre.spec_txn_live(t@.txn_id)
            &&& post.spec_txn_live(t@.txn_id)
            &&& post.spec_live_txn_count() == pre.spec_live_txn_count() + 1
            &&& forall|x: u64|
                x != t@.txn_id ==> #[trigger] post.spec_txn_live(x) == pre.spec_txn_live(x)
            &&& post.spec_next_seq() == pre.spec_next_seq()
            &&& post.spec_cf_count() == pre.spec_cf_count()
            &&& cfs_preserved(pre, post)
            &&& forall|c: int|
                #![trigger post.spec_cf_l0_file_count(c)]
                0 <= c < pre.spec_cf_count() ==> post.spec_cf_l0_file_count(c)
                    == pre.spec_cf_l0_file_count(c)
            &&& forall|c: usize| !#[trigger] post.spec_txn_touches(t@.txn_id, c)
            &&& forall|x: u64, c: usize|
                x != t@.txn_id ==> #[trigger] post.spec_txn_touches(x, c) == pre.spec_txn_touches(
                    x,
                    c,
                )
        },
        Err(e) => e == Error::MemoryLimit && post == pre && pre.spec_txn_ids_exhausted(),
    }
}

/// The record a buffered write becomes when committed at sequence `s`.
pub open spec fn record_of_op(op: WriteOpModel, s: u64) -> RecordModel {
    RecordModel { key: op.key, value: op.value, seq: s, expires_at: op.expires_at }
}

/// The records a commit of `ws`, allocating sequence numbers from `base` in
/// write order, appends to family `cf`.
pub open spec fn applied_for_cf(ws: Seq<WriteOpModel>, base: int, cf: usize) -> Seq<RecordModel>
    decreases ws.len(),
{
    if ws.len() == 0 {
        Seq::empty()
    } else {
        applied_for_cf(ws.drop_last(), base, cf) + (if ws.last().cf_id == cf {
            seq![record_of_op(ws.last(), ((base + ws.len() - 1) as u64))]
        } else {
            Seq::empty()
        })
    }
}

/// Sequence numbers appended by a commit lie in the allocated window.
pub proof fn lemma_applied_seq_bounds(ws: Seq<WriteOpModel>, base: int, cf: usize)
    requires
        0 <= base,
        base + ws.len() <= u64::MAX,
    ensures
        forall|i: int|
            #![trigger applied_for_cf(ws, base, cf)[i]]
            0 <= i < applied_for_cf(ws, base, cf).len() ==> base <= applied_for_cf(ws, base, cf)[i].seq
                < base + ws.len(),
    decreases ws.len(),
{
    if ws.len() > 0 {
        lemma_applied_seq_bounds(ws.drop_last(), base, cf);
        let full = applied_for_cf(ws, base, cf);
        let head = applied_for_cf(ws.drop_last(), base, cf);
        assert forall|i: int| 0 <= i < full.len() implies base <= (#[trigger] full[i]).seq < base
            + ws.len() by {
            if i < head.len() {
                assert(full[i] == head[i]);
            }
        }
    }
}

/// Every buffered write targets a live column family.
pub open spec fn spec_ws_cfs_live(db: Database, ws: Seq<WriteOpModel>) -> bool {
    forall|i: int|
        #![trigger ws[i]]
        0 <= i < ws.len() ==> db.spec_cf_is_live(ws[i].cf_id as int)
}

/// Whether some family touched by the write set has its level-0 queue over
/// the configured stall threshold, back-pressuring the writer.
pub open spec fn spec_l0_stalled(db: Database, ws: Seq<WriteOpModel>) -> bool {
    exists|i: int|
        0 <= i < ws.len() && db.spec_cf_l0_file_count(ws[i].cf_id as int) > db.spec_cf_stall_threshold(
            ws[i].cf_id as int,
        )
}

/// The commit-time conflict rule of the isolation table. Snapshot isolation
/// aborts when a written key has a committed version newer than the
/// transaction's snapshot; serializable additionally aborts when a read key
/// has one.
pub open spec fn spec_commit_conflict(db: Database, t: TransactionModel) -> bool {
    ||| ((t.isolation == IsolationLevel::Snapshot || t.isolation == IsolationLevel::Serializable)
        && exists|i: int|
        0 <= i < t.write_set.len() && spec_has_newer_version(
            db.spec_cf_records(t.write_set[i].cf_id as int),
            t.write_set[i].key,
            t.snapshot,
        ))
    ||| (t.isolation == IsolationLevel::Serializable && exists|i: int|
        0 <= i < t.read_set.len() && spec_has_newer_version(
            db.spec_cf_records(t.read_set[i].cf_id as int),
            t.read_set[i].key,
            t.snapshot,
        ))
}

/// The contract of commit. In every outcome the transaction's snapshot is
/// deregistered and no other transaction or family slot is disturbed. On
/// success the whole write set is applied in issue order, each write at its
/// own freshly allocated sequence number, so that every family reads as its
/// old records extended by the commit's records; later writes to one key in
/// the same set shadow earlier ones through their higher sequence numbers.
/// A failed commit names its reason exactly and applies nothing.
pub open spec fn commit_ensures(
    t: TransactionModel,
    pre: Database,
    post: Database,
    r: Result<(), Error>,
) -> bool {
    &&& !post.spec_txn_live(t.txn_id)
    &&& forall|x: u64|
        x != t.txn_id ==> #[trigger] post.spec_txn_live(x) == pre.spec_txn_live(x)
    &&& forall|x: u64, c: usize|
        x != t.txn_id ==> #[trigger] post.spec_txn_touches(x, c) == pre.spec_txn_touches(x, c)
    &&& post.spec_cf_count() == pre.spec_cf_count()
    &&& post.spec_manifest_log() == pre.spec_manifest_log()
    &&& match r {
        Ok(()) => {
            &&& pre.spec_txn_live(t.txn_id)
            &&& spec_ws_cfs_live(pre, t.write_set)
            &&& pre.spec_next_seq() + t.write_set.len() <= u64::MAX
            &&& !spec_l0_stalled(pre, t.write_set)
            &&& !spec_commit_conflict(pre, t)
            &&& post.spec_next_seq() == pre.spec_next_seq() + t.write_set.len()
            &&& forall|c: int|
                #![trigger post.spec_cf_records(c)]
                0 <= c < pre.spec_cf_count() ==> {
                    &&& post.spec_cf_is_live(c) == pre.spec_cf_is_live(c)
                    &&& post.spec_cf_name(c) == pre.spec_cf_name(c)
                    &&& post.spec_cf_config(c) == pre.spec_cf_config(c)
                    &&& post.spec_cf_l0_file_count(c) == pre.spec_cf_l0_file_count(c)
                    &&& visible_eq(
                        post.spec_cf_records(c),
                        pre.spec_cf_records(c) + applied_for_cf(
                            t.write_set,
                            pre.spec_next_seq() as int,
                            c as usize,
                        ),
                    )
                }
        },
        Err(e) => {
            &&& (e == Error::InvalidDb || e == Error::NotFound || e == Error::MemoryLimit || e
                == Error::Conflict)
            &&& cfs_preserved(pre, post)
            &&& post.spec_next_seq() == pre.spec_next_seq()
            &&& (e == Error::InvalidDb <==> !pre.spec_txn_live(t.txn_id))
            &&& (e == Error::NotFound <==> pre.spec_txn_live(t.txn_id) && !spec_ws_cfs_live(
                pre,
                t.write_set,
            ))
            &&& (e == Error::MemoryLimit <==> pre.spec_txn_live(t.txn_id) && spec_ws_cfs_live(
                pre,
                t.write_set,
            ) && (pre.spec_next_seq() + t.write_set.len() > u64::MAX || spec_l0_stalled(
                pre,
                t.write_set,
            )))
            &&& (e == Error::Conflict <==> pre.spec_txn_live(t.txn_id) && spec_ws_cfs_live(
                pre,
                t.write_set,
            ) && pre.spec_next_seq() + t.write_set.len() <= u64::MAX && !spec_l0_stalled(
                pre,
                t.write_set,
            ) && spec_commit_conflict(pre, t))
        },
    }
}

/// The contract of rollback: the transaction's snapshot is deregistered,
/// its buffered writes are discarded, and the database is otherwise
/// untouched.
pub open spec fn rollback_ensures(
    t: TransactionModel,
    pre: Database,
    post: Database,
    r: Result<(), Error>,
) -> bool {
    &&& !post.spec_txn_live(t.txn_id)
    &&& forall|x: u64|
        x != t.txn_id ==> #[trigger] post.spec_txn_live(x) == pre.spec_txn_live(x)
    &&& forall|x: u64, c: usize|
        x != t.txn_id ==> #[trigger] post.spec_txn_touches(x, c) == pre.spec_txn_touches(x, c)
    &&& post.spec_cf_count() == pre.spec_cf_count()
    &&& cfs_preserved(pre, post)
    &&& forall|c: int|
        #![trigger post.spec_cf_l0_file_count(c)]
        0 <= c < pre.spec_cf_count() ==> post.spec_cf_l0_file_count(c)
            == pre.spec_cf_l0_file_count(c)
    &&& post.spec_next_seq() == pre.spec_next_seq()
    &&& post.spec_manifest_log() == pre.spec_manifest_log()
    &&& match r {
        Ok(()) => pre.spec_txn_live(t.txn_id),
        Err(e) => e == Error::InvalidDb && !pre.spec_txn_live(t.txn_id),
    }
}

/// Whether compaction must keep the record at index `i`: a version is
/// dropped only when a newer version of its key, itself no longer needed by
/// any retained snapshot, shadows it; a tombstone is additionally dropped
/// when no retained snapshot needs it and nothing older of its key remains
/// to resurrect.
pub open spec fn gc_keep(recs: Seq<RecordModel>, i: int, min_live: u64) -> bool {
    &&& !(exists|j: int|
        0 <= j < recs.len() && recs[j].key == recs[i].key && recs[j].seq > recs[i].seq
            && recs[j].seq <= min_live)
    &&& !(recs[i].value is None && recs[i].seq <= min_live && (forall|j: int|
        #![trigger recs[j]]
        0 <= j < recs.len() && recs[j].key == recs[i].key ==> recs[j].seq <= recs[i].seq))
}

/// The first `upto` records, with the ones compaction drops removed, in
/// their original order.
pub open spec fn gc_filter(recs: Seq<RecordModel>, upto: int, min_live: u64) -> Seq<RecordModel>
    decreases upto,
{
    if upto <= 0 {
        Seq::empty()
    } else {
        gc_filter(recs, upto - 1, min_live) + (if gc_keep(recs, upto - 1, min_live) {
            seq![recs[upto - 1]]
        } else {
            Seq::empty()
        })
    }
}

/// The input index that position `p` of the compacted run was taken from.
pub open spec fn gc_source(recs: Seq<RecordModel>, upto: int, min_live: u64, p: int) -> int
    decreases upto,
{
    if upto <= 0 {
        -1
    } else if p < gc_filter(recs, upto - 1, min_live).len() {
        gc_source(recs, upto - 1, min_live, p)
    } else {
        upto - 1
    }
}

/// Position `p` of the compacted run holds the kept input record that
/// `gc_source` names.
pub proof fn lemma_gc_lookup(recs: Seq<RecordModel>, upto: int, min_live: u64, p: int)
    requires
        0 <= upto <= recs.len(),
        0 <= p < gc_filter(recs, upto, min_live).len(),
    ensures
        0 <= gc_source(recs, upto, min_live, p) < upto,
        recs[gc_source(recs, upto, min_live, p)] == gc_filter(recs, upto, min_live)[p],
        gc_keep(recs, gc_source(recs, upto, min_live, p), min_live),
        p >= gc_filter(recs, upto - 1, min_live).len() ==> gc_source(recs, upto, min_live, p)
            == upto - 1,
    decreases upto,
{
    let head = gc_filter(recs, upto - 1, min_live);
    if p < head.len() {
        lemma_gc_lookup(recs, upto - 1, min_live, p);
        assert(gc_filter(recs, upto, min_live)[p] == head[p]);
    } else {
        assert(gc_keep(recs, upto - 1, min_live));
        assert(gc_filter(recs, upto, min_live)[p] == recs[upto - 1]);
    }
}

/// Distinct positions of the compacted run come from distinct input
/// records.
pub proof fn lemma_gc_distinct_sources(
    recs: Seq<RecordModel>,
    upto: int,
    min_live: u64,
    p1: int,
    p2: int,
)
    requires
        0 <= upto <= recs.len(),
        0 <= p1 < gc_filter(recs, upto, min_live).len(),
        0 <= p2 < gc_filter(recs, upto, min_live).len(),
        p1 != p2,
    ensures
        gc_source(recs, upto, min_live, p1) != gc_source(recs, upto, min_live, p2),
    decreases upto,
{
    let head = gc_filter(recs, upto - 1, min_live);
    if p1 < head.len() && p2 < head.len() {
        lemma_gc_distinct_sources(recs, upto - 1, min_live, p1, p2);
    } else if p1 >= head.len() && p2 >= head.len() {
        assert(gc_filter(recs, upto, min_live).len() <= head.len() + 1);
        assert(false);
    } else {
        let psmall = if p1 < head.len() {
            p1
        } else {
            p2
        };
        lemma_gc_lookup(recs, upto - 1, min_live, psmall);
        assert(gc_source(recs, upto - 1, min_live, psmall) < upto - 1);
    }
}

/// The compacted run is well formed whenever the input is.
pub proof fn lemma_gc_filter_wf(recs: Seq<RecordModel>, upto: int, min_live: u64, next_seq: u64)
    requires
        records_wf(recs, next_seq),
        0 <= upto <= recs.len(),
    ensures
        records_wf(gc_filter(recs, upto, min_live), next_seq),
{
    let full = gc_filter(recs, upto, min_live);
    assert forall|p: int| 0 <= p < full.len() implies 1 <= (#[trigger] full[p]).seq < next_seq by {
        lemma_gc_lookup(recs, upto, min_live, p);
        let i = gc_source(recs, upto, min_live, p);
        assert(recs[i] == full[p]);
    }
    assert forall|p1: int, p2: int|
        0 <= p1 < full.len() && 0 <= p2 < full.len() && p1 != p2 && (#[trigger] full[p1]).key == (
        #[trigger] full[p2]).key implies full[p1].seq != full[p2].seq by {
        lemma_gc_lookup(recs, upto, min_live, p1);
        lemma_gc_lookup(recs, upto, min_live, p2);
        lemma_gc_distinct_sources(recs, upto, min_live, p1, p2);
        let i1 = gc_source(recs, upto, min_live, p1);
        let i2 = gc_source(recs, upto, min_live, p2);
        assert(recs[i1] == full[p1] && recs[i2] == full[p2]);
        assert(recs[i1].seq != recs[i2].seq);
    }
}

/// Every kept input record reaches the compacted run.
pub proof fn lemma_gc_filter_complete(recs: Seq<RecordModel>, upto: int, min_live: u64, i: int)
    requires
        0 <= i < upto <= recs.len(),
        gc_keep(recs, i, min_live),
    ensures
        exists|p: int|
            0 <= p < gc_filter(recs, upto, min_live).len() && #[trigger] gc_filter(
                recs,
                upto,
                min_live,
            )[p] == recs[i],
    decreases upto,
{
    let head = gc_filter(recs, upto - 1, min_live);
    let full = gc_filter(recs, upto, min_live);
    if i == upto - 1 {
        assert(gc_filter(recs, upto, min_live)[head.len() as int] == recs[i]);
    } else {
        lemma_gc_filter_complete(recs, upto - 1, min_live, i);
        let p = choose|p: int|
            0 <= p < gc_filter(recs, upto - 1, min_live).len() && #[trigger] gc_filter(
                recs,
                upto - 1,
                min_live,
            )[p] == recs[i];
        assert(gc_filter(recs, upto, min_live)[p] == recs[i]);
    }
}

/// Compaction is invisible to every retained snapshot: for any snapshot at
/// or above the oldest live one, every key reads the same value before and
/// after the garbage collection, at every wall-clock time.
pub proof fn lemma_gc_preserves_visible(
    recs: Seq<RecordModel>,
    min_live: u64,
    next_seq: u64,
    key: Seq<u8>,
    s: u64,
    now: u64,
)
    requires
        records_wf(recs, next_seq),
        min_live <= s,
    ensures
        visible_value(gc_filter(recs, recs.len() as int, min_live), key, s, now) == visible_value(
            recs,
            key,
            s,
            now,
        ),
{
    let gcf = gc_filter(recs, recs.len() as int, min_live);
    lemma_gc_filter_wf(recs, recs.len() as int, min_live, next_seq);
    crate::visibility::lemma_newest_characterization(recs, key, s);
    crate::visibility::lemma_newest_characterization(gcf, key, s);
    match newest_version(recs, key, s) {
        None => {
            // no input candidate: the selection has none either
            match newest_version(gcf, key, s) {
                None => {},
                Some(y) => {
                    let p = choose|p: int| 0 <= p < gcf.len() && gcf[p] == y;
                    lemma_gc_lookup(recs, recs.len() as int, min_live, p);
                    let i = gc_source(recs, recs.len() as int, min_live, p);
                    assert(!(recs[i].key == key && recs[i].seq <= s));
                },
            }
        },
        Some(x) => {
            let xi = choose|xi: int| 0 <= xi < recs.len() && recs[xi] == x;
            let tombstone_dropped = x.value is None && x.seq <= min_live && (forall|j: int|
                #![trigger recs[j]]
                0 <= j < recs.len() && recs[j].key == recs[xi].key ==> recs[j].seq <= recs[xi].seq);
            if !gc_keep(recs, xi, min_live) {
                if exists|j: int|
                    0 <= j < recs.len() && recs[j].key == recs[xi].key && recs[j].seq
                        > recs[xi].seq && recs[j].seq <= min_live {
                    let j = choose|j: int|
                        0 <= j < recs.len() && recs[j].key == recs[xi].key && recs[j].seq
                            > recs[xi].seq && recs[j].seq <= min_live;
                    assert(recs[j].seq <= x.seq);
                    assert(false);
                }
                // the visible version is a tombstone nothing can resurrect:
                // the key vanishes entirely, and both sides read absent
                assert(tombstone_dropped);
                match newest_version(gcf, key, s) {
                    None => {},
                    Some(y) => {
                        let p = choose|p: int| 0 <= p < gcf.len() && gcf[p] == y;
                        lemma_gc_lookup(recs, recs.len() as int, min_live, p);
                        let i = gc_source(recs, recs.len() as int, min_live, p);
                        assert(recs[i].key == key && recs[i].seq <= s);
                        assert(recs[i].seq <= x.seq);
                        if recs[i].seq == x.seq {
                            assert(i == xi || recs[i].seq != recs[xi].seq);
                            assert(!gc_keep(recs, xi, min_live));
                            assert(false);
                        } else {
                            assert(recs[i].seq < x.seq);
                            assert(x.seq <= min_live);
                            assert(!gc_keep(recs, i, min_live));
                            assert(false);
                        }
                    },
                }
                assert(visible_value(gcf, key, s, now) == None::<Seq<u8>>);
                assert(visible_value(recs, key, s, now) == None::<Seq<u8>>);
            } else {
                lemma_gc_filter_complete(recs, recs.len() as int, min_live, xi);
                let p = choose|p: int| 0 <= p < gcf.len() && gcf[p] == recs[xi];
                match newest_version(gcf, key, s) {
                    None => {
                        assert(gcf[p].key == key && gcf[p].seq <= s);
                        assert(false);
                    },
                    Some(y) => {
                        let py = choose|py: int| 0 <= py < gcf.len() && gcf[py] == y;
                        lemma_gc_lookup(recs, recs.len() as int, min_live, py);
                        let iy = gc_source(recs, recs.len() as int, min_live, py);
                        assert(recs[iy].key == key && recs[iy].seq <= s);
                        assert(y.seq <= x.seq);
                        assert(gcf[p].seq <= y.seq);
                        assert(y.seq == x.seq);
                        if iy != xi {
                            assert(recs[iy].seq != recs[xi].seq);
                            assert(false);
                        }
                        assert(y == x);
                    },
                }
            }
        },
    }
}

/// The transaction's own buffered write of `key` in family `cf_id`, if any;
/// the latest one wins.
pub open spec fn spec_own_write(ws: Seq<WriteOpModel>, cf_id: usize, key: Seq<u8>) -> Option<
    WriteOpModel,
>
    decreases ws.len(),
{
    if ws.len() == 0 {
        None
    } else if ws.last().cf_id == cf_id && ws.last().key == key {
        Some(ws.last())
    } else {
        spec_own_write(ws.drop_last(), cf_id, key)
    }
}

/// The snapshot a read uses: read-uncommitted and read-committed re-take the
/// latest committed sequence number at every read, the fixed-snapshot levels
/// read at the snapshot taken when the transaction began.
pub open spec fn spec_effective_snapshot(t: TransactionModel, db: Database) -> u64 {
    match t.isolation {
        IsolationLevel::ReadUncommitted => db.spec_last_seq(),
        IsolationLevel::ReadCommitted => db.spec_last_seq(),
        _ => t.snapshot,
    }
}

/// What a read inside a transaction returns: the transaction's own latest
/// buffered write of the key if there is one (a buffered delete or an
/// already-expired write reads as absent), else the column family's visible
/// value at the isolation level's snapshot.
pub open spec fn spec_txn_read(
    t: TransactionModel,
    db: Database,
    cf_id: usize,
    key: Seq<u8>,
    now: u64,
) -> Option<Seq<u8>> {
    match spec_own_write(t.write_set, cf_id, key) {
        Some(op) => match op.value {
            Some(v) => if expiry_live_at(op.expires_at, now) {
                Some(v)
            } else {
                None
            },
            None => None,
        },
        None => visible_value(
            db.spec_cf_records(cf_id as int),
            key,
            spec_effective_snapshot(t, db),
            now,
        ),
    }
}

/// The contract of a read: on success (the handle names a live family) the
/// result is exactly `spec_txn_read`, and the transaction is unchanged but
/// for serializable isolation remembering the read key for its commit-time
/// conflict check. A stale handle is rejected and changes nothing.
pub open spec fn get_ensures(
    pre_t: TransactionModel,
    post_t: TransactionModel,
    db: Database,
    post_db: Database,
    cf_id: usize,
    key: Seq<u8>,
    now: u64,
    r: Result<Option<Vec<u8>>, Error>,
) -> bool {
    match r {
        Ok(v) => {
            &&& db.spec_cf_is_live(cf_id as int)
            &&& opt_bytes_view(v) == spec_txn_read(pre_t, db, cf_id, key, now)
            &&& post_t == (TransactionModel {
                read_set: if pre_t.isolation == IsolationLevel::Serializable {
                    pre_t.read_set.push(ReadKeyModel { cf_id, key })
                } else {
                    pre_t.read_set
                },
                ..pre_t
            })
            &&& (txn_wf(pre_t) ==> txn_wf(post_t))
            &&& touch_only_ensures(db, post_db, pre_t.txn_id, cf_id)
        },
        Err(e) => {
            &&& e == Error::InvalidArgs
            &&& !db.spec_cf_is_live(cf_id as int)
            &&& post_t == pre_t
            &&& post_db == db
        },
    }
}

/// The state of a commit after its transaction has been deregistered and
/// before anything is applied.
pub(crate) open spec fn commit_mid_ok(pre: Database, mid: Database, tid: u64) -> bool {
    &&& mid.wf()
    &&& pre.spec_txn_live(tid)
    &&& !mid.spec_txn_live(tid)
    &&& (forall|x: u64| x != tid ==> #[trigger] mid.spec_txn_live(x) == pre.spec_txn_live(x))
    &&& (forall|x: u64, c: usize|
        x != tid ==> #[trigger] mid.spec_txn_touches(x, c) == pre.spec_txn_touches(x, c))
    &&& cfs_preserved(pre, mid)
    &&& mid.cfs@ == pre.cfs@
    &&& mid.spec_cf_count() == pre.spec_cf_count()
    &&& mid.next_seq == pre.next_seq
    &&& mid.next_txn_id == pre.next_txn_id
    &&& mid.manifest == pre.manifest
}

/// The per-family picture while a commit applies its write set: liveness
/// and names untouched, and every family reads as its old records plus the
/// records of the first `upto` buffered writes.
pub(crate) open spec fn commit_loop_cfs_ok(
    pre: Database,
    cur: Database,
    ws: Seq<WriteOpModel>,
    base: int,
    upto: int,
) -> bool {
    forall|c: int|
        #![trigger cur.spec_cf_records(c)]
        #![trigger cur.spec_cf_is_live(c)]
        0 <= c < pre.spec_cf_count() ==> {
            &&& cur.spec_cf_is_live(c) == pre.spec_cf_is_live(c)
            &&& cur.spec_cf_name(c) == pre.spec_cf_name(c)
            &&& cur.spec_cf_config(c) == pre.spec_cf_config(c)
            &&& cur.spec_cf_l0_file_count(c) == pre.spec_cf_l0_file_count(c)
            &&& visible_eq(
                cur.spec_cf_records(c),
                pre.spec_cf_records(c) + applied_for_cf(ws.take(upto), base, c as usize),
            )
        }
}

/// Equal live-transaction registries hold the same references.
pub(crate) proof fn lemma_txn_touches_from_eq(a: Database, b: Database)
    requires
        a.live_txns@ == b.live_txns@,
    ensures
        forall|x: u64, c: usize|
            #![trigger a.spec_txn_touches(x, c)]
            a.spec_txn_touches(x, c) == b.spec_txn_touches(x, c),
{
    assert forall|x: u64, c: usize|
        #![trigger a.spec_txn_touches(x, c)]
        a.spec_txn_touches(x, c) == b.spec_txn_touches(x, c) by {
        if a.spec_txn_touches(x, c) {
            let j = choose|j: int|
                #![trigger a.live_txns@[j]]
                0 <= j < a.live_txns@.len() && a.live_txns@[j].txn_id == x
                    && a.live_txns@[j].touched@.contains(c);
            assert(b.live_txns@[j] == a.live_txns@[j]);
        }
        if b.spec_txn_touches(x, c) {
            let j = choose|j: int|
                #![trigger b.live_txns@[j]]
                0 <= j < b.live_txns@.len() && b.live_txns@[j].txn_id == x
                    && b.live_txns@[j].touched@.contains(c);
            assert(a.live_txns@[j] == b.live_txns@[j]);
        }
    }
}

/// Equal live-transaction registries register the same transactions.
pub(crate) proof fn lemma_txn_live_from_eq(a: Database, b: Database)
    requires
        a.live_txns@ == b.live_txns@,
    ensures
        forall|x: u64| #![trigger a.spec_txn_live(x)] a.spec_txn_live(x) == b.spec_txn_live(x),
{
    assert forall|x: u64| #![trigger a.spec_txn_live(x)] a.spec_txn_live(x) == b.spec_txn_live(
        x,
    ) by {
        if a.spec_txn_live(x) {
            let j = choose|j: int| 0 <= j < a.live_txns@.len() && a.live_txns@[j].txn_id == x;
            assert(b.live_txns@[j].txn_id == x);
        }
        if b.spec_txn_live(x) {
            let j = choose|j: int| 0 <= j < b.live_txns@.len() && b.live_txns@[j].txn_id == x;
            assert(a.live_txns@[j].txn_id == x);
        }
    }
}

/// What every outcome of a commit attempt guarantees while the database
/// still equals its post-deregistration state.
pub(crate) proof fn lemma_commit_frames(pre: Database, mid: Database, cur: Database, tid: u64)
    requires
        commit_mid_ok(pre, mid, tid),
        cur == mid,
    ensures
        cur.wf(),
        !cur.spec_txn_live(tid),
        forall|x: u64|
            x != tid ==> #[trigger] cur.spec_txn_live(x) == pre.spec_txn_live(x),
        forall|x: u64, c: usize|
            x != tid ==> #[trigger] cur.spec_txn_touches(x, c) == pre.spec_txn_touches(x, c),
        cur.spec_cf_count() == pre.spec_cf_count(),
        cfs_preserved(pre, cur),
        cur.spec_next_seq() == pre.spec_next_seq(),
{
    lemma_txn_live_from_eq(cur, mid);
    lemma_txn_touches_from_eq(cur, mid);
    assert(!cur.spec_txn_live(tid));
    assert forall|x: u64| x != tid implies #[trigger] cur.spec_txn_live(x) == pre.spec_txn_live(
        x,
    ) by {
        assert(cur.spec_txn_live(x) == mid.spec_txn_live(x));
    }
    assert forall|x: u64, c: usize| x != tid implies #[trigger] cur.spec_txn_touches(x, c)
        == pre.spec_txn_touches(x, c) by {
        assert(cur.spec_txn_touches(x, c) == mid.spec_txn_touches(x, c));
    }
    lemma_cfs_preserved_from_eq(pre, cur);
}

/// A database whose slots differ from another's in at most one place, where
/// the family keeps its name and records, preserves every per-family
/// observation.
pub(crate) proof fn lemma_cfs_preserved_from_slot(pre: Database, post: Database, cf_id: int)
    requires
        post.cfs@.len() == pre.cfs@.len(),
        forall|c: int|
            #![trigger post.cfs@[c]]
            0 <= c < pre.cfs@.len() && c != cf_id ==> post.cfs@[c] == pre.cfs@[c],
        0 <= cf_id < pre.cfs@.len(),
        pre.cfs@[cf_id] is Some,
        post.cfs@[cf_id] is Some,
        cf_state_records(post.cfs@[cf_id]->Some_0) == cf_state_records(pre.cfs@[cf_id]->Some_0),
        post.cfs@[cf_id]->Some_0.name@ == pre.cfs@[cf_id]->Some_0.name@,
        post.cfs@[cf_id]->Some_0.config == pre.cfs@[cf_id]->Some_0.config,
    ensures
        cfs_preserved(pre, post),
        post.spec_cf_count() == pre.spec_cf_count(),
{
    assert forall|c: int| 0 <= c < pre.spec_cf_count() implies {
        &&& post.spec_cf_is_live(c) == pre.spec_cf_is_live(c)
        &&& post.spec_cf_name(c) == pre.spec_cf_name(c)
        &&& (#[trigger] post.spec_cf_records(c)) == pre.spec_cf_records(c)
        &&& post.spec_cf_config(c) == pre.spec_cf_config(c)
    } by {
        if c != cf_id {
            assert(post.cfs@[c] == pre.cfs@[c]);
        }
    }
}

/// Slots equal to a preserved state's, except one, preserve every other
/// family.
pub(crate) proof fn lemma_cfs_preserved_except_from_parts(
    pre: Database,
    post: Database,
    cf_id: int,
)
    requires
        post.cfs@.len() == pre.cfs@.len(),
        forall|c: int|
            #![trigger post.cfs@[c]]
            0 <= c < pre.cfs@.len() && c != cf_id ==> post.cfs@[c] == pre.cfs@[c],
    ensures
        cfs_preserved_except(pre, post, cf_id),
{
    assert forall|c: int|
        #![trigger post.spec_cf_records(c)]
        0 <= c < pre.spec_cf_count() && c != cf_id implies {
        &&& post.spec_cf_is_live(c) == pre.spec_cf_is_live(c)
        &&& post.spec_cf_name(c) == pre.spec_cf_name(c)
        &&& post.spec_cf_records(c) == pre.spec_cf_records(c)
        &&& post.spec_cf_config(c) == pre.spec_cf_config(c)
    } by {
        assert(post.cfs@[c] == pre.cfs@[c]);
    }
}

/// Slot equality carries every per-family observation.
pub(crate) proof fn lemma_cfs_preserved_from_eq(pre: Database, post: Database)
    requires
        post.cfs@ == pre.cfs@,
    ensures
        cfs_preserved(pre, post),
        post.spec_cf_count() == pre.spec_cf_count(),
{
    assert forall|c: int| 0 <= c < pre.spec_cf_count() implies {
        &&& post.spec_cf_is_live(c) == pre.spec_cf_is_live(c)
        &&& post.spec_cf_name(c) == pre.spec_cf_name(c)
        &&& (#[trigger] post.spec_cf_records(c)) == pre.spec_cf_records(c)
        &&& post.spec_cf_config(c) == pre.spec_cf_config(c)
    } by {
        assert(post.cfs@[c] == pre.cfs@[c]);
    }
}

/// The index of the transaction's latest buffered write of `key` in family
/// `cf_id`, or -1 when there is none.
pub open spec fn own_write_index(ws: Seq<WriteOpModel>, cf_id: usize, key: Seq<u8>) -> int
    decreases ws.len(),
{
    if ws.len() == 0 {
        -1
    } else if ws.last().cf_id == cf_id && ws.last().key == key {
        ws.len() - 1
    } else {
        own_write_index(ws.drop_last(), cf_id, key)
    }
}

/// What `spec_own_write` and `own_write_index` return: the latest matching
/// write and its position, with nothing matching after it.
pub proof fn lemma_own_write_characterization(ws: Seq<WriteOpModel>, cf_id: usize, key: Seq<u8>)
    ensures
        match spec_own_write(ws, cf_id, key) {
            None => own_write_index(ws, cf_id, key) == -1 && forall|j: int|
                #![trigger ws[j]]
                0 <= j < ws.len() ==> !(ws[j].cf_id == cf_id && ws[j].key == key),
            Some(op) => {
                let i = own_write_index(ws, cf_id, key);
                &&& 0 <= i < ws.len()
                &&& ws[i] == op
                &&& op.cf_id == cf_id
                &&& op.key == key
                &&& forall|j: int|
                    #![trigger ws[j]]
                    i < j < ws.len() ==> !(ws[j].cf_id == cf_id && ws[j].key == key)
            },
        },
    decreases ws.len(),
{
    if ws.len() > 0 {
        lemma_own_write_characterization(ws.drop_last(), cf_id, key);
        assert(forall|j: int|
            0 <= j < ws.len() - 1 ==> ws.drop_last()[j] == #[trigger] ws[j]);
    }
}

/// Below the commit's first allocated sequence number, the commit's records
/// are invisible.
pub proof fn lemma_applied_none_below(
    ws: Seq<WriteOpModel>,
    base: int,
    cf: usize,
    key: Seq<u8>,
    s: u64,
)
    requires
        0 <= base,
        base + ws.len() <= u64::MAX,
        s < base,
    ensures
        newest_version(applied_for_cf(ws, base, cf), key, s) == None::<RecordModel>,
{
    let app = applied_for_cf(ws, base, cf);
    lemma_applied_seq_bounds(ws, base, cf);
    crate::visibility::lemma_newest_characterization(app, key, s);
    match newest_version(app, key, s) {
        None => {},
        Some(x) => {
            let i = choose|i: int| 0 <= i < app.len() && app[i] == x;
            assert(app[i].seq >= base);
        },
    }
}

/// At or above the sequence number allocated to the transaction's latest
/// write of a key, that write is the commit records' visible version.
pub proof fn lemma_applied_newest(
    ws: Seq<WriteOpModel>,
    base: int,
    cf: usize,
    key: Seq<u8>,
    i: int,
    s: u64,
)
    requires
        0 <= base,
        base + ws.len() <= u64::MAX,
        0 <= i < ws.len(),
        ws[i].cf_id == cf,
        ws[i].key == key,
        forall|j: int|
            #![trigger ws[j]]
            i < j < ws.len() ==> !(ws[j].cf_id == cf && ws[j].key == key),
        base + i <= s,
    ensures
        newest_version(applied_for_cf(ws, base, cf), key, s) == Some(
            record_of_op(ws[i], (base + i) as u64),
        ),
    decreases ws.len(),
{
    let app = applied_for_cf(ws, base, cf);
    let head = applied_for_cf(ws.drop_last(), base, cf);
    lemma_applied_seq_bounds(ws.drop_last(), base, cf);
    if i == ws.len() - 1 {
        let rec = record_of_op(ws[i], (base + i) as u64);
        assert(app == head + seq![rec]);
        lemma_newest_concat(head, seq![rec], key, s);
        crate::visibility::lemma_newest_singleton(rec, key, s);
        crate::visibility::lemma_newest_characterization(head, key, s);
        match newest_version(head, key, s) {
            None => {},
            Some(x) => {
                let xi = choose|xi: int| 0 <= xi < head.len() && head[xi] == x;
                assert(head[xi].seq < base + ws.len() - 1);
            },
        }
    } else {
        assert(forall|j: int|
            0 <= j < ws.len() - 1 ==> ws.drop_last()[j] == #[trigger] ws[j]);
        lemma_applied_newest(ws.drop_last(), base, cf, key, i, s);
        if ws.last().cf_id == cf {
            let rec = record_of_op(ws.last(), (base + ws.len() - 1) as u64);
            assert(app == head + seq![rec]);
            lemma_newest_concat(head, seq![rec], key, s);
            crate::visibility::lemma_newest_singleton(rec, key, s);
            assert(!(ws[ws.len() - 1].cf_id == cf && ws[ws.len() - 1].key == key));
            assert(rec.key != key);
        } else {
            assert(app =~= head);
        }
    }
}

/// A committed write is durable and visible: after a successful commit,
/// reading a written key in its column family at any snapshot at or above
/// the write's allocated sequence number yields exactly the transaction's
/// latest buffered write of that key — its value if it has not expired by
/// the read's wall-clock time, absent if it was a deletion or has expired.
pub proof fn lemma_commit_then_get(
    t: TransactionModel,
    pre: Database,
    post: Database,
    cf_id: usize,
    key: Seq<u8>,
    s: u64,
    now: u64,
)
    requires
        pre.wf(),
        commit_ensures(t, pre, post, Ok(())),
        spec_own_write(t.write_set, cf_id, key) is Some,
        0 <= cf_id < pre.spec_cf_count(),
        pre.spec_next_seq() + own_write_index(t.write_set, cf_id, key) <= s,
    ensures
        visible_value(post.spec_cf_records(cf_id as int), key, s, now) == (match spec_own_write(
            t.write_set,
            cf_id,
            key,
        ) {
            Some(op) => match op.value {
                Some(v) => if expiry_live_at(op.expires_at, now) {
                    Some(v)
                } else {
                    None
                },
                None => None,
            },
            None => None,
        }),
{
    let base = pre.spec_next_seq() as int;
    let i = own_write_index(t.write_set, cf_id, key);
    lemma_own_write_characterization(t.write_set, cf_id, key);
    let applied = applied_for_cf(t.write_set, base, cf_id);
    assert(visible_eq(post.spec_cf_records(cf_id as int), pre.spec_cf_records(cf_id as int)
        + applied));
    assert(newest_version(post.spec_cf_records(cf_id as int), key, s) == newest_version(
        pre.spec_cf_records(cf_id as int) + applied,
        key,
        s,
    ));
    lemma_newest_concat(pre.spec_cf_records(cf_id as int), applied, key, s);
    lemma_applied_newest(t.write_set, base, cf_id, key, i, s);
    let rec = record_of_op(t.write_set[i], (base + i) as u64);
    crate::visibility::lemma_newest_characterization(
        pre.spec_cf_records(cf_id as int),
        key,
        s,
    );
    match newest_version(pre.spec_cf_records(cf_id as int), key, s) {
        None => {},
        Some(x) => {
            let xi = choose|xi: int|
                0 <= xi < pre.spec_cf_records(cf_id as int).len() && pre.spec_cf_records(
                    cf_id as int,
                )[xi] == x;
            assert(records_wf(pre.spec_cf_records(cf_id as int), pre.next_seq)) by {
                assert(pre.cfs@[cf_id as int] is Some);
            }
            assert(x.seq < base);
        },
    }
    assert(newest_version(post.spec_cf_records(cf_id as int), key, s) == Some(rec));
}

/// Write-write conflict under snapshot or serializable isolation: once one
/// transaction has committed a write of a key, any other transaction whose
/// snapshot predates that commit and which has buffered a write of the same
/// key will conflict, and its commit must abort with a conflict error,
/// leaving every family — and so the winner's value — untouched.
pub proof fn lemma_write_write_conflict(
    t1: TransactionModel,
    pre: Database,
    db1: Database,
    t2: TransactionModel,
    cf_id: usize,
    key: Seq<u8>,
)
    requires
        pre.wf(),
        commit_ensures(t1, pre, db1, Ok(())),
        spec_own_write(t1.write_set, cf_id, key) is Some,
        0 <= cf_id < pre.spec_cf_count(),
        t2.snapshot < pre.spec_next_seq(),
        t2.isolation == IsolationLevel::Snapshot || t2.isolation == IsolationLevel::Serializable,
        exists|j: int|
            0 <= j < t2.write_set.len() && t2.write_set[j].cf_id == cf_id
                && t2.write_set[j].key == key,
    ensures
        spec_commit_conflict(db1, t2),
{
    let base = pre.spec_next_seq() as int;
    let i = own_write_index(t1.write_set, cf_id, key);
    lemma_own_write_characterization(t1.write_set, cf_id, key);
    let applied = applied_for_cf(t1.write_set, base, cf_id);
    assert(visible_eq(db1.spec_cf_records(cf_id as int), pre.spec_cf_records(cf_id as int)
        + applied));
    assert(newest_version(db1.spec_cf_records(cf_id as int), key, u64::MAX) == newest_version(
        pre.spec_cf_records(cf_id as int) + applied,
        key,
        u64::MAX,
    ));
    lemma_newest_concat(pre.spec_cf_records(cf_id as int), applied, key, u64::MAX);
    lemma_applied_newest(t1.write_set, base, cf_id, key, i, u64::MAX);
    crate::visibility::lemma_newest_characterization(
        pre.spec_cf_records(cf_id as int),
        key,
        u64::MAX,
    );
    match newest_version(pre.spec_cf_records(cf_id as int), key, u64::MAX) {
        None => {},
        Some(x) => {
            let xi = choose|xi: int|
                0 <= xi < pre.spec_cf_records(cf_id as int).len() && pre.spec_cf_records(
                    cf_id as int,
                )[xi] == x;
            assert(records_wf(pre.spec_cf_records(cf_id as int), pre.next_seq)) by {
                assert(pre.cfs@[cf_id as int] is Some);
            }
            assert(x.seq < base);
        },
    }
    crate::visibility::lemma_has_newer_iff_newest(
        db1.spec_cf_records(cf_id as int),
        key,
        t2.snapshot,
    );
    let j = choose|j: int|
        0 <= j < t2.write_set.len() && t2.write_set[j].cf_id == cf_id && t2.write_set[j].key
            == key;
    assert(spec_has_newer_version(
        db1.spec_cf_records(t2.write_set[j].cf_id as int),
        t2.write_set[j].key,
        t2.snapshot,
    ));
}

/// A conflicting commit can only abort with a conflict error: when the
/// write set's families are live, the sequence window fits, no family is
/// stalled and the conflict rule fires, every outcome the commit contract
/// admits is the conflict error, and nothing is applied.
pub proof fn lemma_conflicting_commit_must_abort(
    t2: TransactionModel,
    db1: Database,
    db2: Database,
    r2: Result<(), Error>,
)
    requires
        commit_ensures(t2, db1, db2, r2),
        spec_commit_conflict(db1, t2),
        db1.spec_txn_live(t2.txn_id),
        spec_ws_cfs_live(db1, t2.write_set),
        db1.spec_next_seq() + t2.write_set.len() <= u64::MAX,
        !spec_l0_stalled(db1, t2.write_set),
    ensures
        r2 == Err::<(), Error>(Error::Conflict),
        cfs_preserved(db1, db2),
{
}

/// Column family isolation: one transaction writing the same key into two
/// different families commits two independent values; each family reads
/// back its own.
pub proof fn lemma_column_family_isolation(
    t: TransactionModel,
    pre: Database,
    post: Database,
    cf_a: usize,
    cf_b: usize,
    key: Seq<u8>,
    s: u64,
    now: u64,
)
    requires
        pre.wf(),
        commit_ensures(t, pre, post, Ok(())),
        cf_a != cf_b,
        0 <= cf_a < pre.spec_cf_count(),
        0 <= cf_b < pre.spec_cf_count(),
        spec_own_write(t.write_set, cf_a, key) is Some,
        spec_own_write(t.write_set, cf_b, key) is Some,
        pre.spec_next_seq() + t.write_set.len() <= s + 1,
    ensures
        visible_value(post.spec_cf_records(cf_a as int), key, s, now) == (match spec_own_write(
            t.write_set,
            cf_a,
            key,
        ) {
            Some(op) => match op.value {
                Some(v) => if expiry_live_at(op.expires_at, now) {
                    Some(v)
                } else {
                    None
                },
                None => None,
            },
            None => None,
        }),
        visible_value(post.spec_cf_records(cf_b as int), key, s, now) == (match spec_own_write(
            t.write_set,
            cf_b,
            key,
        ) {
            Some(op) => match op.value {
                Some(v) => if expiry_live_at(op.expires_at, now) {
                    Some(v)
                } else {
                    None
                },
                None => None,
            },
            None => None,
        }),
{
    lemma_own_write_characterization(t.write_set, cf_a, key);
    lemma_own_write_characterization(t.write_set, cf_b, key);
    lemma_commit_then_get(t, pre, post, cf_a, key, s, now);
    lemma_commit_then_get(t, pre, post, cf_b, key, s, now);
}

/// A fixed-snapshot reader is not disturbed by later commits: a transaction
/// holding a snapshot taken after a first commit of a key and before a
/// second one still reads the first commit's value, under repeatable-read,
/// snapshot or serializable isolation.
pub proof fn lemma_fixed_snapshot_reads_old_value(
    t1: TransactionModel,
    db0: Database,
    db1: Database,
    tw: TransactionModel,
    db2: Database,
    t2: TransactionModel,
    cf_id: usize,
    key: Seq<u8>,
    now: u64,
)
    requires
        db0.wf(),
        commit_ensures(t1, db0, db1, Ok(())),
        db1.wf(),
        commit_ensures(tw, db1, db2, Ok(())),
        spec_own_write(t1.write_set, cf_id, key) is Some,
        0 <= cf_id < db0.spec_cf_count(),
        db0.spec_next_seq() + own_write_index(t1.write_set, cf_id, key) <= t2.snapshot,
        t2.snapshot < db1.spec_next_seq(),
        t2.isolation == IsolationLevel::RepeatableRead || t2.isolation == IsolationLevel::Snapshot
            || t2.isolation == IsolationLevel::Serializable,
        spec_own_write(t2.write_set, cf_id, key) is None,
    ensures
        spec_txn_read(t2, db2, cf_id, key, now) == (match spec_own_write(
            t1.write_set,
            cf_id,
            key,
        ) {
            Some(op) => match op.value {
                Some(v) => if expiry_live_at(op.expires_at, now) {
                    Some(v)
                } else {
                    None
                },
                None => None,
            },
            None => None,
        }),
{
    let snap = t2.snapshot;
    assert(spec_effective_snapshot(t2, db2) == snap);
    let base2 = db1.spec_next_seq() as int;
    let applied2 = applied_for_cf(tw.write_set, base2, cf_id);
    assert(0 <= cf_id < db1.spec_cf_count());
    assert(visible_eq(db2.spec_cf_records(cf_id as int), db1.spec_cf_records(cf_id as int)
        + applied2));
    assert(newest_version(db2.spec_cf_records(cf_id as int), key, snap) == newest_version(
        db1.spec_cf_records(cf_id as int) + applied2,
        key,
        snap,
    ));
    lemma_newest_concat(db1.spec_cf_records(cf_id as int), applied2, key, snap);
    lemma_applied_none_below(tw.write_set, base2, cf_id, key, snap);
    lemma_commit_then_get(t1, db0, db1, cf_id, key, snap, now);
}

/// The names of the live families among the slots, in order.
pub(crate) open spec fn live_names(slots: Seq<Option<ColumnFamilyState>>) -> Seq<Seq<char>>
    decreases slots.len(),
{
    if slots.len() == 0 {
        Seq::empty()
    } else {
        live_names(slots.drop_last()) + (match slots.last() {
            Some(st) => seq![st.name@],
            None => Seq::empty(),
        })
    }
}

/// The slot that position `p` of the name listing was taken from.
pub(crate) open spec fn name_source(slots: Seq<Option<ColumnFamilyState>>, p: int) -> int
    decreases slots.len(),
{
    if slots.len() == 0 {
        -1
    } else if p < live_names(slots.drop_last()).len() {
        name_source(slots.drop_last(), p)
    } else {
        slots.len() - 1
    }
}

/// Position `p` of the listing names the live family in its source slot.
pub(crate) proof fn lemma_live_names_lookup(slots: Seq<Option<ColumnFamilyState>>, p: int)
    requires
        0 <= p < live_names(slots).len(),
    ensures
        0 <= name_source(slots, p) < slots.len(),
        slots[name_source(slots, p)] is Some,
        slot_name(slots, name_source(slots, p)) == live_names(slots)[p],
    decreases slots.len(),
{
    let head = live_names(slots.drop_last());
    if p < head.len() {
        lemma_live_names_lookup(slots.drop_last(), p);
        assert(live_names(slots)[p] == head[p]);
        let c = name_source(slots.drop_last(), p);
        assert(slots[c] == slots.drop_last()[c]);
    } else {
        match slots.last() {
            Some(st) => {
                assert(live_names(slots)[p] == st.name@);
            },
            None => {
                assert(live_names(slots).len() == head.len());
            },
        }
    }
}

/// Every live family's name reaches the listing.
pub(crate) proof fn lemma_live_names_complete(slots: Seq<Option<ColumnFamilyState>>, c: int)
    requires
        0 <= c < slots.len(),
        slots[c] is Some,
    ensures
        exists|p: int|
            0 <= p < live_names(slots).len() && #[trigger] live_names(slots)[p] == slot_name(
                slots,
                c,
            ),
    decreases slots.len(),
{
    let head = live_names(slots.drop_last());
    if c == slots.len() - 1 {
        let p = head.len() as int;
        assert(live_names(slots)[p] == slot_name(slots, c));
    } else {
        assert(slots.drop_last()[c] == slots[c]);
        lemma_live_names_complete(slots.drop_last(), c);
        let p = choose|p: int|
            0 <= p < head.len() && #[trigger] head[p] == slot_name(slots.drop_last(), c);
        assert(live_names(slots)[p] == head[p]);
        assert(slot_name(slots.drop_last(), c) == slot_name(slots, c));
        assert(live_names(slots)[p] == slot_name(slots, c));
    }
}

/// Distinct listing positions come from distinct slots.
pub(crate) proof fn lemma_live_names_distinct_sources(
    slots: Seq<Option<ColumnFamilyState>>,
    p1: int,
    p2: int,
)
    requires
        0 <= p1 < live_names(slots).len(),
        0 <= p2 < live_names(slots).len(),
        p1 != p2,
    ensures
        name_source(slots, p1) != name_source(slots, p2),
    decreases slots.len(),
{
    let head = live_names(slots.drop_last());
    if p1 < head.len() && p2 < head.len() {
        lemma_live_names_distinct_sources(slots.drop_last(), p1, p2);
    } else if p1 >= head.len() && p2 >= head.len() {
        assert(live_names(slots).len() <= head.len() + 1);
        assert(false);
    } else {
        let psmall = if p1 < head.len() {
            p1
        } else {
            p2
        };
        lemma_live_names_lookup(slots.drop_last(), psmall);
        assert(name_source(slots.drop_last(), psmall) < slots.len() - 1);
    }
}

/// The snapshot a fresh transaction takes sits one below the next sequence
/// number a commit will allocate: a transaction begun after a commit can
/// see everything that commit wrote.
pub proof fn lemma_last_seq(db: Database)
    requires
        db.wf(),
    ensures
        db.spec_last_seq() as int + 1 == db.spec_next_seq() as int,
{
}

/// A transaction begun after a commit admits everything that commit
/// allocated: its snapshot is the last of the commit's sequence numbers, so
/// `lemma_commit_then_get` applies to every key the commit wrote.
pub proof fn lemma_snapshot_after_commit(
    t: TransactionModel,
    pre: Database,
    post: Database,
    t2: Transaction,
    post2: Database,
    isolation: IsolationLevel,
)
    requires
        commit_ensures(t, pre, post, Ok(())),
        begin_txn_ensures(post, post2, isolation, Ok(t2)),
    ensures
        t2@.snapshot as int == pre.spec_next_seq() as int + t.write_set.len() - 1,
{
}

/// With no live transaction, none is registered.
pub proof fn lemma_no_live_txns(db: Database)
    requires
        db.spec_live_txn_count() == 0,
    ensures
        forall|x: u64| !#[trigger] db.spec_txn_live(x),
{
    assert forall|x: u64| !#[trigger] db.spec_txn_live(x) by {
        if db.spec_txn_live(x) {
            let i = choose|i: int|
                0 <= i < db.live_txns@.len() && db.live_txns@[i].txn_id == x;
        }
    }
}

/// A referenced family is referenced by some live transaction: with the
/// live transactions known and their references empty, a family is
/// unreferenced and its drop is owed.
pub proof fn lemma_referenced_gives_toucher(db: Database, c: int)
    requires
        db.spec_cf_referenced(c),
    ensures
        exists|x: u64| #[trigger] db.spec_txn_live(x) && db.spec_txn_touches(x, c as usize),
{
    let i = choose|i: int|
        #![trigger db.live_txns@[i]]
        0 <= i < db.live_txns@.len() && c >= 0 && db.live_txns@[i].touched@.contains(c as usize);
    let x = db.live_txns@[i].txn_id;
    assert(db.spec_txn_live(x));
    assert(db.spec_txn_touches(x, c as usize));
}

/// A live slot lies inside the slot range, so the per-slot frame clauses
/// and laws apply to any handle a lookup produced.
pub proof fn lemma_live_slot_in_range(db: Database, c: int)
    requires
        db.spec_cf_is_live(c),
    ensures
        0 <= c < db.spec_cf_count(),
{
}

/// An operation that preserves every slot preserves which names exist.
pub proof fn lemma_has_named_preserved(pre: Database, post: Database)
    requires
        cfs_preserved(pre, post),
        post.spec_cf_count() == pre.spec_cf_count(),
    ensures
        forall|m: Seq<char>|
            #[trigger] post.spec_has_cf_named(m) == pre.spec_has_cf_named(m),
{
    assert forall|m: Seq<char>| #[trigger]
        post.spec_has_cf_named(m) == pre.spec_has_cf_named(m) by {
        if post.spec_has_cf_named(m) {
            let c = choose|c: int| post.spec_cf_is_live(c) && post.spec_cf_name(c) == m;
            assert(0 <= c < post.spec_cf_count());
            assert(post.spec_cf_records(c) == pre.spec_cf_records(c));
            assert(pre.spec_cf_is_live(c) && pre.spec_cf_name(c) == m);
        }
        if pre.spec_has_cf_named(m) {
            let c = choose|c: int| pre.spec_cf_is_live(c) && pre.spec_cf_name(c) == m;
            assert(0 <= c < pre.spec_cf_count());
            assert(post.spec_cf_records(c) == pre.spec_cf_records(c));
            assert(post.spec_cf_is_live(c) && post.spec_cf_name(c) == m);
        }
    }
}

/// Live column family names are unique: liveness and a name together place
/// a handle on exactly one slot.
pub proof fn lemma_cf_names_unique(db: Database)
    requires
        db.wf(),
    ensures
        forall|c1: int, c2: int|
            #![trigger db.spec_cf_name(c1), db.spec_cf_name(c2)]
            db.spec_cf_is_live(c1) && db.spec_cf_is_live(c2) && c1 != c2 ==> db.spec_cf_name(c1)
                != db.spec_cf_name(c2),
{
    assert forall|c1: int, c2: int|
        #![trigger db.spec_cf_name(c1), db.spec_cf_name(c2)]
        db.spec_cf_is_live(c1) && db.spec_cf_is_live(c2) && c1 != c2 implies db.spec_cf_name(c1)
        != db.spec_cf_name(c2) by {
        if c1 < c2 {
            assert(slot_name(db.cfs@, c1) != slot_name(db.cfs@, c2));
        } else {
            assert(slot_name(db.cfs@, c2) != slot_name(db.cfs@, c1));
        }
    }
}

/// What the column family listing holds: a name is listed exactly when a
/// live family bears it, and no name is listed twice — the listing is
/// complete, free of extras, and duplicate-free.
pub proof fn lemma_column_family_listing(db: Database)
    requires
        db.wf(),
    ensures
        forall|n: Seq<char>|
            #[trigger] db.spec_cf_names().contains(n) <==> db.spec_has_cf_named(n),
        forall|p1: int, p2: int|
            0 <= p1 < p2 < db.spec_cf_names().len() ==> db.spec_cf_names()[p1]
                != db.spec_cf_names()[p2],
{
    let slots = db.cfs@;
    assert forall|n: Seq<char>| #[trigger]
        db.spec_cf_names().contains(n) <==> db.spec_has_cf_named(n) by {
        if db.spec_cf_names().contains(n) {
            let p = choose|p: int|
                0 <= p < live_names(slots).len() && live_names(slots)[p] == n;
            lemma_live_names_lookup(slots, p);
            let c = name_source(slots, p);
            assert(db.spec_cf_is_live(c) && db.spec_cf_name(c) == n);
            assert(db.spec_has_cf_named(n));
        }
        if db.spec_has_cf_named(n) {
            let c = choose|c: int| db.spec_cf_is_live(c) && db.spec_cf_name(c) == n;
            lemma_live_names_complete(slots, c);
            let p = choose|p: int|
                0 <= p < live_names(slots).len() && #[trigger] live_names(slots)[p] == slot_name(
                    slots,
                    c,
                );
            assert(db.spec_cf_names()[p] == n);
            assert(db.spec_cf_names().contains(n));
        }
    }
    assert forall|p1: int, p2: int|
        0 <= p1 < p2 < db.spec_cf_names().len() implies db.spec_cf_names()[p1]
        != db.spec_cf_names()[p2] by {
        lemma_live_names_lookup(slots, p1);
        lemma_live_names_lookup(slots, p2);
        lemma_live_names_distinct_sources(slots, p1, p2);
        let c1 = name_source(slots, p1);
        let c2 = name_source(slots, p2);
        if c1 < c2 {
            assert(slot_name(slots, c1) != slot_name(slots, c2));
        } else {
            assert(slot_name(slots, c2) != slot_name(slots, c1));
        }
    }
}

/// Folds the minimum of the live snapshots into an accumulator.
pub(crate) open spec fn min_snap_from(live: Seq<LiveTxn>, acc: u64) -> u64
    decreases live.len(),
{
    if live.len() == 0 {
        acc
    } else {
        min_snap_from(
            live.drop_first(),
            if live.first().snapshot < acc {
                live.first().snapshot
            } else {
                acc
            },
        )
    }
}

/// Whether compaction must keep the record at this index.
pub(crate) fn gc_keep_exec(all: &Vec<Record>, i: usize, min_live: u64) -> (r: bool)
    requires
        i < all@.len(),
    ensures
        r == gc_keep(records_view(all@), i as int, min_live),
{
    let ghost recs = records_view(all@);
    let n = all.len();
    let mut shadowed = false;
    let mut newest = true;
    let mut j: usize = 0;
    while j < n
        invariant
            0 <= j <= all@.len(),
            n == all@.len(),
            i < all@.len(),
            recs == records_view(all@),
            shadowed == (exists|jj: int|
                0 <= jj < j && recs[jj].key == recs[i as int].key && recs[jj].seq
                    > recs[i as int].seq && recs[jj].seq <= min_live),
            newest == (forall|jj: int|
                #![trigger recs[jj]]
                0 <= jj < j && recs[jj].key == recs[i as int].key ==> recs[jj].seq
                    <= recs[i as int].seq),
        decreases all@.len() - j,
    {
        let same_key = bytes_eq(all[j].key.as_slice(), all[i].key.as_slice());
        if same_key {
            if all[j].seq > all[i].seq && all[j].seq <= min_live {
                shadowed = true;
            }
            if all[j].seq > all[i].seq {
                newest = false;
            }
        }
        proof {
            assert(recs[j as int].key == all@[j as int].key@);
            assert(recs[i as int].key == all@[i as int].key@);
        }
        j += 1;
    }
    let tomb = match &all[i].value {
        None => true,
        Some(_) => false,
    };
    let keep = !shadowed && !(tomb && all[i].seq <= min_live && newest);
    proof {
        assert(shadowed == (exists|jj: int|
            0 <= jj < recs.len() && recs[jj].key == recs[i as int].key && recs[jj].seq
                > recs[i as int].seq && recs[jj].seq <= min_live));
        assert(tomb == (recs[i as int].value is None));
    }
    keep
}

/// Applies the compaction filter to a gathered run.
pub(crate) fn gc_merge(all: &Vec<Record>, min_live: u64) -> (out: Vec<Record>)
    ensures
        records_view(out@) == gc_filter(
            records_view(all@),
            records_view(all@).len() as int,
            min_live,
        ),
{
    let ghost recs = records_view(all@);
    let mut out: Vec<Record> = Vec::new();
    let mut i: usize = 0;
    proof {
        assert(records_view(out@) =~= gc_filter(recs, 0, min_live));
    }
    while i < all.len()
        invariant
            0 <= i <= all@.len(),
            recs == records_view(all@),
            records_view(out@) == gc_filter(recs, i as int, min_live),
        decreases all@.len() - i,
    {
        let keep = gc_keep_exec(all, i, min_live);
        if keep {
            let rec = all[i].duplicate();
            out.push(rec);
            proof {
                assert(records_view(out@) =~= gc_filter(recs, i as int, min_live) + seq![
                    recs[i as int],
                ]);
            }
        }
        proof {
            assert(records_view(out@) =~= gc_filter(recs, i as int + 1, min_live));
        }
        i += 1;
    }
    out
}

/// Whether an expiration stamp has passed at time `now`.
pub(crate) fn is_expired(e: &Option<u64>, now: u64) -> (r: bool)
    ensures
        r == !expiry_live_at(*e, now),
{
    match e {
        Some(x) => now >= *x,
        None => false,
    }
}

/// The transaction's own latest buffered write of `key` in family `cf_id`,
/// scanned newest-first.
pub(crate) fn find_own_write(ws: &Vec<WriteOp>, cf_id: usize, key: &[u8]) -> (r: Option<
    FoundVersion,
>)
    ensures
        (match (r, spec_own_write(ws@.map_values(|op: WriteOp| op@), cf_id, key@)) {
            (None, None) => true,
            (Some(f), Some(op)) => opt_bytes_view(f.value) == op.value && f.expires_at
                == op.expires_at,
            _ => false,
        }),
{
    let ghost wsm = ws@.map_values(|op: WriteOp| op@);
    let mut i: usize = ws.len();
    proof {
        assert(wsm.take(ws@.len() as int) =~= wsm);
    }
    while i > 0
        invariant
            0 <= i <= ws@.len(),
            wsm == ws@.map_values(|op: WriteOp| op@),
            spec_own_write(wsm, cf_id, key@) == spec_own_write(wsm.take(i as int), cf_id, key@),
        decreases i,
    {
        i -= 1;
        let op = &ws[i];
        proof {
            assert(wsm.take(i as int + 1).drop_last() =~= wsm.take(i as int));
            assert(wsm.take(i as int + 1).last() == wsm[i as int]);
            assert(wsm[i as int] == op@);
        }
        if op.cf_id == cf_id && bytes_eq(op.key.as_slice(), key) {
            return Some(
                FoundVersion {
                    value: copy_opt_bytes(&op.value),
                    seq: 0,
                    expires_at: op.expires_at,
                },
            );
        }
    }
    proof {
        assert(wsm.take(0) =~= Seq::<WriteOpModel>::empty());
    }
    None
}

/// Whether a column family holds no record at all, across levels, sealed
/// memtables and the active write buffer.
pub(crate) fn cf_state_is_empty(st: &ColumnFamilyState) -> (r: bool)
    ensures
        r == (cf_state_records(*st).len() == 0),
{
    let mut found = false;
    let ghost mut processed: Seq<RecordModel> = Seq::empty();
    proof {
        assert(st.levels@.skip(st.levels@.len() as int) =~= Seq::<LevelState>::empty());
    }
    let mut li: usize = st.levels.len();
    while li > 0
        invariant
            0 <= li <= st.levels@.len(),
            processed == levels_records(st.levels@.skip(li as int)),
            found == (processed.len() > 0),
        decreases li,
    {
        li -= 1;
        let ghost level_base = processed;
        let files = &st.levels[li].files;
        let mut fj: usize = 0;
        proof {
            assert(files_records(files@.take(0)) =~= Seq::<RecordModel>::empty());
            assert(processed =~= level_base + files_records(files@.take(0)));
        }
        while fj < files.len()
            invariant
                0 <= fj <= files@.len(),
                0 <= li < st.levels@.len(),
                files@ == st.levels@[li as int].files@,
                level_base == levels_records(st.levels@.skip(li as int + 1)),
                processed == level_base + files_records(files@.take(fj as int)),
                found == (processed.len() > 0),
            decreases files@.len() - fj,
        {
            let frecs = files[fj].records_slice();
            if frecs.len() > 0 {
                found = true;
            }
            proof {
                processed = processed + records_view(frecs@);
                assert(files@.take(fj as int + 1).drop_last() =~= files@.take(fj as int));
                assert(files@.take(fj as int + 1).last() == files@[fj as int]);
                assert(processed =~= level_base + files_records(files@.take(fj as int + 1)));
            }
            fj += 1;
        }
        proof {
            assert(files@.take(files@.len() as int) =~= files@);
            assert(st.levels@.skip(li as int).drop_first() =~= st.levels@.skip(li as int + 1));
            assert(st.levels@.skip(li as int).first() == st.levels@[li as int]);
            assert(processed =~= levels_records(st.levels@.skip(li as int)));
        }
    }
    proof {
        assert(st.levels@.skip(0) =~= st.levels@);
        assert(memtables_records(st.immutables@.take(0)) =~= Seq::<RecordModel>::empty());
    }
    let ghost lv_all = processed;
    let mut mi: usize = 0;
    while mi < st.immutables.len()
        invariant
            0 <= mi <= st.immutables@.len(),
            lv_all == levels_records(st.levels@),
            processed == lv_all + memtables_records(st.immutables@.take(mi as int)),
            found == (processed.len() > 0),
        decreases st.immutables@.len() - mi,
    {
        if st.immutables[mi].len() > 0 {
            found = true;
        }
        proof {
            processed = processed + st.immutables@[mi as int].spec_records();
            assert(st.immutables@.take(mi as int + 1).drop_last() =~= st.immutables@.take(
                mi as int,
            ));
            assert(st.immutables@.take(mi as int + 1).last() == st.immutables@[mi as int]);
            assert(processed =~= lv_all + memtables_records(st.immutables@.take(mi as int + 1)));
        }
        mi += 1;
    }
    proof {
        assert(st.immutables@.take(st.immutables@.len() as int) =~= st.immutables@);
    }
    if st.memtable.len() > 0 {
        found = true;
    }
    proof {
        assert(processed + st.memtable.spec_records() =~= cf_state_records(*st));
    }
    !found
}

/// Whether a record run fits restoration: every sequence number allocated-
/// looking and below the ceiling, no key carrying one twice.
pub(crate) fn check_restorable(recs: &[Record]) -> (r: bool)
    ensures
        r == records_wf(records_view(recs@), u64::MAX),
{
    let ghost rv = records_view(recs@);
    let n = recs.len();
    let mut i: usize = 0;
    while i < n
        invariant
            0 <= i <= recs@.len(),
            n == recs@.len(),
            rv == records_view(recs@),
            forall|a: int| #![trigger rv[a]] 0 <= a < i ==> 1 <= rv[a].seq < u64::MAX,
            forall|a: int, b: int|
                #![trigger rv[a], rv[b]]
                0 <= a < b < i && rv[a].key == rv[b].key ==> rv[a].seq != rv[b].seq,
        decreases recs@.len() - i,
    {
        if recs[i].seq < 1 || recs[i].seq >= u64::MAX {
            proof {
                assert(!(1 <= rv[i as int].seq < u64::MAX));
            }
            return false;
        }
        let mut j: usize = 0;
        while j < i
            invariant
                0 <= j <= i < recs@.len(),
                rv == records_view(recs@),
                forall|b: int|
                    #![trigger rv[b]]
                    0 <= b < j ==> !(rv[b].key == rv[i as int].key && rv[b].seq
                        == rv[i as int].seq),
            decreases i - j,
        {
            if recs[j].seq == recs[i].seq && bytes_eq(
                recs[j].key.as_slice(),
                recs[i].key.as_slice(),
            ) {
                proof {
                    assert(rv[j as int].key == rv[i as int].key && rv[j as int].seq
                        == rv[i as int].seq);
                }
                return false;
            }
            j += 1;
        }
        i += 1;
    }
    proof {
        // the loop checked each unordered pair once; the claim is symmetric
        assert forall|a: int, b: int|
            0 <= a < rv.len() && 0 <= b < rv.len() && a != b && (#[trigger] rv[a]).key == (
            #[trigger] rv[b]).key implies rv[a].seq != rv[b].seq by {
            let lo = if a < b {
                a
            } else {
                b
            };
            let hi = if a < b {
                b
            } else {
                a
            };
            assert(rv[lo].key == rv[hi].key ==> rv[lo].seq != rv[hi].seq);
        }
    }
    true
}

/// Keeps the candidate with the higher sequence number, the second argument
/// winning ties; the executable mirror of `better` on lookup outcomes.
pub(crate) fn combine_found(a: Option<FoundVersion>, b: Option<FoundVersion>) -> (r: Option<
    FoundVersion,
>)
    ensures
        r == (match (a, b) {
            (x, None) => x,
            (None, y) => y,
            (Some(x), Some(y)) => if y.seq >= x.seq {
                Some(y)
            } else {
                Some(x)
            },
        }),
{
    match (a, b) {
        (x, None) => x,
        (None, y) => y,
        (Some(x), Some(y)) => if y.seq >= x.seq {
            Some(y)
        } else {
            Some(x)
        },
    }
}

/// The visible version of `key` at snapshot `snap` across everything one
/// column family holds: table files of every level (deepest first), sealed
/// memtables, then the active write buffer, newer stores winning ties.
pub(crate) fn cf_state_lookup(st: &ColumnFamilyState, key: &[u8], snap: u64) -> (r: Option<
    FoundVersion,
>)
    ensures
        found_matches(r, newest_version(cf_state_records(*st), key@, snap)),
{
    let mut best: Option<FoundVersion> = None;
    let ghost mut processed: Seq<RecordModel> = Seq::empty();
    proof {
        assert(st.levels@.skip(st.levels@.len() as int) =~= Seq::<LevelState>::empty());
        assert(processed =~= levels_records(st.levels@.skip(st.levels@.len() as int)));
    }
    let mut li: usize = st.levels.len();
    while li > 0
        invariant
            0 <= li <= st.levels@.len(),
            processed == levels_records(st.levels@.skip(li as int)),
            found_matches(best, newest_version(processed, key@, snap)),
        decreases li,
    {
        li -= 1;
        let ghost level_base = processed;
        let files = &st.levels[li].files;
        let mut fj: usize = 0;
        proof {
            assert(files_records(files@.take(0)) =~= Seq::<RecordModel>::empty());
            assert(processed =~= level_base + files_records(files@.take(0)));
        }
        while fj < files.len()
            invariant
                0 <= fj <= files@.len(),
                0 <= li < st.levels@.len(),
                files@ == st.levels@[li as int].files@,
                level_base == levels_records(st.levels@.skip(li as int + 1)),
                processed == level_base + files_records(files@.take(fj as int)),
                found_matches(best, newest_version(processed, key@, snap)),
            decreases files@.len() - fj,
        {
            let cand = files[fj].lookup(key, snap);
            proof {
                lemma_newest_concat(processed, files@[fj as int].spec_records(), key@, snap);
            }
            best = combine_found(best, cand);
            proof {
                processed = processed + files@[fj as int].spec_records();
                assert(files@.take(fj as int + 1).drop_last() =~= files@.take(fj as int));
                assert(files@.take(fj as int + 1).last() == files@[fj as int]);
                assert(processed =~= level_base + files_records(files@.take(fj as int + 1)));
            }
            fj += 1;
        }
        proof {
            assert(files@.take(files@.len() as int) =~= files@);
            assert(st.levels@.skip(li as int).drop_first() =~= st.levels@.skip(li as int + 1));
            assert(st.levels@.skip(li as int).first() == st.levels@[li as int]);
            assert(processed =~= levels_records(st.levels@.skip(li as int)));
        }
    }
    proof {
        assert(st.levels@.skip(0) =~= st.levels@);
        assert(memtables_records(st.immutables@.take(0)) =~= Seq::<RecordModel>::empty());
    }
    let ghost lv_all = processed;
    let mut mi: usize = 0;
    while mi < st.immutables.len()
        invariant
            0 <= mi <= st.immutables@.len(),
            lv_all == levels_records(st.levels@),
            processed == lv_all + memtables_records(st.immutables@.take(mi as int)),
            found_matches(best, newest_version(processed, key@, snap)),
        decreases st.immutables@.len() - mi,
    {
        let cand = st.immutables[mi].lookup(key, snap);
        proof {
            lemma_newest_concat(processed, st.immutables@[mi as int].spec_records(), key@, snap);
        }
        best = combine_found(best, cand);
        proof {
            processed = processed + st.immutables@[mi as int].spec_records();
            assert(st.immutables@.take(mi as int + 1).drop_last() =~= st.immutables@.take(
                mi as int,
            ));
            assert(st.immutables@.take(mi as int + 1).last() == st.immutables@[mi as int]);
            assert(processed =~= lv_all + memtables_records(st.immutables@.take(mi as int + 1)));
        }
        mi += 1;
    }
    proof {
        assert(st.immutables@.take(st.immutables@.len() as int) =~= st.immutables@);
    }
    let cand = st.memtable.lookup(key, snap);
    proof {
        lemma_newest_concat(processed, st.memtable.spec_records(), key@, snap);
    }
    let r = combine_found(best, cand);
    proof {
        assert(processed + st.memtable.spec_records() =~= cf_state_records(*st));
    }
    r
}

/// A memtable run's records start with its oldest memtable's.
pub(crate) proof fn lemma_memtables_records_first(ms: Seq<Memtable>)
    requires
        ms.len() > 0,
    ensures
        memtables_records(ms) == ms.first().spec_records() + memtables_records(ms.drop_first()),
    decreases ms.len(),
{
    if ms.len() == 1 {
        assert(ms.drop_last() =~= Seq::<Memtable>::empty());
        assert(ms.drop_first() =~= Seq::<Memtable>::empty());
        assert(ms.last() == ms.first());
        assert(memtables_records(ms) =~= ms.first().spec_records() + memtables_records(
            ms.drop_first(),
        ));
    } else {
        lemma_memtables_records_first(ms.drop_last());
        assert(ms.drop_last().first() == ms.first());
        assert(ms.drop_last().drop_first() =~= ms.drop_first().drop_last());
        assert(ms.drop_first().last() == ms.last());
        assert(ms.drop_first().len() > 0);
        assert(memtables_records(ms) == memtables_records(ms.drop_last()) + ms.last().spec_records());
        assert(memtables_records(ms.drop_first()) == memtables_records(ms.drop_first().drop_last())
            + ms.last().spec_records());
        assert(memtables_records(ms) =~= ms.first().spec_records() + memtables_records(
            ms.drop_first(),
        ));
    }
}

/// Appending a deeper level prepends its files' records to the level scan,
/// which runs deepest level first.
pub(crate) proof fn lemma_levels_records_push(lv: Seq<LevelState>, l: LevelState)
    ensures
        levels_records(lv.push(l)) == files_records(l.files@) + levels_records(lv),
    decreases lv.len(),
{
    if lv.len() == 0 {
        assert(lv.push(l).drop_first() =~= Seq::<LevelState>::empty());
        assert(lv.push(l).first() == l);
        assert(levels_records(Seq::<LevelState>::empty()) =~= Seq::<RecordModel>::empty());
        assert(levels_records(lv.push(l)) =~= files_records(l.files@) + levels_records(lv));
    } else {
        assert(lv.push(l).drop_first() =~= lv.drop_first().push(l));
        assert(lv.push(l).first() == lv.first());
        lemma_levels_records_push(lv.drop_first(), l);
        assert(levels_records(lv.push(l)) =~= files_records(l.files@) + levels_records(lv));
    }
}

/// The name of the family in a slot, empty for a free slot.
pub(crate) open spec fn slot_name(slots: Seq<Option<ColumnFamilyState>>, c: int) -> Seq<char> {
    match slots[c] {
        Some(st) => st.name@,
        None => Seq::empty(),
    }
}

/// Well-formedness of the column family slots against the sequence
/// allocator: each live family's records are well formed, and no two live
/// families share a name.
pub(crate) open spec fn wf_cfs(slots: Seq<Option<ColumnFamilyState>>, next_seq: u64) -> bool {
    &&& forall|c: int|
        #![trigger slots[c]]
        0 <= c < slots.len() ==> match slots[c] {
            Some(st) => records_wf(cf_state_records(st), next_seq),
            None => true,
        }
    &&& forall|c1: int, c2: int|
        #![trigger slots[c1], slots[c2]]
        0 <= c1 < slots.len() && 0 <= c2 < slots.len() && c1 != c2 && slots[c1] is Some
            && slots[c2] is Some ==> slot_name(slots, c1) != slot_name(slots, c2)
}

/// Well-formedness of the live-transaction registry: snapshots were taken
/// from committed state and ids are unique and below the allocator.
pub(crate) open spec fn wf_txns(live: Seq<LiveTxn>, next_seq: u64, next_txn_id: u64) -> bool {
    &&& forall|i: int|
        #![trigger live[i]]
        0 <= i < live.len() ==> live[i].snapshot < next_seq && live[i].txn_id < next_txn_id
    &&& forall|i: int, j: int|
        #![trigger live[i], live[j]]
        0 <= i < j < live.len() ==> live[i].txn_id != live[j].txn_id
}

/// No two registry entries share a name.
pub(crate) open spec fn comparators_unique(cs: Seq<RegisteredComparator>) -> bool {
    forall|i: int, j: int|
        #![trigger cs[i], cs[j]]
        0 <= i < j < cs.len() ==> cs[i].name@ != cs[j].name@
}

} // verus!
