//! The shared block cache: bounded slots over decompressed block contents,
//! keyed by file id and block offset, with clock (second-chance) eviction.
//!
//! Each slot carries a reference bit, set on every hit. On insertion the
//! eviction hand sweeps: a set bit buys the slot a second chance and is
//! cleared, a clear bit makes the slot the victim. The cache never invents
//! data: every hit returns exactly what was inserted under that key, and an
//! insertion displaces at most one other entry. The cache stands on its
//! own: point reads serve from resident table records and do not yet fault
//! blocks through it, so the cache-size knob configures nothing further.

use vstd::prelude::*;
use vstd::slice::slice_to_vec;

verus! {

/// One cached block and its clock state.
pub(crate) struct CacheEntry {
    pub(crate) file_id: u64,
    pub(crate) block_offset: u64,
    pub(crate) data: Vec<u8>,
    pub(crate) referenced: bool,
}

/// A bounded clock cache.
pub struct ClockCache {
    pub(crate) slots: Vec<Option<CacheEntry>>,
    pub(crate) hand: usize,
}

impl ClockCache {
    /// How many slots the cache was sized with.
    pub closed spec fn spec_capacity(self) -> nat {
        self.slots@.len()
    }

    /// Whether a block is cached.
    pub closed spec fn spec_has(self, fid: u64, ofs: u64) -> bool {
        exists|i: int|
            #![trigger self.slots@[i]]
            0 <= i < self.slots@.len() && (match self.slots@[i] {
                Some(e) => e.file_id == fid && e.block_offset == ofs,
                None => false,
            })
    }

    /// The cached bytes of a block.
    pub closed spec fn spec_get(self, fid: u64, ofs: u64) -> Seq<u8> {
        let i = choose|i: int|
            #![trigger self.slots@[i]]
            0 <= i < self.slots@.len() && (match self.slots@[i] {
                Some(e) => e.file_id == fid && e.block_offset == ofs,
                None => false,
            });
        match self.slots@[i] {
            Some(e) => e.data@,
            None => Seq::empty(),
        }
    }

    /// How many slots are occupied.
    pub closed spec fn spec_occupied(self) -> nat {
        occupied_count(self.slots@)
    }

    /// Well-formedness: a fixed nonzero slot count, the hand inside it, and
    /// no key cached twice.
    pub closed spec fn wf(self) -> bool {
        &&& 1 <= self.slots@.len() <= 1_000_000
        &&& self.hand < self.slots@.len()
        &&& forall|i: int, j: int|
            #![trigger self.slots@[i], self.slots@[j]]
            0 <= i < j < self.slots@.len() ==> (match (self.slots@[i], self.slots@[j]) {
                (Some(a), Some(b)) => !(a.file_id == b.file_id && a.block_offset
                    == b.block_offset),
                _ => true,
            })
    }

    /// An empty cache sized from a byte budget, one slot per block-sized
    /// chunk, at least one.
    pub fn new(capacity_bytes: usize) -> (r: ClockCache)
        ensures
            r.wf(),
            forall|f: u64, o: u64| !#[trigger] r.spec_has(f, o),
            r.spec_capacity() >= 1,
    {
        let wanted = capacity_bytes / 4096;
        let n: usize = if wanted == 0 {
            1
        } else if wanted > 1_000_000 {
            1_000_000
        } else {
            wanted
        };
        let mut slots: Vec<Option<CacheEntry>> = Vec::new();
        let mut i: usize = 0;
        while i < n
            invariant
                i <= n,
                slots@.len() == i,
                forall|j: int| 0 <= j < i ==> #[trigger] slots@[j] is None,
            decreases n - i,
        {
            slots.push(None);
            i += 1;
        }
        let r = ClockCache { slots, hand: 0 };
        proof {
            assert forall|f: u64, o: u64| !#[trigger] r.spec_has(f, o) by {
                if r.spec_has(f, o) {
                    let k = choose|k: int|
                        #![trigger r.slots@[k]]
                        0 <= k < r.slots@.len() && (match r.slots@[k] {
                            Some(e) => e.file_id == f && e.block_offset == o,
                            None => false,
                        });
                    assert(r.slots@[k] is None);
                }
            }
        }
        r
    }

    /// Looks a block up. A hit returns exactly the bytes inserted under the
    /// key and marks the slot recently used; the cached contents are
    /// unchanged either way.
    pub fn lookup(&mut self, fid: u64, ofs: u64) -> (r: Option<Vec<u8>>)
        requires
            old(self).wf(),
        ensures
            final(self).wf(),
            final(self).spec_capacity() == old(self).spec_capacity(),
            forall|f: u64, o: u64|
                #![trigger final(self).spec_has(f, o)]
                final(self).spec_has(f, o) == old(self).spec_has(f, o) && (old(self).spec_has(
                    f,
                    o,
                ) ==> final(self).spec_get(f, o) == old(self).spec_get(f, o)),
            match r {
                Some(v) => old(self).spec_has(fid, ofs) && v@ == old(self).spec_get(fid, ofs),
                None => !old(self).spec_has(fid, ofs),
            },
    {
        match self.find_slot(fid, ofs) {
            None => None,
            Some(i) => {
                let data = match &self.slots[i] {
                    Some(e) => slice_to_vec(e.data.as_slice()),
                    None => Vec::new(),
                };
                let entry = CacheEntry {
                    file_id: fid,
                    block_offset: ofs,
                    data: slice_to_vec(data.as_slice()),
                    referenced: true,
                };
                let slot = &mut self.slots[i];
                *slot = Some(entry);
                proof {
                    lemma_same_keys_frame(*old(self), *self, i as int);
                    lemma_get_at(*old(self), fid, ofs, i as int);
                    lemma_get_at(*self, fid, ofs, i as int);
                }
                Some(data)
            },
        }
    }

    /// Inserts a block. The key afterwards maps to exactly these bytes;
    /// every other surviving entry is one that was present before, with its
    /// bytes unchanged, and at most one entry is displaced — the victim the
    /// clock sweep chose.
    pub fn insert(&mut self, fid: u64, ofs: u64, data: Vec<u8>)
        requires
            old(self).wf(),
        ensures
            final(self).wf(),
            final(self).spec_capacity() == old(self).spec_capacity(),
            final(self).spec_has(fid, ofs),
            final(self).spec_get(fid, ofs) == data@,
            forall|f: u64, o: u64|
                #![trigger final(self).spec_has(f, o)]
                !(f == fid && o == ofs) && final(self).spec_has(f, o) ==> old(self).spec_has(f, o)
                    && final(self).spec_get(f, o) == old(self).spec_get(f, o),
            final(self).spec_occupied() >= old(self).spec_occupied(),
            final(self).spec_occupied() <= old(self).spec_occupied() + 1,
    {
        let target: usize = match self.find_slot(fid, ofs) {
            Some(i) => i,
            None => self.sweep(),
        };
        let ghost pre = *self;
        proof {
            assert forall|i: int| 0 <= i < old(self).slots@.len() implies slot_same_content(
                #[trigger] pre.slots@[i],
                old(self).slots@[i],
            ) by {}
            lemma_content_frame(*old(self), pre);
        }
        let entry = CacheEntry { file_id: fid, block_offset: ofs, data, referenced: true };
        let slot = &mut self.slots[target];
        let had = slot.is_some();
        *slot = Some(entry);
        proof {
            assert(self.slots@ =~= pre.slots@.update(target as int, self.slots@[target as int]));
            assert forall|i: int, j: int|
                0 <= i < j < self.slots@.len() implies (match (
                #[trigger] self.slots@[i],
                #[trigger] self.slots@[j],
            ) {
                (Some(a), Some(b)) => !(a.file_id == b.file_id && a.block_offset
                    == b.block_offset),
                _ => true,
            }) by {
                if i != target && j != target {
                    assert(self.slots@[i] == pre.slots@[i] && self.slots@[j] == pre.slots@[j]);
                } else {
                    let other = if i == target {
                        j
                    } else {
                        i
                    };
                    if other != target {
                        assert(self.slots@[other] == pre.slots@[other]);
                        match pre.slots@[other] {
                            Some(b) => {
                                if b.file_id == fid && b.block_offset == ofs {
                                    assert(pre.spec_has(fid, ofs));
                                    // then find_slot found it, so target is
                                    // that very slot
                                    assert(false);
                                }
                            },
                            None => {},
                        }
                    }
                }
            }
            assert(self.spec_has(fid, ofs)) by {
                assert(match self.slots@[target as int] {
                    Some(e) => e.file_id == fid && e.block_offset == ofs,
                    None => false,
                });
            }
            lemma_get_at(*self, fid, ofs, target as int);
            assert forall|f: u64, o: u64|
                !(f == fid && o == ofs) && #[trigger] self.spec_has(f, o) implies old(
                self,
            ).spec_has(f, o) && self.spec_get(f, o) == old(self).spec_get(f, o) by {
                assert(pre.spec_has(f, o) == old(self).spec_has(f, o));
                let k = choose|k: int|
                    #![trigger self.slots@[k]]
                    0 <= k < self.slots@.len() && (match self.slots@[k] {
                        Some(e) => e.file_id == f && e.block_offset == o,
                        None => false,
                    });
                assert(k != target);
                assert(self.slots@[k] == pre.slots@[k]);
                lemma_get_at(pre, f, o, k);
                lemma_get_at(*self, f, o, k);
            }
            lemma_occupied_update(pre.slots@, target as int, self.slots@[target as int]);
            assert(occupied_count(pre.slots@) == occupied_count(old(self).slots@));
        }
    }

    /// The slot holding a key, if any.
    fn find_slot(&self, fid: u64, ofs: u64) -> (r: Option<usize>)
        ensures
            match r {
                Some(i) => i < self.slots@.len() && (match self.slots@[i as int] {
                    Some(e) => e.file_id == fid && e.block_offset == ofs,
                    None => false,
                }),
                None => !self.spec_has(fid, ofs),
            },
    {
        let mut i: usize = 0;
        while i < self.slots.len()
            invariant
                i <= self.slots@.len(),
                forall|j: int|
                    #![trigger self.slots@[j]]
                    0 <= j < i ==> (match self.slots@[j] {
                        Some(e) => !(e.file_id == fid && e.block_offset == ofs),
                        None => true,
                    }),
            decreases self.slots@.len() - i,
        {
            let hit = match &self.slots[i] {
                Some(e) => e.file_id == fid && e.block_offset == ofs,
                None => false,
            };
            if hit {
                return Some(i);
            }
            i += 1;
        }
        proof {
            if self.spec_has(fid, ofs) {
                let k = choose|k: int|
                    #![trigger self.slots@[k]]
                    0 <= k < self.slots@.len() && (match self.slots@[k] {
                        Some(e) => e.file_id == fid && e.block_offset == ofs,
                        None => false,
                    });
                assert(0 <= k < self.slots@.len());
            }
        }
        None
    }

    /// The clock sweep: advances the hand, clearing reference bits, until a
    /// free or unreferenced slot turns up; after two full sweeps the slot
    /// under the hand is taken regardless.
    fn sweep(&mut self) -> (r: usize)
        requires
            old(self).wf(),
        ensures
            final(self).wf(),
            r < final(self).slots@.len(),
            final(self).slots@.len() == old(self).slots@.len(),
            forall|i: int|
                #![trigger final(self).slots@[i]]
                0 <= i < old(self).slots@.len() ==> slot_same_content(
                    final(self).slots@[i],
                    old(self).slots@[i],
                ),
    {
        let cap = self.slots.len();
        let mut steps: usize = 0;
        let ghost pre = *self;
        while steps < 2 * cap
            invariant
                pre == *old(self),
                self.slots@.len() == pre.slots@.len(),
                1 <= self.slots@.len() <= 1_000_000,
                self.hand < self.slots@.len(),
                cap == self.slots@.len(),
                forall|i: int, j: int|
                    #![trigger self.slots@[i], self.slots@[j]]
                    0 <= i < j < self.slots@.len() ==> (match (self.slots@[i], self.slots@[j]) {
                        (Some(a), Some(b)) => !(a.file_id == b.file_id && a.block_offset
                            == b.block_offset),
                        _ => true,
                    }),
                forall|i: int|
                    #![trigger self.slots@[i]]
                    0 <= i < pre.slots@.len() ==> slot_same_content(
                        self.slots@[i],
                        pre.slots@[i],
                    ),
            decreases 2 * cap - steps,
        {
            let h = self.hand;
            let give_chance = match &self.slots[h] {
                Some(e) => e.referenced,
                None => false,
            };
            if !give_chance {
                self.hand = if h + 1 < cap {
                    h + 1
                } else {
                    0
                };
                return h;
            }
            let ghost before = *self;
            let cleared = match &self.slots[h] {
                Some(e) => Some(
                    CacheEntry {
                        file_id: e.file_id,
                        block_offset: e.block_offset,
                        data: slice_to_vec(e.data.as_slice()),
                        referenced: false,
                    },
                ),
                None => None,
            };
            let slot = &mut self.slots[h];
            *slot = cleared;
            proof {
                assert forall|i: int| 0 <= i < pre.slots@.len() implies slot_same_content(
                    #[trigger] self.slots@[i],
                    pre.slots@[i],
                ) by {
                    if i != h {
                        assert(self.slots@[i] == before.slots@[i]);
                    }
                    assert(slot_same_content(before.slots@[i], pre.slots@[i]));
                }
                assert forall|i: int, j: int|
                    0 <= i < j < self.slots@.len() implies (match (
                    #[trigger] self.slots@[i],
                    #[trigger] self.slots@[j],
                ) {
                    (Some(a), Some(b)) => !(a.file_id == b.file_id && a.block_offset
                        == b.block_offset),
                    _ => true,
                }) by {
                    assert(slot_same_content(self.slots@[i], pre.slots@[i]));
                    assert(slot_same_content(self.slots@[j], pre.slots@[j]));
                }
            }
            self.hand = if h + 1 < cap {
                h + 1
            } else {
                0
            };
            steps += 1;
        }
        let h = self.hand;
        self.hand = if h + 1 < cap {
            h + 1
        } else {
            0
        };
        h
    }
}

/// Two slots hold the same key and the same bytes (reference bits may
/// differ).
pub(crate) open spec fn slot_same_content(a: Option<CacheEntry>, b: Option<CacheEntry>) -> bool {
    &&& slot_key(a) == slot_key(b)
    &&& (match (a, b) {
        (Some(x), Some(y)) => x.data@ == y.data@,
        _ => true,
    })
}

/// Equal contents slot for slot: the same keys are cached with the same
/// bytes, and as many slots are occupied.
pub(crate) proof fn lemma_content_frame(x: ClockCache, y: ClockCache)
    requires
        x.wf(),
        y.slots@.len() == x.slots@.len(),
        y.hand < y.slots@.len(),
        forall|i: int|
            #![trigger y.slots@[i]]
            0 <= i < x.slots@.len() ==> slot_same_content(y.slots@[i], x.slots@[i]),
    ensures
        y.wf(),
        forall|f: u64, o: u64|
            #![trigger y.spec_has(f, o)]
            y.spec_has(f, o) == x.spec_has(f, o) && (x.spec_has(f, o) ==> y.spec_get(f, o)
                == x.spec_get(f, o)),
        occupied_count(y.slots@) == occupied_count(x.slots@),
{
    assert forall|i: int, j: int|
        0 <= i < j < y.slots@.len() implies (match (
        #[trigger] y.slots@[i],
        #[trigger] y.slots@[j],
    ) {
        (Some(a), Some(b)) => !(a.file_id == b.file_id && a.block_offset == b.block_offset),
        _ => true,
    }) by {
        assert(slot_key(y.slots@[i]) == slot_key(x.slots@[i]));
        assert(slot_key(y.slots@[j]) == slot_key(x.slots@[j]));
    }
    assert forall|f: u64, o: u64|
        #![trigger y.spec_has(f, o)]
        y.spec_has(f, o) == x.spec_has(f, o) && (x.spec_has(f, o) ==> y.spec_get(f, o)
            == x.spec_get(f, o)) by {
        if y.spec_has(f, o) {
            let k = choose|k: int|
                #![trigger y.slots@[k]]
                0 <= k < y.slots@.len() && (match y.slots@[k] {
                    Some(e) => e.file_id == f && e.block_offset == o,
                    None => false,
                });
            assert(slot_same_content(y.slots@[k], x.slots@[k]));
            assert(x.spec_has(f, o));
        }
        if x.spec_has(f, o) {
            let k = choose|k: int|
                #![trigger x.slots@[k]]
                0 <= k < x.slots@.len() && (match x.slots@[k] {
                    Some(e) => e.file_id == f && e.block_offset == o,
                    None => false,
                });
            assert(slot_same_content(y.slots@[k], x.slots@[k]));
            lemma_get_at(x, f, o, k);
            assert(match y.slots@[k] {
                Some(e) => e.file_id == f && e.block_offset == o,
                None => false,
            });
            lemma_get_at(y, f, o, k);
        }
    }
    lemma_occupied_same(y.slots@, x.slots@);
}

/// Slot-for-slot content equality keeps the occupied count.
pub(crate) proof fn lemma_occupied_same(a: Seq<Option<CacheEntry>>, b: Seq<Option<CacheEntry>>)
    requires
        a.len() == b.len(),
        forall|i: int| #![trigger a[i]] 0 <= i < a.len() ==> slot_same_content(a[i], b[i]),
    ensures
        occupied_count(a) == occupied_count(b),
    decreases a.len(),
{
    if a.len() > 0 {
        assert(slot_same_content(a[a.len() - 1], b[a.len() - 1]));
        assert forall|i: int| 0 <= i < a.drop_last().len() implies slot_same_content(
            #[trigger] a.drop_last()[i],
            b.drop_last()[i],
        ) by {
            assert(a.drop_last()[i] == a[i] && b.drop_last()[i] == b[i]);
        }
        lemma_occupied_same(a.drop_last(), b.drop_last());
    }
}

/// The key of a slot, if it is occupied.
pub(crate) open spec fn slot_key(s: Option<CacheEntry>) -> Option<(u64, u64)> {
    match s {
        Some(e) => Some((e.file_id, e.block_offset)),
        None => None,
    }
}

/// How many slots of a run are occupied.
pub(crate) open spec fn occupied_count(slots: Seq<Option<CacheEntry>>) -> nat
    decreases slots.len(),
{
    if slots.len() == 0 {
        0
    } else {
        occupied_count(slots.drop_last()) + (if slots.last() is Some {
            1nat
        } else {
            0nat
        })
    }
}

/// Replacing one slot changes the occupied count by at most one, and never
/// empties an occupied slot here (the new value is occupied).
pub(crate) proof fn lemma_occupied_update(
    slots: Seq<Option<CacheEntry>>,
    at: int,
    v: Option<CacheEntry>,
)
    requires
        0 <= at < slots.len(),
        v is Some,
    ensures
        occupied_count(slots.update(at, v)) >= occupied_count(slots),
        occupied_count(slots.update(at, v)) <= occupied_count(slots) + 1,
    decreases slots.len(),
{
    let upd = slots.update(at, v);
    if at == slots.len() - 1 {
        assert(upd.drop_last() =~= slots.drop_last());
        assert(upd.last() == v);
    } else {
        assert(upd.drop_last() =~= slots.drop_last().update(at, v));
        assert(upd.last() == slots.last());
        lemma_occupied_update(slots.drop_last(), at, v);
    }
}

/// After rewriting slot `at` with an entry of the same key and bytes, the
/// same keys are cached with the same bytes.
pub(crate) proof fn lemma_same_keys_frame(pre: ClockCache, post: ClockCache, at: int)
    requires
        pre.wf(),
        post.slots@.len() == pre.slots@.len(),
        0 <= at < pre.slots@.len(),
        forall|i: int|
            #![trigger post.slots@[i]]
            0 <= i < pre.slots@.len() && i != at ==> post.slots@[i] == pre.slots@[i],
        slot_key(post.slots@[at]) == slot_key(pre.slots@[at]),
        (match (post.slots@[at], pre.slots@[at]) {
            (Some(a), Some(b)) => a.data@ == b.data@,
            _ => true,
        }),
        post.hand < post.slots@.len(),
    ensures
        post.wf(),
        forall|f: u64, o: u64|
            #![trigger post.spec_has(f, o)]
            post.spec_has(f, o) == pre.spec_has(f, o) && (pre.spec_has(f, o) ==> post.spec_get(
                f,
                o,
            ) == pre.spec_get(f, o)),
{
    assert forall|i: int, j: int|
        0 <= i < j < post.slots@.len() implies (match (
        #[trigger] post.slots@[i],
        #[trigger] post.slots@[j],
    ) {
        (Some(a), Some(b)) => !(a.file_id == b.file_id && a.block_offset == b.block_offset),
        _ => true,
    }) by {
        assert(slot_key(post.slots@[i]) == slot_key(pre.slots@[i]));
        assert(slot_key(post.slots@[j]) == slot_key(pre.slots@[j]));
    }
    assert forall|f: u64, o: u64| #![trigger post.spec_has(f, o)] post.spec_has(f, o)
        == pre.spec_has(f, o) by {
        if post.spec_has(f, o) {
            let k = choose|k: int|
                #![trigger post.slots@[k]]
                0 <= k < post.slots@.len() && (match post.slots@[k] {
                    Some(e) => e.file_id == f && e.block_offset == o,
                    None => false,
                });
            assert(slot_key(post.slots@[k]) == slot_key(pre.slots@[k]));
            assert(match pre.slots@[k] {
                Some(e) => e.file_id == f && e.block_offset == o,
                None => false,
            });
        }
        if pre.spec_has(f, o) {
            let k = choose|k: int|
                #![trigger pre.slots@[k]]
                0 <= k < pre.slots@.len() && (match pre.slots@[k] {
                    Some(e) => e.file_id == f && e.block_offset == o,
                    None => false,
                });
            assert(slot_key(post.slots@[k]) == slot_key(pre.slots@[k]));
            assert(match post.slots@[k] {
                Some(e) => e.file_id == f && e.block_offset == o,
                None => false,
            });
        }
    }
    assert forall|f: u64, o: u64|
        #![trigger post.spec_has(f, o)]
        pre.spec_has(f, o) implies post.spec_get(f, o) == pre.spec_get(f, o) by {
        let k = choose|k: int|
            #![trigger pre.slots@[k]]
            0 <= k < pre.slots@.len() && (match pre.slots@[k] {
                Some(e) => e.file_id == f && e.block_offset == o,
                None => false,
            });
        lemma_get_at(pre, f, o, k);
        assert(match post.slots@[k] {
            Some(e) => e.file_id == f && e.block_offset == o,
            None => false,
        });
        lemma_get_at(post, f, o, k);
        if k == at {
            assert(match (post.slots@[at], pre.slots@[at]) {
                (Some(a), Some(b)) => a.data@ == b.data@,
                _ => true,
            });
        }
    }
}

/// Under key uniqueness, any slot holding the key gives the cached bytes.
pub(crate) proof fn lemma_get_at(c: ClockCache, fid: u64, ofs: u64, at: int)
    requires
        c.wf(),
        0 <= at < c.slots@.len(),
        (match c.slots@[at] {
            Some(e) => e.file_id == fid && e.block_offset == ofs,
            None => false,
        }),
    ensures
        c.spec_has(fid, ofs),
        c.spec_get(fid, ofs) == (match c.slots@[at] {
            Some(e) => e.data@,
            None => Seq::empty(),
        }),
{
    assert(c.spec_has(fid, ofs));
    let k = choose|k: int|
        #![trigger c.slots@[k]]
        0 <= k < c.slots@.len() && (match c.slots@[k] {
            Some(e) => e.file_id == fid && e.block_offset == ofs,
            None => false,
        });
    if k != at {
        assert(match (c.slots@[k], c.slots@[at]) {
            (Some(a), Some(b)) => !(a.file_id == b.file_id && a.block_offset == b.block_offset),
            _ => true,
        });
    }
}

} // verus!
