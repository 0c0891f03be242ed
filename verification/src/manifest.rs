//! The manifest: a durable, append-only log of level membership and
//! comparator bindings, replayed on reopen to reconstruct level state.
//!
//! An entry is appended whole; a crash can leave a partial entry at the
//! tail. Replay walks complete entries from the front and stops at the
//! first incomplete one — an operation whose record is cut short is treated
//! as never having happened, and everything before it survives. Both laws
//! are proved: appending an entry extends the replay by exactly that entry,
//! and a torn tail changes nothing.

use vstd::prelude::*;
use vstd::slice::slice_to_vec;

use crate::wire::le32;
use crate::wire::le64;
use crate::wire::lemma_u32_le_inverse;
use crate::wire::lemma_u64_le_inverse;
use crate::wire::push_u32_le;
use crate::wire::push_u64_le;
use crate::wire::read_u32_le;
use crate::wire::read_u64_le;
use crate::wire::u32_le;
use crate::wire::u64_le;

verus! {

/// One durable manifest operation.
pub enum ManifestEntry {
    /// A table file joined a level of a column family.
    AddFile { cf_id: u32, level: u32, file_id: u64 },
    /// A table file left a level of a column family.
    RemoveFile { cf_id: u32, level: u32, file_id: u64 },
    /// A comparator name was bound for a column family.
    RegisterComparator { cf_id: u32, name: Vec<u8> },
}

/// The mathematical shadow of a manifest entry.
pub ghost enum ManifestEntryModel {
    AddFile { cf_id: u32, level: u32, file_id: u64 },
    RemoveFile { cf_id: u32, level: u32, file_id: u64 },
    RegisterComparator { cf_id: u32, name: Seq<u8> },
}

impl View for ManifestEntry {
    type V = ManifestEntryModel;

    open spec fn view(&self) -> ManifestEntryModel {
        match self {
            ManifestEntry::AddFile { cf_id, level, file_id } => ManifestEntryModel::AddFile {
                cf_id: *cf_id,
                level: *level,
                file_id: *file_id,
            },
            ManifestEntry::RemoveFile { cf_id, level, file_id } => ManifestEntryModel::RemoveFile {
                cf_id: *cf_id,
                level: *level,
                file_id: *file_id,
            },
            ManifestEntry::RegisterComparator { cf_id, name } => {
                ManifestEntryModel::RegisterComparator { cf_id: *cf_id, name: name@ }
            },
        }
    }
}

/// An entry fits the wire format.
pub open spec fn entry_encodable(e: ManifestEntryModel) -> bool {
    match e {
        ManifestEntryModel::RegisterComparator { name, .. } => name.len() <= 0xffff,
        _ => true,
    }
}

/// One entry on the wire: a tag byte, then fixed fields, or a length-
/// prefixed name.
pub open spec fn spec_encode_entry(e: ManifestEntryModel) -> Seq<u8> {
    match e {
        ManifestEntryModel::AddFile { cf_id, level, file_id } => seq![1u8] + u32_le(cf_id)
            + u32_le(level) + u64_le(file_id),
        ManifestEntryModel::RemoveFile { cf_id, level, file_id } => seq![2u8] + u32_le(cf_id)
            + u32_le(level) + u64_le(file_id),
        ManifestEntryModel::RegisterComparator { cf_id, name } => seq![3u8] + u32_le(cf_id)
            + u32_le(name.len() as u32) + name,
    }
}

/// The parser for one entry at an offset; a cut-off entry fails.
pub open spec fn spec_parse_entry(b: Seq<u8>, ofs: int) -> Option<(ManifestEntryModel, int)> {
    if ofs < 0 || ofs >= b.len() {
        None
    } else if b[ofs] == 1 || b[ofs] == 2 {
        if ofs + 17 > b.len() {
            None
        } else {
            let cf_id = le32(b.subrange(ofs + 1, ofs + 5));
            let level = le32(b.subrange(ofs + 5, ofs + 9));
            let file_id = le64(b.subrange(ofs + 9, ofs + 17));
            if b[ofs] == 1 {
                Some((ManifestEntryModel::AddFile { cf_id, level, file_id }, ofs + 17))
            } else {
                Some((ManifestEntryModel::RemoveFile { cf_id, level, file_id }, ofs + 17))
            }
        }
    } else if b[ofs] == 3 {
        if ofs + 9 > b.len() {
            None
        } else {
            let cf_id = le32(b.subrange(ofs + 1, ofs + 5));
            let nlen = le32(b.subrange(ofs + 5, ofs + 9)) as int;
            if ofs + 9 + nlen > b.len() {
                None
            } else {
                Some(
                    (
                        ManifestEntryModel::RegisterComparator {
                            cf_id,
                            name: b.subrange(ofs + 9, ofs + 9 + nlen),
                        },
                        ofs + 9 + nlen,
                    ),
                )
            }
        }
    } else {
        None
    }
}

/// Replay from an offset: complete entries in order, stopping at the first
/// incomplete or unreadable one.
pub open spec fn spec_replay(b: Seq<u8>, ofs: int) -> Seq<ManifestEntryModel>
    decreases b.len() - ofs,
{
    match spec_parse_entry(b, ofs) {
        Some((e, o2)) => if ofs < o2 <= b.len() {
            seq![e] + spec_replay(b, o2)
        } else {
            Seq::empty()
        },
        None => Seq::empty(),
    }
}

/// Where replay from an offset stops.
pub open spec fn spec_replay_end(b: Seq<u8>, ofs: int) -> int
    decreases b.len() - ofs,
{
    match spec_parse_entry(b, ofs) {
        Some((e, o2)) => if ofs < o2 <= b.len() {
            spec_replay_end(b, o2)
        } else {
            ofs
        },
        None => ofs,
    }
}

/// The old log survives unchanged at the front of the new one: the log is
/// append-only.
pub open spec fn log_extends(post: Seq<u8>, pre: Seq<u8>) -> bool {
    pre.len() <= post.len() && post.take(pre.len() as int) == pre
}

/// Append-only growth composes.
pub proof fn lemma_log_extends_trans(a: Seq<u8>, b: Seq<u8>, c: Seq<u8>)
    requires
        log_extends(b, a),
        log_extends(c, b),
    ensures
        log_extends(c, a),
{
    assert(c.take(a.len() as int) =~= a) by {
        assert(forall|i: int| 0 <= i < b.len() ==> #[trigger] c[i] == b[i]) by {
            assert(forall|i: int|
                0 <= i < b.len() ==> #[trigger] c.take(b.len() as int)[i] == c[i]);
        }
        assert(forall|i: int| 0 <= i < a.len() ==> #[trigger] b[i] == a[i]) by {
            assert(forall|i: int|
                0 <= i < a.len() ==> #[trigger] b.take(a.len() as int)[i] == b[i]);
        }
    }
}

/// A log is append-consistent when replay consumes it entirely.
pub open spec fn log_wf(b: Seq<u8>) -> bool {
    spec_replay_end(b, 0) == b.len()
}

/// The append-only manifest log.
pub struct Manifest {
    log: Vec<u8>,
}

impl Manifest {
    /// The log bytes.
    pub closed spec fn spec_log(self) -> Seq<u8> {
        self.log@
    }

    /// An empty manifest. The empty log is append-consistent.
    pub fn new() -> (r: Manifest)
        ensures
            r.spec_log() == Seq::<u8>::empty(),
            log_wf(r.spec_log()),
    {
        let r = Manifest { log: Vec::new() };
        proof {
            assert(r.spec_log() =~= Seq::<u8>::empty());
        }
        r
    }

    /// Appends one entry, whole, at the tail.
    pub fn append(&mut self, entry: &ManifestEntry)
        requires
            entry_encodable(entry@),
        ensures
            final(self).spec_log() == old(self).spec_log() + spec_encode_entry(entry@),
    {
        match entry {
            ManifestEntry::AddFile { cf_id, level, file_id } => {
                self.log.push(1);
                push_u32_le(&mut self.log, *cf_id);
                push_u32_le(&mut self.log, *level);
                push_u64_le(&mut self.log, *file_id);
            },
            ManifestEntry::RemoveFile { cf_id, level, file_id } => {
                self.log.push(2);
                push_u32_le(&mut self.log, *cf_id);
                push_u32_le(&mut self.log, *level);
                push_u64_le(&mut self.log, *file_id);
            },
            ManifestEntry::RegisterComparator { cf_id, name } => {
                self.log.push(3);
                push_u32_le(&mut self.log, *cf_id);
                push_u32_le(&mut self.log, name.len() as u32);
                let mut i: usize = 0;
                let ghost mid = self.log@;
                while i < name.len()
                    invariant
                        0 <= i <= name@.len(),
                        self.log@ == mid + name@.take(i as int),
                    decreases name@.len() - i,
                {
                    self.log.push(name[i]);
                    proof {
                        assert(name@.take(i as int + 1) =~= name@.take(i as int) + seq![
                            name@[i as int],
                        ]);
                        assert(self.log@ =~= mid + name@.take(i as int + 1));
                    }
                    i += 1;
                }
                proof {
                    assert(name@.take(name@.len() as int) =~= name@);
                }
            },
        }
        proof {
            assert(self.log@ =~= old(self).log@ + spec_encode_entry(entry@));
        }
    }

    /// Borrows the log bytes, for persisting.
    pub fn log_bytes(&self) -> (r: &[u8])
        ensures
            r@ == self.spec_log(),
    {
        self.log.as_slice()
    }

    /// Replays a persisted log: the complete entries in order, up to the
    /// first incomplete one — an operation whose record was cut short by a
    /// crash is treated as never having happened.
    pub fn replay(bytes: &[u8]) -> (r: Vec<ManifestEntry>)
        ensures
            r@.map_values(|e: ManifestEntry| e@) == spec_replay(bytes@, 0),
    {
        let mut out: Vec<ManifestEntry> = Vec::new();
        let mut ofs: usize = 0;
        proof {
            assert(out@.map_values(|e: ManifestEntry| e@) =~= Seq::<ManifestEntryModel>::empty());
        }
        loop
            invariant
                0 <= ofs <= bytes@.len(),
                spec_replay(bytes@, 0) == out@.map_values(|e: ManifestEntry| e@) + spec_replay(
                    bytes@,
                    ofs as int,
                ),
            ensures
                spec_replay(bytes@, ofs as int) == Seq::<ManifestEntryModel>::empty(),
            decreases bytes@.len() - ofs,
        {
            match parse_entry_exec(bytes, ofs) {
                None => {
                    break ;
                },
                Some((e, o2)) => {
                    let ghost pre_out = out@.map_values(|x: ManifestEntry| x@);
                    let ghost e_m = e@;
                    out.push(e);
                    proof {
                        assert(out@.map_values(|x: ManifestEntry| x@) =~= pre_out + seq![e_m]);
                        assert(spec_replay(bytes@, ofs as int) == seq![e_m] + spec_replay(
                            bytes@,
                            o2 as int,
                        ));
                        assert(pre_out + (seq![e_m] + spec_replay(bytes@, o2 as int)) =~= (pre_out
                            + seq![e_m]) + spec_replay(bytes@, o2 as int));
                    }
                    ofs = o2;
                },
            }
        }
        proof {
            assert(spec_replay(bytes@, 0) =~= out@.map_values(|e: ManifestEntry| e@));
        }
        out
    }
}

/// One table file's live registration: which family and level hold which
/// file.
#[derive(Debug, Clone, Copy, PartialEq, Eq, Structural)]
pub struct LiveFile {
    pub cf_id: u32,
    pub level: u32,
    pub file_id: u64,
}

/// Strikes every registration equal to `f` from the run, keeping order.
pub open spec fn spec_strike(s: Seq<LiveFile>, f: LiveFile) -> Seq<LiveFile>
    decreases s.len(),
{
    if s.len() == 0 {
        Seq::empty()
    } else {
        spec_strike(s.drop_last(), f) + (if s.last() == f {
            Seq::empty()
        } else {
            seq![s.last()]
        })
    }
}

/// The live per-family, per-level file registrations after folding a
/// replayed entry run in order: an add-file entry registers its file, a
/// remove-file entry strikes that registration, a comparator binding
/// changes nothing. This is the reconstruction a reopen performs on the
/// replayed log.
pub open spec fn spec_live_files(es: Seq<ManifestEntryModel>) -> Seq<LiveFile>
    decreases es.len(),
{
    if es.len() == 0 {
        Seq::empty()
    } else {
        let prev = spec_live_files(es.drop_last());
        match es.last() {
            ManifestEntryModel::AddFile { cf_id, level, file_id } => prev.push(
                LiveFile { cf_id, level, file_id },
            ),
            ManifestEntryModel::RemoveFile { cf_id, level, file_id } => spec_strike(
                prev,
                LiveFile { cf_id, level, file_id },
            ),
            ManifestEntryModel::RegisterComparator { .. } => prev,
        }
    }
}

impl Manifest {
    /// Folds replayed entries into the live file registrations, in order:
    /// what a reopen holds after applying every add and remove.
    pub fn live_files(entries: &Vec<ManifestEntry>) -> (r: Vec<LiveFile>)
        ensures
            r@ == spec_live_files(entries@.map_values(|e: ManifestEntry| e@)),
    {
        let ghost es = entries@.map_values(|e: ManifestEntry| e@);
        let mut out: Vec<LiveFile> = Vec::new();
        let mut i: usize = 0;
        proof {
            assert(es.take(0) =~= Seq::<ManifestEntryModel>::empty());
            assert(out@ =~= spec_live_files(es.take(0)));
        }
        while i < entries.len()
            invariant
                0 <= i <= entries@.len(),
                es == entries@.map_values(|e: ManifestEntry| e@),
                out@ == spec_live_files(es.take(i as int)),
            decreases entries@.len() - i,
        {
            proof {
                assert(es.take(i as int + 1).drop_last() =~= es.take(i as int));
                assert(es.take(i as int + 1).last() == es[i as int]);
                assert(es[i as int] == entries@[i as int]@);
            }
            match &entries[i] {
                ManifestEntry::AddFile { cf_id, level, file_id } => {
                    out.push(LiveFile { cf_id: *cf_id, level: *level, file_id: *file_id });
                    proof {
                        assert(out@ =~= spec_live_files(es.take(i as int + 1)));
                    }
                },
                ManifestEntry::RemoveFile { cf_id, level, file_id } => {
                    let target = LiveFile { cf_id: *cf_id, level: *level, file_id: *file_id };
                    out = strike(out, target);
                    proof {
                        assert(out@ =~= spec_live_files(es.take(i as int + 1)));
                    }
                },
                ManifestEntry::RegisterComparator { .. } => {
                    proof {
                        assert(out@ =~= spec_live_files(es.take(i as int + 1)));
                    }
                },
            }
            i += 1;
        }
        proof {
            assert(es.take(es.len() as int) =~= es);
        }
        out
    }
}

/// Strikes every registration equal to `f`, keeping order.
fn strike(s: Vec<LiveFile>, f: LiveFile) -> (r: Vec<LiveFile>)
    ensures
        r@ == spec_strike(s@, f),
{
    let mut out: Vec<LiveFile> = Vec::new();
    let mut j: usize = 0;
    proof {
        assert(s@.take(0) =~= Seq::<LiveFile>::empty());
        assert(out@ =~= spec_strike(s@.take(0), f));
    }
    while j < s.len()
        invariant
            0 <= j <= s@.len(),
            out@ == spec_strike(s@.take(j as int), f),
        decreases s@.len() - j,
    {
        proof {
            assert(s@.take(j as int + 1).drop_last() =~= s@.take(j as int));
            assert(s@.take(j as int + 1).last() == s@[j as int]);
        }
        let keep = s[j].cf_id != f.cf_id || s[j].level != f.level || s[j].file_id != f.file_id;
        if keep {
            out.push(s[j]);
            proof {
                assert(s@[j as int] != f);
                assert(out@ =~= spec_strike(s@.take(j as int + 1), f));
            }
        } else {
            proof {
                assert(s@[j as int] == f);
                assert(out@ =~= spec_strike(s@.take(j as int + 1), f));
            }
        }
        j += 1;
    }
    proof {
        assert(s@.take(s@.len() as int) =~= s@);
    }
    out
}

/// Reads one entry off the wire, mirroring the specification parser.
fn parse_entry_exec(buf: &[u8], ofs: usize) -> (r: Option<(ManifestEntry, usize)>)
    ensures
        (match r {
            Some((e, o2)) => spec_parse_entry(buf@, ofs as int) == Some((e@, o2 as int)) && ofs
                < o2 <= buf@.len(),
            None => spec_parse_entry(buf@, ofs as int) is None,
        }),
{
    if ofs >= buf.len() {
        return None;
    }
    let tag = buf[ofs];
    if tag == 1 || tag == 2 {
        if buf.len() - ofs < 17 {
            return None;
        }
        let cf_id = read_u32_le(buf, ofs + 1);
        let level = read_u32_le(buf, ofs + 5);
        let file_id = read_u64_le(buf, ofs + 9);
        let e = if tag == 1 {
            ManifestEntry::AddFile { cf_id, level, file_id }
        } else {
            ManifestEntry::RemoveFile { cf_id, level, file_id }
        };
        Some((e, ofs + 17))
    } else if tag == 3 {
        if buf.len() - ofs < 9 {
            return None;
        }
        let cf_id = read_u32_le(buf, ofs + 1);
        let nlen = read_u32_le(buf, ofs + 5) as usize;
        if nlen > buf.len() - (ofs + 9) {
            return None;
        }
        let name = slice_to_vec(vstd::slice::slice_subrange(buf, ofs + 9, ofs + 9 + nlen));
        Some((ManifestEntry::RegisterComparator { cf_id, name }, ofs + 9 + nlen))
    } else {
        None
    }
}

/// A complete entry within the bytes parses the same after more bytes are
/// appended.
pub proof fn lemma_parse_entry_extend(b1: Seq<u8>, x: Seq<u8>, ofs: int)
    requires
        (match spec_parse_entry(b1, ofs) {
            Some((e, o2)) => o2 <= b1.len(),
            None => false,
        }),
    ensures
        spec_parse_entry(b1 + x, ofs) == spec_parse_entry(b1, ofs),
{
    let b2 = b1 + x;
    assert(forall|i: int| 0 <= i < b1.len() ==> b2[i] == #[trigger] b1[i]);
    match spec_parse_entry(b1, ofs) {
        Some((e, o2)) => {
            if b1[ofs] == 1 || b1[ofs] == 2 {
                assert(b2.subrange(ofs + 1, ofs + 5) =~= b1.subrange(ofs + 1, ofs + 5));
                assert(b2.subrange(ofs + 5, ofs + 9) =~= b1.subrange(ofs + 5, ofs + 9));
                assert(b2.subrange(ofs + 9, ofs + 17) =~= b1.subrange(ofs + 9, ofs + 17));
            } else {
                assert(b2.subrange(ofs + 1, ofs + 5) =~= b1.subrange(ofs + 1, ofs + 5));
                assert(b2.subrange(ofs + 5, ofs + 9) =~= b1.subrange(ofs + 5, ofs + 9));
                let nlen = le32(b1.subrange(ofs + 5, ofs + 9)) as int;
                assert(b2.subrange(ofs + 9, ofs + 9 + nlen) =~= b1.subrange(ofs + 9, ofs + 9
                    + nlen));
            }
        },
        None => {},
    }
}

/// Replaying an append-consistent log with anything after it: the log's own
/// entries come out first, then whatever the suffix replays to.
pub proof fn lemma_replay_extend(b1: Seq<u8>, x: Seq<u8>, ofs: int)
    requires
        0 <= ofs <= b1.len(),
        spec_replay_end(b1, ofs) == b1.len(),
    ensures
        spec_replay(b1 + x, ofs) == spec_replay(b1, ofs) + spec_replay(b1 + x, b1.len() as int),
    decreases b1.len() - ofs,
{
    let b2 = b1 + x;
    match spec_parse_entry(b1, ofs) {
        Some((e, o2)) => {
            if ofs < o2 <= b1.len() {
                lemma_parse_entry_extend(b1, x, ofs);
                lemma_replay_extend(b1, x, o2);
                assert(spec_replay(b2, ofs) =~= spec_replay(b1, ofs) + spec_replay(
                    b2,
                    b1.len() as int,
                ));
            } else {
                assert(spec_replay_end(b1, ofs) == ofs);
                assert(ofs == b1.len());
                assert(spec_replay(b1, ofs) =~= Seq::<ManifestEntryModel>::empty());
                assert(spec_replay(b2, ofs) =~= spec_replay(b1, ofs) + spec_replay(
                    b2,
                    b1.len() as int,
                ));
            }
        },
        None => {
            assert(spec_replay_end(b1, ofs) == ofs);
            assert(ofs == b1.len());
            assert(spec_replay(b1, ofs) =~= Seq::<ManifestEntryModel>::empty());
            assert(spec_replay(b2, ofs) =~= spec_replay(b1, ofs) + spec_replay(
                b2,
                b1.len() as int,
            ));
        },
    }
}

/// Parsing at the position of one whole encoded entry yields that entry.
pub proof fn lemma_parse_one_entry(b: Seq<u8>, ofs: int, e: ManifestEntryModel)
    requires
        entry_encodable(e),
        0 <= ofs,
        ofs + spec_encode_entry(e).len() <= b.len(),
        b.subrange(ofs, ofs + spec_encode_entry(e).len()) == spec_encode_entry(e),
    ensures
        spec_parse_entry(b, ofs) == Some((e, ofs + spec_encode_entry(e).len())),
{
    let enc = spec_encode_entry(e);
    assert forall|i: int| 0 <= i < enc.len() implies b[ofs + i] == enc[i] by {
        assert(b.subrange(ofs, ofs + enc.len())[i] == b[ofs + i]);
    }
    match e {
        ManifestEntryModel::AddFile { cf_id, level, file_id } => {
            let p0 = seq![1u8];
            let p1 = u32_le(cf_id);
            let p2 = u32_le(level);
            let p3 = u64_le(file_id);
            assert(p0.len() == 1 && p1.len() == 4 && p2.len() == 4 && p3.len() == 8);
            assert(enc == p0 + p1 + p2 + p3);
            assert(enc[0] == p0[0]);
            assert forall|i: int| 0 <= i < 4 implies enc[1 + i] == p1[i] by {}
            assert forall|i: int| 0 <= i < 4 implies enc[5 + i] == p2[i] by {}
            assert forall|i: int| 0 <= i < 8 implies enc[9 + i] == p3[i] by {}
            assert(b[ofs] == 1);
            assert(b.subrange(ofs + 1, ofs + 5) =~= u32_le(cf_id));
            assert(b.subrange(ofs + 5, ofs + 9) =~= u32_le(level));
            assert(b.subrange(ofs + 9, ofs + 17) =~= u64_le(file_id));
            lemma_u32_le_inverse(cf_id);
            lemma_u32_le_inverse(level);
            lemma_u64_le_inverse(file_id);
        },
        ManifestEntryModel::RemoveFile { cf_id, level, file_id } => {
            let p0 = seq![2u8];
            let p1 = u32_le(cf_id);
            let p2 = u32_le(level);
            let p3 = u64_le(file_id);
            assert(p0.len() == 1 && p1.len() == 4 && p2.len() == 4 && p3.len() == 8);
            assert(enc == p0 + p1 + p2 + p3);
            assert(enc[0] == p0[0]);
            assert forall|i: int| 0 <= i < 4 implies enc[1 + i] == p1[i] by {}
            assert forall|i: int| 0 <= i < 4 implies enc[5 + i] == p2[i] by {}
            assert forall|i: int| 0 <= i < 8 implies enc[9 + i] == p3[i] by {}
            assert(b[ofs] == 2);
            assert(b.subrange(ofs + 1, ofs + 5) =~= u32_le(cf_id));
            assert(b.subrange(ofs + 5, ofs + 9) =~= u32_le(level));
            assert(b.subrange(ofs + 9, ofs + 17) =~= u64_le(file_id));
            lemma_u32_le_inverse(cf_id);
            lemma_u32_le_inverse(level);
            lemma_u64_le_inverse(file_id);
        },
        ManifestEntryModel::RegisterComparator { cf_id, name } => {
            let p0 = seq![3u8];
            let p1 = u32_le(cf_id);
            let p2 = u32_le(name.len() as u32);
            assert(p0.len() == 1 && p1.len() == 4 && p2.len() == 4);
            assert(enc == p0 + p1 + p2 + name);
            assert(enc[0] == p0[0]);
            assert forall|i: int| 0 <= i < 4 implies enc[1 + i] == p1[i] by {}
            assert forall|i: int| 0 <= i < 4 implies enc[5 + i] == p2[i] by {}
            assert forall|i: int| 0 <= i < name.len() implies enc[9 + i] == name[i] by {}
            assert(b[ofs] == 3);
            assert(b.subrange(ofs + 1, ofs + 5) =~= u32_le(cf_id));
            assert(b.subrange(ofs + 5, ofs + 9) =~= u32_le(name.len() as u32));
            lemma_u32_le_inverse(cf_id);
            lemma_u32_le_inverse(name.len() as u32);
            assert(b.subrange(ofs + 9, ofs + 9 + name.len()) =~= name);
            match spec_parse_entry(b, ofs) {
                Some((pe, po)) => {
                    assert(pe == e && po == ofs + enc.len());
                },
                None => {
                    assert(false);
                },
            }
        },
    }
}

/// Appending one whole entry to an append-consistent log extends its replay
/// by exactly that entry, and the log stays append-consistent.
pub proof fn lemma_replay_append(log: Seq<u8>, e: ManifestEntryModel)
    requires
        log_wf(log),
        entry_encodable(e),
    ensures
        spec_replay(log + spec_encode_entry(e), 0) == spec_replay(log, 0).push(e),
        log_wf(log + spec_encode_entry(e)),
{
    let enc = spec_encode_entry(e);
    let b2 = log + enc;
    lemma_replay_extend(log, enc, 0);
    assert(b2.subrange(log.len() as int, log.len() + enc.len() as int) =~= enc);
    lemma_parse_one_entry(b2, log.len() as int, e);
    assert(spec_replay(b2, log.len() as int) =~= seq![e] + spec_replay(b2, b2.len() as int));
    assert(spec_replay(b2, b2.len() as int) =~= Seq::<ManifestEntryModel>::empty());
    assert(spec_replay(b2, log.len() as int) =~= seq![e]);
    assert(spec_replay(b2, 0) =~= spec_replay(log, 0).push(e));
    lemma_replay_end_append(log, enc, 0, e);
}

/// The replay of an append-consistent log extended by one whole entry ends
/// at the new tail.
proof fn lemma_replay_end_append(b1: Seq<u8>, enc: Seq<u8>, ofs: int, e: ManifestEntryModel)
    requires
        0 <= ofs <= b1.len(),
        spec_replay_end(b1, ofs) == b1.len(),
        entry_encodable(e),
        enc == spec_encode_entry(e),
    ensures
        spec_replay_end(b1 + enc, ofs) == b1.len() + enc.len(),
    decreases b1.len() - ofs,
{
    let b2 = b1 + enc;
    match spec_parse_entry(b1, ofs) {
        Some((e1, o2)) => {
            if ofs < o2 <= b1.len() {
                lemma_parse_entry_extend(b1, enc, ofs);
                lemma_replay_end_append(b1, enc, o2, e);
            } else {
                assert(ofs == b1.len());
                assert(b2.subrange(ofs, ofs + enc.len() as int) =~= enc);
                lemma_parse_one_entry(b2, ofs, e);
                assert(spec_parse_entry(b2, ofs + enc.len() as int) is None);
                assert(spec_replay_end(b2, ofs + enc.len() as int) == ofs + enc.len());
            }
        },
        None => {
            assert(ofs == b1.len());
            assert(b2.subrange(ofs, ofs + enc.len() as int) =~= enc);
            lemma_parse_one_entry(b2, ofs, e);
            assert(spec_parse_entry(b2, ofs + enc.len() as int) is None);
            assert(spec_replay_end(b2, ofs + enc.len() as int) == ofs + enc.len());
        },
    }
}

/// A torn tail is invisible: replaying an append-consistent log followed by
/// a strict prefix of one entry's encoding — a crash in the middle of an
/// append — yields exactly the log's own entries.
pub proof fn lemma_replay_ignores_torn_tail(log: Seq<u8>, e: ManifestEntryModel, cut: int)
    requires
        log_wf(log),
        entry_encodable(e),
        0 <= cut < spec_encode_entry(e).len(),
    ensures
        spec_replay(log + spec_encode_entry(e).take(cut), 0) == spec_replay(log, 0),
{
    let part = spec_encode_entry(e).take(cut);
    let b2 = log + part;
    lemma_replay_extend(log, part, 0);
    let ofs = log.len() as int;
    assert(spec_replay(b2, ofs) =~= Seq::<ManifestEntryModel>::empty()) by {
        let enc = spec_encode_entry(e);
        if cut > 0 {
            assert(b2[ofs] == enc[0]);
            match e {
                ManifestEntryModel::AddFile { .. } => {
                    assert(enc[0] == 1);
                    assert(b2.len() - ofs == cut < 17);
                },
                ManifestEntryModel::RemoveFile { .. } => {
                    assert(enc[0] == 2);
                    assert(b2.len() - ofs == cut < 17);
                },
                ManifestEntryModel::RegisterComparator { cf_id, name } => {
                    assert(enc[0] == 3);
                    if ofs + 9 <= b2.len() {
                        assert(b2.subrange(ofs + 5, ofs + 9) =~= u32_le(name.len() as u32)) by {
                            assert(forall|i: int|
                                0 <= i < cut ==> b2[ofs + i] == #[trigger] enc[i]);
                            assert(forall|i: int|
                                0 <= i < 4 ==> #[trigger] enc[5 + i] == u32_le(
                                    name.len() as u32,
                                )[i]);
                        }
                        lemma_u32_le_inverse(name.len() as u32);
                        assert(ofs + 9 + name.len() > b2.len());
                    }
                },
            }
        }
    }
    assert(spec_replay(b2, 0) =~= spec_replay(log, 0));
}

} // verus!
