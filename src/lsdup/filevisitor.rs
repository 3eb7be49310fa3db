use crate::lsdup::config::Config;
use crate::lsdup::devino::DevIno;
use crate::lsdup::lenhash::{lemma_report_order, reported_before, Identity, LenHash};
use core::cmp::Ordering;
use std::collections::BTreeMap;
use vstd::prelude::*;

verus! {

/// What the directory walker read of a regular file's metadata.
#[derive(Clone, Copy, Debug)]
pub struct FileMeta {
    /// Length in bytes.
    pub len: u64,
    /// Number of directory entries that refer to the file's storage.
    pub nlink: u64,
    /// Device and inode of the file's storage.
    pub id: DevIno,
}

/// What is kept of a hard-linked storage object the first time one of its
/// paths is visited: its length and the path. Its presence is what matters;
/// the digest is never filled in.
#[derive(Debug)]
struct LinkedFile<P> {
    len: u64,
    hash: Option<[u8; 32]>,
    first: Option<P>,
}

impl<P> LinkedFile<P> {
    fn init(len: u64, first: P) -> (r: LinkedFile<P>)
        ensures
            r.len == len,
            r.hash is None,
            r.first == Some(first),
    {
        let hash = None;
        let first = Some(first);
        LinkedFile { len, hash, first }
    }
}

/// The state of a run, as mathematics.
pub struct VisitorModel<P> {
    /// For each length seen: the one path of that length waiting to be
    /// hashed, or `None` once a second file of that length came and the
    /// waiting path was handed out for hashing.
    pub slots: Map<u64, Option<P>>,
    /// The physical identities of the hard-linked files already counted.
    pub linked: Set<(u64, u64)>,
    /// For each content identity, the hashed paths that have it, in the
    /// order in which they were recorded.
    pub groups: Map<Identity, Seq<P>>,
    /// Number of files counted (saturating).
    pub num_files: u32,
    /// Total length of the files counted (saturating).
    pub total_file_bytes: u64,
}

/// The model of a fresh visitor.
pub open spec fn initial_model<P>() -> VisitorModel<P> {
    VisitorModel {
        slots: Map::empty(),
        linked: Set::empty(),
        groups: Map::empty(),
        num_files: 0,
        total_file_bytes: 0,
    }
}

/// Whether a file with these metadata is taken into account: it is not
/// hard-linked, or no other path to its storage was counted before.
pub open spec fn admitted<P>(m: VisitorModel<P>, meta: FileMeta) -> bool {
    meta.nlink <= 1 || !m.linked.contains(meta.id@)
}

/// `m` with the file counted: statistics raised, and its physical identity
/// remembered when it is hard-linked.
pub open spec fn counted<P>(m: VisitorModel<P>, meta: FileMeta) -> VisitorModel<P> {
    VisitorModel {
        slots: m.slots,
        linked: if meta.nlink > 1 {
            m.linked.insert(meta.id@)
        } else {
            m.linked
        },
        groups: m.groups,
        num_files: if m.num_files == u32::MAX {
            u32::MAX
        } else {
            (m.num_files + 1) as u32
        },
        total_file_bytes: if m.total_file_bytes + meta.len > u64::MAX {
            u64::MAX
        } else {
            (m.total_file_bytes + meta.len) as u64
        },
    }
}

/// `m` with the slot for `len` set to `slot`.
pub open spec fn with_slot<P>(m: VisitorModel<P>, len: u64, slot: Option<P>) -> VisitorModel<P> {
    VisitorModel {
        slots: m.slots.insert(len, slot),
        linked: m.linked,
        groups: m.groups,
        num_files: m.num_files,
        total_file_bytes: m.total_file_bytes,
    }
}

/// Visiting `file`: the next state, and the paths that must now be hashed,
/// in order. A suppressed hard link changes nothing. The first file of a
/// length waits unhashed; the second makes both it and the waiting one be
/// hashed; any later one is hashed alone.
pub open spec fn visit_spec<P>(m: VisitorModel<P>, file: P, meta: FileMeta) -> (
    VisitorModel<P>,
    Seq<P>,
) {
    if !admitted(m, meta) {
        (m, seq![])
    } else {
        let c = counted(m, meta);
        if !m.slots.contains_key(meta.len) {
            (with_slot(c, meta.len, Some(file)), seq![])
        } else {
            match m.slots[meta.len] {
                Some(first) => (with_slot(c, meta.len, None), seq![first, file]),
                None => (c, seq![file]),
            }
        }
    }
}

/// Recording that `file` was hashed to `id`: it joins the end of that
/// identity's group.
pub open spec fn record_spec<P>(m: VisitorModel<P>, file: P, id: Identity) -> VisitorModel<P> {
    VisitorModel {
        slots: m.slots,
        linked: m.linked,
        groups: m.groups.insert(
            id,
            if m.groups.contains_key(id) {
                m.groups[id].push(file)
            } else {
                seq![file]
            },
        ),
        num_files: m.num_files,
        total_file_bytes: m.total_file_bytes,
    }
}

/// Whether a group is reported: it has at least two paths.
pub open spec fn reportable<P>(paths: Seq<P>) -> bool {
    paths.len() >= 2
}

/// Decides which files must be hashed, and groups the hashed files by
/// content identity.
///
/// A run feeds it every regular file with `visit`, hashes the paths that
/// `visit` hands back, in order, and gives each result to `record`; at the
/// end, `into_duplicates` yields the groups of two or more paths.
pub struct AllInFileVisitor<P> {
    verbosity: u8,
    // The waiting path for each length seen; `None` once it was handed out.
    size_firstfile_map: BTreeMap<u64, Option<P>>,
    // The groups, sorted by the reporting order of their identities.
    hash_files: Vec<(LenHash, Vec<P>)>,
    // One record per hard-linked storage object already counted.
    hardlinks_map: BTreeMap<(u64, u64), LinkedFile<P>>,
    total_file_bytes: u64,
    num_files: u32,
    groups: Ghost<Map<Identity, Seq<P>>>,
}

impl<P> View for AllInFileVisitor<P> {
    type V = VisitorModel<P>;

    closed spec fn view(&self) -> VisitorModel<P> {
        VisitorModel {
            slots: self.size_firstfile_map@,
            linked: self.hardlinks_map@.dom(),
            groups: self.groups@,
            num_files: self.num_files,
            total_file_bytes: self.total_file_bytes,
        }
    }
}

/// Whether a file's storage is referred to by more than one directory entry.
fn has_hardlinks(nlink: u64) -> (r: bool)
    ensures
        r == (nlink > 1),
{
    nlink > 1
}

/// Whether a group is to be reported.
fn only_with_dupes<P>(paths: &Vec<P>) -> (r: bool)
    ensures
        r == reportable(paths@),
{
    paths.len() > 1
}

impl<P: Clone> AllInFileVisitor<P> {
    /// The visitor's own invariant: groups sorted by the reporting order,
    /// one per identity, and the same as the model's.
    pub closed spec fn wf(&self) -> bool {
        &&& forall|i: int, j: int|
            0 <= i < j < self.hash_files@.len() ==> reported_before(
                #[trigger] self.hash_files@[i].0@,
                #[trigger] self.hash_files@[j].0@,
            )
        &&& forall|i: int|
            0 <= i < self.hash_files@.len() ==> {
                &&& self.groups@.contains_key(#[trigger] self.hash_files@[i].0@)
                &&& self.groups@[self.hash_files@[i].0@] == self.hash_files@[i].1@
            }
        &&& forall|k: Identity|
            #[trigger] self.groups@.contains_key(k) ==> exists|i: int|
                0 <= i < self.hash_files@.len() && #[trigger] self.hash_files@[i].0@ == k
    }

    /// A visitor that has seen nothing, for a run under `config`.
    pub fn new(config: &Config) -> (r: AllInFileVisitor<P>)
        ensures
            r.wf(),
            r@ == initial_model::<P>(),
            r.spec_verbosity() == config.verbosity,
    {
        let r = AllInFileVisitor {
            verbosity: config.verbosity,
            size_firstfile_map: BTreeMap::new(),
            hash_files: Vec::new(),
            hardlinks_map: BTreeMap::new(),
            total_file_bytes: 0,
            num_files: 0,
            groups: Ghost(Map::empty()),
        };
        assert(r@.slots =~= Map::<u64, Option<P>>::empty());
        assert(r@.linked =~= Set::<(u64, u64)>::empty());
        r
    }

    /// How much the run was asked to report on the way.
    pub fn verbosity(&self) -> (r: u8)
        ensures
            r == self.spec_verbosity(),
    {
        self.verbosity
    }

    pub closed spec fn spec_verbosity(&self) -> u8 {
        self.verbosity
    }

    /// Number of files counted so far.
    pub fn num_files(&self) -> (r: u32)
        ensures
            r == self@.num_files,
    {
        self.num_files
    }

    /// Total length of the files counted so far.
    pub fn total_file_bytes(&self) -> (r: u64)
        ensures
            r == self@.total_file_bytes,
    {
        self.total_file_bytes
    }

    /// Visits a regular file. Returns the paths that must now be hashed, in
    /// order; the caller hashes each and hands the result to `record`.
    pub fn visit(&mut self, file: P, meta: FileMeta) -> (to_hash: Vec<P>)
        requires
            old(self).wf(),
        ensures
            final(self).wf(),
            final(self).spec_verbosity() == old(self).spec_verbosity(),
            (final(self)@, to_hash@) == visit_spec(old(self)@, file, meta),
    {
        if has_hardlinks(meta.nlink) {
            let key = meta.id.key();
            if self.hardlinks_map.contains_key(&key) {
                return Vec::new();
            }
            let record = LinkedFile::init(meta.len, file.clone());
            self.hardlinks_map.insert(key, record);
        }
        self.total_file_bytes = self.total_file_bytes.saturating_add(meta.len);
        self.num_files = self.num_files.saturating_add(1);
        let ghost c = self@;
        assert(c == counted(old(self)@, meta)) by {
            assert(c.linked =~= counted(old(self)@, meta).linked);
        }
        let mut to_hash = Vec::new();
        let state: u8 = match self.size_firstfile_map.get(&meta.len) {
            None => 0,
            Some(slot) => if slot.is_some() {
                1
            } else {
                2
            },
        };
        if state == 0 {
            self.size_firstfile_map.insert(meta.len, Some(file));
        } else if state == 1 {
            let previous = self.size_firstfile_map.insert(meta.len, None);
            match previous {
                Some(Some(first)) => to_hash.push(first),
                _ => {},
            }
            to_hash.push(file);
        } else {
            to_hash.push(file);
        }
        assert(self.hash_files@ == old(self).hash_files@);
        assert(self.groups@ == old(self).groups@);
        to_hash
    }

    /// Records that `file` hashed to `id`: the path joins the end of the
    /// group of that identity, which is created where it is new.
    pub fn record(&mut self, file: P, id: LenHash)
        requires
            old(self).wf(),
        ensures
            final(self).wf(),
            final(self).spec_verbosity() == old(self).spec_verbosity(),
            final(self)@ == record_spec(old(self)@, file, id@),
    {
        let n = self.hash_files.len();
        let mut lo: usize = 0;
        let mut hi: usize = n;
        while lo < hi
            invariant
                lo <= hi <= n,
                n == self.hash_files@.len(),
                self.wf(),
                *self == *old(self),
                forall|i: int| 0 <= i < lo ==> reported_before(#[trigger] self.hash_files@[i].0@, id@),
                forall|i: int|
                    hi <= i < n ==> !reported_before(#[trigger] self.hash_files@[i].0@, id@),
            decreases hi - lo,
        {
            let mid = lo + (hi - lo) / 2;
            let before = match self.hash_files[mid].0.cmp(&id) {
                Ordering::Less => true,
                _ => false,
            };
            if before {
                assert forall|i: int| 0 <= i < mid + 1 implies reported_before(
                    #[trigger] self.hash_files@[i].0@,
                    id@,
                ) by {
                    lemma_report_order(self.hash_files@[i].0, self.hash_files@[mid as int].0, id);
                }
                lo = mid + 1;
            } else {
                assert forall|i: int| mid <= i < n implies !reported_before(
                    #[trigger] self.hash_files@[i].0@,
                    id@,
                ) by {
                    lemma_report_order(self.hash_files@[mid as int].0, self.hash_files@[i].0, id);
                }
                hi = mid;
            }
        }
        let pos = lo;
        let found = pos < n && match self.hash_files[pos].0.cmp(&id) {
            Ordering::Equal => true,
            _ => false,
        };
        let ghost g = self.groups@;
        if found {
            proof {
                lemma_report_order(self.hash_files@[pos as int].0, id, id);
            }
            self.hash_files[pos].1.push(file);
            self.groups = Ghost(g.insert(id@, g[id@].push(file)));
            assert forall|k: Identity| #[trigger] self.groups@.contains_key(k) implies exists|i: int|
                0 <= i < self.hash_files@.len() && #[trigger] self.hash_files@[i].0@ == k by {
                if k != id@ {
                    assert(g.contains_key(k));
                    let i = choose|i: int| 0 <= i < old(self).hash_files@.len() && #[trigger] old(self).hash_files@[i].0@ == k;
                    assert(self.hash_files@[i].0@ == k);
                } else {
                    assert(self.hash_files@[pos as int].0@ == k);
                }
            }
        } else {
            assert forall|i: int| 0 <= i < n implies #[trigger] self.hash_files@[i].0@ != id@ by {
                lemma_report_order(self.hash_files@[i].0, id, id);
                if i > pos {
                    lemma_report_order(self.hash_files@[pos as int].0, self.hash_files@[i].0, id);
                }
            }
            assert(!g.contains_key(id@));
            assert forall|j: int| pos <= j < n implies reported_before(
                id@,
                #[trigger] self.hash_files@[j].0@,
            ) by {
                lemma_report_order(id, self.hash_files@[j].0, id);
                lemma_report_order(self.hash_files@[j].0, id, id);
            }
            let mut paths = Vec::new();
            paths.push(file);
            self.hash_files.insert(pos, (id, paths));
            self.groups = Ghost(g.insert(id@, seq![file]));
            let ghost e = self.hash_files@;
            let ghost oe = old(self).hash_files@;
            assert forall|i: int, j: int| 0 <= i < j < e.len() implies reported_before(
                #[trigger] e[i].0@,
                #[trigger] e[j].0@,
            ) by {
                if j < pos {
                    assert(e[i] == oe[i] && e[j] == oe[j]);
                } else if j == pos {
                    assert(e[i] == oe[i]);
                } else if i == pos {
                    assert(e[j] == oe[j - 1]);
                } else if i < pos {
                    assert(e[i] == oe[i] && e[j] == oe[j - 1]);
                    assert(reported_before(oe[i].0@, oe[j - 1].0@));
                } else {
                    assert(e[i] == oe[i - 1] && e[j] == oe[j - 1]);
                }
            }
            assert forall|i: int| 0 <= i < e.len() implies {
                &&& self.groups@.contains_key(#[trigger] e[i].0@)
                &&& self.groups@[e[i].0@] == e[i].1@
            } by {
                if i < pos {
                    assert(e[i] == oe[i]);
                } else if i > pos {
                    assert(e[i] == oe[i - 1]);
                } else {
                    assert(e[i].1@ =~= seq![file]);
                }
            }
            assert forall|k: Identity| #[trigger] self.groups@.contains_key(k) implies exists|i: int|
                0 <= i < e.len() && #[trigger] e[i].0@ == k by {
                if k != id@ {
                    let i = choose|i: int| 0 <= i < oe.len() && #[trigger] oe[i].0@ == k;
                    if i < pos {
                        assert(e[i] == oe[i]);
                    } else {
                        assert(e[i + 1] == oe[i]);
                    }
                } else {
                    assert(e[pos as int].0@ == k);
                }
            }
        }
    }
}


impl<P: Clone> AllInFileVisitor<P> {
    /// Ends the run and yields its duplicate groups: each group of two or
    /// more paths with its identity, longest contents first and, among equal
    /// lengths, the larger digest first. Each group lists its paths in the
    /// order in which they were recorded.
    pub fn into_duplicates(self) -> (r: Vec<(LenHash, Vec<P>)>)
        requires
            self.wf(),
        ensures
            forall|i: int|
                0 <= i < r@.len() ==> {
                    &&& reportable(#[trigger] r@[i].1@)
                    &&& self@.groups.contains_key(r@[i].0@)
                    &&& self@.groups[r@[i].0@] == r@[i].1@
                },
            forall|i: int, j: int|
                0 <= i < j < r@.len() ==> reported_before(
                    #[trigger] r@[i].0@,
                    #[trigger] r@[j].0@,
                ),
            forall|k: Identity|
                #[trigger] self@.groups.contains_key(k) && reportable(self@.groups[k]) ==> exists|
                    i: int,
                | 0 <= i < r@.len() && #[trigger] r@[i].0@ == k,
    {
        let ghost groups = self.groups@;
        let mut entries = self.hash_files;
        let ghost orig = entries@;
        let n = entries.len();
        let mut out: Vec<(LenHash, Vec<P>)> = Vec::new();
        let mut i: usize = 0;
        while i < n
            invariant
                i <= n,
                n == entries@.len(),
                n == orig.len(),
                forall|j: int| i <= j < n ==> #[trigger] entries@[j] == orig[j],
                forall|a: int, b: int|
                    0 <= a < b < orig.len() ==> reported_before(
                        #[trigger] orig[a].0@,
                        #[trigger] orig[b].0@,
                    ),
                forall|a: int|
                    0 <= a < orig.len() ==> {
                        &&& groups.contains_key(#[trigger] orig[a].0@)
                        &&& groups[orig[a].0@] == orig[a].1@
                    },
                forall|a: int|
                    0 <= a < out@.len() ==> {
                        &&& reportable(#[trigger] out@[a].1@)
                        &&& groups.contains_key(out@[a].0@)
                        &&& groups[out@[a].0@] == out@[a].1@
                    },
                forall|a: int, b: int|
                    0 <= a < b < out@.len() ==> reported_before(
                        #[trigger] out@[a].0@,
                        #[trigger] out@[b].0@,
                    ),
                forall|a: int, j: int|
                    0 <= a < out@.len() && i <= j < n ==> reported_before(
                        #[trigger] out@[a].0@,
                        #[trigger] orig[j].0@,
                    ),
                forall|j: int|
                    0 <= j < i && reportable(#[trigger] orig[j].1@) ==> exists|a: int|
                        0 <= a < out@.len() && #[trigger] out@[a].0@ == orig[j].0@,
            decreases n - i,
        {
            let mut entry = (LenHash::from(0, [0u8; 32]), Vec::new());
            core::mem::swap(&mut entries[i], &mut entry);
            assert(entry == orig[i as int]);
            if only_with_dupes(&entry.1) {
                let ghost before = out@;
                assert(groups.contains_key(orig[i as int].0@));
                out.push(entry);
                assert(out@[before.len() as int] == entry);
                assert forall|a: int| 0 <= a < out@.len() implies {
                    &&& reportable(#[trigger] out@[a].1@)
                    &&& groups.contains_key(out@[a].0@)
                    &&& groups[out@[a].0@] == out@[a].1@
                } by {
                    if a < before.len() {
                        assert(out@[a] == before[a]);
                    }
                }
                assert forall|j: int| 0 <= j < i + 1 && reportable(#[trigger] orig[j].1@) implies exists|a: int|
                    0 <= a < out@.len() && #[trigger] out@[a].0@ == orig[j].0@ by {
                    if j < i {
                        let a = choose|a: int| 0 <= a < before.len() && #[trigger] before[a].0@ == orig[j].0@;
                        assert(out@[a] == before[a]);
                    } else {
                        assert(out@[before.len() as int].0@ == orig[j].0@);
                    }
                }
            }
            i = i + 1;
        }
        proof {
            assert forall|k: Identity|
                #[trigger] groups.contains_key(k) && reportable(groups[k]) implies exists|i: int|
                    0 <= i < out@.len() && #[trigger] out@[i].0@ == k by {
                let j = choose|j: int| 0 <= j < orig.len() && #[trigger] orig[j].0@ == k;
                assert(reportable(orig[j].1@));
            }
        }
        out
    }
}

} // verus!
