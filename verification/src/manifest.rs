//! In-memory representation of a directory tree, plus the source/destination type wall.
use vstd::prelude::*;

use crate::order::{Item, PathList, Ranking, as_ints, copy_items, is_order, lemma_order_in_range, sort_order, stands_before, values};
use crate::paths::{FsPath, PathV, SpelledV, opt_spelled};

verus! {

/// A source root. Nothing in the program writes through this type: whatever copies, deletes or
/// renames takes a [`DstRoot`], so a source path can never reach it.
#[derive(Debug)]
pub struct SrcRoot(FsPath);

/// A destination root, the only place where anything is changed.
#[derive(Debug)]
pub struct DstRoot(FsPath);

impl View for SrcRoot {
    type V = PathV;

    closed spec fn view(&self) -> PathV {
        self.0@
    }
}

impl View for DstRoot {
    type V = PathV;

    closed spec fn view(&self) -> PathV {
        self.0@
    }
}

impl Clone for SrcRoot {
    fn clone(&self) -> (r: Self)
        ensures
            r@ == self@,
            r.spelled() == self.spelled(),
    {
        Self(self.0.clone())
    }
}

impl SrcRoot {
    /// How the root is spelled.
    pub closed spec fn spelled(&self) -> Seq<u8> {
        self.0.spelled()
    }

    /// The root together with how it is spelled.
    pub open spec fn named(&self) -> SpelledV {
        SpelledV { path: self@, text: self.spelled() }
    }

    pub fn new(path: FsPath) -> (r: Self)
        ensures
            r@ == path@,
            r.spelled() == path.spelled(),
    {
        Self(path)
    }

    pub fn path(&self) -> (r: &FsPath)
        ensures
            r@ == self@,
            r.spelled() == self.spelled(),
    {
        &self.0
    }
}

impl Clone for DstRoot {
    fn clone(&self) -> (r: Self)
        ensures
            r@ == self@,
            r.spelled() == self.spelled(),
    {
        Self(self.0.clone())
    }
}

impl DstRoot {
    /// How the root is spelled.
    pub closed spec fn spelled(&self) -> Seq<u8> {
        self.0.spelled()
    }

    /// The root together with how it is spelled.
    pub open spec fn named(&self) -> SpelledV {
        SpelledV { path: self@, text: self.spelled() }
    }

    pub fn new(path: FsPath) -> (r: Self)
        ensures
            r@ == path@,
            r.spelled() == path.spelled(),
    {
        Self(path)
    }

    pub fn path(&self) -> (r: &FsPath)
        ensures
            r@ == self@,
            r.spelled() == self.spelled(),
    {
        &self.0
    }
}

/// What a filesystem entry is. `Other` covers fifos, sockets, devices, etc.
#[derive(Debug, Clone, Copy, PartialEq, Eq, Structural)]
pub enum Kind {
    File,
    Dir,
    Symlink,
    Other,
}

/// A modification time: seconds since 1970 began, and nanoseconds past that second.
#[derive(Debug, Clone, Copy, PartialEq, Eq, Structural)]
pub struct Mtime {
    pub secs: i64,
    pub nanos: u32,
}

/// A modification time in nanoseconds.
pub open spec fn total_nanos(t: Mtime) -> int {
    t.secs * 1_000_000_000 + t.nanos
}

/// One entry in a scanned tree, identified by its path relative to the scanned root.
///
/// Content hashes are not here: they are computed only for the entries that need them, never for
/// the whole tree.
#[derive(Debug)]
pub struct Entry {
    /// Path relative to the scanned root.
    pub rel: FsPath,
    pub kind: Kind,
    /// File size in bytes (0 for non-files).
    pub size: u64,
    /// Last-modified time, if the filesystem reports one.
    pub mtime: Option<Mtime>,
    /// Target of a symlink (only set when `kind == Symlink`).
    pub link_target: Option<FsPath>,
    /// Device and inode of a file that has more than one name.
    pub link_id: Option<(u64, u64)>,
    /// Owning user and group.
    pub owner: Option<(u32, u32)>,
    /// Raw mode bits.
    pub mode: Option<u32>,
}

/// The value of an [`Entry`].
pub struct EntryV {
    pub rel: PathV,
    /// How the path is spelled.
    pub text: Seq<u8>,
    pub kind: Kind,
    pub size: u64,
    pub mtime: Option<Mtime>,
    pub link_target: Option<PathV>,
    pub link_id: Option<(u64, u64)>,
    pub owner: Option<(u32, u32)>,
    pub mode: Option<u32>,
}

/// The value of an optional path.
pub open spec fn opt_path(p: Option<FsPath>) -> Option<PathV> {
    match p {
        Some(q) => Some(q@),
        None => None,
    }
}

impl View for Entry {
    type V = EntryV;

    open spec fn view(&self) -> EntryV {
        EntryV {
            rel: self.rel@,
            text: self.rel.spelled(),
            kind: self.kind,
            size: self.size,
            mtime: self.mtime,
            link_target: opt_path(self.link_target),
            link_id: self.link_id,
            owner: self.owner,
            mode: self.mode,
        }
    }
}

/// A copy of an optional path.
pub fn clone_opt_path(p: &Option<FsPath>) -> (r: Option<FsPath>)
    ensures
        opt_path(r) == opt_path(*p),
        opt_spelled(r) == opt_spelled(*p),
{
    match p {
        Some(q) => Some(q.clone()),
        None => None,
    }
}

impl Clone for Entry {
    fn clone(&self) -> (r: Self)
        ensures
            r@ == self@,
            opt_spelled(r.link_target) == opt_spelled(self.link_target),
    {
        Entry {
            rel: self.rel.clone(),
            kind: self.kind,
            size: self.size,
            mtime: self.mtime,
            link_target: clone_opt_path(&self.link_target),
            link_id: self.link_id,
            owner: self.owner,
            mode: self.mode,
        }
    }
}

/// The values of a list of entries.
pub open spec fn entries_view(v: Seq<Entry>) -> Seq<EntryV> {
    Seq::new(v.len(), |i: int| v[i]@)
}

/// The paths of a list of entries.
pub open spec fn rels(es: Seq<EntryV>) -> Seq<PathV> {
    Seq::new(es.len(), |i: int| es[i].rel)
}

impl Item for Entry {
    type Value = EntryV;

    open spec fn value(&self) -> EntryV {
        self@
    }

    fn dup(&self) -> (r: Entry) {
        self.clone()
    }
}

impl PathList for Vec<Entry> {
    open spec fn paths(&self) -> Seq<PathV> {
        rels(entries_view(self@))
    }

    fn count(&self) -> (n: usize) {
        self.len()
    }

    fn path_at(&self, i: usize) -> (p: &FsPath) {
        &self[i].rel
    }
}

/// A scanned tree: entries sorted by relative path.
#[derive(Debug)]
pub struct Manifest {
    entries: Vec<Entry>,
}

impl View for Manifest {
    type V = Seq<EntryV>;

    closed spec fn view(&self) -> Seq<EntryV> {
        entries_view(self.entries@)
    }
}

impl Clone for Manifest {
    fn clone(&self) -> (r: Self)
        ensures
            r@ == self@,
    {
        let entries = copy_items(&self.entries);
        assert(entries_view(entries@) =~= values(entries@));
        assert(entries_view(self.entries@) =~= values(self.entries@));
        Manifest { entries }
    }
}

impl Default for Manifest {
    fn default() -> (r: Self)
        ensures
            r@ == Seq::<EntryV>::empty(),
    {
        let entries: Vec<Entry> = Vec::new();
        assert(entries_view(entries@) =~= Seq::<EntryV>::empty());
        Manifest { entries }
    }
}

impl Manifest {
    /// Build from entries that are already sorted by `rel`.
    pub fn from_sorted(entries: Vec<Entry>) -> (r: Self)
        ensures
            r@ == entries_view(entries@),
    {
        Self { entries }
    }

    pub fn len(&self) -> (n: usize)
        ensures
            n == self@.len(),
    {
        self.entries.len()
    }

    pub fn is_empty(&self) -> (r: bool)
        ensures
            r == (self@.len() == 0),
    {
        self.entries.len() == 0
    }

    /// All entries in order.
    pub fn entries(&self) -> (r: &Vec<Entry>)
        ensures
            entries_view(r@) == self@,
    {
        &self.entries
    }

    /// An iterator over all entries in order.
    pub fn iter(&self) -> (it: std::slice::Iter<'_, Entry>)
        ensures
            exists|v: Seq<Entry>|
                entries_view(v) == self@ && vstd::std_specs::iter::IteratorSpec::remaining(&it)
                    == #[trigger] v.as_ref(),
    {
        broadcast use vstd::std_specs::slice::axiom_spec_slice_iter;

        let it = self.entries.as_slice().iter();
        assert(entries_view(self.entries@) == self@);
        it
    }

    /// The `i`-th entry.
    pub fn entry(&self, i: usize) -> (e: &Entry)
        requires
            i < self@.len(),
        ensures
            e@ == self@[i as int],
    {
        &self.entries[i]
    }
}

// ── hard-link groups ─────────────────────────────────────────────────────────

/// Two entries are names of one file.
pub open spec fn same_inode(a: EntryV, b: EntryV) -> bool {
    a.kind == Kind::File && b.kind == Kind::File && a.link_id is Some && a.link_id == b.link_id
}

/// Entry `j` is the first name of the file that entry `i` is a later name of.
pub open spec fn leads(es: Seq<EntryV>, j: int, i: int) -> bool {
    &&& 0 <= j < i
    &&& same_inode(es[j], es[i])
    &&& forall|k: int| 0 <= k < j ==> !same_inode(#[trigger] es[k], es[i])
}

/// The position of the first name of the file that entry `i` is a later name of; `None` where
/// entry `i` is the only or the first name.
pub open spec fn leader(es: Seq<EntryV>, i: int) -> Option<int> {
    if exists|j: int| leads(es, j, i) {
        Some(choose|j: int| leads(es, j, i))
    } else {
        None
    }
}

/// An entry has at most one leader.
pub proof fn lemma_leader(es: Seq<EntryV>, i: int, j: int)
    requires
        leads(es, j, i),
    ensures
        leader(es, i) == Some(j),
{
    let k = choose|k: int| leads(es, k, i);
    assert(leads(es, k, i));
    if k < j {
        assert(!same_inode(es[k], es[i]));
    } else if j < k {
        assert(!same_inode(es[j], es[i]));
    }
}

/// What entries are grouped by: a class (1 for files with several names) and an inode.
spec fn inode_key(e: EntryV) -> (int, int, int) {
    if e.kind == Kind::File {
        match e.link_id {
            Some(id) => (1, id.0 as int, id.1 as int),
            None => (0, 0, 0),
        }
    } else {
        (0, 0, 0)
    }
}

spec fn by_inode() -> spec_fn((int, int, int), (int, int, int)) -> bool {
    |a: (int, int, int), b: (int, int, int)|
        a.0 < b.0 || (a.0 == b.0 && (a.1 < b.1 || (a.1 == b.1 && a.2 < b.2)))
}

struct ByInode<'a> {
    entries: &'a Vec<Entry>,
}

fn key_of(e: &Entry) -> (k: (u8, u64, u64))
    ensures
        inode_key(e@) == (k.0 as int, k.1 as int, k.2 as int),
{
    match (e.kind, e.link_id) {
        (Kind::File, Some(id)) => (1, id.0, id.1),
        _ => (0, 0, 0),
    }
}

impl<'a> Ranking for ByInode<'a> {
    type Key = (int, int, int);

    closed spec fn keys(&self) -> Seq<(int, int, int)> {
        Seq::new(self.entries@.len(), |i: int| inode_key(self.entries@[i]@))
    }

    closed spec fn lt() -> spec_fn((int, int, int), (int, int, int)) -> bool {
        by_inode()
    }

    proof fn lt_is_strict() {
    }

    fn size(&self) -> (n: usize) {
        self.entries.len()
    }

    fn less(&self, i: usize, j: usize) -> (r: bool) {
        let a = key_of(&self.entries[i]);
        let b = key_of(&self.entries[j]);
        a.0 < b.0 || (a.0 == b.0 && (a.1 < b.1 || (a.1 == b.1 && a.2 < b.2)))
    }
}

/// The value of an optional position.
pub open spec fn opt_int(i: Option<usize>) -> Option<int> {
    match i {
        Some(k) => Some(k as int),
        None => None,
    }
}

/// For each entry, the position of its leader, where it has one.
pub fn leaders(entries: &Vec<Entry>) -> (r: Vec<Option<usize>>)
    ensures
        r@.len() == entries@.len(),
        forall|i: int|
            0 <= i < r@.len() ==> opt_int(#[trigger] r@[i]) == leader(entries_view(entries@), i),
        forall|i: int|
            0 <= i < r@.len() ==> (#[trigger] r@[i] matches Some(j) ==> j < i && leads(
                entries_view(entries@),
                j as int,
                i,
            )),
{
    let ghost es = entries_view(entries@);
    let n: usize = entries.len();
    let ranking = ByInode { entries };
    let p = sort_order(&ranking);
    let ghost o = as_ints(p@);
    let ghost keys = ranking.keys();
    proof {
        lemma_order_in_range(o, n as int);
    }
    let mut r: Vec<Option<usize>> = Vec::new();
    let mut z: usize = 0;
    while z < n
        invariant
            0 <= z <= n,
            r@.len() == z,
        decreases n - z,
    {
        r.push(None);
        z = z + 1;
    }
    let mut k: usize = 0;
    let mut start: usize = 0;
    while k < n
        invariant
            n == entries@.len(),
            es == entries_view(entries@),
            keys == ranking.keys(),
            ranking.entries@ == entries@,
            o == as_ints(p@),
            p@.len() == n,
            is_order(keys, by_inode(), o),
            o.no_duplicates(),
            forall|a: int| 0 <= a < n ==> 0 <= #[trigger] o[a] < n,
            forall|i: int| 0 <= i < n ==> o.contains(i),
            r@.len() == n,
            0 <= k <= n,
            k > 0 ==> start < k,
            k > 0 ==> forall|a: int| start <= a < k ==> keys[#[trigger] o[a]] == keys[o[k - 1]],
            k > 0 ==> forall|a: int| 0 <= a < start ==> keys[#[trigger] o[a]] != keys[o[k - 1]],
            forall|a: int|
                0 <= a < k ==> opt_int(r@[#[trigger] o[a]]) == leader(es, o[a]) && (r@[o[a]] matches Some(
                    j,
                ) ==> j < o[a] && leads(es, j as int, o[a])),
        decreases n - k,
    {
        assert(o[k as int] == p@[k as int]);
        let me: usize = p[k];
        assert(es[me as int] == entries@[me as int]@);
        let ghost key = keys[me as int];
        assert(key == inode_key(es[me as int]));
        let mine = key_of(&entries[me]);
        let joined = if k == 0 {
            false
        } else {
            assert(o[k - 1] == p@[k - 1]);
            let prev = key_of(&entries[p[k - 1]]);
            prev.0 == mine.0 && prev.1 == mine.1 && prev.2 == mine.2
        };
        if !joined {
            proof {
                if k > 0 {
                    assert forall|a: int| 0 <= a < k implies keys[#[trigger] o[a]] != key by {
                        if keys[o[a]] == key {
                            assert(keys[o[k - 1]] != key);
                            if a < k - 1 {
                                assert(stands_before(keys, by_inode(), o[a], o[k - 1]));
                            }
                            assert(stands_before(keys, by_inode(), o[k - 1], o[k as int]));
                        }
                    }
                }
            }
            start = k;
        }
        assert(forall|a: int| start <= a <= k ==> keys[#[trigger] o[a]] == key);
        assert(forall|a: int| 0 <= a < start ==> keys[#[trigger] o[a]] != key);
        let ghost before = r@;
        if joined && mine.0 == 1 {
            assert(o[start as int] == p@[start as int]);
            let first: usize = p[start];
            proof {
                assert(stands_before(keys, by_inode(), o[start as int], o[k as int]));
                assert(first < me);
                assert(keys[first as int] == inode_key(es[first as int]));
                assert(same_inode(es[first as int], es[me as int]));
                assert forall|j: int| 0 <= j < first implies !same_inode(
                    #[trigger] es[j],
                    es[me as int],
                ) by {
                    assert(keys[j] == inode_key(es[j]));
                    if same_inode(es[j], es[me as int]) {
                        assert(keys[j] == key);
                        assert(o.contains(j));
                        let q = choose|q: int| 0 <= q < o.len() && o[q] == j;
                        assert(q > start);
                        assert(stands_before(keys, by_inode(), o[start as int], o[q]));
                    }
                }
                assert(leads(es, first as int, me as int));
                lemma_leader(es, me as int, first as int);
            }
            r.set(me, Some(first));
        } else {
            proof {
                assert forall|j: int| !leads(es, j, me as int) by {
                    if leads(es, j, me as int) {
                        assert(keys[j] == inode_key(es[j]));
                        assert(keys[j] == key);
                        assert(o.contains(j));
                        let q = choose|q: int| 0 <= q < o.len() && o[q] == j;
                        assert(q != k);
                        if q > k {
                            assert(stands_before(keys, by_inode(), o[k as int], o[q]));
                        }
                        assert(q < k && !joined);
                        assert(keys[o[q]] != key);
                    }
                }
            }
            r.set(me, None);
        }
        proof {
            assert forall|a: int| 0 <= a <= k implies opt_int(r@[#[trigger] o[a]]) == leader(
                es,
                o[a],
            ) && (r@[o[a]] matches Some(j) ==> j < o[a] && leads(es, j as int, o[a])) by {
                if a < k {
                    assert(o[a] != o[k as int]);
                    assert(r@[o[a]] == before[o[a]]);
                }
            }
        }
        k = k + 1;
    }
    proof {
        assert forall|i: int| 0 <= i < n implies opt_int(#[trigger] r@[i]) == leader(es, i) && (r@[i] matches Some(
            j,
        ) ==> j < i && leads(es, j as int, i)) by {
            assert(o.contains(i));
            let a = choose|a: int| 0 <= a < o.len() && o[a] == i;
            assert(o[a] == i);
        }
    }
    r
}

} // verus!
