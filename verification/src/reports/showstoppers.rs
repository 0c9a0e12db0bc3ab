//! The showstoppers file: everything that blocks a faithful mirror, with paste-able remedies.
//!
//! Conclusions answer "what would a sync change?"; showstoppers answer "what prevents the mirror
//! from converging, and how do I unblock it?" — unreadable source data, undeletable destination
//! extras, unwritable destination directories.
//!
//! The file is deliberately not a runnable script. Each section is a bash array of absolute paths,
//! followed by the loop that applies that section's remedy to the array. Paths are written as bash
//! literals, so bash itself reconstructs the exact file name.
//!
//! Confirmed items actually failed during the run; predicted ones come from arithmetic over the
//! owner and mode bits that the scan collected. When root is in reserve, predictions are left out:
//! those walls will be handled, so only what actually still failed is a showstopper.
use vstd::prelude::*;
use vstd::utf8::{encode_utf8, is_ascii_chars, is_ascii_chars_encode_utf8};

use crate::collect::{collect, lemma_collect_contains, lemma_source_of, lemma_source_of_increasing, source_of};
use crate::diff::{Change, ChangeV, Diff, DiffV, Move, MoveV, name_of_change, name_of_entry};
use crate::manifest::{DstRoot, Entry, EntryV, Kind, Manifest, SrcRoot, entries_view, rels};
use crate::order::Item as _;
use crate::order::{PathIndex, PathList, add_item, by_path, last_at, lemma_by_path_strict, lemma_last_at, lemma_path_total, lemma_sorted_contains, lemma_sorted_in_order, order, path_lt, sort_items, sorted_with, values};
use crate::paths::{FsPath, PathV, SpelledV, joined, joined_text, named_view, parent_of, root_comp};
use crate::text::{dec, digit, digit_char, in_base, push_dec, push_zero_filled, put_each, zero_filled};

verus! {

/// One blocked path, with what the remedies need to know about it.
#[derive(Debug)]
pub struct Item {
    pub abs: FsPath,
    pub owner: Option<(u32, u32)>,
    /// The raw mode; shown as the familiar four octal digits of the permission bits.
    pub mode: Option<u32>,
    /// An operation actually failed here; false for predictions.
    pub confirmed: bool,
}

/// The value of an [`Item`].
pub struct ItemV {
    pub abs: PathV,
    /// How the path is spelled.
    pub text: Seq<u8>,
    pub owner: Option<(u32, u32)>,
    pub mode: Option<u32>,
    pub confirmed: bool,
}

impl crate::order::Item for Item {
    type Value = ItemV;

    open spec fn value(&self) -> ItemV {
        ItemV {
            abs: self.abs@,
            text: self.abs.spelled(),
            owner: self.owner,
            mode: self.mode,
            confirmed: self.confirmed,
        }
    }

    fn dup(&self) -> (r: Item) {
        self.clone()
    }
}

impl Clone for Item {
    fn clone(&self) -> (r: Item)
        ensures
            r.value() == self.value(),
    {
        Item { abs: self.abs.clone(), owner: self.owner, mode: self.mode, confirmed: self.confirmed }
    }
}

impl PathList for Vec<Item> {
    open spec fn paths(&self) -> Seq<PathV> {
        Seq::new(self@.len(), |i: int| self@[i].abs@)
    }

    fn count(&self) -> (n: usize) {
        self.len()
    }

    fn path_at(&self, i: usize) -> (p: &FsPath) {
        &self[i].abs
    }
}

/// The blocked paths, grouped by the remedy they need. A path can appear in several groups: each
/// group is an independent fix.
#[derive(Debug)]
pub struct Showstoppers {
    pub source_unreadable_dirs: Vec<Item>,
    pub source_unreadable_files: Vec<Item>,
    pub destination_unreadable_dirs: Vec<Item>,
    pub destination_unreadable_files: Vec<Item>,
    pub destination_undeletable_files: Vec<Item>,
    pub destination_undeletable_dirs: Vec<Item>,
    pub destination_unwritable_dirs: Vec<Item>,
}

/// The value of [`Showstoppers`].
pub struct ShowstoppersV {
    pub source_unreadable_dirs: Seq<ItemV>,
    pub source_unreadable_files: Seq<ItemV>,
    pub destination_unreadable_dirs: Seq<ItemV>,
    pub destination_unreadable_files: Seq<ItemV>,
    pub destination_undeletable_files: Seq<ItemV>,
    pub destination_undeletable_dirs: Seq<ItemV>,
    pub destination_unwritable_dirs: Seq<ItemV>,
}

impl View for Showstoppers {
    type V = ShowstoppersV;

    open spec fn view(&self) -> ShowstoppersV {
        ShowstoppersV {
            source_unreadable_dirs: values(self.source_unreadable_dirs@),
            source_unreadable_files: values(self.source_unreadable_files@),
            destination_unreadable_dirs: values(self.destination_unreadable_dirs@),
            destination_unreadable_files: values(self.destination_unreadable_files@),
            destination_undeletable_files: values(self.destination_undeletable_files@),
            destination_undeletable_dirs: values(self.destination_undeletable_dirs@),
            destination_unwritable_dirs: values(self.destination_unwritable_dirs@),
        }
    }
}

/// How many items there are in all.
pub open spec fn item_count(s: ShowstoppersV) -> nat {
    s.source_unreadable_dirs.len() + s.source_unreadable_files.len() + s.destination_unreadable_dirs.len()
        + s.destination_unreadable_files.len() + s.destination_undeletable_files.len()
        + s.destination_undeletable_dirs.len() + s.destination_unwritable_dirs.len()
}

impl Default for Showstoppers {
    fn default() -> (r: Showstoppers)
        ensures
            item_count(r@) == 0,
    {
        Showstoppers {
            source_unreadable_dirs: Vec::new(),
            source_unreadable_files: Vec::new(),
            destination_unreadable_dirs: Vec::new(),
            destination_unreadable_files: Vec::new(),
            destination_undeletable_files: Vec::new(),
            destination_undeletable_dirs: Vec::new(),
            destination_unwritable_dirs: Vec::new(),
        }
    }
}

impl Showstoppers {
    /// Nothing blocks the mirror.
    pub fn is_empty(&self) -> (r: bool)
        ensures
            r == (item_count(self@) == 0),
    {
        self.source_unreadable_dirs.len() == 0 && self.source_unreadable_files.len() == 0
            && self.destination_unreadable_dirs.len() == 0 && self.destination_unreadable_files.len() == 0
            && self.destination_undeletable_files.len() == 0 && self.destination_undeletable_dirs.len() == 0
            && self.destination_unwritable_dirs.len() == 0
    }

    /// How many items there are in all.
    pub fn total(&self) -> (n: usize)
        requires
            item_count(self@) <= usize::MAX,
        ensures
            n == item_count(self@),
    {
        self.source_unreadable_dirs.len() + self.source_unreadable_files.len()
            + self.destination_unreadable_dirs.len() + self.destination_unreadable_files.len()
            + self.destination_undeletable_files.len() + self.destination_undeletable_dirs.len()
            + self.destination_unwritable_dirs.len()
    }
}

// ── who may do what ──────────────────────────────────────────────────────────

/// A process's identity, for telling whether an operation would be allowed.
#[derive(Debug)]
pub struct Me {
    pub euid: u32,
    pub groups: Vec<u32>,
}

/// The value of [`Me`].
pub struct MeV {
    pub euid: u32,
    pub groups: Seq<u32>,
}

impl View for Me {
    type V = MeV;

    open spec fn view(&self) -> MeV {
        MeV { euid: self.euid, groups: self.groups@ }
    }
}

/// The permission bits for reading, writing and searching.
pub const READ: u32 = 4;

pub const WRITE: u32 = 2;

pub const SEARCH: u32 = 1;

/// The place of the permission bits that apply: the owner's, the group's, or everyone's.
pub open spec fn class_shift(me: MeV, uid: u32, gid: u32) -> u32 {
    if me.euid == uid {
        6
    } else if me.groups.contains(gid) {
        3
    } else {
        0
    }
}

/// The process holds the permission bit `want` on the entry. Root passes everything, and unknown
/// bits never make a problem.
pub open spec fn allowed(me: MeV, e: EntryV, want: u32) -> bool {
    match (e.owner, e.mode) {
        (Some((uid, gid)), Some(mode)) => me.euid == 0 || ((mode & 0o777) >> class_shift(me, uid, gid))
            & want == want,
        _ => true,
    }
}

impl Me {
    /// Does this process hold permission bit `want` on `e`?
    pub fn allows(&self, e: &Entry, want: u32) -> (r: bool)
        ensures
            r == allowed(self@, e@, want),
    {
        let (uid, gid, mode): (u32, u32, u32) = match (e.owner, e.mode) {
            (Some((u, g)), Some(m)) => (u, g, m),
            _ => {
                return true;
            },
        };
        if self.euid == 0 {
            return true;
        }
        let shift: u32 = if self.euid == uid {
            6
        } else if self.in_group(gid) {
            3
        } else {
            0
        };
        ((mode & 0o777) >> shift) & want == want
    }

    fn in_group(&self, gid: u32) -> (r: bool)
        ensures
            r == self.groups@.contains(gid),
    {
        let mut i: usize = 0;
        while i < self.groups.len()
            invariant
                0 <= i <= self.groups@.len(),
                forall|k: int| 0 <= k < i ==> self.groups@[k] != gid,
            decreases self.groups@.len() - i,
        {
            if self.groups[i] == gid {
                return true;
            }
            i = i + 1;
        }
        false
    }
}

// ── what blocks the mirror ───────────────────────────────────────────────────

/// What the system tells of a place that a scan could not read.
#[derive(Debug, Clone, Copy)]
pub struct Inspected {
    pub is_dir: bool,
    pub owner: Option<(u32, u32)>,
    pub mode: Option<u32>,
}

/// A place that a scan could not read for want of permission.
#[derive(Debug)]
pub struct Denied {
    pub rel: FsPath,
    pub found: Option<Inspected>,
}

/// The value of a [`Denied`].
pub struct DeniedV {
    pub rel: SpelledV,
    pub found: Option<Inspected>,
}

pub open spec fn denied_view(v: Seq<Denied>) -> Seq<DeniedV> {
    Seq::new(v.len(), |i: int| DeniedV { rel: v[i].rel.named(), found: v[i].found })
}

/// The place is a directory; where that is not known, it is, for only reading a directory fails so.
pub open spec fn denied_dir(x: DeniedV) -> bool {
    match x.found {
        Some(f) => f.is_dir,
        None => true,
    }
}

/// The place `rel` below `root`. The root itself is spelled with a slash at the end.
pub open spec fn place_at(root: SpelledV, rel: SpelledV) -> SpelledV {
    SpelledV { path: joined(root.path, rel.path), text: joined_text(root.text, rel.text) }
}

/// The places that a scan could not read, directories or not, as `dirs` asks.
pub open spec fn denied_rule(root: SpelledV, v: Seq<DeniedV>, dirs: bool) -> spec_fn(int) -> Option<ItemV> {
    |i: int|
        if denied_dir(v[i]) == dirs {
            Some(
                ItemV {
                    abs: place_at(root, v[i].rel).path,
                    text: place_at(root, v[i].rel).text,
                    owner: match v[i].found {
                        Some(f) => f.owner,
                        None => None,
                    },
                    mode: match v[i].found {
                        Some(f) => f.mode,
                        None => None,
                    },
                    confirmed: true,
                },
            )
        } else {
            None
        }
}

pub open spec fn denied_items(root: SpelledV, v: Seq<DeniedV>, dirs: bool) -> Seq<ItemV> {
    collect(v.len() as int, denied_rule(root, v, dirs))
}

/// The owner of the entry at a path, where it is known.
pub open spec fn owner_at(es: Seq<EntryV>, p: PathV) -> Option<(u32, u32)> {
    match last_at(rels(es), p) {
        Some(k) => es[k].owner,
        None => None,
    }
}

/// The mode of the entry at a path, where it is known.
pub open spec fn mode_at(es: Seq<EntryV>, p: PathV) -> Option<u32> {
    match last_at(rels(es), p) {
        Some(k) => es[k].mode,
        None => None,
    }
}

pub open spec fn item_at(root: SpelledV, es: Seq<EntryV>, p: SpelledV, confirmed: bool) -> ItemV {
    ItemV {
        abs: place_at(root, p).path,
        text: place_at(root, p).text,
        owner: owner_at(es, p.path),
        mode: mode_at(es, p.path),
        confirmed,
    }
}

/// The files that could not be read while comparing.
pub open spec fn hashed_items(root: SpelledV, es: Seq<EntryV>, ps: Seq<SpelledV>) -> Seq<ItemV> {
    Seq::new(ps.len(), |i: int| item_at(root, es, ps[i], true))
}

/// The item for an entry itself.
pub open spec fn predicted_item(root: SpelledV, e: EntryV) -> ItemV {
    ItemV {
        abs: place_at(root, name_of_entry(e)).path,
        text: place_at(root, name_of_entry(e)).text,
        owner: e.owner,
        mode: e.mode,
        confirmed: false,
    }
}

pub open spec fn unreadable_dir_rule(me: MeV, root: SpelledV, es: Seq<EntryV>) -> spec_fn(int) -> Option<ItemV> {
    |i: int|
        if es[i].kind == Kind::Dir && (!allowed(me, es[i], READ) || !allowed(me, es[i], SEARCH)) {
            Some(predicted_item(root, es[i]))
        } else {
            None
        }
}

pub open spec fn unreadable_file_rule(me: MeV, root: SpelledV, es: Seq<EntryV>) -> spec_fn(int) -> Option<ItemV> {
    |i: int|
        if es[i].kind == Kind::File && !allowed(me, es[i], READ) {
            Some(predicted_item(root, es[i]))
        } else {
            None
        }
}

/// The directory that holds an entry, unless that is the root of the tree.
pub open spec fn holder(p: PathV) -> Option<PathV> {
    match parent_of(p) {
        Some(q) => if q.len() > 0 {
            Some(q)
        } else {
            None
        },
        None => None,
    }
}

/// The process may change what the directory holds.
pub open spec fn changeable(me: MeV, e: EntryV) -> bool {
    allowed(me, e, WRITE) && allowed(me, e, SEARCH)
}

/// The entry can be deleted, as far as its directory's permissions tell.
pub open spec fn deletable(me: MeV, es: Seq<EntryV>, p: PathV) -> bool {
    match holder(p) {
        Some(q) => match last_at(rels(es), q) {
            Some(k) => changeable(me, es[k]),
            None => true,
        },
        None => true,
    }
}

/// The extras that cannot be deleted, directories or not, as `dirs` asks.
pub open spec fn undeletable_rule(
    me: MeV,
    root: SpelledV,
    es: Seq<EntryV>,
    removed: Seq<ChangeV>,
    dirs: bool,
) -> spec_fn(int) -> Option<ItemV> {
    |i: int|
        if (removed[i].kind == Kind::Dir) == dirs && !deletable(me, es, removed[i].rel) {
            Some(item_at(root, es, name_of_change(removed[i]), false))
        } else {
            None
        }
}

/// The directory that receives an entry at `p` cannot be written.
pub open spec fn blocked_receiver(me: MeV, root: SpelledV, es: Seq<EntryV>, p: PathV) -> Option<ItemV> {
    match holder(p) {
        Some(q) => match last_at(rels(es), q) {
            Some(k) => if es[k].kind == Kind::Dir && !changeable(me, es[k]) {
                Some(predicted_item(root, es[k]))
            } else {
                None
            },
            None => None,
        },
        None => None,
    }
}

pub open spec fn receiving_change_rule(
    me: MeV,
    root: SpelledV,
    es: Seq<EntryV>,
    cs: Seq<ChangeV>,
) -> spec_fn(int) -> Option<ItemV> {
    |i: int| blocked_receiver(me, root, es, cs[i].rel)
}

pub open spec fn receiving_move_rule(
    me: MeV,
    root: SpelledV,
    es: Seq<EntryV>,
    ms: Seq<MoveV>,
) -> spec_fn(int) -> Option<ItemV> {
    |i: int| blocked_receiver(me, root, es, ms[i].to)
}

/// The directories that must receive something and cannot be written.
pub open spec fn receivers(me: MeV, root: SpelledV, es: Seq<EntryV>, d: DiffV) -> Seq<ItemV> {
    collect(d.added.len() as int, receiving_change_rule(me, root, es, d.added)) + collect(
        d.changed.len() as int,
        receiving_change_rule(me, root, es, d.changed),
    ) + collect(d.moved.len() as int, receiving_move_rule(me, root, es, d.moved))
}

/// No earlier item has the same path.
pub open spec fn is_new(v: Seq<ItemV>, i: int) -> bool {
    forall|j: int| 0 <= j < i ==> (#[trigger] v[j]).abs != v[i].abs
}

pub open spec fn new_rule(v: Seq<ItemV>) -> spec_fn(int) -> Option<ItemV> {
    |i: int|
        if is_new(v, i) {
            Some(v[i])
        } else {
            None
        }
}

/// Each path once, and the earlier item where there are several: a confirmed item suppresses its
/// own prediction.
pub open spec fn each_once(v: Seq<ItemV>) -> Seq<ItemV> {
    collect(v.len() as int, new_rule(v))
}

/// The paths of some items.
pub open spec fn item_paths(v: Seq<ItemV>) -> Seq<PathV> {
    Seq::new(v.len(), |i: int| v[i].abs)
}

/// A section: each path once, sorted.
pub open spec fn settled(v: Seq<ItemV>) -> Seq<ItemV> {
    sorted_with(each_once(v), item_paths(each_once(v)), by_path())
}

/// What blocks the mirror.
pub open spec fn stoppers(
    src: SpelledV,
    s: Seq<EntryV>,
    src_denied: Seq<DeniedV>,
    dst: SpelledV,
    t: Seq<EntryV>,
    dst_denied: Seq<DeniedV>,
    d: DiffV,
    me: Option<MeV>,
) -> ShowstoppersV {
    let none = Seq::<ItemV>::empty();
    ShowstoppersV {
        source_unreadable_dirs: settled(
            denied_items(src, src_denied, true) + match me {
                Some(m) => collect(s.len() as int, unreadable_dir_rule(m, src, s)),
                None => none,
            },
        ),
        source_unreadable_files: settled(
            denied_items(src, src_denied, false) + hashed_items(src, s, d.denied_source) + match me {
                Some(m) => collect(s.len() as int, unreadable_file_rule(m, src, s)),
                None => none,
            },
        ),
        destination_unreadable_dirs: settled(denied_items(dst, dst_denied, true)),
        destination_unreadable_files: settled(
            denied_items(dst, dst_denied, false) + hashed_items(dst, t, d.denied_dest),
        ),
        destination_undeletable_files: settled(
            match me {
                Some(m) => collect(d.removed.len() as int, undeletable_rule(m, dst, t, d.removed, false)),
                None => none,
            },
        ),
        destination_undeletable_dirs: settled(
            match me {
                Some(m) => collect(d.removed.len() as int, undeletable_rule(m, dst, t, d.removed, true)),
                None => none,
            },
        ),
        destination_unwritable_dirs: settled(
            match me {
                Some(m) => receivers(m, dst, t, d),
                None => none,
            },
        ),
    }
}

/// Who the predictions are made for: nobody, where root will handle the walls.
pub open spec fn predicting(me: Option<Me>, root_in_reserve: bool) -> Option<MeV> {
    match me {
        Some(m) => if root_in_reserve {
            None
        } else {
            Some(m@)
        },
        None => None,
    }
}

// ── computed ─────────────────────────────────────────────────────────────────

/// Each path once, sorted.
fn settle(items: &Vec<Item>) -> (r: Vec<Item>)
    ensures
        values(r@) == settled(values(items@)),
{
    let ghost v = values(items@);
    let ghost ps = item_paths(v);
    let n: usize = items.len();
    let index = PathIndex::build(items);
    assert(items.paths() =~= ps);
    let mut seen: Vec<bool> = Vec::new();
    let mut k: usize = 0;
    while k < n
        invariant
            0 <= k <= n,
            seen@.len() == k,
            forall|j: int| 0 <= j < k ==> !#[trigger] seen@[j],
        decreases n - k,
    {
        seen.push(false);
        k = k + 1;
    }
    let mut once: Vec<Item> = Vec::new();
    let mut i: usize = 0;
    assert(values(once@) =~= collect(0, new_rule(v)));
    while i < n
        invariant
            n == items@.len(),
            v == values(items@),
            ps == item_paths(v),
            items.paths() == ps,
            index.indexes(items.paths()),
            seen@.len() == n,
            0 <= i <= n,
            values(once@) == collect(i as int, new_rule(v)),
            forall|g: int|
                0 <= g < n ==> (#[trigger] seen@[g] <==> exists|j: int|
                    0 <= j < i && last_at(ps, #[trigger] ps[j]) == Some(g)),
        decreases n - i,
    {
        assert(v[i as int] == items@[i as int].value());
        assert(ps[i as int] == items@[i as int].abs@);
        let found = index.find(items, &items[i].abs);
        proof {
            lemma_last_at(ps, ps[i as int]);
            assert(ps.contains(ps[i as int]));
        }
        match found {
            Some(g) => {
                let ghost before = seen@;
                if !seen[g] {
                    assert(is_new(v, i as int)) by {
                        assert forall|j: int| 0 <= j < i implies (#[trigger] v[j]).abs != v[i as int].abs by {
                            if v[j].abs == v[i as int].abs {
                                assert(ps[j] == ps[i as int]);
                                assert(last_at(ps, ps[j]) == Some(g as int));
                            }
                        }
                    }
                    add_item(&mut once, items[i].dup());
                    seen.set(g, true);
                } else {
                    assert(!is_new(v, i as int)) by {
                        let j = choose|j: int| 0 <= j < i && last_at(ps, #[trigger] ps[j]) == Some(g as int);
                        lemma_last_at(ps, ps[j]);
                        assert(v[j].abs == v[i as int].abs);
                    }
                }
                assert forall|g2: int| 0 <= g2 < n implies (#[trigger] seen@[g2] <==> exists|j: int|
                    0 <= j < i + 1 && last_at(ps, #[trigger] ps[j]) == Some(g2)) by {
                    if before[g2] {
                        let j = choose|j: int| 0 <= j < i && last_at(ps, #[trigger] ps[j]) == Some(g2);
                        assert(last_at(ps, ps[j]) == Some(g2));
                    }
                    if g2 == g {
                        assert(last_at(ps, ps[i as int]) == Some(g2));
                    }
                }
            },
            None => {},
        }
        i = i + 1;
    }
    assert(once.paths() =~= item_paths(each_once(v)));
    sort_items(&once)
}

/// The place `rel` below `root`.
fn place(root: &FsPath, rel: &FsPath) -> (r: FsPath)
    ensures
        r.named() == place_at(root.named(), rel.named()),
{
    root.join(rel)
}

fn push_denied(out: &mut Vec<Item>, root: &FsPath, denied: &Vec<Denied>, dirs: bool)
    ensures
        values(final(out)@) == values(old(out)@) + denied_items(root.named(), denied_view(denied@), dirs),
{
    let ghost start = values(out@);
    let ghost v = denied_view(denied@);
    let mut i: usize = 0;
    assert(values(out@) =~= start + collect(0, denied_rule(root.named(), v, dirs)));
    while i < denied.len()
        invariant
            v == denied_view(denied@),
            0 <= i <= denied@.len(),
            values(out@) == start + collect(i as int, denied_rule(root.named(), v, dirs)),
        decreases denied@.len() - i,
    {
        assert(v[i as int].rel == denied@[i as int].rel.named());
        let (is_dir, owner, mode): (bool, Option<(u32, u32)>, Option<u32>) = match denied[i].found {
            Some(f) => (f.is_dir, f.owner, f.mode),
            None => (true, None, None),
        };
        if is_dir == dirs {
            add_item(out, Item { abs: place(root, &denied[i].rel), owner, mode, confirmed: true });
        }
        i = i + 1;
        assert(values(out@) =~= start + collect(i as int, denied_rule(root.named(), v, dirs)));
    }
}

fn make_item(
    root: &FsPath,
    entries: &Vec<Entry>,
    index: &PathIndex,
    p: &FsPath,
    confirmed: bool,
) -> (r: Item)
    requires
        index.indexes(entries.paths()),
    ensures
        r.value() == item_at(root.named(), entries_view(entries@), p.named(), confirmed),
{
    assert(entries.paths() =~= rels(entries_view(entries@)));
    let (owner, mode): (Option<(u32, u32)>, Option<u32>) = match index.find(entries, p) {
        Some(k) => {
            proof {
                lemma_last_at(entries.paths(), p@);
            }
            assert(entries_view(entries@)[k as int] == entries@[k as int]@);
            (entries[k].owner, entries[k].mode)
        },
        None => (None, None),
    };
    Item { abs: place(root, p), owner, mode, confirmed }
}

fn push_hashed(out: &mut Vec<Item>, root: &FsPath, entries: &Vec<Entry>, index: &PathIndex, list: &Vec<FsPath>)
    requires
        index.indexes(entries.paths()),
    ensures
        values(final(out)@) == values(old(out)@) + hashed_items(
            root.named(),
            entries_view(entries@),
            named_view(list@),
        ),
{
    let ghost start = values(out@);
    let ghost want = hashed_items(root.named(), entries_view(entries@), named_view(list@));
    let mut i: usize = 0;
    assert(values(out@) =~= start + want.subrange(0, 0));
    while i < list.len()
        invariant
            index.indexes(entries.paths()),
            want == hashed_items(root.named(), entries_view(entries@), named_view(list@)),
            0 <= i <= list@.len(),
            values(out@) == start + want.subrange(0, i as int),
        decreases list@.len() - i,
    {
        add_item(out, make_item(root, entries, index, &list[i], true));
        i = i + 1;
        assert(values(out@) =~= start + want.subrange(0, i as int));
    }
    assert(want.subrange(0, list@.len() as int) =~= want);
}

fn push_unreadable(dirs: &mut Vec<Item>, files: &mut Vec<Item>, me: &Me, root: &FsPath, entries: &Vec<Entry>)
    ensures
        values(final(dirs)@) == values(old(dirs)@) + collect(
            entries@.len() as int,
            unreadable_dir_rule(me@, root.named(), entries_view(entries@)),
        ),
        values(final(files)@) == values(old(files)@) + collect(
            entries@.len() as int,
            unreadable_file_rule(me@, root.named(), entries_view(entries@)),
        ),
{
    let ghost es = entries_view(entries@);
    let ghost (d0, f0) = (values(dirs@), values(files@));
    let mut i: usize = 0;
    assert(values(dirs@) =~= d0 + collect(0, unreadable_dir_rule(me@, root.named(), es)));
    assert(values(files@) =~= f0 + collect(0, unreadable_file_rule(me@, root.named(), es)));
    while i < entries.len()
        invariant
            es == entries_view(entries@),
            0 <= i <= entries@.len(),
            values(dirs@) == d0 + collect(i as int, unreadable_dir_rule(me@, root.named(), es)),
            values(files@) == f0 + collect(i as int, unreadable_file_rule(me@, root.named(), es)),
        decreases entries@.len() - i,
    {
        let e = &entries[i];
        assert(es[i as int] == e@);
        if e.kind == Kind::Dir {
            if !me.allows(e, READ) || !me.allows(e, SEARCH) {
                add_item(dirs, Item { abs: place(root, &e.rel), owner: e.owner, mode: e.mode, confirmed: false });
            }
        } else if e.kind == Kind::File {
            if !me.allows(e, READ) {
                add_item(files, Item { abs: place(root, &e.rel), owner: e.owner, mode: e.mode, confirmed: false });
            }
        }
        i = i + 1;
        assert(values(dirs@) =~= d0 + collect(i as int, unreadable_dir_rule(me@, root.named(), es)));
        assert(values(files@) =~= f0 + collect(i as int, unreadable_file_rule(me@, root.named(), es)));
    }
}

/// The directory that holds an entry, unless that is the root of the tree.
fn holder_of(p: &FsPath) -> (r: Option<FsPath>)
    ensures
        crate::manifest::opt_path(r) == holder(p@),
{
    match p.parent() {
        Some(q) => {
            if q.depth() > 0 {
                Some(q)
            } else {
                None
            }
        },
        None => None,
    }
}

fn is_deletable(me: &Me, entries: &Vec<Entry>, index: &PathIndex, p: &FsPath) -> (r: bool)
    requires
        index.indexes(entries.paths()),
    ensures
        r == deletable(me@, entries_view(entries@), p@),
{
    assert(entries.paths() =~= rels(entries_view(entries@)));
    match holder_of(p) {
        Some(q) => match index.find(entries, &q) {
            Some(k) => {
                proof {
                    lemma_last_at(entries.paths(), q@);
                }
                assert(entries_view(entries@)[k as int] == entries@[k as int]@);
                me.allows(&entries[k], WRITE) && me.allows(&entries[k], SEARCH)
            },
            None => true,
        },
        None => true,
    }
}

fn push_undeletable(
    dirs: &mut Vec<Item>,
    files: &mut Vec<Item>,
    me: &Me,
    root: &FsPath,
    entries: &Vec<Entry>,
    index: &PathIndex,
    removed: &Vec<Change>,
)
    requires
        index.indexes(entries.paths()),
        old(dirs)@.len() == 0,
        old(files)@.len() == 0,
    ensures
        values(final(dirs)@) == collect(
            removed@.len() as int,
            undeletable_rule(me@, root.named(), entries_view(entries@), values(removed@), true),
        ),
        values(final(files)@) == collect(
            removed@.len() as int,
            undeletable_rule(me@, root.named(), entries_view(entries@), values(removed@), false),
        ),
{
    let ghost es = entries_view(entries@);
    let ghost rv = values(removed@);
    let mut i: usize = 0;
    assert(values(dirs@) =~= collect(0, undeletable_rule(me@, root.named(), es, rv, true)));
    assert(values(files@) =~= collect(0, undeletable_rule(me@, root.named(), es, rv, false)));
    while i < removed.len()
        invariant
            es == entries_view(entries@),
            rv == values(removed@),
            index.indexes(entries.paths()),
            0 <= i <= removed@.len(),
            values(dirs@) == collect(i as int, undeletable_rule(me@, root.named(), es, rv, true)),
            values(files@) == collect(i as int, undeletable_rule(me@, root.named(), es, rv, false)),
        decreases removed@.len() - i,
    {
        assert(rv[i as int] == removed@[i as int].value());
        if !is_deletable(me, entries, index, &removed[i].rel) {
            let item = make_item(root, entries, index, &removed[i].rel, false);
            if removed[i].kind == Kind::Dir {
                add_item(dirs, item);
            } else {
                add_item(files, item);
            }
        }
        i = i + 1;
    }
}

fn receiver(me: &Me, root: &FsPath, entries: &Vec<Entry>, index: &PathIndex, p: &FsPath) -> (r: Option<Item>)
    requires
        index.indexes(entries.paths()),
    ensures
        r is Some <==> blocked_receiver(me@, root.named(), entries_view(entries@), p@) is Some,
        r matches Some(x) ==> blocked_receiver(me@, root.named(), entries_view(entries@), p@) == Some(x.value()),
{
    assert(entries.paths() =~= rels(entries_view(entries@)));
    match holder_of(p) {
        Some(q) => match index.find(entries, &q) {
            Some(k) => {
                proof {
                    lemma_last_at(entries.paths(), q@);
                }
                let e = &entries[k];
                assert(entries_view(entries@)[k as int] == e@);
                if e.kind == Kind::Dir && !(me.allows(e, WRITE) && me.allows(e, SEARCH)) {
                    Some(Item { abs: place(root, &e.rel), owner: e.owner, mode: e.mode, confirmed: false })
                } else {
                    None
                }
            },
            None => None,
        },
        None => None,
    }
}

fn push_receiving_changes(
    out: &mut Vec<Item>,
    me: &Me,
    root: &FsPath,
    entries: &Vec<Entry>,
    index: &PathIndex,
    cs: &Vec<Change>,
)
    requires
        index.indexes(entries.paths()),
    ensures
        values(final(out)@) == values(old(out)@) + collect(
            cs@.len() as int,
            receiving_change_rule(me@, root.named(), entries_view(entries@), values(cs@)),
        ),
{
    let ghost start = values(out@);
    let ghost es = entries_view(entries@);
    let ghost cv = values(cs@);
    let mut i: usize = 0;
    assert(values(out@) =~= start + collect(0, receiving_change_rule(me@, root.named(), es, cv)));
    while i < cs.len()
        invariant
            es == entries_view(entries@),
            cv == values(cs@),
            index.indexes(entries.paths()),
            0 <= i <= cs@.len(),
            values(out@) == start + collect(i as int, receiving_change_rule(me@, root.named(), es, cv)),
        decreases cs@.len() - i,
    {
        assert(cv[i as int] == cs@[i as int].value());
        match receiver(me, root, entries, index, &cs[i].rel) {
            Some(x) => {
                add_item(out, x);
            },
            None => {},
        }
        i = i + 1;
        assert(values(out@) =~= start + collect(i as int, receiving_change_rule(me@, root.named(), es, cv)));
    }
}

fn push_receiving_moves(
    out: &mut Vec<Item>,
    me: &Me,
    root: &FsPath,
    entries: &Vec<Entry>,
    index: &PathIndex,
    ms: &Vec<Move>,
)
    requires
        index.indexes(entries.paths()),
    ensures
        values(final(out)@) == values(old(out)@) + collect(
            ms@.len() as int,
            receiving_move_rule(me@, root.named(), entries_view(entries@), values(ms@)),
        ),
{
    let ghost start = values(out@);
    let ghost es = entries_view(entries@);
    let ghost mv = values(ms@);
    let mut i: usize = 0;
    assert(values(out@) =~= start + collect(0, receiving_move_rule(me@, root.named(), es, mv)));
    while i < ms.len()
        invariant
            es == entries_view(entries@),
            mv == values(ms@),
            index.indexes(entries.paths()),
            0 <= i <= ms@.len(),
            values(out@) == start + collect(i as int, receiving_move_rule(me@, root.named(), es, mv)),
        decreases ms@.len() - i,
    {
        assert(mv[i as int] == ms@[i as int].value());
        match receiver(me, root, entries, index, &ms[i].to) {
            Some(x) => {
                add_item(out, x);
            },
            None => {},
        }
        i = i + 1;
        assert(values(out@) =~= start + collect(i as int, receiving_move_rule(me@, root.named(), es, mv)));
    }
}

/// Compute what blocks the mirror, from what the run saw. `src_denied` and `dst_denied` are the
/// scans' permission failures; the difference carries those of comparing. Predictions are made for
/// `me` from the owner and mode bits, and left out where root is in reserve. The roots are absolute.
pub fn analyze(
    src: &SrcRoot,
    src_m: &Manifest,
    src_denied: &Vec<Denied>,
    dst: &DstRoot,
    dst_m: &Manifest,
    dst_denied: &Vec<Denied>,
    d: &Diff,
    elevation_available: bool,
    me: &Option<Me>,
) -> (r: Showstoppers)
    ensures
        r@ == stoppers(
            src.named(),
            src_m@,
            denied_view(src_denied@),
            dst.named(),
            dst_m@,
            denied_view(dst_denied@),
            d@,
            predicting(*me, elevation_available),
        ),
{
    let sp = src.path();
    let dp = dst.path();
    let src_entries = src_m.entries();
    let dst_entries = dst_m.entries();
    let src_index = PathIndex::build(src_entries);
    let dst_index = PathIndex::build(dst_entries);
    let ghost none = Seq::<ItemV>::empty();
    let mut s_dirs: Vec<Item> = Vec::new();
    let mut s_files: Vec<Item> = Vec::new();
    let mut d_dirs: Vec<Item> = Vec::new();
    let mut d_files: Vec<Item> = Vec::new();
    let mut del_files: Vec<Item> = Vec::new();
    let mut del_dirs: Vec<Item> = Vec::new();
    let mut unwritable: Vec<Item> = Vec::new();
    assert(values(s_dirs@) =~= none);
    push_denied(&mut s_dirs, sp, src_denied, true);
    push_denied(&mut s_files, sp, src_denied, false);
    push_denied(&mut d_dirs, dp, dst_denied, true);
    push_denied(&mut d_files, dp, dst_denied, false);
    push_hashed(&mut s_files, sp, src_entries, &src_index, &d.denied_source);
    push_hashed(&mut d_files, dp, dst_entries, &dst_index, &d.denied_dest);
    assert(values(s_dirs@) =~= denied_items(src.named(), denied_view(src_denied@), true) + none);
    assert(values(s_files@) =~= denied_items(src.named(), denied_view(src_denied@), false) + hashed_items(
        src.named(),
        src_m@,
        d@.denied_source,
    ) + none);
    assert(values(d_dirs@) =~= denied_items(dst.named(), denied_view(dst_denied@), true));
    assert(values(d_files@) =~= denied_items(dst.named(), denied_view(dst_denied@), false) + hashed_items(
        dst.named(),
        dst_m@,
        d@.denied_dest,
    ));
    assert(values(del_files@) =~= none);
    if !elevation_available {
        match me {
            Some(m) => {
                push_unreadable(&mut s_dirs, &mut s_files, m, sp, src_entries);
                push_undeletable(&mut del_dirs, &mut del_files, m, dp, dst_entries, &dst_index, &d.removed);
                push_receiving_changes(&mut unwritable, m, dp, dst_entries, &dst_index, &d.added);
                push_receiving_changes(&mut unwritable, m, dp, dst_entries, &dst_index, &d.changed);
                push_receiving_moves(&mut unwritable, m, dp, dst_entries, &dst_index, &d.moved);
                proof {
                    assert(values(unwritable@) =~= receivers(m@, dst.named(), dst_m@, d@));
                    assert(values(s_dirs@) =~= denied_items(src.named(), denied_view(src_denied@), true) + collect(
                        src_m@.len() as int,
                        unreadable_dir_rule(m@, src.named(), src_m@),
                    ));
                    assert(values(s_files@) =~= denied_items(src.named(), denied_view(src_denied@), false)
                        + hashed_items(src.named(), src_m@, d@.denied_source) + collect(
                        src_m@.len() as int,
                        unreadable_file_rule(m@, src.named(), src_m@),
                    ));
                }
            },
            None => {},
        }
    }
    Showstoppers {
        source_unreadable_dirs: settle(&s_dirs),
        source_unreadable_files: settle(&s_files),
        destination_unreadable_dirs: settle(&d_dirs),
        destination_unreadable_files: settle(&d_files),
        destination_undeletable_files: settle(&del_files),
        destination_undeletable_dirs: settle(&del_dirs),
        destination_unwritable_dirs: settle(&unwritable),
    }
}

// ── quoting ──────────────────────────────────────────────────────────────────

/// A byte that stands for itself between plain quotes.
pub open spec fn plain_byte(b: u8) -> bool {
    0x20 <= b <= 0x7e && b != 39
}

pub open spec fn all_plain(b: Seq<u8>) -> bool {
    forall|i: int| 0 <= i < b.len() ==> plain_byte(#[trigger] b[i])
}

/// ASCII bytes as text.
pub open spec fn ascii_text(b: Seq<u8>) -> Seq<char> {
    Seq::new(b.len(), |i: int| b[i] as char)
}

/// A byte inside `$'…'`.
pub open spec fn escaped(b: u8) -> Seq<char> {
    if b == 92 {
        seq!['\\', '\\']
    } else if b == 39 {
        seq!['\\', '\'']
    } else if b == 10 {
        seq!['\\', 'n']
    } else if b == 9 {
        seq!['\\', 't']
    } else if b == 13 {
        seq!['\\', 'r']
    } else if 0x20 <= b <= 0x7e {
        seq![b as char]
    } else {
        seq!['\\', 'x', digit((b / 16) as int), digit((b % 16) as int)]
    }
}

/// Bytes inside `$'…'`.
pub open spec fn all_escaped(b: Seq<u8>) -> Seq<char>
    decreases b.len(),
{
    if b.len() == 0 {
        Seq::empty()
    } else {
        all_escaped(b.drop_last()) + escaped(b.last())
    }
}

/// Bytes as a bash literal: `'…'` where every byte is printable ASCII and no quote, else `$'…'`.
pub open spec fn quoted(b: Seq<u8>) -> Seq<char> {
    if all_plain(b) {
        seq!['\''] + ascii_text(b) + seq!['\'']
    } else {
        seq!['$', '\''] + all_escaped(b) + seq!['\'']
    }
}

/// A path as a bash literal. Bash reads it back as the exact bytes of the path.
pub fn bash_quote(path: &FsPath) -> (r: String)
    ensures
        r@ == quoted(path.spelled()),
{
    let bytes = path.spelling();
    let n: usize = bytes.len();
    let mut simple = true;
    let mut i: usize = 0;
    while i < n && simple
        invariant
            n == bytes@.len(),
            0 <= i <= n,
            simple ==> forall|k: int| 0 <= k < i ==> plain_byte(#[trigger] bytes@[k]),
            !simple ==> !all_plain(bytes@),
        decreases n - i,
    {
        let b: u8 = bytes[i];
        if !(0x20 <= b && b <= 0x7e && b != 39) {
            simple = false;
            assert(!plain_byte(bytes@[i as int]));
        }
        i = i + 1;
    }
    let mut s = String::new();
    if simple {
        assert(all_plain(bytes@));
        s.push('\'');
        let mut k: usize = 0;
        assert(s@ =~= seq!['\''] + ascii_text(bytes@).subrange(0, 0));
        while k < n
            invariant
                n == bytes@.len(),
                all_plain(bytes@),
                0 <= k <= n,
                s@ == seq!['\''] + ascii_text(bytes@).subrange(0, k as int),
            decreases n - k,
        {
            assert(plain_byte(bytes@[k as int]));
            s.push(bytes[k] as char);
            k = k + 1;
            assert(s@ =~= seq!['\''] + ascii_text(bytes@).subrange(0, k as int));
        }
        s.push('\'');
        assert(s@ =~= quoted(bytes@));
    } else {
        s.push('$');
        s.push('\'');
        let mut k: usize = 0;
        assert(s@ =~= seq!['$', '\''] + all_escaped(bytes@.subrange(0, 0)));
        while k < n
            invariant
                n == bytes@.len(),
                0 <= k <= n,
                s@ == seq!['$', '\''] + all_escaped(bytes@.subrange(0, k as int)),
            decreases n - k,
        {
            let ghost before = s@;
            let b: u8 = bytes[k];
            if b == 92 {
                s.push('\\');
                s.push('\\');
            } else if b == 39 {
                s.push('\\');
                s.push('\'');
            } else if b == 10 {
                s.push('\\');
                s.push('n');
            } else if b == 9 {
                s.push('\\');
                s.push('t');
            } else if b == 13 {
                s.push('\\');
                s.push('r');
            } else if 0x20 <= b && b <= 0x7e {
                s.push(b as char);
            } else {
                s.push('\\');
                s.push('x');
                s.push(digit_char(b / 16));
                s.push(digit_char(b % 16));
            }
            assert(s@ =~= before + escaped(b));
            k = k + 1;
            let ghost now = bytes@.subrange(0, k as int);
            assert(now.drop_last() =~= bytes@.subrange(0, k - 1));
            assert(now.last() == b);
            assert(s@ =~= seq!['$', '\''] + all_escaped(now));
        }
        assert(bytes@.subrange(0, n as int) =~= bytes@);
        s.push('\'');
        assert(s@ =~= quoted(bytes@));
    }
    s
}

/// The value of a hexadecimal digit.
pub open spec fn hex_value(c: char) -> Option<int> {
    if '0' <= c <= '9' {
        Some(c as int - 48)
    } else if 'a' <= c <= 'f' {
        Some(c as int - 87)
    } else if 'A' <= c <= 'F' {
        Some(c as int - 55)
    } else {
        None
    }
}

/// What bash makes of the rest of a `$'…'` word, up to the closing quote, which must end it. Of
/// bash's escapes, those that [`bash_quote`] writes; a zero byte is none that bash can hold.
pub open spec fn read_ansi_c(s: Seq<char>) -> Option<Seq<u8>>
    decreases s.len(),
{
    if s.len() == 0 {
        None
    } else if s[0] == '\'' {
        if s.len() == 1 {
            Some(Seq::empty())
        } else {
            None
        }
    } else if s[0] == '\\' {
        if s.len() < 2 {
            None
        } else if s[1] == 'x' {
            if s.len() < 4 {
                None
            } else {
                match (hex_value(s[2]), hex_value(s[3])) {
                    (Some(h), Some(l)) => if h * 16 + l == 0 {
                        None
                    } else {
                        read_on(seq![(h * 16 + l) as u8], read_ansi_c(s.subrange(4, s.len() as int)))
                    },
                    _ => None,
                }
            }
        } else {
            let rest = read_ansi_c(s.subrange(2, s.len() as int));
            if s[1] == '\\' {
                read_on(seq![92u8], rest)
            } else if s[1] == '\'' {
                read_on(seq![39u8], rest)
            } else if s[1] == 'n' {
                read_on(seq![10u8], rest)
            } else if s[1] == 't' {
                read_on(seq![9u8], rest)
            } else if s[1] == 'r' {
                read_on(seq![13u8], rest)
            } else {
                None
            }
        }
    } else {
        read_on(encode_utf8(seq![s[0]]), read_ansi_c(s.subrange(1, s.len() as int)))
    }
}

pub open spec fn read_on(first: Seq<u8>, rest: Option<Seq<u8>>) -> Option<Seq<u8>> {
    match rest {
        Some(r) => Some(first + r),
        None => None,
    }
}

/// What bash makes of a quoted word: `'…'` holds every character but a quote literally.
pub open spec fn bash_reads(t: Seq<char>) -> Option<Seq<u8>> {
    if t.len() >= 2 && t[0] == '\'' && t.last() == '\'' && !t.subrange(1, t.len() - 1).contains('\'') {
        Some(encode_utf8(t.subrange(1, t.len() - 1)))
    } else if t.len() >= 3 && t[0] == '$' && t[1] == '\'' {
        read_ansi_c(t.subrange(2, t.len() as int))
    } else {
        None
    }
}

proof fn lemma_escaped_front(b: Seq<u8>)
    requires
        b.len() > 0,
    ensures
        all_escaped(b) == escaped(b[0]) + all_escaped(b.subrange(1, b.len() as int)),
    decreases b.len(),
{
    let rest = b.subrange(1, b.len() as int);
    if b.len() == 1 {
        assert(b.drop_last() =~= Seq::<u8>::empty());
        assert(all_escaped(b.drop_last()) =~= Seq::<char>::empty());
        assert(all_escaped(rest) =~= Seq::<char>::empty());
        assert(all_escaped(b) =~= escaped(b[0]) + all_escaped(rest));
    } else {
        let c = b.drop_last();
        lemma_escaped_front(c);
        assert(c.subrange(1, c.len() as int) =~= rest.drop_last());
        assert(rest.last() == b.last());
        assert(all_escaped(b) =~= escaped(b[0]) + all_escaped(rest));
    }
}

proof fn lemma_one_ascii(b: u8)
    requires
        b < 128,
    ensures
        encode_utf8(seq![b as char]) == seq![b],
{
    let c = seq![b as char];
    assert(is_ascii_chars(c)) by {
        assert(c[0] == b as char);
    }
    is_ascii_chars_encode_utf8(c);
    assert(encode_utf8(c) =~= seq![b]);
}

proof fn lemma_read_escaped(b: Seq<u8>)
    requires
        forall|i: int| 0 <= i < b.len() ==> #[trigger] b[i] != 0,
    ensures
        read_ansi_c(all_escaped(b) + seq!['\'']) == Some(b),
    decreases b.len(),
{
    let s = all_escaped(b) + seq!['\''];
    if b.len() == 0 {
        assert(s =~= seq!['\'']);
        assert(read_ansi_c(s) == Some(Seq::<u8>::empty()));
        assert(b =~= Seq::<u8>::empty());
    } else {
        let rest = b.subrange(1, b.len() as int);
        lemma_escaped_front(b);
        lemma_read_escaped(rest);
        let tail = all_escaped(rest) + seq!['\''];
        let e = escaped(b[0]);
        assert(s =~= e + tail);
        assert(s.subrange(e.len() as int, s.len() as int) =~= tail);
        assert(seq![b[0]] + rest =~= b);
        assert(b[0] != 0);
        if b[0] == 92 || b[0] == 39 || b[0] == 10 || b[0] == 9 || b[0] == 13 {
            assert(s[0] == '\\' && s[1] == e[1]);
        } else if 0x20 <= b[0] <= 0x7e {
            assert(s[0] == b[0] as char);
            lemma_one_ascii(b[0]);
        } else {
            assert(s[0] == '\\' && s[1] == 'x' && s[2] == e[2] && s[3] == e[3]);
            assert(hex_value(e[2]) == Some((b[0] / 16) as int));
            assert(hex_value(e[3]) == Some((b[0] % 16) as int));
        }
    }
}

/// Any file name survives the round trip: bash reads a quoted path back as the exact bytes. A path
/// holds no zero byte.
pub proof fn bash_reads_a_quoted_path_back(b: Seq<u8>)
    requires
        forall|i: int| 0 <= i < b.len() ==> #[trigger] b[i] != 0,
    ensures
        bash_reads(quoted(b)) == Some(b),
{
    let q = quoted(b);
    if all_plain(b) {
        let t = ascii_text(b);
        let inner = q.subrange(1, q.len() - 1);
        assert(inner =~= t);
        assert(!inner.contains('\'')) by {
            if inner.contains('\'') {
                let k = choose|k: int| 0 <= k < inner.len() && inner[k] == '\'';
                assert(plain_byte(b[k]));
                assert(t[k] == b[k] as char);
            }
        }
        assert(is_ascii_chars(t)) by {
            assert forall|i: int| 0 <= i < t.len() implies (0 <= #[trigger] t[i] as nat) && (t[i] as nat) < 128 by {
                assert(plain_byte(b[i]));
            }
        }
        is_ascii_chars_encode_utf8(t);
        assert(encode_utf8(t) =~= b) by {
            assert forall|i: int| 0 <= i < b.len() implies encode_utf8(t)[i] == b[i] by {
                assert(plain_byte(b[i]));
                assert(t[i] == b[i] as char);
            }
        }
    } else {
        lemma_read_escaped(b);
        assert(q[0] == '$' && q[1] == '\'');
        assert(q.subrange(2, q.len() as int) =~= all_escaped(b) + seq!['\'']);
    }
}

// ── rendering ────────────────────────────────────────────────────────────────

/// The names of users and groups, as far as they are known.
#[derive(Debug)]
pub struct Names {
    pub users: Vec<(u32, String)>,
    pub groups: Vec<(u32, String)>,
}

/// The value of [`Names`].
pub struct NamesV {
    pub users: Seq<(u32, Seq<char>)>,
    pub groups: Seq<(u32, Seq<char>)>,
}

pub open spec fn name_list(v: Seq<(u32, String)>) -> Seq<(u32, Seq<char>)> {
    Seq::new(v.len(), |i: int| (v[i].0, v[i].1@))
}

impl View for Names {
    type V = NamesV;

    open spec fn view(&self) -> NamesV {
        NamesV { users: name_list(self.users@), groups: name_list(self.groups@) }
    }
}

/// The first name that the list gives for a number from the `k`-th entry on, or the number itself.
pub open spec fn name_from(list: Seq<(u32, Seq<char>)>, id: u32, k: int) -> Seq<char>
    decreases list.len() - k,
{
    if k < 0 || k >= list.len() {
        dec(id as nat)
    } else if list[k].0 == id {
        list[k].1
    } else {
        name_from(list, id, k + 1)
    }
}

impl Names {
    /// No names are known.
    pub fn none() -> (r: Names)
        ensures
            r@.users.len() == 0,
            r@.groups.len() == 0,
    {
        Names { users: Vec::new(), groups: Vec::new() }
    }
}

fn push_name(s: &mut String, list: &Vec<(u32, String)>, id: u32)
    ensures
        final(s)@ == old(s)@ + name_from(name_list(list@), id, 0),
{
    let ghost l = name_list(list@);
    let mut k: usize = 0;
    while k < list.len()
        invariant
            l == name_list(list@),
            0 <= k <= list@.len(),
            name_from(l, id, 0) == name_from(l, id, k as int),
            s@ == old(s)@,
        decreases list@.len() - k,
    {
        assert(l[k as int] == (list@[k as int].0, list@[k as int].1@));
        if list[k].0 == id {
            s.append(list[k].1.as_str());
            return;
        }
        k = k + 1;
    }
    push_dec(s, id as u64);
}

/// The permission bits as four octal digits.
pub open spec fn mode_text(mode: Option<u32>) -> Seq<char> {
    match mode {
        Some(m) => zero_filled(in_base((m & 0o7777) as nat, 8), 4),
        None => "????"@,
    }
}

/// How one item is listed: its path as a bash literal, and what is known of it as a comment.
pub open spec fn put_item(names: NamesV) -> spec_fn(Seq<char>, ItemV) -> Seq<char> {
    |out: Seq<char>, it: ItemV|
        match it.owner {
            Some((uid, gid)) => out + "  "@ + quoted(it.text) + "  # "@ + name_from(
                names.users,
                uid,
                0,
            ) + ":"@ + name_from(names.groups, gid, 0),
            None => out + "  "@ + quoted(it.text) + "  # "@ + "?:?"@,
        } + " "@ + mode_text(it.mode) + " "@ + if it.confirmed {
            "confirmed"@
        } else {
            "predicted"@
        } + "\n"@
}

/// `out` with a section: an array and the loop that applies its remedy, or nothing where the array
/// would be empty.
pub open spec fn put_section(
    out: Seq<char>,
    title: Seq<char>,
    why: Seq<char>,
    extra: Seq<char>,
    array: Seq<char>,
    remedy: Seq<char>,
    items: Seq<ItemV>,
    names: NamesV,
) -> Seq<char> {
    if items.len() == 0 {
        out
    } else {
        let o = out + "\n# ── "@ + title + "\n# "@ + why + "\n"@ + extra + array + "=(\n"@;
        put_each(o, items, items.len() as int, put_item(names)) + ")\n"@ + "for f in \"${"@ + array
            + "[@]}\"; do\n  "@ + remedy + "\ndone\n"@
    }
}

pub open spec fn header_text() -> Seq<char> {
    "# filesync showstoppers — what prevents a faithful mirror, with paste-able remedies.\n#\n# Each section below is a bash ARRAY of absolute paths, followed by the LOOP that\n# applies that section's fix to the array. Paste the array into your shell, review\n# it, then paste the loop. Nothing in this file runs on its own — that's deliberate.\n# Quoting is bash-exact (including $'…' for names with special characters), so any\n# filename round-trips correctly.\n#\n# Per-line comment: owner  permission-bits  confidence.\n#   confirmed = an operation actually failed there during this run\n#   predicted = judged from owner/mode arithmetic (an ACL may say otherwise)\n#\n# Alternative to all of this: run filesync under sudo — it uses root only at these\n# walls and records every use (see README, \"Restricted-access files\").\n"@
}

/// The text of a showstoppers file.
pub open spec fn stoppers_text(s: ShowstoppersV, names: NamesV) -> Seq<char> {
    let none = ""@;
    let o1 = put_section(
        header_text(),
        "SOURCE: directories your user cannot read — their contents CANNOT BE BACKED UP"@,
        "While any of these exist, a sync also suspends ALL deletions (incomplete source view)."@,
        "# (or take ownership instead: sudo chown -R \"$(id -un):\" -- each path)\n"@,
        "filesync_source_unreadable_dirs"@,
        "sudo setfacl -R -m \"u:$(id -un):rX\" -- \"$f\""@,
        s.source_unreadable_dirs,
        names,
    );
    let o2 = put_section(
        o1,
        "SOURCE: files your user cannot read — they CANNOT BE BACKED UP"@,
        "Reading them is required to copy, hash, and verify."@,
        none,
        "filesync_source_unreadable_files"@,
        "sudo setfacl -m \"u:$(id -un):r\" -- \"$f\""@,
        s.source_unreadable_files,
        names,
    );
    let o3 = put_section(
        o2,
        "DESTINATION: directories your user cannot read"@,
        "Their contents can't be verified or mirror-managed."@,
        none,
        "filesync_destination_unreadable_dirs"@,
        "sudo setfacl -R -m \"u:$(id -un):rX\" -- \"$f\""@,
        s.destination_unreadable_dirs,
        names,
    );
    let o4 = put_section(
        o3,
        "DESTINATION: files your user cannot read"@,
        "They can't be hash-compared (move-detection, corruption checks)."@,
        none,
        "filesync_destination_unreadable_files"@,
        "sudo setfacl -m \"u:$(id -un):r\" -- \"$f\""@,
        s.destination_unreadable_files,
        names,
    );
    let o5 = put_section(
        o4,
        "DESTINATION: extra files the mirror wants to DELETE, but their parent dir is not writable by you"@,
        "Mirror semantics already doom these (absent from the source) — review before pasting."@,
        none,
        "filesync_destination_undeletable_files"@,
        "sudo rm -- \"$f\""@,
        s.destination_undeletable_files,
        names,
    );
    let o6 = put_section(
        o5,
        "DESTINATION: extra directories the mirror wants to DELETE, but their parent dir is not writable by you"@,
        "rmdir only removes EMPTY dirs — clear their contents first (files list above)."@,
        none,
        "filesync_destination_undeletable_dirs"@,
        "sudo rmdir -- \"$f\""@,
        s.destination_undeletable_dirs,
        names,
    );
    put_section(
        o6,
        "DESTINATION: directories that must RECEIVE copies, but are not writable by you"@,
        "Planned copies/moves into them will fail."@,
        none,
        "filesync_destination_unwritable_dirs"@,
        "sudo setfacl -m \"u:$(id -un):rwX\" -- \"$f\""@,
        s.destination_unwritable_dirs,
        names,
    )
}

fn push_item(out: &mut String, it: &Item, names: &Names)
    ensures
        final(out)@ == put_item(names@)(old(out)@, it.value()),
{
    out.append("  ");
    let q = bash_quote(&it.abs);
    out.append(q.as_str());
    out.append("  # ");
    match it.owner {
        Some((uid, gid)) => {
            push_name(out, &names.users, uid);
            out.append(":");
            push_name(out, &names.groups, gid);
        },
        None => {
            out.append("?:?");
        },
    }
    out.append(" ");
    match it.mode {
        Some(m) => {
            push_zero_filled(out, (m & 0o7777) as u64, 8, 4);
        },
        None => {
            out.append("????");
        },
    }
    out.append(" ");
    if it.confirmed {
        out.append("confirmed");
    } else {
        out.append("predicted");
    }
    out.append("\n");
}

fn section(
    out: &mut String,
    title: &str,
    why: &str,
    extra: &str,
    array: &str,
    remedy: &str,
    items: &Vec<Item>,
    names: &Names,
)
    ensures
        final(out)@ == put_section(
            old(out)@,
            title@,
            why@,
            extra@,
            array@,
            remedy@,
            values(items@),
            names@,
        ),
{
    if items.len() == 0 {
        return;
    }
    let ghost v = values(items@);
    out.append("\n# ── ");
    out.append(title);
    out.append("\n# ");
    out.append(why);
    out.append("\n");
    out.append(extra);
    out.append(array);
    out.append("=(\n");
    let ghost start = out@;
    let mut i: usize = 0;
    while i < items.len()
        invariant
            v == values(items@),
            0 <= i <= items@.len(),
            out@ == put_each(start, v, i as int, put_item(names@)),
        decreases items@.len() - i,
    {
        assert(v[i as int] == items@[i as int].value());
        push_item(out, &items[i], names);
        i = i + 1;
    }
    out.append(")\n");
    out.append("for f in \"${");
    out.append(array);
    out.append("[@]}\"; do\n  ");
    out.append(remedy);
    out.append("\ndone\n");
}

impl Showstoppers {
    /// The text of the file: a header, then one array and remedy loop per non-empty section.
    pub fn render(&self, names: &Names) -> (out: String)
        ensures
            out@ == stoppers_text(self@, names@),
    {
        let mut out = String::from_str("# filesync showstoppers — what prevents a faithful mirror, with paste-able remedies.\n#\n# Each section below is a bash ARRAY of absolute paths, followed by the LOOP that\n# applies that section's fix to the array. Paste the array into your shell, review\n# it, then paste the loop. Nothing in this file runs on its own — that's deliberate.\n# Quoting is bash-exact (including $'…' for names with special characters), so any\n# filename round-trips correctly.\n#\n# Per-line comment: owner  permission-bits  confidence.\n#   confirmed = an operation actually failed there during this run\n#   predicted = judged from owner/mode arithmetic (an ACL may say otherwise)\n#\n# Alternative to all of this: run filesync under sudo — it uses root only at these\n# walls and records every use (see README, \"Restricted-access files\").\n");
        section(
            &mut out,
            "SOURCE: directories your user cannot read — their contents CANNOT BE BACKED UP",
            "While any of these exist, a sync also suspends ALL deletions (incomplete source view).",
            "# (or take ownership instead: sudo chown -R \"$(id -un):\" -- each path)\n",
            "filesync_source_unreadable_dirs",
            "sudo setfacl -R -m \"u:$(id -un):rX\" -- \"$f\"",
            &self.source_unreadable_dirs,
            names,
        );
        section(
            &mut out,
            "SOURCE: files your user cannot read — they CANNOT BE BACKED UP",
            "Reading them is required to copy, hash, and verify.",
            "",
            "filesync_source_unreadable_files",
            "sudo setfacl -m \"u:$(id -un):r\" -- \"$f\"",
            &self.source_unreadable_files,
            names,
        );
        section(
            &mut out,
            "DESTINATION: directories your user cannot read",
            "Their contents can't be verified or mirror-managed.",
            "",
            "filesync_destination_unreadable_dirs",
            "sudo setfacl -R -m \"u:$(id -un):rX\" -- \"$f\"",
            &self.destination_unreadable_dirs,
            names,
        );
        section(
            &mut out,
            "DESTINATION: files your user cannot read",
            "They can't be hash-compared (move-detection, corruption checks).",
            "",
            "filesync_destination_unreadable_files",
            "sudo setfacl -m \"u:$(id -un):r\" -- \"$f\"",
            &self.destination_unreadable_files,
            names,
        );
        section(
            &mut out,
            "DESTINATION: extra files the mirror wants to DELETE, but their parent dir is not writable by you",
            "Mirror semantics already doom these (absent from the source) — review before pasting.",
            "",
            "filesync_destination_undeletable_files",
            "sudo rm -- \"$f\"",
            &self.destination_undeletable_files,
            names,
        );
        section(
            &mut out,
            "DESTINATION: extra directories the mirror wants to DELETE, but their parent dir is not writable by you",
            "rmdir only removes EMPTY dirs — clear their contents first (files list above).",
            "",
            "filesync_destination_undeletable_dirs",
            "sudo rmdir -- \"$f\"",
            &self.destination_undeletable_dirs,
            names,
        );
        section(
            &mut out,
            "DESTINATION: directories that must RECEIVE copies, but are not writable by you",
            "Planned copies/moves into them will fail.",
            "",
            "filesync_destination_unwritable_dirs",
            "sudo setfacl -m \"u:$(id -un):rwX\" -- \"$f\"",
            &self.destination_unwritable_dirs,
            names,
        );
        out
    }
}

/// A section lists this place.
pub open spec fn listed(items: Seq<ItemV>, p: PathV) -> bool {
    exists|k: int| 0 <= k < items.len() && (#[trigger] items[k]).abs == p
}

proof fn lemma_listed_joined(a: Seq<ItemV>, b: Seq<ItemV>, p: PathV)
    ensures
        listed(a + b, p) <==> listed(a, p) || listed(b, p),
{
    if listed(a, p) {
        let k = choose|k: int| 0 <= k < a.len() && (#[trigger] a[k]).abs == p;
        assert((a + b)[k].abs == p);
    }
    if listed(b, p) {
        let k = choose|k: int| 0 <= k < b.len() && (#[trigger] b[k]).abs == p;
        assert((a + b)[a.len() + k].abs == p);
    }
    if listed(a + b, p) {
        let k = choose|k: int| 0 <= k < (a + b).len() && (#[trigger] (a + b)[k]).abs == p;
        if k < a.len() {
            assert(a[k].abs == p);
        } else {
            assert(b[k - a.len()].abs == p);
        }
    }
}

proof fn lemma_listed_collected(n: int, rule: spec_fn(int) -> Option<ItemV>, p: PathV)
    ensures
        listed(collect(n, rule), p) <==> exists|i: int|
            0 <= i < n && (#[trigger] rule(i) matches Some(x) && x.abs == p),
{
    let c = collect(n, rule);
    if listed(c, p) {
        let k = choose|k: int| 0 <= k < c.len() && (#[trigger] c[k]).abs == p;
        assert(c.contains(c[k]));
        lemma_collect_contains(n, rule, c[k]);
    }
    if exists|i: int| 0 <= i < n && (#[trigger] rule(i) matches Some(x) && x.abs == p) {
        let i = choose|i: int| 0 <= i < n && (#[trigger] rule(i) matches Some(x) && x.abs == p);
        let x = rule(i)->0;
        lemma_collect_contains(n, rule, x);
        let k = choose|k: int| 0 <= k < c.len() && c[k] == x;
        assert(c[k].abs == p);
    }
}

/// The first item for a place.
proof fn lemma_first_item(v: Seq<ItemV>, k: int) -> (f: int)
    requires
        0 <= k < v.len(),
    ensures
        0 <= f <= k,
        v[f].abs == v[k].abs,
        is_new(v, f),
    decreases k,
{
    if is_new(v, k) {
        k
    } else {
        let j = choose|j: int| 0 <= j < k && (#[trigger] v[j]).abs == v[k].abs;
        lemma_first_item(v, j)
    }
}

proof fn lemma_settled(v: Seq<ItemV>, x: ItemV)
    ensures
        settled(v).contains(x) <==> exists|i: int| 0 <= i < v.len() && #[trigger] v[i] == x && is_new(v, i),
{
    lemma_by_path_strict();
    lemma_sorted_contains(each_once(v), item_paths(each_once(v)), by_path(), x);
    lemma_collect_contains(v.len() as int, new_rule(v), x);
    if each_once(v).contains(x) {
        let i = choose|i: int| 0 <= i < v.len() && #[trigger] new_rule(v)(i) == Some(x);
        assert(v[i] == x && is_new(v, i));
    }
    if exists|i: int| 0 <= i < v.len() && #[trigger] v[i] == x && is_new(v, i) {
        let i = choose|i: int| 0 <= i < v.len() && #[trigger] v[i] == x && is_new(v, i);
        assert(new_rule(v)(i) == Some(x));
    }
}

proof fn lemma_settled_lists(v: Seq<ItemV>, p: PathV)
    ensures
        listed(settled(v), p) <==> listed(v, p),
{
    let t = settled(v);
    if listed(t, p) {
        let k = choose|k: int| 0 <= k < t.len() && (#[trigger] t[k]).abs == p;
        assert(t.contains(t[k]));
        lemma_settled(v, t[k]);
    }
    if listed(v, p) {
        let k = choose|k: int| 0 <= k < v.len() && (#[trigger] v[k]).abs == p;
        let f = lemma_first_item(v, k);
        lemma_settled(v, v[f]);
        assert(v[f] == v[f]);
        let j = choose|j: int| 0 <= j < t.len() && t[j] == v[f];
        assert(t[j].abs == p);
    }
}

/// A section lists each place once, in path order.
pub proof fn a_section_lists_each_place_once(v: Seq<ItemV>, a: int, b: int)
    requires
        0 <= a < b < settled(v).len(),
    ensures
        path_lt(settled(v)[a].abs, settled(v)[b].abs),
{
    let e = each_once(v);
    let keys = item_paths(e);
    lemma_by_path_strict();
    lemma_sorted_contains(e, keys, by_path(), settled(v)[a]);
    lemma_sorted_in_order(e, keys, by_path(), a, b);
    let o = order(keys, by_path());
    let (x, y) = (o[a], o[b]);
    let n = v.len() as int;
    let rule = new_rule(v);
    lemma_source_of(n, rule, x);
    lemma_source_of(n, rule, y);
    if x < y {
        lemma_source_of_increasing(n, rule, x, y);
    } else {
        lemma_source_of_increasing(n, rule, y, x);
    }
    let (i, j) = (source_of(n, rule, x), source_of(n, rule, y));
    assert(is_new(v, i) && is_new(v, j));
    assert(v[i].abs != v[j].abs);
    assert(keys[x] != keys[y]);
    lemma_path_total(keys[x], keys[y]);
}

/// A place where an operation failed is listed as confirmed, though it was predicted too.
pub proof fn a_failure_suppresses_its_prediction(failed: Seq<ItemV>, predicted: Seq<ItemV>, x: ItemV)
    requires
        settled(failed + predicted).contains(x),
        listed(failed, x.abs),
    ensures
        failed.contains(x),
{
    let v = failed + predicted;
    lemma_settled(v, x);
    let i = choose|i: int| 0 <= i < v.len() && #[trigger] v[i] == x && is_new(v, i);
    let k = choose|k: int| 0 <= k < failed.len() && (#[trigger] failed[k]).abs == x.abs;
    assert(v[k].abs == v[i].abs);
    assert(i <= k);
    assert(failed[i] == x);
}

/// A directory of the source is listed as unreadable exactly where reading it failed, or where the
/// process, if predictions are made, may not both read and search it. What cannot be inspected counts
/// as a directory.
pub proof fn unreadable_source_dirs_are_listed(
    src: SpelledV,
    s: Seq<EntryV>,
    src_denied: Seq<DeniedV>,
    dst: SpelledV,
    t: Seq<EntryV>,
    dst_denied: Seq<DeniedV>,
    d: DiffV,
    me: Option<MeV>,
    p: PathV,
)
    ensures
        listed(stoppers(src, s, src_denied, dst, t, dst_denied, d, me).source_unreadable_dirs, p) <==> {
            ||| exists|i: int|
                0 <= i < src_denied.len() && joined(src.path, (#[trigger] src_denied[i]).rel.path) == p && (
                src_denied[i].found matches Some(f) ==> f.is_dir)
            ||| me matches Some(m) && exists|i: int|
                0 <= i < s.len() && joined(src.path, (#[trigger] s[i]).rel) == p && s[i].kind == Kind::Dir && !(allowed(
                    m,
                    s[i],
                    4,
                ) && allowed(m, s[i], 1))
        },
        listed(stoppers(src, s, src_denied, dst, t, dst_denied, d, me).destination_unreadable_dirs, p) <==> exists|i: int|
            0 <= i < dst_denied.len() && joined(dst.path, (#[trigger] dst_denied[i]).rel.path) == p && (
            dst_denied[i].found matches Some(f) ==> f.is_dir),
{
    let a = denied_items(src, src_denied, true);
    let b = match me {
        Some(m) => collect(s.len() as int, unreadable_dir_rule(m, src, s)),
        None => Seq::<ItemV>::empty(),
    };
    lemma_settled_lists(a + b, p);
    lemma_listed_joined(a, b, p);
    lemma_denied_listed(src, src_denied, true, p);
    if let Some(m) = me {
        let rule = unreadable_dir_rule(m, src, s);
        lemma_listed_collected(s.len() as int, rule, p);
        if listed(b, p) {
            let i = choose|i: int| 0 <= i < s.len() && (#[trigger] rule(i) matches Some(x) && x.abs == p);
            assert(joined(src.path, s[i].rel) == p);
        }
        if exists|i: int|
            0 <= i < s.len() && joined(src.path, (#[trigger] s[i]).rel) == p && s[i].kind == Kind::Dir && !(allowed(
                m,
                s[i],
                4,
            ) && allowed(m, s[i], 1)) {
            let i = choose|i: int|
                0 <= i < s.len() && joined(src.path, (#[trigger] s[i]).rel) == p && s[i].kind == Kind::Dir && !(allowed(
                    m,
                    s[i],
                    4,
                ) && allowed(m, s[i], 1));
            assert(rule(i) matches Some(x) && x.abs == p);
        }
    }
    lemma_settled_lists(denied_items(dst, dst_denied, true), p);
    lemma_denied_listed(dst, dst_denied, true, p);
}

proof fn lemma_denied_listed(root: SpelledV, v: Seq<DeniedV>, dirs: bool, p: PathV)
    ensures
        listed(denied_items(root, v, dirs), p) <==> exists|i: int|
            0 <= i < v.len() && joined(root.path, (#[trigger] v[i]).rel.path) == p && (v[i].found matches Some(f)
                ==> f.is_dir) == dirs,
{
    let rule = denied_rule(root, v, dirs);
    lemma_listed_collected(v.len() as int, rule, p);
    if listed(denied_items(root, v, dirs), p) {
        let i = choose|i: int| 0 <= i < v.len() && (#[trigger] rule(i) matches Some(x) && x.abs == p);
        assert(joined(root.path, v[i].rel.path) == p);
    }
    if exists|i: int|
        0 <= i < v.len() && joined(root.path, (#[trigger] v[i]).rel.path) == p && (v[i].found matches Some(f)
            ==> f.is_dir) == dirs {
        let i = choose|i: int|
            0 <= i < v.len() && joined(root.path, (#[trigger] v[i]).rel.path) == p && (v[i].found matches Some(f)
                ==> f.is_dir) == dirs;
        assert(rule(i) matches Some(x) && x.abs == p);
    }
}

proof fn lemma_hashed_listed(root: SpelledV, es: Seq<EntryV>, ps: Seq<SpelledV>, p: PathV)
    ensures
        listed(hashed_items(root, es, ps), p) <==> exists|i: int|
            0 <= i < ps.len() && joined(root.path, (#[trigger] ps[i]).path) == p,
{
    let h = hashed_items(root, es, ps);
    if listed(h, p) {
        let k = choose|k: int| 0 <= k < h.len() && (#[trigger] h[k]).abs == p;
        assert(joined(root.path, ps[k].path) == p);
    }
    if exists|i: int| 0 <= i < ps.len() && joined(root.path, (#[trigger] ps[i]).path) == p {
        let i = choose|i: int| 0 <= i < ps.len() && joined(root.path, (#[trigger] ps[i]).path) == p;
        assert(h[i].abs == p);
    }
}

/// A file is listed as unreadable exactly where looking at it failed, where reading it for a comparison
/// was denied, or, in the source, where the process may not read it, if predictions are made.
pub proof fn unreadable_files_are_listed(
    src: SpelledV,
    s: Seq<EntryV>,
    src_denied: Seq<DeniedV>,
    dst: SpelledV,
    t: Seq<EntryV>,
    dst_denied: Seq<DeniedV>,
    d: DiffV,
    me: Option<MeV>,
    p: PathV,
)
    ensures
        listed(stoppers(src, s, src_denied, dst, t, dst_denied, d, me).source_unreadable_files, p) <==> {
            ||| exists|i: int|
                0 <= i < src_denied.len() && joined(src.path, (#[trigger] src_denied[i]).rel.path) == p && !(
                src_denied[i].found matches Some(f) ==> f.is_dir)
            ||| exists|i: int|
                0 <= i < d.denied_source.len() && joined(src.path, (#[trigger] d.denied_source[i]).path) == p
            ||| me matches Some(m) && exists|i: int|
                0 <= i < s.len() && joined(src.path, (#[trigger] s[i]).rel) == p && s[i].kind == Kind::File && !allowed(
                    m,
                    s[i],
                    4,
                )
        },
        listed(stoppers(src, s, src_denied, dst, t, dst_denied, d, me).destination_unreadable_files, p) <==> {
            ||| exists|i: int|
                0 <= i < dst_denied.len() && joined(dst.path, (#[trigger] dst_denied[i]).rel.path) == p && !(
                dst_denied[i].found matches Some(f) ==> f.is_dir)
            ||| exists|i: int| 0 <= i < d.denied_dest.len() && joined(dst.path, (#[trigger] d.denied_dest[i]).path) == p
        },
{
    let a = denied_items(src, src_denied, false);
    let h = hashed_items(src, s, d.denied_source);
    let b = match me {
        Some(m) => collect(s.len() as int, unreadable_file_rule(m, src, s)),
        None => Seq::<ItemV>::empty(),
    };
    lemma_settled_lists(a + h + b, p);
    lemma_listed_joined(a + h, b, p);
    lemma_listed_joined(a, h, p);
    lemma_denied_listed(src, src_denied, false, p);
    lemma_hashed_listed(src, s, d.denied_source, p);
    if let Some(m) = me {
        let rule = unreadable_file_rule(m, src, s);
        lemma_listed_collected(s.len() as int, rule, p);
        if listed(b, p) {
            let i = choose|i: int| 0 <= i < s.len() && (#[trigger] rule(i) matches Some(x) && x.abs == p);
            assert(joined(src.path, s[i].rel) == p);
        }
        if exists|i: int|
            0 <= i < s.len() && joined(src.path, (#[trigger] s[i]).rel) == p && s[i].kind == Kind::File && !allowed(
                m,
                s[i],
                4,
            ) {
            let i = choose|i: int|
                0 <= i < s.len() && joined(src.path, (#[trigger] s[i]).rel) == p && s[i].kind == Kind::File && !allowed(
                    m,
                    s[i],
                    4,
                );
            assert(rule(i) matches Some(x) && x.abs == p);
        }
    }
    let (x, y) = (denied_items(dst, dst_denied, false), hashed_items(dst, t, d.denied_dest));
    lemma_settled_lists(x + y, p);
    lemma_listed_joined(x, y, p);
    lemma_denied_listed(dst, dst_denied, false, p);
    lemma_hashed_listed(dst, t, d.denied_dest, p);
}

/// The directory at `dir` is known, and the process may not both write and search it. The root of the
/// tree is no such directory.
pub open spec fn is_closed_dir(m: MeV, es: Seq<EntryV>, dir: PathV) -> bool {
    dir.len() > 0 && (last_at(rels(es), dir) matches Some(k) && !(allowed(m, es[k], 2) && allowed(m, es[k], 1)))
}

/// An extra is listed as undeletable exactly where predictions are made and its own directory is closed
/// to the process: files and links in one section, directories in the other.
pub proof fn undeletable_extras_are_listed(
    src: SpelledV,
    s: Seq<EntryV>,
    src_denied: Seq<DeniedV>,
    dst: SpelledV,
    t: Seq<EntryV>,
    dst_denied: Seq<DeniedV>,
    d: DiffV,
    me: Option<MeV>,
    p: PathV,
)
    requires
        forall|i: int| 0 <= i < d.removed.len() ==> (#[trigger] d.removed[i]).rel.len() > 0 && d.removed[i].rel.last()
            != root_comp(),
    ensures
        listed(stoppers(src, s, src_denied, dst, t, dst_denied, d, me).destination_undeletable_files, p) <==> (
        me matches Some(m) && exists|i: int|
            0 <= i < d.removed.len() && joined(dst.path, (#[trigger] d.removed[i]).rel) == p && d.removed[i].kind != Kind::Dir
                && is_closed_dir(m, t, d.removed[i].rel.drop_last())),
        listed(stoppers(src, s, src_denied, dst, t, dst_denied, d, me).destination_undeletable_dirs, p) <==> (
        me matches Some(m) && exists|i: int|
            0 <= i < d.removed.len() && joined(dst.path, (#[trigger] d.removed[i]).rel) == p && d.removed[i].kind == Kind::Dir
                && is_closed_dir(m, t, d.removed[i].rel.drop_last())),
{
    match me {
        Some(m) => {
            lemma_undeletable(m, dst, t, d.removed, false, p);
            lemma_undeletable(m, dst, t, d.removed, true, p);
        },
        None => {
            lemma_settled_lists(Seq::<ItemV>::empty(), p);
        },
    }
}

proof fn lemma_undeletable(m: MeV, root: SpelledV, es: Seq<EntryV>, removed: Seq<ChangeV>, dirs: bool, p: PathV)
    requires
        forall|i: int| 0 <= i < removed.len() ==> (#[trigger] removed[i]).rel.len() > 0 && removed[i].rel.last()
            != root_comp(),
    ensures
        listed(settled(collect(removed.len() as int, undeletable_rule(m, root, es, removed, dirs))), p)
            <==> exists|i: int|
            0 <= i < removed.len() && joined(root.path, (#[trigger] removed[i]).rel) == p && (removed[i].kind == Kind::Dir)
                == dirs && is_closed_dir(m, es, removed[i].rel.drop_last()),
{
    let rule = undeletable_rule(m, root, es, removed, dirs);
    let c = collect(removed.len() as int, rule);
    lemma_settled_lists(c, p);
    lemma_listed_collected(removed.len() as int, rule, p);
    if listed(c, p) {
        let i = choose|i: int| 0 <= i < removed.len() && (#[trigger] rule(i) matches Some(x) && x.abs == p);
        assert(joined(root.path, removed[i].rel) == p);
        assert(is_closed_dir(m, es, removed[i].rel.drop_last()));
    }
    if exists|i: int|
        0 <= i < removed.len() && joined(root.path, (#[trigger] removed[i]).rel) == p && (removed[i].kind == Kind::Dir)
            == dirs && is_closed_dir(m, es, removed[i].rel.drop_last()) {
        let i = choose|i: int|
            0 <= i < removed.len() && joined(root.path, (#[trigger] removed[i]).rel) == p && (removed[i].kind == Kind::Dir)
                == dirs && is_closed_dir(m, es, removed[i].rel.drop_last());
        assert(rule(i) matches Some(x) && x.abs == p);
    }
}

/// A directory of the destination receives something: an addition, a changed file or a moved one goes
/// directly into it.
pub open spec fn receives(d: DiffV, dir: PathV) -> bool {
    ||| exists|i: int|
        0 <= i < d.added.len() && (#[trigger] d.added[i]).rel.len() > 0 && d.added[i].rel.last() != root_comp()
            && d.added[i].rel.drop_last() == dir
    ||| exists|i: int|
        0 <= i < d.changed.len() && (#[trigger] d.changed[i]).rel.len() > 0 && d.changed[i].rel.last() != root_comp()
            && d.changed[i].rel.drop_last() == dir
    ||| exists|i: int|
        0 <= i < d.moved.len() && (#[trigger] d.moved[i]).to.len() > 0 && d.moved[i].to.last() != root_comp()
            && d.moved[i].to.drop_last() == dir
}

/// A directory of the destination is listed as unwritable wherever predictions are made, it is to
/// receive something and it is closed to the process.
pub proof fn unwritable_receivers_are_listed(
    src: SpelledV,
    s: Seq<EntryV>,
    src_denied: Seq<DeniedV>,
    dst: SpelledV,
    t: Seq<EntryV>,
    dst_denied: Seq<DeniedV>,
    d: DiffV,
    m: MeV,
    dir: PathV,
)
    requires
        receives(d, dir),
        is_closed_dir(m, t, dir),
        last_at(rels(t), dir) matches Some(k) && t[k].kind == Kind::Dir,
    ensures
        listed(
            stoppers(src, s, src_denied, dst, t, dst_denied, d, Some(m)).destination_unwritable_dirs,
            joined(dst.path, dir),
        ),
{
    let p = joined(dst.path, dir);
    let (na, nc, nm) = (d.added.len() as int, d.changed.len() as int, d.moved.len() as int);
    let (ra, rc) = (receiving_change_rule(m, dst, t, d.added), receiving_change_rule(m, dst, t, d.changed));
    let rm = receiving_move_rule(m, dst, t, d.moved);
    let (a, c, v) = (collect(na, ra), collect(nc, rc), collect(nm, rm));
    lemma_settled_lists(a + c + v, p);
    lemma_listed_joined(a + c, v, p);
    lemma_listed_joined(a, c, p);
    lemma_listed_collected(na, ra, p);
    lemma_listed_collected(nc, rc, p);
    lemma_listed_collected(nm, rm, p);
    lemma_last_at(rels(t), dir);
    let k = last_at(rels(t), dir)->0;
    assert(rels(t)[k] == t[k].rel);
    if exists|i: int|
        0 <= i < na && (#[trigger] d.added[i]).rel.len() > 0 && d.added[i].rel.last() != root_comp()
            && d.added[i].rel.drop_last() == dir {
        let i = choose|i: int|
            0 <= i < na && (#[trigger] d.added[i]).rel.len() > 0 && d.added[i].rel.last() != root_comp()
                && d.added[i].rel.drop_last() == dir;
        assert(ra(i) matches Some(x) && x.abs == p);
    } else if exists|i: int|
        0 <= i < nc && (#[trigger] d.changed[i]).rel.len() > 0 && d.changed[i].rel.last() != root_comp()
            && d.changed[i].rel.drop_last() == dir {
        let i = choose|i: int|
            0 <= i < nc && (#[trigger] d.changed[i]).rel.len() > 0 && d.changed[i].rel.last() != root_comp()
                && d.changed[i].rel.drop_last() == dir;
        assert(rc(i) matches Some(x) && x.abs == p);
    } else {
        let i = choose|i: int|
            0 <= i < nm && (#[trigger] d.moved[i]).to.len() > 0 && d.moved[i].to.last() != root_comp()
                && d.moved[i].to.drop_last() == dir;
        assert(rm(i) matches Some(x) && x.abs == p);
    }
}

/// A directory is listed as unwritable only where predictions are made and some directory at that place
/// is to receive something and is closed to the process.
pub proof fn only_unwritable_receivers_are_listed(
    src: SpelledV,
    s: Seq<EntryV>,
    src_denied: Seq<DeniedV>,
    dst: SpelledV,
    t: Seq<EntryV>,
    dst_denied: Seq<DeniedV>,
    d: DiffV,
    me: Option<MeV>,
    p: PathV,
)
    requires
        listed(stoppers(src, s, src_denied, dst, t, dst_denied, d, me).destination_unwritable_dirs, p),
    ensures
        me matches Some(m) && exists|dir: PathV|
            #[trigger] receives(d, dir) && is_closed_dir(m, t, dir) && joined(dst.path, dir) == p,
{
    match me {
        None => {
            lemma_settled_lists(Seq::<ItemV>::empty(), p);
        },
        Some(m) => {
            let (na, nc, nm) = (d.added.len() as int, d.changed.len() as int, d.moved.len() as int);
            let (ra, rc) = (receiving_change_rule(m, dst, t, d.added), receiving_change_rule(m, dst, t, d.changed));
            let rm = receiving_move_rule(m, dst, t, d.moved);
            let (a, c, v) = (collect(na, ra), collect(nc, rc), collect(nm, rm));
            lemma_settled_lists(a + c + v, p);
            lemma_listed_joined(a + c, v, p);
            lemma_listed_joined(a, c, p);
            lemma_listed_collected(na, ra, p);
            lemma_listed_collected(nc, rc, p);
            lemma_listed_collected(nm, rm, p);
            let q = if listed(a, p) {
                let i = choose|i: int| 0 <= i < na && (#[trigger] ra(i) matches Some(x) && x.abs == p);
                d.added[i].rel
            } else if listed(c, p) {
                let i = choose|i: int| 0 <= i < nc && (#[trigger] rc(i) matches Some(x) && x.abs == p);
                d.changed[i].rel
            } else {
                let i = choose|i: int| 0 <= i < nm && (#[trigger] rm(i) matches Some(x) && x.abs == p);
                d.moved[i].to
            };
            assert(blocked_receiver(m, dst, t, q) matches Some(x) && x.abs == p);
            let dir = q.drop_last();
            lemma_last_at(rels(t), dir);
            let k = last_at(rels(t), dir)->0;
            assert(rels(t)[k] == t[k].rel);
            assert(receives(d, dir));
        },
    }
}

/// The owner is judged by the owner's bits alone, a member of the group by the group's, and everyone
/// else by the rest. Root passes everything, and what is not known stops nothing.
pub proof fn one_class_of_bits_applies(me: MeV, e: EntryV, uid: u32, gid: u32, mode: u32)
    requires
        e.owner == Some((uid, gid)),
        e.mode == Some(mode),
        me.euid != 0,
    ensures
        me.euid == uid ==> allowed(me, e, 4) == (mode & 0o400 != 0) && allowed(me, e, 2) == (mode & 0o200 != 0)
            && allowed(me, e, 1) == (mode & 0o100 != 0),
        me.euid != uid && me.groups.contains(gid) ==> allowed(me, e, 4) == (mode & 0o040 != 0) && allowed(me, e, 2) == (mode
            & 0o020 != 0) && allowed(me, e, 1) == (mode & 0o010 != 0),
        me.euid != uid && !me.groups.contains(gid) ==> allowed(me, e, 4) == (mode & 0o004 != 0) && allowed(me, e, 2) == (mode
            & 0o002 != 0) && allowed(me, e, 1) == (mode & 0o001 != 0),
{
    assert((((mode & 0o777) >> 6u32) & 4 == 4) == (mode & 0o400 != 0) && (((mode & 0o777) >> 6u32) & 2 == 2) == (mode & 0o200
        != 0) && (((mode & 0o777) >> 6u32) & 1 == 1) == (mode & 0o100 != 0)) by (bit_vector);
    assert((((mode & 0o777) >> 3u32) & 4 == 4) == (mode & 0o040 != 0) && (((mode & 0o777) >> 3u32) & 2 == 2) == (mode & 0o020
        != 0) && (((mode & 0o777) >> 3u32) & 1 == 1) == (mode & 0o010 != 0)) by (bit_vector);
    assert((((mode & 0o777) >> 0u32) & 4 == 4) == (mode & 0o004 != 0) && (((mode & 0o777) >> 0u32) & 2 == 2) == (mode & 0o002
        != 0) && (((mode & 0o777) >> 0u32) & 1 == 1) == (mode & 0o001 != 0)) by (bit_vector);
}

/// Root passes everything, and what is not known of an entry stops nothing.
pub proof fn root_and_the_unknown_pass(me: MeV, e: EntryV, want: u32)
    requires
        me.euid == 0 || e.owner is None || e.mode is None,
    ensures
        allowed(me, e, want),
{
}

/// With root in reserve nothing is predicted.
pub proof fn a_reserve_predicts_nothing(me: Option<Me>, m: Me)
    ensures
        predicting(me, true) is None,
        predicting(Some(m), false) == Some(m@),
{
}

/// A number is shown by the first name that is known for it, and by itself where none is.
pub proof fn a_name_stands_for_its_number(list: Seq<(u32, Seq<char>)>, id: u32, from: int, k: int)
    requires
        0 <= from <= k <= list.len(),
        forall|i: int| from <= i < k ==> (#[trigger] list[i]).0 != id,
        k < list.len() ==> list[k].0 == id,
    ensures
        k < list.len() ==> name_from(list, id, from) == list[k].1,
        k == list.len() ==> name_from(list, id, from) == dec(id as nat),
    decreases k - from,
{
    if from < k {
        assert(list[from].0 != id);
        a_name_stands_for_its_number(list, id, from + 1, k);
    }
}

/// Every item is counted, in whichever section it stands.
pub proof fn no_item_means_no_section(s: ShowstoppersV, names: NamesV)
    ensures
        item_count(s) == 0 <==> s.source_unreadable_dirs.len() == 0 && s.source_unreadable_files.len() == 0
            && s.destination_unreadable_dirs.len() == 0 && s.destination_unreadable_files.len() == 0
            && s.destination_undeletable_files.len() == 0 && s.destination_undeletable_dirs.len() == 0
            && s.destination_unwritable_dirs.len() == 0,
        item_count(s) == 0 ==> stoppers_text(s, names) == header_text(),
{
}

} // verus!
