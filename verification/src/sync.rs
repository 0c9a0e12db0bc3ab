//! What a sync decides between comparing the two trees and changing the destination.
//!
//! The safety valve lives here: deletions are only trustworthy when the source was read completely.
//! A file hidden behind an unreadable directory would be classified as an extra and deleted, which
//! could destroy the last copy. So while the view of the source is incomplete, every deletion is
//! suspended, and with it whatever could delete in disguise: hard-link updates, which can clear an
//! existing name, and renames onto an occupied path, which would silently replace the occupant.
use vstd::prelude::*;

use crate::artifacts::BACKUP_MARKER;
use crate::collect::{collect, lemma_collect_contains, lemma_collect_shared, lemma_collect_stretch};
use crate::diff::{Diff, DiffV, Move, MoveV};
use crate::manifest::{EntryV, Kind, Manifest, SrcRoot, rels};
use crate::order::{Item, PathIndex, PathList, add_item, lemma_descending, lemma_last_at, values};
use crate::paths::{FsPath, PathV, SpelledV, named_view};
use crate::plan::{Action, ActionV, blocking_rule, copied_bytes, copy_total, lemma_action_push, lemma_phases, other_delete_rule, phase_end, plan, planned, planned_copy_bytes, planned_texts, plans_do_what_the_difference_says, reported_text, reported_texts};
use crate::scan::{ScanOutcome, ScanV, SightV, every_failure_is_reported, scanned};
use crate::tally::{lemma_collected_count, total};
use crate::target::Capabilities;
use crate::text::{add_text, copy_texts, dec, push_dec, push_spelled, texts_view, utf8_lossy};

verus! {

/// What a sync is about to do and what it has to report beforehand.
#[derive(Debug)]
pub struct Prepared {
    pub actions: Vec<Action>,
    /// What needs attention, in the order in which it is reported.
    pub issues: Vec<String>,
    /// Notes that do not make the run fail.
    pub notes: Vec<String>,
}

// ── the safety valve ─────────────────────────────────────────────────────────

/// Some part of the source could not be read, or was left out.
pub open spec fn view_incomplete(src: ScanV, d: DiffV) -> bool {
    src.errors.len() > 0 || src.skipped_backup_dirs.len() > 0 || d.source_unreadable
}

/// The action neither deletes nor could delete in disguise.
pub open spec fn harmless(a: ActionV, dst: Seq<PathV>) -> bool {
    match a {
        ActionV::Delete(_) => false,
        ActionV::HardLink { .. } => false,
        ActionV::Rename { to, .. } => !dst.contains(to),
        _ => true,
    }
}

pub open spec fn harmless_rule(acts: Seq<ActionV>, dst: Seq<PathV>) -> spec_fn(int) -> Option<ActionV> {
    |i: int|
        if harmless(acts[i], dst) {
            Some(acts[i])
        } else {
            None
        }
}

pub open spec fn delete_rule(acts: Seq<ActionV>) -> spec_fn(int) -> Option<ActionV> {
    |i: int|
        match acts[i] {
            ActionV::Delete(_) => Some(acts[i]),
            _ => None,
        }
}

pub open spec fn hard_link_rule(acts: Seq<ActionV>) -> spec_fn(int) -> Option<ActionV> {
    |i: int|
        match acts[i] {
            ActionV::HardLink { .. } => Some(acts[i]),
            _ => None,
        }
}

/// The moves onto an occupied path.
pub open spec fn occupied_rule(moved: Seq<MoveV>, dst: Seq<PathV>) -> spec_fn(int) -> Option<MoveV> {
    |i: int|
        if dst.contains(moved[i].to) {
            Some(moved[i])
        } else {
            None
        }
}

pub open spec fn copy_rule(acts: Seq<ActionV>) -> spec_fn(int) -> Option<ActionV> {
    |i: int|
        match acts[i] {
            ActionV::Copy(_) => Some(acts[i]),
            _ => None,
        }
}

pub open spec fn uncopied_rule(acts: Seq<ActionV>) -> spec_fn(int) -> Option<ActionV> {
    |i: int|
        match acts[i] {
            ActionV::Copy(_) => None,
            _ => Some(acts[i]),
        }
}

/// The actions that still run while deletions are suspended.
pub open spec fn suspended(acts: Seq<ActionV>, dst: Seq<PathV>) -> Seq<ActionV> {
    collect(acts.len() as int, harmless_rule(acts, dst))
}

/// The actions without the copies.
pub open spec fn without_copies(acts: Seq<ActionV>) -> Seq<ActionV> {
    collect(acts.len() as int, uncopied_rule(acts))
}

/// The room that copying `bytes` takes, with some slack: a twentieth and thirty-two mebibytes.
pub open spec fn with_slack(bytes: nat) -> nat {
    bytes + bytes / 20 + 33554432
}

/// The planned copies do not fit.
pub open spec fn too_little_room(acts: Seq<ActionV>, src: Seq<EntryV>, available: Option<u64>) -> bool {
    match available {
        Some(a) => (a as nat) < with_slack(copy_total(acts, src)),
        None => false,
    }
}

/// The actions of a run.
pub open spec fn prepared_actions(
    src: ScanV,
    dst: ScanV,
    d: DiffV,
    available: Option<u64>,
) -> Seq<ActionV> {
    let acts = planned(d);
    if !view_incomplete(src, d) {
        acts
    } else {
        let kept = suspended(acts, rels(dst.manifest));
        if too_little_room(kept, src.manifest, available) {
            without_copies(kept)
        } else {
            kept
        }
    }
}

pub open spec fn harmless_text_rule(
    acts: Seq<ActionV>,
    texts: Seq<Seq<u8>>,
    dst: Seq<PathV>,
) -> spec_fn(int) -> Option<Seq<u8>> {
    |i: int|
        if harmless(acts[i], dst) {
            Some(texts[i])
        } else {
            None
        }
}

pub open spec fn uncopied_text_rule(acts: Seq<ActionV>, texts: Seq<Seq<u8>>) -> spec_fn(int) -> Option<Seq<u8>> {
    |i: int|
        match acts[i] {
            ActionV::Copy(_) => None,
            _ => Some(texts[i]),
        }
}

/// How the paths are spelled by which the actions of a run are reported.
pub open spec fn prepared_texts(src: ScanV, dst: ScanV, d: DiffV, available: Option<u64>) -> Seq<Seq<u8>> {
    let acts = planned(d);
    if !view_incomplete(src, d) {
        planned_texts(d)
    } else {
        let at = rels(dst.manifest);
        let kept = suspended(acts, at);
        let words = collect(acts.len() as int, harmless_text_rule(acts, planned_texts(d), at));
        if too_little_room(kept, src.manifest, available) {
            collect(kept.len() as int, uncopied_text_rule(kept, words))
        } else {
            words
        }
    }
}

// ── what is reported beforehand ──────────────────────────────────────────────

/// Each text with a label before it.
pub open spec fn labelled(label: Seq<char>, texts: Seq<Seq<char>>) -> Seq<Seq<char>> {
    Seq::new(texts.len(), |i: int| label + texts[i])
}

/// A backup directory in the source.
pub open spec fn source_backup_text(p: SpelledV) -> Seq<char> {
    "source contains a filesync backup dir; its subtree is not mirrored: "@ + utf8_lossy(p.text) + " (delete its "@
        + BACKUP_MARKER@ + " marker to include it)"@
}

pub open spec fn source_backup_texts(ps: Seq<SpelledV>) -> Seq<Seq<char>> {
    Seq::new(ps.len(), |i: int| source_backup_text(ps[i]))
}

pub open spec fn suspended_deletes_text(n: nat) -> Seq<char> {
    "source was not fully readable — "@ + dec(n)
        + " deletion(s) suspended; nothing was deleted this run. Fix the source (permissions/mount) and re-run."@
}

pub open spec fn deferred_links_text(n: nat) -> Seq<char> {
    dec(n) + " hard-link update(s) deferred until the source is fully readable"@
}

pub open spec fn deferred_renames_text(n: nat) -> Seq<char> {
    dec(n)
        + " rename(s) deferred until the source is fully readable — each target path is occupied at the destination, its clearing delete is suspended, and a raw rename would silently erase the occupant"@
}

pub open spec fn deferred_rename_text(m: MoveV) -> Seq<char> {
    "deferred rename: "@ + utf8_lossy(m.from_text) + " -> "@ + utf8_lossy(m.to_text) + " (target occupied)"@
}

pub open spec fn deferred_rename_texts(ms: Seq<MoveV>) -> Seq<Seq<char>> {
    Seq::new(ms.len(), |i: int| deferred_rename_text(ms[i]))
}

pub open spec fn no_room_text(copies: nat, needed: nat, available: nat) -> Seq<char> {
    "insufficient free space for the "@ + dec(copies)
        + " planned copies while deletions are suspended (need ~"@ + dec(needed / 1048576)
        + " MiB, have "@ + dec(available / 1048576) + " MiB) — copies skipped this run"@
}

/// One text where the condition holds, else none.
pub open spec fn only_if(c: bool, text: Seq<char>) -> Seq<Seq<char>> {
    if c {
        seq![text]
    } else {
        Seq::empty()
    }
}

/// What the safety valve reports.
pub open spec fn suspension_texts(acts: Seq<ActionV>, moved: Seq<MoveV>, dst: Seq<PathV>) -> Seq<Seq<char>> {
    let n = acts.len() as int;
    let deletes = collect(n, delete_rule(acts)).len();
    let links = collect(n, hard_link_rule(acts)).len();
    let renames = collect(moved.len() as int, occupied_rule(moved, dst));
    only_if(deletes > 0, suspended_deletes_text(deletes)) + only_if(
        links > 0,
        deferred_links_text(links),
    ) + only_if(renames.len() > 0, deferred_renames_text(renames.len())) + deferred_rename_texts(renames)
}

/// What the look ahead at the free space reports.
pub open spec fn room_texts(acts: Seq<ActionV>, src: Seq<EntryV>, available: Option<u64>) -> Seq<Seq<char>> {
    match available {
        Some(a) => only_if(
            too_little_room(acts, src, available),
            no_room_text(
                collect(acts.len() as int, copy_rule(acts)).len(),
                with_slack(copy_total(acts, src)),
                a as nat,
            ),
        ),
        None => Seq::empty(),
    }
}

pub open spec fn symlink_rule(es: Seq<EntryV>) -> spec_fn(int) -> Option<EntryV> {
    |i: int|
        if es[i].kind == Kind::Symlink {
            Some(es[i])
        } else {
            None
        }
}

/// How many links the source holds.
pub open spec fn symlinks_in(es: Seq<EntryV>) -> nat {
    collect(es.len() as int, symlink_rule(es)).len()
}

pub open spec fn no_symlinks_text(n: nat) -> Seq<char> {
    "destination cannot store symlinks; "@ + dec(n) + " will be skipped"@
}

pub open spec fn no_hard_links_text(n: nat) -> Seq<char> {
    "destination cannot hold hard links; "@ + dec(n)
        + " linked name(s) will be copied as independent files"@
}

/// What a run reports as needing attention before it changes anything.
pub open spec fn prepared_issues(
    src: ScanV,
    dst: ScanV,
    d: DiffV,
    available: Option<u64>,
    caps: Capabilities,
) -> Seq<Seq<char>> {
    let acts = planned(d);
    let at = rels(dst.manifest);
    d.issues + labelled("source: "@, src.errors) + labelled("destination: "@, dst.errors)
        + source_backup_texts(src.skipped_backup_dirs) + if view_incomplete(src, d) {
        suspension_texts(acts, d.moved, at) + room_texts(suspended(acts, at), src.manifest, available)
    } else {
        Seq::empty()
    } + only_if(
        !caps.symlinks && symlinks_in(src.manifest) > 0,
        no_symlinks_text(symlinks_in(src.manifest)),
    )
}

/// What a run notes before it changes anything.
pub open spec fn prepared_notes(d: DiffV, caps: Capabilities) -> Seq<Seq<char>> {
    only_if(!caps.hardlinks && d.to_link.len() > 0, no_hard_links_text(d.to_link.len()))
}

proof fn lemma_copied_prefix(a: Seq<ActionV>, b: Seq<ActionV>, es: Seq<EntryV>, n: int)
    requires
        n <= a.len(),
        n <= b.len(),
        forall|i: int| 0 <= i < n ==> a[i] == b[i],
    ensures
        copied_bytes(a, es, n) == copied_bytes(b, es, n),
    decreases n,
{
    if n > 0 {
        lemma_copied_prefix(a, b, es, n - 1);
    }
}

/// Suspending deletions leaves every copy in place.
proof fn lemma_suspended_copies(acts: Seq<ActionV>, dst: Seq<PathV>, es: Seq<EntryV>, n: int)
    requires
        0 <= n <= acts.len(),
    ensures
        copy_total(collect(n, harmless_rule(acts, dst)), es) == copied_bytes(acts, es, n),
    decreases n,
{
    if n > 0 {
        lemma_suspended_copies(acts, dst, es, n - 1);
        let before = collect(n - 1, harmless_rule(acts, dst));
        if harmless(acts[n - 1], dst) {
            let after = before.push(acts[n - 1]);
            assert(collect(n, harmless_rule(acts, dst)) == after);
            lemma_copied_prefix(before, after, es, before.len() as int);
            assert(after[after.len() - 1] == acts[n - 1]);
        }
    }
}

pub(crate) fn label_all(out: &mut Vec<String>, label: &str, texts: &Vec<String>)
    ensures
        texts_view(final(out)@) == texts_view(old(out)@) + labelled(label@, texts_view(texts@)),
{
    let ghost start = texts_view(out@);
    let ghost want = labelled(label@, texts_view(texts@));
    let mut i: usize = 0;
    assert(texts_view(out@) =~= start + want.subrange(0, 0));
    while i < texts.len()
        invariant
            want == labelled(label@, texts_view(texts@)),
            0 <= i <= texts@.len(),
            texts_view(out@) == start + want.subrange(0, i as int),
        decreases texts@.len() - i,
    {
        let mut s = String::from_str(label);
        s.append(texts[i].as_str());
        add_text(out, s);
        i = i + 1;
        assert(texts_view(out@) =~= start + want.subrange(0, i as int));
    }
    assert(want.subrange(0, texts@.len() as int) =~= want);
}

fn note_source_backups(out: &mut Vec<String>, dirs: &Vec<FsPath>)
    ensures
        texts_view(final(out)@) == texts_view(old(out)@) + source_backup_texts(named_view(dirs@)),
{
    let ghost start = texts_view(out@);
    let ghost want = source_backup_texts(named_view(dirs@));
    let mut i: usize = 0;
    assert(texts_view(out@) =~= start + want.subrange(0, 0));
    while i < dirs.len()
        invariant
            want == source_backup_texts(named_view(dirs@)),
            0 <= i <= dirs@.len(),
            texts_view(out@) == start + want.subrange(0, i as int),
        decreases dirs@.len() - i,
    {
        let mut s = String::from_str("source contains a filesync backup dir; its subtree is not mirrored: ");
        push_spelled(&mut s, &dirs[i]);
        s.append(" (delete its ");
        s.append(BACKUP_MARKER);
        s.append(" marker to include it)");
        add_text(out, s);
        i = i + 1;
        assert(texts_view(out@) =~= start + want.subrange(0, i as int));
    }
    assert(want.subrange(0, dirs@.len() as int) =~= want);
}

/// What the safety valve lets through, and what it holds back.
struct Sorted {
    kept: Vec<Action>,
    deletes: usize,
    links: usize,
}

/// Appends an action.
fn add_action(list: &mut Vec<Action>, a: &Action)
    ensures
        values(final(list)@) == values(old(list)@).push(a.value()),
        reported_texts(final(list)@) == reported_texts(old(list)@).push(reported_text(*a)),
{
    let b = a.clone();
    proof {
        lemma_action_push(list@, b);
    }
    list.push(b);
}

fn suspend(actions: &Vec<Action>, dst_m: &Manifest) -> (r: Sorted)
    ensures
        values(r.kept@) == suspended(values(actions@), rels(dst_m@)),
        reported_texts(r.kept@) == collect(
            actions@.len() as int,
            harmless_text_rule(values(actions@), reported_texts(actions@), rels(dst_m@)),
        ),
        r.deletes == collect(actions@.len() as int, delete_rule(values(actions@))).len(),
        r.links == collect(actions@.len() as int, hard_link_rule(values(actions@))).len(),
{
    let ghost acts = values(actions@);
    let ghost words = reported_texts(actions@);
    let ghost dst = rels(dst_m@);
    let entries = dst_m.entries();
    let index = PathIndex::build(entries);
    assert(entries.paths() =~= dst);
    let mut kept: Vec<Action> = Vec::new();
    let mut deletes: usize = 0;
    let mut links: usize = 0;
    let mut i: usize = 0;
    assert(values(kept@) =~= collect(0, harmless_rule(acts, dst)));
    assert(reported_texts(kept@) =~= collect(0, harmless_text_rule(acts, words, dst)));
    while i < actions.len()
        invariant
            acts == values(actions@),
            words == reported_texts(actions@),
            dst == rels(dst_m@),
            entries.paths() == dst,
            index.indexes(entries.paths()),
            0 <= i <= actions@.len(),
            values(kept@) == collect(i as int, harmless_rule(acts, dst)),
            reported_texts(kept@) == collect(i as int, harmless_text_rule(acts, words, dst)),
            deletes == collect(i as int, delete_rule(acts)).len(),
            deletes <= i,
            links == collect(i as int, hard_link_rule(acts)).len(),
            links <= i,
        decreases actions@.len() - i,
    {
        assert(acts[i as int] == actions@[i as int].value());
        match &actions[i] {
            Action::Delete(_) => {
                deletes = deletes + 1;
            },
            Action::HardLink { .. } => {
                links = links + 1;
            },
            Action::Rename { from: _, to } => {
                let at = index.find(entries, to);
                proof {
                    lemma_last_at(dst, to@);
                }
                if at.is_none() {
                    add_action(&mut kept, &actions[i]);
                }
            },
            _ => {
                add_action(&mut kept, &actions[i]);
            },
        }
        i = i + 1;
    }
    Sorted { kept, deletes, links }
}

/// The moves whose target is taken at the destination.
fn deferred(moved: &Vec<Move>, dst_m: &Manifest) -> (r: Vec<Move>)
    ensures
        values(r@) == collect(moved@.len() as int, occupied_rule(values(moved@), rels(dst_m@))),
{
    let ghost ms = values(moved@);
    let ghost dst = rels(dst_m@);
    let entries = dst_m.entries();
    let index = PathIndex::build(entries);
    assert(entries.paths() =~= dst);
    let mut r: Vec<Move> = Vec::new();
    let mut i: usize = 0;
    assert(values(r@) =~= collect(0, occupied_rule(ms, dst)));
    while i < moved.len()
        invariant
            ms == values(moved@),
            dst == rels(dst_m@),
            entries.paths() == dst,
            index.indexes(entries.paths()),
            0 <= i <= moved@.len(),
            values(r@) == collect(i as int, occupied_rule(ms, dst)),
        decreases moved@.len() - i,
    {
        assert(ms[i as int] == moved@[i as int].value());
        let at = index.find(entries, &moved[i].to);
        proof {
            lemma_last_at(dst, moved@[i as int].to@);
        }
        if at.is_some() {
            add_item(&mut r, moved[i].dup());
        }
        i = i + 1;
    }
    r
}

fn report_suspension(
    out: &mut Vec<String>,
    s: &Sorted,
    renames: &Vec<Move>,
    Ghost(acts): Ghost<Seq<ActionV>>,
    Ghost(moved): Ghost<Seq<MoveV>>,
    Ghost(dst): Ghost<Seq<PathV>>,
)
    requires
        s.deletes == collect(acts.len() as int, delete_rule(acts)).len(),
        s.links == collect(acts.len() as int, hard_link_rule(acts)).len(),
        values(renames@) == collect(moved.len() as int, occupied_rule(moved, dst)),
    ensures
        texts_view(final(out)@) == texts_view(old(out)@) + suspension_texts(acts, moved, dst),
{
    let ghost start = texts_view(out@);
    let ghost ms = values(renames@);
    if s.deletes > 0 {
        let mut t = String::from_str("source was not fully readable — ");
        push_dec(&mut t, s.deletes as u64);
        t.append(" deletion(s) suspended; nothing was deleted this run. Fix the source (permissions/mount) and re-run.");
        add_text(out, t);
    }
    if s.links > 0 {
        let mut t = crate::text::dec_text(s.links as u64);
        t.append(" hard-link update(s) deferred until the source is fully readable");
        add_text(out, t);
    }
    let n: usize = renames.len();
    if n > 0 {
        let mut t = crate::text::dec_text(n as u64);
        t.append(" rename(s) deferred until the source is fully readable — each target path is occupied at the destination, its clearing delete is suspended, and a raw rename would silently erase the occupant");
        add_text(out, t);
    }
    let ghost heads = only_if(s.deletes > 0, suspended_deletes_text(s.deletes as nat)) + only_if(
        s.links > 0,
        deferred_links_text(s.links as nat),
    ) + only_if(n > 0, deferred_renames_text(n as nat));
    let ghost want = deferred_rename_texts(ms);
    assert(texts_view(out@) =~= start + heads + want.subrange(0, 0));
    let mut i: usize = 0;
    while i < n
        invariant
            ms == values(renames@),
            want == deferred_rename_texts(ms),
            n == renames@.len(),
            0 <= i <= n,
            texts_view(out@) == start + heads + want.subrange(0, i as int),
        decreases n - i,
    {
        assert(ms[i as int] == renames@[i as int].value());
        let mut t = String::from_str("deferred rename: ");
        push_spelled(&mut t, &renames[i].from);
        t.append(" -> ");
        push_spelled(&mut t, &renames[i].to);
        t.append(" (target occupied)");
        add_text(out, t);
        i = i + 1;
        assert(texts_view(out@) =~= start + heads + want.subrange(0, i as int));
    }
    assert(want.subrange(0, n as int) =~= want);
    assert(texts_view(out@) =~= start + suspension_texts(acts, moved, dst));
}

/// The actions that copy, and those that do not.
fn part_copies(actions: &Vec<Action>) -> (r: (usize, Vec<Action>))
    ensures
        r.0 == collect(actions@.len() as int, copy_rule(values(actions@))).len(),
        values(r.1@) == without_copies(values(actions@)),
        reported_texts(r.1@) == collect(
            actions@.len() as int,
            uncopied_text_rule(values(actions@), reported_texts(actions@)),
        ),
{
    let ghost acts = values(actions@);
    let ghost words = reported_texts(actions@);
    let mut copies: usize = 0;
    let mut rest: Vec<Action> = Vec::new();
    let mut i: usize = 0;
    assert(values(rest@) =~= collect(0, uncopied_rule(acts)));
    assert(reported_texts(rest@) =~= collect(0, uncopied_text_rule(acts, words)));
    while i < actions.len()
        invariant
            acts == values(actions@),
            words == reported_texts(actions@),
            0 <= i <= actions@.len(),
            copies == collect(i as int, copy_rule(acts)).len(),
            copies <= i,
            values(rest@) == collect(i as int, uncopied_rule(acts)),
            reported_texts(rest@) == collect(i as int, uncopied_text_rule(acts, words)),
        decreases actions@.len() - i,
    {
        assert(acts[i as int] == actions@[i as int].value());
        match &actions[i] {
            Action::Copy(_) => {
                copies = copies + 1;
            },
            _ => {
                add_action(&mut rest, &actions[i]);
            },
        }
        i = i + 1;
    }
    (copies, rest)
}

fn count_symlinks(m: &Manifest) -> (n: usize)
    ensures
        n == symlinks_in(m@),
{
    let entries = m.entries();
    let ghost es = m@;
    let mut n: usize = 0;
    let mut i: usize = 0;
    while i < entries.len()
        invariant
            es == crate::manifest::entries_view(entries@),
            0 <= i <= entries@.len(),
            n == collect(i as int, symlink_rule(es)).len(),
            n <= i,
        decreases entries@.len() - i,
    {
        assert(es[i as int] == entries@[i as int]@);
        if entries[i].kind == Kind::Symlink {
            n = n + 1;
        }
        i = i + 1;
    }
    n
}

/// Settles what a sync does, from what the two scans and the comparison found, the free space at
/// the destination where that is known, and what the destination can hold.
pub fn prepare(
    src_scan: &ScanOutcome,
    dst_scan: &ScanOutcome,
    d: &Diff,
    available: Option<u64>,
    caps: Capabilities,
) -> (r: Prepared)
    requires
        view_incomplete(src_scan@, d@) ==> with_slack(copy_total(planned(d@), src_scan@.manifest)) <= u64::MAX,
    ensures
        values(r.actions@) == prepared_actions(src_scan@, dst_scan@, d@, available),
        reported_texts(r.actions@) == prepared_texts(src_scan@, dst_scan@, d@, available),
        texts_view(r.issues@) == prepared_issues(src_scan@, dst_scan@, d@, available, caps),
        texts_view(r.notes@) == prepared_notes(d@, caps),
{
    let mut issues = copy_texts(&d.issues);
    label_all(&mut issues, "source: ", &src_scan.errors);
    label_all(&mut issues, "destination: ", &dst_scan.errors);
    note_source_backups(&mut issues, &src_scan.skipped_backup_dirs);
    let ghost first = texts_view(issues@);

    let mut actions = plan(d);
    let ghost acts = planned(d@);
    let ghost at = rels(dst_scan@.manifest);
    let incomplete = src_scan.errors.len() > 0 || src_scan.skipped_backup_dirs.len() > 0 || d.source_unreadable;
    if incomplete {
        let sorted = suspend(&actions, &dst_scan.manifest);
        let renames = deferred(&d.moved, &dst_scan.manifest);
        report_suspension(&mut issues, &sorted, &renames, Ghost(acts), Ghost(d@.moved), Ghost(at));
        proof {
            lemma_suspended_copies(acts, at, src_scan@.manifest, acts.len() as int);
        }
        actions = sorted.kept;
        let needed: u64 = planned_copy_bytes(&actions, &src_scan.manifest);
        let with_margin: u64 = needed + needed / 20 + 33554432;
        let ghost second = texts_view(issues@);
        if let Some(avail) = available {
            if avail < with_margin {
                let (copies, rest) = part_copies(&actions);
                let mut t = String::from_str("insufficient free space for the ");
                push_dec(&mut t, copies as u64);
                t.append(" planned copies while deletions are suspended (need ~");
                push_dec(&mut t, with_margin / 1048576);
                t.append(" MiB, have ");
                push_dec(&mut t, avail / 1048576);
                t.append(" MiB) — copies skipped this run");
                add_text(&mut issues, t);
                actions = rest;
            }
        }
        assert(texts_view(issues@) =~= second + room_texts(suspended(acts, at), src_scan@.manifest, available));
    }
    let ghost third = if view_incomplete(src_scan@, d@) {
        suspension_texts(acts, d@.moved, at) + room_texts(suspended(acts, at), src_scan@.manifest, available)
    } else {
        Seq::empty()
    };
    assert(texts_view(issues@) =~= first + third);
    if !caps.symlinks {
        let n: usize = count_symlinks(&src_scan.manifest);
        if n > 0 {
            let mut t = String::from_str("destination cannot store symlinks; ");
            push_dec(&mut t, n as u64);
            t.append(" will be skipped");
            add_text(&mut issues, t);
        }
    }
    assert(texts_view(issues@) =~= prepared_issues(src_scan@, dst_scan@, d@, available, caps));
    let mut notes: Vec<String> = Vec::new();
    if !caps.hardlinks && d.to_link.len() > 0 {
        let mut t = String::from_str("destination cannot hold hard links; ");
        push_dec(&mut t, d.to_link.len() as u64);
        t.append(" linked name(s) will be copied as independent files");
        add_text(&mut notes, t);
    }
    assert(texts_view(notes@) =~= prepared_notes(d@, caps));
    Prepared { actions, issues, notes }
}

/// Whether a run can be prepared: where deletions are suspended, the room that the planned copies
/// take has to be told.
pub fn can_prepare(src_scan: &ScanOutcome, d: &Diff) -> (r: bool)
    ensures
        r == (view_incomplete(src_scan@, d@) ==> with_slack(copy_total(planned(d@), src_scan@.manifest))
            <= u64::MAX),
{
    if !(src_scan.errors.len() > 0 || src_scan.skipped_backup_dirs.len() > 0 || d.source_unreadable) {
        return true;
    }
    let actions = plan(d);
    match crate::plan::checked_copy_bytes(&actions, &src_scan.manifest) {
        Some(n) => (n as u128) + (n as u128) / 20 + 33554432 <= u64::MAX as u128,
        None => false,
    }
}

// ── refusing an empty source ─────────────────────────────────────────────────

/// Why an empty source is not mirrored.
pub open spec fn empty_source_text(src: Seq<u8>) -> Seq<char> {
    "source "@ + utf8_lossy(src)
        + " is empty — refusing to mirror, which would delete everything in the destination. If the source drive simply isn't mounted, mount it and retry; to deliberately empty the destination, remove it yourself."@
}

/// Refuses a source in which nothing was found: it usually means that a drive did not mount.
pub fn check_source(src: &SrcRoot, src_m: &Manifest) -> (r: Result<(), String>)
    ensures
        r is Ok <==> src_m@.len() > 0,
        r matches Err(e) ==> e@ == empty_source_text(src.spelled()),
{
    if src_m.is_empty() {
        let mut s = String::from_str("source ");
        push_spelled(&mut s, src.path());
        s.append(" is empty — refusing to mirror, which would delete everything in the destination. If the source drive simply isn't mounted, mount it and retry; to deliberately empty the destination, remove it yourself.");
        Err(s)
    } else {
        Ok(())
    }
}

// ── laws ─────────────────────────────────────────────────────────────────────

/// While the source could not be read completely, a run deletes nothing, re-links nothing, and
/// renames nothing onto a path that is taken.
pub proof fn an_incomplete_source_deletes_nothing(
    src: ScanV,
    dst: ScanV,
    d: DiffV,
    available: Option<u64>,
    a: ActionV,
)
    requires
        view_incomplete(src, d),
        prepared_actions(src, dst, d, available).contains(a),
    ensures
        !(a is Delete),
        !(a is HardLink),
        a matches ActionV::Rename { to, .. } ==> !rels(dst.manifest).contains(to),
{
    let acts = planned(d);
    let at = rels(dst.manifest);
    let kept = suspended(acts, at);
    if too_little_room(kept, src.manifest, available) {
        lemma_collect_contains(kept.len() as int, uncopied_rule(kept), a);
        let i = choose|i: int| 0 <= i < kept.len() && #[trigger] uncopied_rule(kept)(i) == Some(a);
        assert(kept[i] == a);
        assert(kept.contains(a));
    }
    lemma_collect_contains(acts.len() as int, harmless_rule(acts, at), a);
    let i = choose|i: int| 0 <= i < acts.len() && #[trigger] harmless_rule(acts, at)(i) == Some(a);
    assert(harmless(a, at));
}

/// A run does nothing that the plan does not hold.
pub proof fn a_run_only_does_what_is_planned(
    src: ScanV,
    dst: ScanV,
    d: DiffV,
    available: Option<u64>,
    a: ActionV,
)
    requires
        prepared_actions(src, dst, d, available).contains(a),
    ensures
        planned(d).contains(a),
{
    let acts = planned(d);
    let at = rels(dst.manifest);
    if view_incomplete(src, d) {
        let kept = suspended(acts, at);
        if too_little_room(kept, src.manifest, available) {
            lemma_collect_contains(kept.len() as int, uncopied_rule(kept), a);
            let i = choose|i: int| 0 <= i < kept.len() && #[trigger] uncopied_rule(kept)(i) == Some(a);
            assert(kept[i] == a);
            assert(kept.contains(a));
        }
        lemma_collect_contains(acts.len() as int, harmless_rule(acts, at), a);
        let i = choose|i: int| 0 <= i < acts.len() && #[trigger] harmless_rule(acts, at)(i) == Some(a);
        assert(acts[i] == a);
    }
}

/// Where the source was read completely, a run does all that is planned; otherwise it still does
/// whatever can do no harm, as long as there is room for the copies.
pub proof fn only_what_could_do_harm_is_held_back(
    src: ScanV,
    dst: ScanV,
    d: DiffV,
    available: Option<u64>,
    a: ActionV,
)
    requires
        planned(d).contains(a),
        view_incomplete(src, d) ==> harmless(a, rels(dst.manifest)),
        view_incomplete(src, d) && a is Copy ==> !too_little_room(
            suspended(planned(d), rels(dst.manifest)),
            src.manifest,
            available,
        ),
    ensures
        prepared_actions(src, dst, d, available).contains(a),
{
    let acts = planned(d);
    let at = rels(dst.manifest);
    if view_incomplete(src, d) {
        let k = choose|k: int| 0 <= k < acts.len() && acts[k] == a;
        assert(harmless_rule(acts, at)(k) == Some(a));
        lemma_collect_contains(acts.len() as int, harmless_rule(acts, at), a);
        let kept = suspended(acts, at);
        if too_little_room(kept, src.manifest, available) {
            let j = choose|j: int| 0 <= j < kept.len() && kept[j] == a;
            assert(uncopied_rule(kept)(j) == Some(a));
            lemma_collect_contains(kept.len() as int, uncopied_rule(kept), a);
        }
    }
}

/// An incomplete view of the source, and anything else that was held back, is always reported.
pub proof fn whatever_is_held_back_is_reported(
    src: ScanV,
    dst: ScanV,
    d: DiffV,
    available: Option<u64>,
    caps: Capabilities,
    a: ActionV,
)
    requires
        planned(d).contains(a),
        !prepared_actions(src, dst, d, available).contains(a),
    ensures
        prepared_issues(src, dst, d, available, caps).len() > 0,
{
    let acts = planned(d);
    let at = rels(dst.manifest);
    let n = acts.len() as int;
    let k = choose|k: int| 0 <= k < acts.len() && acts[k] == a;
    assert(view_incomplete(src, d));
    if harmless(a, at) {
        if !(a is Copy) || !too_little_room(suspended(acts, at), src.manifest, available) {
            only_what_could_do_harm_is_held_back(src, dst, d, available, a);
        }
        assert(room_texts(suspended(acts, at), src.manifest, available).len() > 0);
    } else {
        match a {
            ActionV::Delete(_) => {
                assert(delete_rule(acts)(k) == Some(a));
                lemma_collect_contains(n, delete_rule(acts), a);
                assert(collect(n, delete_rule(acts)).len() > 0);
            },
            ActionV::HardLink { .. } => {
                assert(hard_link_rule(acts)(k) == Some(a));
                lemma_collect_contains(n, hard_link_rule(acts), a);
                assert(collect(n, hard_link_rule(acts)).len() > 0);
            },
            ActionV::Rename { from, to } => {
                plans_do_what_the_difference_says(d, a);
                let j = choose|j: int|
                    0 <= j < d.moved.len() && (#[trigger] d.moved[j]).from == from && d.moved[j].to == to;
                let m = d.moved[j];
                assert(occupied_rule(d.moved, at)(j) == Some(m));
                lemma_collect_contains(d.moved.len() as int, occupied_rule(d.moved, at), m);
                assert(collect(d.moved.len() as int, occupied_rule(d.moved, at)).len() > 0);
            },
            _ => {},
        }
        assert(suspension_texts(acts, d.moved, at).len() > 0);
    }
}

/// Nothing is lost to a source that was not read completely, be it that the scan met a failure, left
/// out a backup directory, or that the comparison could not read a file: nothing is deleted, nothing
/// is linked anew, and nothing is renamed onto a path that the destination has.
pub proof fn an_unread_part_of_the_source_costs_nothing(
    src: ScanV,
    dst: ScanV,
    d: DiffV,
    available: Option<u64>,
    k: int,
)
    requires
        src.errors.len() > 0 || src.skipped_backup_dirs.len() > 0 || d.source_unreadable,
        0 <= k < prepared_actions(src, dst, d, available).len(),
    ensures
        match prepared_actions(src, dst, d, available)[k] {
            ActionV::Delete(_) => false,
            ActionV::HardLink { .. } => false,
            ActionV::Rename { to, .. } => forall|j: int|
                0 <= j < dst.manifest.len() ==> (#[trigger] dst.manifest[j]).rel != to,
            _ => true,
        },
{
    let a = prepared_actions(src, dst, d, available)[k];
    assert(prepared_actions(src, dst, d, available).contains(a));
    an_incomplete_source_deletes_nothing(src, dst, d, available, a);
    let at = rels(dst.manifest);
    assert forall|j: int| 0 <= j < dst.manifest.len() implies at.contains((#[trigger] dst.manifest[j]).rel) by {
        assert(at[j] == dst.manifest[j].rel);
    }
}

/// A walk of the source that met a failure, or a directory with a backup marker, costs nothing.
pub proof fn a_failure_of_the_walk_costs_nothing(
    root: PathV,
    w: Seq<SightV>,
    i: int,
    dst: ScanV,
    d: DiffV,
    available: Option<u64>,
    k: int,
)
    requires
        0 <= i < w.len(),
        w[i] is Failed || w[i] is Marked,
        0 <= k < prepared_actions(scanned(root, w), dst, d, available).len(),
    ensures
        !(prepared_actions(scanned(root, w), dst, d, available)[k] is Delete),
        !(prepared_actions(scanned(root, w), dst, d, available)[k] is HardLink),
{
    let src = scanned(root, w);
    let n = w.len() as int;
    match w[i] {
        SightV::Failed { failure, .. } => {
            every_failure_is_reported(root, w, i);
        },
        SightV::Marked(at) => {
            let x = crate::scan::below(root, at);
            assert(crate::scan::skipped_rule(root, w)(i) == Some(x));
            lemma_collect_contains(n, crate::scan::skipped_rule(root, w), x);
            assert(src.skipped_backup_dirs.contains(x));
        },
        _ => {},
    }
    an_unread_part_of_the_source_costs_nothing(src, dst, d, available, k);
}

/// A source that was read completely is mirrored completely: the run is the plan.
pub proof fn a_source_read_completely_is_mirrored_completely(
    src: ScanV,
    dst: ScanV,
    d: DiffV,
    available: Option<u64>,
)
    requires
        src.errors.len() == 0,
        src.skipped_backup_dirs.len() == 0,
        !d.source_unreadable,
    ensures
        prepared_actions(src, dst, d, available) == planned(d),
        prepared_texts(src, dst, d, available) == planned_texts(d),
{
}

/// The deletions of a plan are as many as the entries to remove, its links as many as the names to
/// link.
proof fn lemma_plan_counts(d: DiffV)
    ensures
        collect(planned(d).len() as int, delete_rule(planned(d))).len() == d.removed.len(),
        collect(planned(d).len() as int, hard_link_rule(planned(d))).len() == d.to_link.len(),
{
    let acts = planned(d);
    lemma_phases(d);
    let (p1, p2, p3, p6, p7) = (
        phase_end(d, 1),
        phase_end(d, 2),
        phase_end(d, 3),
        phase_end(d, 6),
        phase_end(d, 7),
    );
    let f = delete_rule(acts);
    let g = hard_link_rule(acts);
    lemma_collect_stretch(0, p1, f, true);
    lemma_collect_stretch(p1, p2, f, false);
    lemma_collect_stretch(p2, p3, f, true);
    lemma_collect_stretch(p3, p7, f, false);
    lemma_collect_stretch(0, p6, g, false);
    lemma_collect_stretch(p6, p7, g, true);
    let n = d.removed.len() as int;
    lemma_collect_shared(n, blocking_rule(d), other_delete_rule(d));
    lemma_descending(collect(n, blocking_rule(d)));
    lemma_descending(collect(n, other_delete_rule(d)));
}

/// While parts of the source are unread, the run says how many deletions and links it holds back,
/// and names each rename.
pub proof fn what_is_suspended_is_told(
    src: ScanV,
    dst: ScanV,
    d: DiffV,
    available: Option<u64>,
    caps: Capabilities,
    m: int,
)
    requires
        src.errors.len() > 0 || src.skipped_backup_dirs.len() > 0 || d.source_unreadable,
    ensures
        d.removed.len() > 0 ==> prepared_issues(src, dst, d, available, caps).contains(
            "source was not fully readable — "@ + dec(d.removed.len())
                + " deletion(s) suspended; nothing was deleted this run. Fix the source (permissions/mount) and re-run."@,
        ),
        d.to_link.len() > 0 ==> prepared_issues(src, dst, d, available, caps).contains(
            dec(d.to_link.len()) + " hard-link update(s) deferred until the source is fully readable"@,
        ),
        0 <= m < d.moved.len() && (exists|j: int|
            0 <= j < dst.manifest.len() && (#[trigger] dst.manifest[j]).rel == d.moved[m].to)
            ==> prepared_issues(src, dst, d, available, caps).contains(
            "deferred rename: "@ + utf8_lossy(d.moved[m].from_text) + " -> "@ + utf8_lossy(d.moved[m].to_text)
                + " (target occupied)"@,
        ),
{
    let acts = planned(d);
    let at = rels(dst.manifest);
    let all = prepared_issues(src, dst, d, available, caps);
    lemma_plan_counts(d);
    let first = d.issues + labelled("source: "@, src.errors) + labelled("destination: "@, dst.errors)
        + source_backup_texts(src.skipped_backup_dirs);
    let f = first.len() as int;
    let held = suspension_texts(acts, d.moved, at);
    assert(forall|i: int| 0 <= i < held.len() ==> all[f + i] == #[trigger] held[i]);
    let dels = only_if(d.removed.len() > 0, suspended_deletes_text(d.removed.len()));
    let links = only_if(d.to_link.len() > 0, deferred_links_text(d.to_link.len()));
    let renames = collect(d.moved.len() as int, occupied_rule(d.moved, at));
    let many = only_if(renames.len() > 0, deferred_renames_text(renames.len()));
    assert(held =~= dels + links + many + deferred_rename_texts(renames));
    if d.removed.len() > 0 {
        assert(held[0] == suspended_deletes_text(d.removed.len()));
    }
    if d.to_link.len() > 0 {
        assert(held[dels.len() as int] == deferred_links_text(d.to_link.len()));
    }
    if 0 <= m < d.moved.len() && exists|j: int| 0 <= j < dst.manifest.len() && (#[trigger] dst.manifest[j]).rel
        == d.moved[m].to {
        let j = choose|j: int| 0 <= j < dst.manifest.len() && (#[trigger] dst.manifest[j]).rel == d.moved[m].to;
        assert(at[j] == d.moved[m].to);
        assert(occupied_rule(d.moved, at)(m) == Some(d.moved[m]));
        lemma_collect_contains(d.moved.len() as int, occupied_rule(d.moved, at), d.moved[m]);
        let r = choose|r: int| 0 <= r < renames.len() && renames[r] == d.moved[m];
        let t = deferred_rename_texts(renames)[r];
        assert(t == deferred_rename_text(d.moved[m]));
        assert(held[dels.len() + links.len() + many.len() + r] == t);
    }
}

/// Whatever the two scans and the comparison found wrong is reported by the run, each under its
/// side, and so is each backup directory of the source.
pub proof fn what_was_found_wrong_is_told(
    src: ScanV,
    dst: ScanV,
    d: DiffV,
    available: Option<u64>,
    caps: Capabilities,
    i: int,
)
    ensures
        0 <= i < d.issues.len() ==> prepared_issues(src, dst, d, available, caps).contains(d.issues[i]),
        0 <= i < src.errors.len() ==> prepared_issues(src, dst, d, available, caps).contains(
            "source: "@ + src.errors[i],
        ),
        0 <= i < dst.errors.len() ==> prepared_issues(src, dst, d, available, caps).contains(
            "destination: "@ + dst.errors[i],
        ),
        0 <= i < src.skipped_backup_dirs.len() ==> prepared_issues(src, dst, d, available, caps).contains(
            "source contains a filesync backup dir; its subtree is not mirrored: "@ + utf8_lossy(
                src.skipped_backup_dirs[i].text,
            ) + " (delete its "@ + BACKUP_MARKER@ + " marker to include it)"@,
        ),
        !caps.symlinks && (exists|j: int|
            0 <= j < src.manifest.len() && (#[trigger] src.manifest[j]).kind == Kind::Symlink)
            ==> prepared_issues(src, dst, d, available, caps).len() > 0,
        !caps.hardlinks && d.to_link.len() > 0 ==> prepared_notes(d, caps).contains(
            "destination cannot hold hard links; "@ + dec(d.to_link.len())
                + " linked name(s) will be copied as independent files"@,
        ),
{
    let all = prepared_issues(src, dst, d, available, caps);
    let (a, b, c) = (
        labelled("source: "@, src.errors),
        labelled("destination: "@, dst.errors),
        source_backup_texts(src.skipped_backup_dirs),
    );
    let n = d.issues.len() as int;
    if 0 <= i < d.issues.len() {
        assert(all[i] == d.issues[i]);
    }
    if 0 <= i < src.errors.len() {
        assert(all[n + i] == a[i]);
    }
    if 0 <= i < dst.errors.len() {
        assert(all[n + a.len() + i] == b[i]);
    }
    if 0 <= i < src.skipped_backup_dirs.len() {
        assert(all[n + a.len() + b.len() + i] == c[i]);
    }
    if exists|j: int| 0 <= j < src.manifest.len() && (#[trigger] src.manifest[j]).kind == Kind::Symlink {
        let j = choose|j: int| 0 <= j < src.manifest.len() && (#[trigger] src.manifest[j]).kind == Kind::Symlink;
        let rule = symlink_rule(src.manifest);
        assert(rule(j) == Some(src.manifest[j]));
        lemma_collect_contains(src.manifest.len() as int, rule, src.manifest[j]);
        assert(symlinks_in(src.manifest) > 0);
    }
    if !caps.hardlinks && d.to_link.len() > 0 {
        assert(prepared_notes(d, caps)[0] == no_hard_links_text(d.to_link.len()));
    }
}

/// A run on two trees without a fault, onto a destination that can hold all there is, has nothing to
/// report beforehand.
pub proof fn a_faultless_start_is_silent(
    src: ScanV,
    dst: ScanV,
    d: DiffV,
    available: Option<u64>,
    caps: Capabilities,
)
    requires
        src.errors.len() == 0,
        src.skipped_backup_dirs.len() == 0,
        dst.errors.len() == 0,
        d.issues.len() == 0,
        !d.source_unreadable,
        caps.symlinks,
        caps.hardlinks,
    ensures
        prepared_issues(src, dst, d, available, caps).len() == 0,
        prepared_notes(d, caps).len() == 0,
{
}

/// While deletions are suspended, copies are only made where the free space, as far as it is known,
/// takes all of them and leaves a twentieth of their size and thirty-two mebibytes; and then all of
/// them are made.
pub proof fn suspended_runs_leave_room(
    src: ScanV,
    dst: ScanV,
    d: DiffV,
    room: u64,
    p: PathV,
)
    requires
        src.errors.len() > 0 || src.skipped_backup_dirs.len() > 0 || d.source_unreadable,
        planned(d).contains(ActionV::Copy(p)),
    ensures
        prepared_actions(src, dst, d, None).contains(ActionV::Copy(p)),
        prepared_actions(src, dst, d, Some(room)).contains(ActionV::Copy(p)) <==> 20 * room >= 20 * copy_total(
            planned(d),
            src.manifest,
        ) + 20 * (copy_total(planned(d), src.manifest) / 20) + 20 * 32 * 1024 * 1024,
{
    let acts = planned(d);
    let at = rels(dst.manifest);
    let a = ActionV::Copy(p);
    let kept = suspended(acts, at);
    lemma_suspended_copies(acts, at, src.manifest, acts.len() as int);
    only_what_could_do_harm_is_held_back(src, dst, d, None, a);
    if too_little_room(kept, src.manifest, Some(room)) {
        if without_copies(kept).contains(a) {
            lemma_collect_contains(kept.len() as int, uncopied_rule(kept), a);
            let i = choose|i: int| 0 <= i < kept.len() && #[trigger] uncopied_rule(kept)(i) == Some(a);
            assert(kept[i] == a);
        }
    } else {
        only_what_could_do_harm_is_held_back(src, dst, d, Some(room), a);
    }
}

/// Where the destination cannot store links, the run says beforehand how many the source has.
pub proof fn links_that_cannot_be_stored_are_counted(
    src: ScanV,
    dst: ScanV,
    d: DiffV,
    available: Option<u64>,
    caps: Capabilities,
    n: nat,
)
    requires
        !caps.symlinks,
        n > 0,
        n == total(
            src.manifest.len() as int,
            |i: int|
                if src.manifest[i].kind == Kind::Symlink {
                    1int
                } else {
                    0
                },
        ),
    ensures
        prepared_issues(src, dst, d, available, caps).contains(
            "destination cannot store symlinks; "@ + dec(n) + " will be skipped"@,
        ),
{
    let g = |i: int|
        if src.manifest[i].kind == Kind::Symlink {
            1int
        } else {
            0
        };
    lemma_collected_count(src.manifest.len() as int, symlink_rule(src.manifest), g);
    let all = prepared_issues(src, dst, d, available, caps);
    assert(all[all.len() - 1] == no_symlinks_text(n));
}

/// While parts of the source are unread, the run says how many renames it holds back: those onto a path
/// that the destination has.
pub proof fn deferred_renames_are_counted(
    src: ScanV,
    dst: ScanV,
    d: DiffV,
    available: Option<u64>,
    caps: Capabilities,
    n: nat,
)
    requires
        src.errors.len() > 0 || src.skipped_backup_dirs.len() > 0 || d.source_unreadable,
        n > 0,
        n == total(
            d.moved.len() as int,
            |i: int|
                if rels(dst.manifest).contains(d.moved[i].to) {
                    1int
                } else {
                    0
                },
        ),
    ensures
        prepared_issues(src, dst, d, available, caps).contains(
            dec(n)
                + " rename(s) deferred until the source is fully readable — each target path is occupied at the destination, its clearing delete is suspended, and a raw rename would silently erase the occupant"@,
        ),
{
    let acts = planned(d);
    let at = rels(dst.manifest);
    let g = |i: int|
        if rels(dst.manifest).contains(d.moved[i].to) {
            1int
        } else {
            0
        };
    lemma_collected_count(d.moved.len() as int, occupied_rule(d.moved, at), g);
    lemma_plan_counts(d);
    let all = prepared_issues(src, dst, d, available, caps);
    let first = d.issues + labelled("source: "@, src.errors) + labelled("destination: "@, dst.errors)
        + source_backup_texts(src.skipped_backup_dirs);
    let f = first.len() as int;
    let held = suspension_texts(acts, d.moved, at);
    assert(forall|i: int| 0 <= i < held.len() ==> all[f + i] == #[trigger] held[i]);
    let dels = only_if(d.removed.len() > 0, suspended_deletes_text(d.removed.len()));
    let links = only_if(d.to_link.len() > 0, deferred_links_text(d.to_link.len()));
    let k = dels.len() + links.len();
    assert(held[k as int] == deferred_renames_text(n));
}

proof fn lemma_suspended_copy_count(acts: Seq<ActionV>, dst: Seq<PathV>, n: int)
    requires
        0 <= n <= acts.len(),
    ensures
        collect(
            collect(n, harmless_rule(acts, dst)).len() as int,
            copy_rule(collect(n, harmless_rule(acts, dst))),
        ).len() == collect(n, copy_rule(acts)).len(),
    decreases n,
{
    if n > 0 {
        lemma_suspended_copy_count(acts, dst, n - 1);
        let before = collect(n - 1, harmless_rule(acts, dst));
        if harmless(acts[n - 1], dst) {
            let after = before.push(acts[n - 1]);
            assert(collect(n, harmless_rule(acts, dst)) == after);
            lemma_same_collection(before.len() as int, copy_rule(before), copy_rule(after));
            assert(after[after.len() - 1] == acts[n - 1]);
        }
    }
}

proof fn lemma_same_collection(n: int, f: spec_fn(int) -> Option<ActionV>, g: spec_fn(int) -> Option<ActionV>)
    requires
        forall|i: int| 0 <= i < n ==> #[trigger] f(i) == g(i),
    ensures
        collect(n, f) == collect(n, g),
    decreases n,
{
    if n > 0 {
        lemma_same_collection(n - 1, f, g);
        assert(f(n - 1) == g(n - 1));
    }
}

/// Where copies are skipped for want of room, the run says how many there are, what they need with the
/// slack, and what is free, both in mebibytes.
pub proof fn want_of_room_is_told(
    src: ScanV,
    dst: ScanV,
    d: DiffV,
    room: u64,
    caps: Capabilities,
    copies: nat,
    needed: nat,
)
    requires
        src.errors.len() > 0 || src.skipped_backup_dirs.len() > 0 || d.source_unreadable,
        needed == copy_total(planned(d), src.manifest) + copy_total(planned(d), src.manifest) / 20 + 32 * 1024 * 1024,
        room < needed,
        copies == total(
            planned(d).len() as int,
            |i: int|
                if planned(d)[i] is Copy {
                    1int
                } else {
                    0
                },
        ),
    ensures
        prepared_issues(src, dst, d, Some(room), caps).contains(
            "insufficient free space for the "@ + dec(copies) + " planned copies while deletions are suspended (need ~"@ + dec(
                needed / (1024 * 1024),
            ) + " MiB, have "@ + dec(room as nat / (1024 * 1024)) + " MiB) — copies skipped this run"@,
        ),
{
    let acts = planned(d);
    let at = rels(dst.manifest);
    let kept = suspended(acts, at);
    let g = |i: int|
        if planned(d)[i] is Copy {
            1int
        } else {
            0
        };
    lemma_collected_count(acts.len() as int, copy_rule(acts), g);
    lemma_suspended_copy_count(acts, at, acts.len() as int);
    lemma_suspended_copies(acts, at, src.manifest, acts.len() as int);
    assert(too_little_room(kept, src.manifest, Some(room)));
    let all = prepared_issues(src, dst, d, Some(room), caps);
    let first = d.issues + labelled("source: "@, src.errors) + labelled("destination: "@, dst.errors)
        + source_backup_texts(src.skipped_backup_dirs);
    let held = suspension_texts(acts, d.moved, at);
    let k = first.len() + held.len();
    assert(room_texts(kept, src.manifest, Some(room))[0] == no_room_text(copies, needed, room as nat));
    assert(all[k as int] == room_texts(kept, src.manifest, Some(room))[0]);
}

} // verus!
