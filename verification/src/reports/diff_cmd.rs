//! Everything the `diff` command reports beside its files: what needs attention, what a sync would
//! hold back, and the summary on the terminal.
use vstd::prelude::*;

use crate::artifacts::BACKUP_MARKER;
use crate::collect::{collect, lemma_collect_contains, lemma_collect_stretch};
use crate::diff::{Diff, DiffV, change_paths, rendered};
use crate::manifest::rels;
use crate::order::{Item, PathIndex, PathList, lemma_last_at};
use crate::paths::{FsPath, SpelledV, named_view};
use crate::plan::{ActionV, planned, plans_do_what_the_difference_says};
use crate::reports::{OutputPaths, OutputText};
use crate::scan::{ScanOutcome, ScanV};
use crate::sync::{an_incomplete_source_deletes_nothing, harmless, label_all, labelled, occupied_rule, only_what_could_do_harm_is_held_back, prepared_actions, view_incomplete};
use crate::text::{add_text, any_contains, any_mentions, copy_texts, dec, left_aligned, lemma_texts_add, mentions, push_dec, push_left, push_spelled, put_all, put_each, texts_view, utf8_lossy};

verus! {

/// A backup directory that was left out.
pub open spec fn ignored_text(side: Seq<char>, p: SpelledV) -> Seq<char> {
    side + ": ignoring backup dir (has "@ + BACKUP_MARKER@ + "): "@ + utf8_lossy(p.text)
}

pub open spec fn ignored_texts(side: Seq<char>, ps: Seq<SpelledV>) -> Seq<Seq<char>> {
    Seq::new(ps.len(), |i: int| ignored_text(side, ps[i]))
}

/// Everything that needs attention, each text naming its side.
pub open spec fn diff_issues(src: ScanV, dst: ScanV, d: DiffV) -> Seq<Seq<char>> {
    labelled("source: "@, src.errors) + labelled("destination: "@, dst.errors) + ignored_texts(
        "source"@,
        src.skipped_backup_dirs,
    ) + ignored_texts("destination"@, dst.skipped_backup_dirs) + d.issues
}

/// How many renames a sync would defer because their target is taken.
pub open spec fn occupied_moves(src: ScanV, dst: ScanV, d: DiffV) -> nat {
    if view_incomplete(src, d) {
        collect(d.moved.len() as int, occupied_rule(d.moved, rels(dst.manifest))).len()
    } else {
        0
    }
}

/// What a sync would hold back while the source is not fully readable, if anything.
pub open spec fn suspension_note(src: ScanV, dst: ScanV, d: DiffV) -> Option<Seq<char>> {
    let n = occupied_moves(src, dst, d);
    if view_incomplete(src, d) && (d.removed.len() > 0 || d.to_link.len() > 0 || n > 0) {
        Some(
            "note: a sync would SUSPEND the "@ + dec(d.removed.len()) + " deletion(s) and defer the "@
                + dec(d.to_link.len()) + " hard-link update(s) and "@ + dec(n)
                + " occupied-target rename(s) listed — the source was not fully readable"@,
        )
    } else {
        None
    }
}

fn note_ignored(out: &mut Vec<String>, side: &str, dirs: &Vec<FsPath>)
    ensures
        texts_view(final(out)@) == texts_view(old(out)@) + ignored_texts(side@, named_view(dirs@)),
{
    let ghost start = texts_view(out@);
    let ghost want = ignored_texts(side@, named_view(dirs@));
    let mut i: usize = 0;
    assert(texts_view(out@) =~= start + want.subrange(0, 0));
    while i < dirs.len()
        invariant
            want == ignored_texts(side@, named_view(dirs@)),
            0 <= i <= dirs@.len(),
            texts_view(out@) == start + want.subrange(0, i as int),
        decreases dirs@.len() - i,
    {
        let mut s = String::from_str(side);
        s.append(": ignoring backup dir (has ");
        s.append(BACKUP_MARKER);
        s.append("): ");
        push_spelled(&mut s, &dirs[i]);
        add_text(out, s);
        i = i + 1;
        assert(texts_view(out@) =~= start + want.subrange(0, i as int));
    }
    assert(want.subrange(0, dirs@.len() as int) =~= want);
}

/// Everything that needs attention: bound for the errors file.
pub fn issues(src_scan: &ScanOutcome, dst_scan: &ScanOutcome, d: &Diff) -> (r: Vec<String>)
    ensures
        texts_view(r@) == diff_issues(src_scan@, dst_scan@, d@),
{
    let mut out: Vec<String> = Vec::new();
    assert(texts_view(out@) =~= Seq::empty());
    label_all(&mut out, "source: ", &src_scan.errors);
    label_all(&mut out, "destination: ", &dst_scan.errors);
    note_ignored(&mut out, "source", &src_scan.skipped_backup_dirs);
    note_ignored(&mut out, "destination", &dst_scan.skipped_backup_dirs);
    let mut rest = copy_texts(&d.issues);
    proof {
        lemma_texts_add(out@, rest@);
    }
    out.append(&mut rest);
    assert(texts_view(out@) =~= diff_issues(src_scan@, dst_scan@, d@));
    out
}

fn count_occupied(dst_scan: &ScanOutcome, d: &Diff) -> (n: usize)
    ensures
        n == collect(d@.moved.len() as int, occupied_rule(d@.moved, rels(dst_scan@.manifest))).len(),
{
    let ghost dv = d@;
    let ghost dst = rels(dst_scan@.manifest);
    let entries = dst_scan.manifest.entries();
    let index = PathIndex::build(entries);
    assert(entries.paths() =~= dst);
    let mut n: usize = 0;
    let mut i: usize = 0;
    while i < d.moved.len()
        invariant
            dv == d@,
            entries.paths() == dst,
            index.indexes(entries.paths()),
            0 <= i <= d.moved@.len(),
            n == collect(i as int, occupied_rule(dv.moved, dst)).len(),
            n <= i,
        decreases d.moved@.len() - i,
    {
        assert(dv.moved[i as int] == d.moved@[i as int].value());
        proof {
            lemma_last_at(dst, dv.moved[i as int].to);
        }
        if index.find(entries, &d.moved[i].to).is_some() {
            n = n + 1;
        }
        i = i + 1;
    }
    n
}

/// What a sync would hold back, so that the preview matches what it would actually do.
pub fn preview_note(src_scan: &ScanOutcome, dst_scan: &ScanOutcome, d: &Diff) -> (r: Option<String>)
    ensures
        crate::text::opt_text(r) == suspension_note(src_scan@, dst_scan@, d@),
{
    let incomplete = src_scan.errors.len() > 0 || src_scan.skipped_backup_dirs.len() > 0 || d.source_unreadable;
    if !incomplete {
        return None;
    }
    let n: usize = count_occupied(dst_scan, d);
    if d.removed.len() > 0 || d.to_link.len() > 0 || n > 0 {
        let mut s = String::from_str("note: a sync would SUSPEND the ");
        push_dec(&mut s, d.removed.len() as u64);
        s.append(" deletion(s) and defer the ");
        push_dec(&mut s, d.to_link.len() as u64);
        s.append(" hard-link update(s) and ");
        push_dec(&mut s, n as u64);
        s.append(" occupied-target rename(s) listed — the source was not fully readable");
        Some(s)
    } else {
        None
    }
}

// ── the summary on the terminal ──────────────────────────────────────────────

/// Which of the files were written.
#[derive(Debug, Clone, Copy)]
pub struct Written {
    pub report: bool,
    pub conclusions: bool,
    pub errors: bool,
    pub showstoppers: bool,
}

pub open spec fn put_issue() -> spec_fn(Seq<char>, Seq<char>) -> Seq<char> {
    |out: Seq<char>, m: Seq<char>| out + "  ! "@ + m + "\n"@
}

/// `out` with a pointer to a file.
pub open spec fn put_pointer(out: Seq<char>, label: Seq<char>, p: Seq<u8>) -> Seq<char> {
    out + left_aligned(label, 12) + " "@ + utf8_lossy(p)
}

/// `out` with where the issues are, or the issues themselves where no file holds them.
pub open spec fn put_issues(out: Seq<char>, o: OutputText, w: Written, issues: Seq<Seq<char>>) -> Seq<char> {
    if issues.len() == 0 {
        out
    } else if w.errors {
        put_pointer(out, "issues:"@, o.errors) + "  ("@ + dec(issues.len()) + " issue(s))\n"@
    } else {
        put_all(out + "issues: "@ + dec(issues.len()) + "\n"@, issues, put_issue())
    }
}

pub open spec fn sudo_hint() -> Seq<char> {
    "hint: permission-denied issues — run under `sudo filesync` to let it handle restricted-access files (root is used only at those walls, and every use is recorded), or fix them manually.\n"@
}

/// The summary of a comparison: the counts, what a sync would hold back, and where the detail went.
pub open spec fn diff_summary(
    d: DiffV,
    note: Option<Seq<char>>,
    o: OutputText,
    w: Written,
    stoppers: nat,
    issues: Seq<Seq<char>>,
    audit: Seq<Seq<char>>,
    root_in_reserve: bool,
) -> Seq<char> {
    let o1 = match note {
        Some(n) => rendered(d, false) + n + "\n"@,
        None => rendered(d, false),
    };
    let o2 = if w.report {
        put_pointer(o1, "findings:"@, o.report) + "\n"@
    } else {
        o1
    };
    let o3 = if w.conclusions {
        put_pointer(o2, "conclusions:"@, o.conclusions) + "\n"@
    } else {
        o2
    };
    let o4 = if w.showstoppers {
        put_pointer(o3, "showstoppers:"@, o.showstoppers) + "  ("@ + dec(stoppers)
            + " item(s) — paste-able remedies inside)\n"@
    } else {
        o3
    };
    let o5 = put_issues(o4, o, w, issues);
    let o6 = if audit.len() > 0 {
        o5 + "root-assisted: "@ + dec(audit.len()) + " operation(s) — recorded in the findings file\n"@
    } else {
        o5
    };
    if !root_in_reserve && any_mentions(issues, "Permission denied"@) {
        o6 + sudo_hint()
    } else {
        o6
    }
}

fn push_pointer(s: &mut String, label: &str, p: &FsPath)
    ensures
        final(s)@ == put_pointer(old(s)@, label@, p.spelled()),
{
    push_left(s, label, 12);
    s.append(" ");
    push_spelled(s, p);
}

/// Appends each issue on a line of its own.
pub(crate) fn push_issues(s: &mut String, issues: &Vec<String>)
    ensures
        final(s)@ == put_all(old(s)@, texts_view(issues@), put_issue()),
{
    let ghost start = s@;
    let ghost ts = texts_view(issues@);
    let mut i: usize = 0;
    while i < issues.len()
        invariant
            ts == texts_view(issues@),
            0 <= i <= issues@.len(),
            s@ == put_each(start, ts, i as int, put_issue()),
        decreases issues@.len() - i,
    {
        assert(ts[i as int] == issues@[i as int]@);
        s.append("  ! ");
        s.append(issues[i].as_str());
        s.append("\n");
        i = i + 1;
    }
}

/// The summary of a comparison for the terminal: never the full listing.
pub fn emit(
    d: &Diff,
    note: &Option<String>,
    paths: &OutputPaths,
    written: Written,
    stoppers: u64,
    issues: &Vec<String>,
    audit: &Vec<String>,
    elevation_available: bool,
) -> (s: String)
    ensures
        s@ == diff_summary(
            d@,
            crate::text::opt_text(*note),
            paths.spelled(),
            written,
            stoppers as nat,
            texts_view(issues@),
            texts_view(audit@),
            elevation_available,
        ),
{
    let mut s = d.render(false);
    match note {
        Some(n) => {
            s.append(n.as_str());
            s.append("\n");
        },
        None => {},
    }
    if written.report {
        push_pointer(&mut s, "findings:", &paths.report);
        s.append("\n");
    }
    if written.conclusions {
        push_pointer(&mut s, "conclusions:", &paths.conclusions);
        s.append("\n");
    }
    if written.showstoppers {
        push_pointer(&mut s, "showstoppers:", &paths.showstoppers);
        s.append("  (");
        push_dec(&mut s, stoppers);
        s.append(" item(s) — paste-able remedies inside)\n");
    }
    if issues.len() > 0 {
        if written.errors {
            push_pointer(&mut s, "issues:", &paths.errors);
            s.append("  (");
            push_dec(&mut s, issues.len() as u64);
            s.append(" issue(s))\n");
        } else {
            s.append("issues: ");
            push_dec(&mut s, issues.len() as u64);
            s.append("\n");
            push_issues(&mut s, issues);
        }
    }
    if audit.len() > 0 {
        s.append("root-assisted: ");
        push_dec(&mut s, audit.len() as u64);
        s.append(" operation(s) — recorded in the findings file\n");
    }
    if !elevation_available && any_contains(issues, "Permission denied") {
        s.append("hint: permission-denied issues — run under `sudo filesync` to let it handle restricted-access files (root is used only at those walls, and every use is recorded), or fix them manually.\n");
    }
    s
}

// ── laws ─────────────────────────────────────────────────────────────────────

/// The preview agrees with the run: it says that a sync would hold something back exactly where a
/// sync, short of room aside, does.
pub proof fn the_preview_tells_what_a_run_holds_back(src: ScanV, dst: ScanV, d: DiffV)
    ensures
        suspension_note(src, dst, d) is Some <==> exists|a: ActionV| #[trigger]
            planned(d).contains(a) && !prepared_actions(src, dst, d, None).contains(a),
{
    let acts = planned(d);
    let at = rels(dst.manifest);
    let n = d.moved.len() as int;
    let rule = occupied_rule(d.moved, at);
    if view_incomplete(src, d) {
        if d.removed.len() > 0 {
            let a = ActionV::Delete(d.removed[0].rel);
            assert(change_paths(d.removed)[0] == d.removed[0].rel);
            plans_do_what_the_difference_says(d, a);
            if prepared_actions(src, dst, d, None).contains(a) {
                an_incomplete_source_deletes_nothing(src, dst, d, None, a);
            }
            assert(acts.contains(a) && !prepared_actions(src, dst, d, None).contains(a));
        }
        if d.to_link.len() > 0 {
            let a = ActionV::HardLink { leader: d.to_link[0].leader, name: d.to_link[0].name };
            plans_do_what_the_difference_says(d, a);
            if prepared_actions(src, dst, d, None).contains(a) {
                an_incomplete_source_deletes_nothing(src, dst, d, None, a);
            }
            assert(acts.contains(a) && !prepared_actions(src, dst, d, None).contains(a));
        }
        if collect(n, rule).len() > 0 {
            let m = collect(n, rule)[0];
            assert(collect(n, rule).contains(m));
            lemma_collect_contains(n, rule, m);
            let i = choose|i: int| 0 <= i < n && #[trigger] rule(i) == Some(m);
            let a = ActionV::Rename { from: m.from, to: m.to };
            assert(d.moved[i] == m);
            plans_do_what_the_difference_says(d, a);
            if prepared_actions(src, dst, d, None).contains(a) {
                an_incomplete_source_deletes_nothing(src, dst, d, None, a);
            }
            assert(acts.contains(a) && !prepared_actions(src, dst, d, None).contains(a));
        }
    }
    if exists|a: ActionV| #[trigger] acts.contains(a) && !prepared_actions(src, dst, d, None).contains(a) {
        let a = choose|a: ActionV| #[trigger] acts.contains(a) && !prepared_actions(src, dst, d, None).contains(a);
        if harmless(a, at) || !view_incomplete(src, d) {
            only_what_could_do_harm_is_held_back(src, dst, d, None, a);
        }
        plans_do_what_the_difference_says(d, a);
        match a {
            ActionV::Delete(p) => {
                assert(d.removed.len() > 0);
            },
            ActionV::Rename { from, to } => {
                let j = choose|j: int|
                    0 <= j < d.moved.len() && (#[trigger] d.moved[j]).from == from && d.moved[j].to == to;
                assert(rule(j) == Some(d.moved[j]));
                lemma_collect_contains(n, rule, d.moved[j]);
            },
            _ => {},
        }
    }
}

/// The numbers of a preview are those of the difference, and the reason is an unread source.
pub proof fn a_preview_counts_the_difference(src: ScanV, dst: ScanV, d: DiffV)
    requires
        src.errors.len() > 0 || src.skipped_backup_dirs.len() > 0 || d.source_unreadable,
        d.removed.len() > 0 || d.to_link.len() > 0,
        forall|m: int, j: int|
            0 <= m < d.moved.len() && 0 <= j < dst.manifest.len() ==> (#[trigger] d.moved[m]).to != (
            #[trigger] dst.manifest[j]).rel,
    ensures
        suspension_note(src, dst, d) == Some(
            "note: a sync would SUSPEND the "@ + dec(d.removed.len()) + " deletion(s) and defer the "@ + dec(
                d.to_link.len(),
            ) + " hard-link update(s) and "@ + dec(0)
                + " occupied-target rename(s) listed — the source was not fully readable"@,
        ),
{
    let rule = occupied_rule(d.moved, rels(dst.manifest));
    assert forall|i: int| 0 <= i < d.moved.len() implies (#[trigger] rule(i) is Some) == false by {
        let at = rels(dst.manifest);
        if at.contains(d.moved[i].to) {
            let j = choose|j: int| 0 <= j < at.len() && at[j] == d.moved[i].to;
            assert(dst.manifest[j].rel == d.moved[i].to);
        }
    }
    lemma_collect_stretch(0, d.moved.len() as int, rule, false);
}

/// Whatever the two scans and the comparison found wrong is in the list, each under its side.
pub proof fn a_diff_reports_all_that_was_found_wrong(src: ScanV, dst: ScanV, d: DiffV, i: int)
    ensures
        0 <= i < d.issues.len() ==> diff_issues(src, dst, d).contains(d.issues[i]),
        0 <= i < src.errors.len() ==> diff_issues(src, dst, d).contains("source: "@ + src.errors[i]),
        0 <= i < dst.errors.len() ==> diff_issues(src, dst, d).contains("destination: "@ + dst.errors[i]),
        0 <= i < src.skipped_backup_dirs.len() ==> diff_issues(src, dst, d).contains(
            "source: ignoring backup dir (has "@ + BACKUP_MARKER@ + "): "@ + utf8_lossy(
                src.skipped_backup_dirs[i].text,
            ),
        ),
        0 <= i < dst.skipped_backup_dirs.len() ==> diff_issues(src, dst, d).contains(
            "destination: ignoring backup dir (has "@ + BACKUP_MARKER@ + "): "@ + utf8_lossy(
                dst.skipped_backup_dirs[i].text,
            ),
        ),
        diff_issues(src, dst, d).len() == d.issues.len() + src.errors.len() + dst.errors.len()
            + src.skipped_backup_dirs.len() + dst.skipped_backup_dirs.len(),
{
    let all = diff_issues(src, dst, d);
    let (a, b) = (labelled("source: "@, src.errors), labelled("destination: "@, dst.errors));
    let (c, e) = (
        ignored_texts("source"@, src.skipped_backup_dirs),
        ignored_texts("destination"@, dst.skipped_backup_dirs),
    );
    if 0 <= i < src.errors.len() {
        assert(all[i] == a[i]);
    }
    if 0 <= i < dst.errors.len() {
        assert(all[a.len() + i] == b[i]);
    }
    if 0 <= i < src.skipped_backup_dirs.len() {
        assert(all[a.len() + b.len() + i] == c[i]);
        assert("source"@ + ": ignoring backup dir (has "@ == "source: ignoring backup dir (has "@) by {
            reveal_strlit("source");
            reveal_strlit(": ignoring backup dir (has ");
            reveal_strlit("source: ignoring backup dir (has ");
        }
    }
    if 0 <= i < dst.skipped_backup_dirs.len() {
        assert(all[a.len() + b.len() + c.len() + i] == e[i]);
        assert("destination"@ + ": ignoring backup dir (has "@ == "destination: ignoring backup dir (has "@) by {
            reveal_strlit("destination");
            reveal_strlit(": ignoring backup dir (has ");
            reveal_strlit("destination: ignoring backup dir (has ");
        }
    }
    if 0 <= i < d.issues.len() {
        assert(all[a.len() + b.len() + c.len() + e.len() + i] == d.issues[i]);
    }
}

/// The summary of a comparison is its counts, the note where there is one, and a pointer to each file
/// that was written. Issues that no file holds are told there and then.
pub proof fn a_preview_points_to_its_files(
    d: DiffV,
    note: Seq<char>,
    o: OutputText,
    w: Written,
    stoppers: nat,
    issues: Seq<Seq<char>>,
)
    requires
        w.report && w.conclusions && w.showstoppers && w.errors,
    ensures
        diff_summary(
            d,
            None,
            o,
            (Written { report: false, conclusions: false, showstoppers: false, errors: false }),
            stoppers,
            Seq::empty(),
            Seq::empty(),
            true,
        ) == rendered(d, false),
        diff_summary(
            d,
            Some(note),
            o,
            (Written { report: false, conclusions: false, showstoppers: false, errors: false }),
            stoppers,
            Seq::empty(),
            Seq::empty(),
            true,
        ) == rendered(d, false) + note + "\n"@,
        issues.len() > 0 ==> diff_summary(
            d,
            None,
            o,
            (Written { report: false, conclusions: false, showstoppers: false, errors: false }),
            stoppers,
            issues,
            Seq::empty(),
            true,
        ) == put_all(rendered(d, false) + "issues: "@ + dec(issues.len()) + "\n"@, issues, put_issue()),
        issues.len() > 0 ==> diff_summary(d, None, o, w, stoppers, issues, Seq::empty(), true) == rendered(d, false)
            + left_aligned("findings:"@, 12) + " "@ + utf8_lossy(o.report) + "\n"@ + left_aligned("conclusions:"@, 12)
            + " "@ + utf8_lossy(o.conclusions) + "\n"@ + left_aligned("showstoppers:"@, 12) + " "@ + utf8_lossy(
            o.showstoppers,
        ) + "  ("@ + dec(stoppers) + " item(s) — paste-able remedies inside)\n"@ + left_aligned("issues:"@, 12) + " "@
            + utf8_lossy(o.errors) + "  ("@ + dec(issues.len()) + " issue(s))\n"@,
{
}

/// The summary of a comparison tells of root's help where there was some, and ends in a hint exactly
/// where some issue mentions a denied permission and root is not in reserve.
pub proof fn a_preview_tells_of_root(
    d: DiffV,
    note: Option<Seq<char>>,
    o: OutputText,
    w: Written,
    stoppers: nat,
    issues: Seq<Seq<char>>,
    audit: Seq<Seq<char>>,
)
    ensures
        audit.len() > 0 ==> diff_summary(d, note, o, w, stoppers, issues, audit, true) == diff_summary(
            d,
            note,
            o,
            w,
            stoppers,
            issues,
            Seq::empty(),
            true,
        ) + "root-assisted: "@ + dec(audit.len()) + " operation(s) — recorded in the findings file\n"@,
        (exists|i: int| 0 <= i < issues.len() && mentions(#[trigger] issues[i], "Permission denied"@)) ==> diff_summary(
            d,
            note,
            o,
            w,
            stoppers,
            issues,
            audit,
            false,
        ) == diff_summary(d, note, o, w, stoppers, issues, audit, true) + sudo_hint(),
        !(exists|i: int| 0 <= i < issues.len() && mentions(#[trigger] issues[i], "Permission denied"@)) ==> diff_summary(
            d,
            note,
            o,
            w,
            stoppers,
            issues,
            audit,
            false,
        ) == diff_summary(d, note, o, w, stoppers, issues, audit, true),
{
}

} // verus!
