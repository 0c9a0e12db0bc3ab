//! What holds of every classified difference, whatever the two trees are.
//!
//! These are statements about [`classified`](crate::diff::classified) alone: that no source entry
//! drops out or is counted twice, when files are read and when they are taken for changed, and
//! what is always reported.
use vstd::prelude::*;

use crate::collect::{collect, lemma_collect_contains, lemma_source_of, lemma_source_of_increasing, source_of};
use crate::diff::{ChangeV, DiffIn, MoveV, Verdict, add_cand_rule, add_cands, add_denied_rule, add_file_rule, add_files, add_hash_rule, add_hashed, add_issue_rule, add_outcome, added_list, by_content, change_of, change_paths, changed_list, clash_file_rule, clash_rule, classified, compared, comparison, contested, corruption_text, counterpart, covers, denied_source_rule, extra_file_rule, extra_rule, is_extra, is_follower, is_new, issue_rule, kept_add_rule, kept_rem_rule, link_between, link_list, link_names, link_rule, match_of, move_rule, move_targets, moved_list, mtime_near, name_of_entry, needs_dst, needs_src, place, plain_add_rule, removed_list, rm_files, sorted_moves, touched_list, unchanged_rule, unhashable_text, unreadable_text, verdict_rule, written_anew};
use crate::hash::HashV;
use crate::manifest::{EntryV, Kind, Mtime, leader, rels};
use crate::mirror::lemma_sorted_change_paths;
use crate::order::{by_path, lemma_by_path_strict, lemma_last_at, lemma_sorted_contains};
use crate::paths::PathV;
use crate::text::utf8_lossy;

verus! {

// ── counting what a rule keeps ───────────────────────────────────────────────

/// Rules that keep the same positions keep equally many.
proof fn lemma_same_count<T, U>(n: int, f: spec_fn(int) -> Option<T>, g: spec_fn(int) -> Option<U>)
    requires
        forall|i: int| 0 <= i < n ==> (#[trigger] f(i) is Some <==> g(i) is Some),
    ensures
        collect(n, f).len() == collect(n, g).len(),
    decreases n,
{
    if n > 0 {
        lemma_same_count(n - 1, f, g);
        assert(f(n - 1) is Some <==> g(n - 1) is Some);
    }
}

/// A rule that keeps one position less keeps one less.
proof fn lemma_one_less<T, U>(n: int, f: spec_fn(int) -> Option<T>, g: spec_fn(int) -> Option<U>, p: int)
    requires
        0 <= p < n,
        f(p) is Some,
        g(p) is None,
        forall|i: int| 0 <= i < n && i != p ==> (#[trigger] f(i) is Some <==> g(i) is Some),
    ensures
        collect(n, f).len() == collect(n, g).len() + 1,
    decreases n,
{
    if p == n - 1 {
        lemma_same_count(n - 1, f, g);
    } else {
        lemma_one_less(n - 1, f, g, p);
        assert(f(n - 1) is Some <==> g(n - 1) is Some);
    }
}

/// The positions that none of the first `m` matches brings.
spec fn left_over(x: DiffIn, m: int) -> spec_fn(int) -> Option<int> {
    |p: int|
        if exists|k: int| 0 <= k < m && (#[trigger] add_hashed(x)[k]).0 == p && match_of(x, k) is Some {
            None
        } else {
            Some(p)
        }
}

/// Hashed candidates stand at different positions among the files to bring.
proof fn lemma_candidates_apart(x: DiffIn, k: int)
    requires
        0 <= k < add_hashed(x).len(),
    ensures
        0 <= add_hashed(x)[k].0 < add_files(x.s, x.d).len(),
        forall|l: int| 0 <= l < k ==> (#[trigger] add_hashed(x)[l]).0 != add_hashed(x)[k].0,
{
    let n = add_files(x.s, x.d).len() as int;
    let m = add_cands(x.s, x.d).len() as int;
    let (cr, hr) = (add_cand_rule(x.s, x.d), add_hash_rule(x));
    lemma_source_of(m, hr, k);
    lemma_source_of(n, cr, source_of(m, hr, k));
    assert forall|l: int| 0 <= l < k implies (#[trigger] add_hashed(x)[l]).0 != add_hashed(x)[k].0 by {
        lemma_source_of(m, hr, l);
        lemma_source_of(n, cr, source_of(m, hr, l));
        lemma_source_of_increasing(m, hr, l, k);
        lemma_source_of_increasing(n, cr, source_of(m, hr, l), source_of(m, hr, k));
    }
}

/// Each move takes one file off those to bring.
proof fn lemma_left_over(x: DiffIn, m: int)
    requires
        0 <= m <= add_hashed(x).len(),
    ensures
        collect(add_files(x.s, x.d).len() as int, left_over(x, m)).len() + collect(m, move_rule(x)).len()
            == add_files(x.s, x.d).len(),
    decreases m,
{
    let n = add_files(x.s, x.d).len() as int;
    if m == 0 {
        lemma_keeps_all(n, left_over(x, 0));
    } else {
        lemma_left_over(x, m - 1);
        let (f, g) = (left_over(x, m - 1), left_over(x, m));
        let p = add_hashed(x)[m - 1].0;
        lemma_candidates_apart(x, m - 1);
        if match_of(x, m - 1) is Some {
            assert(f(p) is Some);
            assert(g(p) is None) by {
                assert(add_hashed(x)[m - 1].0 == p);
            }
            assert forall|i: int| 0 <= i < n && i != p implies (#[trigger] f(i) is Some <==> g(i) is Some) by {
                if f(i) is None {
                    let k = choose|k: int|
                        0 <= k < m - 1 && (#[trigger] add_hashed(x)[k]).0 == i && match_of(x, k) is Some;
                    assert(0 <= k < m && add_hashed(x)[k].0 == i);
                }
            }
            lemma_one_less(n, f, g, p);
            assert(move_rule(x)(m - 1) is Some);
        } else {
            assert forall|i: int| 0 <= i < n implies (#[trigger] f(i) is Some <==> g(i) is Some) by {
                if f(i) is None {
                    let k = choose|k: int|
                        0 <= k < m - 1 && (#[trigger] add_hashed(x)[k]).0 == i && match_of(x, k) is Some;
                    assert(0 <= k < m && add_hashed(x)[k].0 == i);
                }
            }
            lemma_same_count(n, f, g);
            assert(move_rule(x)(m - 1) is None);
        }
    }
}

/// A rule that keeps every position keeps as many as there are.
proof fn lemma_keeps_all<T>(n: int, f: spec_fn(int) -> Option<T>)
    requires
        0 <= n,
        forall|i: int| 0 <= i < n ==> #[trigger] f(i) is Some,
    ensures
        collect(n, f).len() == n,
    decreases n,
{
    if n > 0 {
        lemma_keeps_all(n - 1, f);
        assert(f(n - 1) is Some);
    }
}

/// Sorting moves keeps the paths they lead to.
proof fn lemma_sorted_move_targets(m: Seq<MoveV>, p: PathV)
    requires
        move_targets(sorted_moves(m)).contains(p),
    ensures
        move_targets(m).contains(p),
{
    lemma_by_path_strict();
    let out = sorted_moves(m);
    let k = choose|k: int| 0 <= k < out.len() && move_targets(out)[k] == p;
    assert(out.contains(out[k]));
    lemma_sorted_contains(m, move_targets(m), by_path(), out[k]);
    let i = choose|i: int| 0 <= i < m.len() && m[i] == out[k];
    assert(move_targets(m)[i] == p);
}

/// Of the first `n` source entries each falls under one heading.
proof fn lemma_headings(x: DiffIn, n: int)
    requires
        0 <= n <= x.s.len(),
    ensures
        collect(n, plain_add_rule(x)).len() + collect(n, add_file_rule(x.s, x.d)).len() + collect(
            n,
            verdict_rule(x, Verdict::Changed),
        ).len() + collect(n, verdict_rule(x, Verdict::Touched)).len() + collect(n, link_rule(x)).len()
            + collect(n, unchanged_rule(x)).len() == n,
    decreases n,
{
    if n > 0 {
        lemma_headings(x, n - 1);
        let i = n - 1;
        if is_follower(x.s, i) {
            assert(counterpart(x.s, x.d, i) is None);
            assert(comparison(x, i) is None);
        } else if is_new(x.s, x.d, i) {
            assert(counterpart(x.s, x.d, i) is None);
            assert(comparison(x, i) is None);
        } else {
            assert(comparison(x, i) is Some);
        }
    }
}

// ── the laws ─────────────────────────────────────────────────────────────────

/// No source entry drops out and none is counted twice: what is added, changed, refreshed, moved,
/// linked and unchanged makes up the whole source.
pub proof fn every_source_entry_is_counted_once(x: DiffIn)
    ensures
        ({
            let d = classified(x);
            d.added.len() + d.changed.len() + d.touched.len() + d.moved.len() + d.to_link.len() + d.unchanged
                == x.s.len()
        }),
{
    let n = add_files(x.s, x.d).len() as int;
    lemma_headings(x, x.s.len() as int);
    lemma_left_over(x, add_hashed(x).len() as int);
    lemma_same_count(n, kept_add_rule(x), left_over(x, add_hashed(x).len() as int));
}

/// A file that is written anew gets a new inode, so each of its other names is linked to it again
/// in the same run.
pub proof fn a_rewritten_file_is_linked_anew(x: DiffIn, i: int, l: int)
    requires
        0 <= i < x.s.len(),
        leader(x.s, i) == Some(l),
        ({
            let d = classified(x);
            ||| change_paths(d.added).contains(x.s[l].rel)
            ||| change_paths(d.changed).contains(x.s[l].rel)
            ||| move_targets(d.moved).contains(x.s[l].rel)
        }),
    ensures
        classified(x).to_link.contains(link_between(x.s[l], x.s[i])),
{
    let p = x.s[l].rel;
    let link = link_between(x.s[l], x.s[i]);
    let w = written_anew(x);
    let (a, c, m) = (added_list(x), changed_list(x), moved_list(x));
    lemma_sorted_change_paths(a, p);
    lemma_sorted_change_paths(c, p);
    if move_targets(classified(x).moved).contains(p) {
        lemma_sorted_move_targets(m, p);
    }
    if change_paths(a).contains(p) {
        let k = choose|k: int| 0 <= k < a.len() && change_paths(a)[k] == p;
        assert(w[k] == p);
    } else if change_paths(c).contains(p) {
        let k = choose|k: int| 0 <= k < c.len() && change_paths(c)[k] == p;
        assert(w[a.len() + k] == p);
    } else {
        let k = choose|k: int| 0 <= k < m.len() && move_targets(m)[k] == p;
        assert(w[a.len() + c.len() + k] == p);
    }
    assert(link_rule(x)(i) == Some(link));
    lemma_collect_contains(x.s.len() as int, link_rule(x), link);
    lemma_by_path_strict();
    lemma_sorted_contains(link_list(x), link_names(link_list(x)), by_path(), link);
}

/// A source file is only read for comparing where its content decides something: it faces a file
/// of its size at the same path, or somewhere at the destination a file of its size has to go.
pub proof fn only_candidates_are_read(s: Seq<EntryV>, d: Seq<EntryV>, eager: bool, i: int)
    requires
        0 <= i < s.len(),
        needs_src(s, d, eager, i),
    ensures
        s[i].kind == Kind::File,
        ({
            ||| counterpart(s, d, i) matches Some(j) && s[i].size == d[j].size && (eager || !mtime_near(
                s[i].mtime,
                d[j].mtime,
            ))
            ||| is_new(s, d, i) && exists|j: int|
                rm_files(s, d).contains(j) && (#[trigger] d[j]).size == s[i].size
        }),
{
    if !(counterpart(s, d, i) matches Some(j) && by_content(s[i], d[j], eager)) {
        let n = add_files(s, d).len() as int;
        let k = choose|k: int|
            0 <= k < add_cands(s, d).len() && add_files(s, d)[#[trigger] add_cands(s, d)[k]] == i;
        lemma_source_of(n, add_cand_rule(s, d), k);
        let c = add_cands(s, d)[k];
        lemma_source_of(s.len() as int, add_file_rule(s, d), c);
        assert(contested(s, d, s[i].size));
        let q = choose|q: int| 0 <= q < rm_files(s, d).len() && d[#[trigger] rm_files(s, d)[q]].size == s[i].size;
        assert(rm_files(s, d).contains(rm_files(s, d)[q]));
        assert(d[rm_files(s, d)[q]].size == s[i].size);
    }
}

/// Nothing is overwritten on a shallow signal: a file is taken for changed only where the sizes
/// differ, the contents differ, or one of the two could not be read. It is refreshed only where
/// the contents are the same.
pub proof fn nothing_is_overwritten_on_a_shallow_signal(x: DiffIn, i: int, j: int)
    requires
        covers(x),
        0 <= i < x.s.len(),
        0 <= j < x.d.len(),
        counterpart(x.s, x.d, i) == Some(j),
        x.s[i].kind == Kind::File,
    ensures
        comparison(x, i)->0.verdict == Verdict::Changed ==> x.s[i].size != x.d[j].size || match (
            x.src_hash[i],
            x.dst_hash[j],
        ) {
            (Some(HashV::Digest(a)), Some(HashV::Digest(b))) => a != b,
            (Some(HashV::Failed { .. }), _) => true,
            (_, Some(HashV::Failed { .. })) => true,
            _ => false,
        },
        comparison(x, i)->0.verdict == Verdict::Touched ==> x.s[i].size == x.d[j].size && match (
            x.src_hash[i],
            x.dst_hash[j],
        ) {
            (Some(HashV::Digest(a)), Some(HashV::Digest(b))) => a == b,
            _ => false,
        },
{
    let (s, d) = (x.s, x.d);
    if by_content(s[i], d[j], x.eager) {
        assert(needs_src(s, d, x.eager, i));
        assert(needs_dst(s, d, x.eager, j));
        assert(x.src_hash[i] is Some);
        assert(x.dst_hash[j] is Some);
    }
}

/// Bytes that rotted are called out: where size and modification time agree and an eager
/// comparison finds different content, the report says so and the file counts as changed.
pub proof fn rotted_bytes_are_called_out(x: DiffIn, i: int, j: int, a: Seq<u8>, b: Seq<u8>)
    requires
        x.eager,
        0 <= i < x.s.len(),
        counterpart(x.s, x.d, i) == Some(j),
        x.s[i].kind == Kind::File,
        x.s[i].size == x.d[j].size,
        mtime_near(x.s[i].mtime, x.d[j].mtime),
        x.src_hash[i] == Some(HashV::Digest(a)),
        x.dst_hash[j] == Some(HashV::Digest(b)),
        a != b,
    ensures
        classified(x).issues.contains(corruption_text(x.s[i].text)),
        classified(x).changed.contains(change_of(x.s[i])),
{
    let n = x.s.len() as int;
    let text = corruption_text(x.s[i].text);
    assert(issue_rule(x)(i) == Some(text));
    lemma_collect_contains(n, issue_rule(x), text);
    let head = collect(n, issue_rule(x));
    let k = choose|k: int| 0 <= k < head.len() && head[k] == text;
    assert(classified(x).issues[k] == text);
    assert(verdict_rule(x, Verdict::Changed)(i) == Some(change_of(x.s[i])));
    lemma_collect_contains(n, verdict_rule(x, Verdict::Changed), change_of(x.s[i]));
    lemma_by_path_strict();
    lemma_sorted_contains(changed_list(x), change_paths(changed_list(x)), by_path(), change_of(x.s[i]));
}

/// A source file that had to be read and could not be is reported, under its side, path and
/// reason, and marks the view of the source as incomplete.
pub proof fn an_unreadable_source_file_is_reported(x: DiffIn, i: int, message: Seq<char>, denied: bool)
    requires
        0 <= i < x.s.len(),
        needs_src(x.s, x.d, x.eager, i),
        x.src_hash[i] == Some((HashV::Failed { message, denied })),
    ensures
        classified(x).source_unreadable,
        classified(x).issues.contains(unreadable_text("source"@, x.s[i].text, message)) || classified(
            x,
        ).issues.contains(unhashable_text("source"@, x.s[i].text, message)),
        denied ==> classified(x).denied_source.contains(name_of_entry(x.s[i])),
{
    let (s, d) = (x.s, x.d);
    let n = s.len() as int;
    let m = add_cands(s, d).len() as int;
    let head = collect(n, issue_rule(x));
    let denied_head = collect(n, denied_source_rule(x));
    if counterpart(s, d, i) matches Some(j) && by_content(s[i], d[j], x.eager) {
        let text = unreadable_text("source"@, s[i].text, message);
        assert(comparison(x, i)->0.source_unreadable);
        assert(issue_rule(x)(i) == Some(text));
        lemma_collect_contains(n, issue_rule(x), text);
        let k = choose|k: int| 0 <= k < head.len() && head[k] == text;
        assert(classified(x).issues[k] == text);
        if denied {
            assert(denied_source_rule(x)(i) == Some(name_of_entry(s[i])));
            lemma_collect_contains(n, denied_source_rule(x), name_of_entry(s[i]));
            let k = choose|k: int| 0 <= k < denied_head.len() && denied_head[k] == name_of_entry(s[i]);
            assert(classified(x).denied_source[k] == name_of_entry(s[i]));
        }
    } else {
        let c = choose|c: int| 0 <= c < m && add_files(s, d)[#[trigger] add_cands(s, d)[c]] == i;
        let text = unhashable_text("source"@, s[i].text, message);
        assert(add_outcome(x, c) == Some((HashV::Failed { message, denied })));
        let tail = collect(m, add_issue_rule(x));
        assert(add_issue_rule(x)(c) == Some(text));
        lemma_collect_contains(m, add_issue_rule(x), text);
        let k = choose|k: int| 0 <= k < tail.len() && tail[k] == text;
        assert(classified(x).issues[head.len() + k] == text);
        if denied {
            let denied_tail = collect(m, add_denied_rule(x));
            assert(add_denied_rule(x)(c) == Some(name_of_entry(s[i])));
            lemma_collect_contains(m, add_denied_rule(x), name_of_entry(s[i]));
            let k = choose|k: int| 0 <= k < denied_tail.len() && denied_tail[k] == name_of_entry(s[i]);
            assert(classified(x).denied_source[denied_head.len() + k] == name_of_entry(s[i]));
        }
    }
}

/// Times count as equal up to two seconds apart, whichever is later, and no further; where either is
/// unknown, time tells nothing.
pub proof fn times_are_near_up_to_two_seconds(a: Mtime, b: Mtime, c: Option<Mtime>)
    ensures
        mtime_near(Some(a), Some(b)) == mtime_near(Some(b), Some(a)),
        mtime_near(c, None) && mtime_near(None, c),
        a.nanos == b.nanos ==> (mtime_near(Some(a), Some(b)) <==> a.secs - b.secs <= 2 && b.secs - a.secs <= 2),
        a.secs == b.secs + 2 && a.nanos > b.nanos ==> !mtime_near(Some(a), Some(b)),
        a.secs == b.secs + 3 && a.nanos + 1_000_000_000 <= b.nanos ==> mtime_near(Some(a), Some(b)),
        a.secs == b.secs && a.nanos < 1_000_000_000 && b.nanos < 1_000_000_000 ==> mtime_near(Some(a), Some(b)),
{
}

/// Files whose sizes differ have changed, whatever else is known of them; files of one size whose times
/// agree are taken as unchanged unread, but not in an eager comparison.
pub proof fn sizes_and_times_are_a_shortcut(
    a: EntryV,
    b: EntryV,
    eager: bool,
    relative: bool,
    link: Option<(PathV, PathV)>,
    sh: Option<HashV>,
    dh: Option<HashV>,
)
    requires
        a.kind == Kind::File,
        b.kind == Kind::File,
    ensures
        a.size != b.size ==> compared(a, b, eager, relative, link, sh, dh).verdict == Verdict::Changed
            && compared(a, b, eager, relative, link, sh, dh).issue is None,
        a.size == b.size && !eager && mtime_near(a.mtime, b.mtime) ==> compared(
            a,
            b,
            eager,
            relative,
            link,
            sh,
            dh,
        ).verdict == Verdict::Unchanged,
{
}

/// Where the content of two files of one size is looked at, it alone decides: the same content is never
/// copied again, other content always is; and where the times drifted, the same content is refreshed.
pub proof fn content_decides(
    a: EntryV,
    b: EntryV,
    eager: bool,
    relative: bool,
    link: Option<(PathV, PathV)>,
    x: Seq<u8>,
    y: Seq<u8>,
)
    requires
        a.kind == Kind::File,
        b.kind == Kind::File,
        a.size == b.size,
        eager || !mtime_near(a.mtime, b.mtime),
    ensures
        ({
            let c = compared(
                a,
                b,
                eager,
                relative,
                link,
                Some(HashV::Digest(x)),
                Some(HashV::Digest(y)),
            );
            &&& x != y <==> c.verdict == Verdict::Changed
            &&& x == y && mtime_near(a.mtime, b.mtime) <==> c.verdict == Verdict::Unchanged
            &&& x == y && !mtime_near(a.mtime, b.mtime) <==> c.verdict == Verdict::Touched
            &&& c.issue is Some <==> x != y && mtime_near(a.mtime, b.mtime)
            &&& !c.source_unreadable && !c.denied_source && !c.denied_dest
        }),
{
}

/// A file that could not be read to compare it is copied again and reported under its side; only a
/// failure at the source makes the view of the source incomplete.
pub proof fn an_unread_file_counts_as_changed(
    a: EntryV,
    b: EntryV,
    eager: bool,
    relative: bool,
    link: Option<(PathV, PathV)>,
    why: Seq<char>,
    denied: bool,
    other: Option<HashV>,
    y: Seq<u8>,
)
    requires
        a.kind == Kind::File,
        b.kind == Kind::File,
        a.size == b.size,
        eager || !mtime_near(a.mtime, b.mtime),
    ensures
        ({
            let c = compared(a, b, eager, relative, link, Some(HashV::Failed { message: why, denied }), other);
            &&& c.verdict == Verdict::Changed
            &&& c.source_unreadable
            &&& c.denied_source == denied
            &&& c.issue == Some(
                "source"@ + ": "@ + utf8_lossy(a.text) + ": cannot read to compare content ("@ + why
                    + "); treating as changed"@,
            )
        }),
        ({
            let c = compared(
                a,
                b,
                eager,
                relative,
                link,
                Some(HashV::Digest(y)),
                Some(HashV::Failed { message: why, denied }),
            );
            &&& c.verdict == Verdict::Changed
            &&& !c.source_unreadable
            &&& c.denied_dest == denied
            &&& c.issue == Some(
                "destination"@ + ": "@ + utf8_lossy(a.text) + ": cannot read to compare content ("@ + why
                    + "); treating as changed"@,
            )
        }),
{
}

/// A link is unchanged exactly where the destination's link carries the target that a copy would write;
/// directories and special files need nothing but to be there.
pub proof fn a_link_is_held_against_what_a_copy_would_write(
    a: EntryV,
    b: EntryV,
    eager: bool,
    relative: bool,
    link: Option<(PathV, PathV)>,
    sh: Option<HashV>,
    dh: Option<HashV>,
    raw: PathV,
    there: PathV,
)
    ensures
        a.kind == Kind::Symlink && b.kind == Kind::Symlink && a.link_target == Some(raw) && b.link_target == Some(
            there,
        ) ==> compared(a, b, eager, relative, link, sh, dh).verdict == if crate::links::desired(
            a.rel,
            raw,
            relative,
            link,
        ) == there {
            Verdict::Unchanged
        } else {
            Verdict::Changed
        },
        a.kind == b.kind && (a.kind == Kind::Dir || a.kind == Kind::Other) ==> compared(
            a,
            b,
            eager,
            relative,
            link,
            sh,
            dh,
        ).verdict == Verdict::Unchanged,
        a.kind != b.kind ==> compared(a, b, eager, relative, link, sh, dh).verdict == Verdict::Changed,
{
}

/// The names of one file are told by its inode: the first of them in the list stands for the file, and
/// every later one follows it. A file with an inode of its own follows none.
pub proof fn later_names_follow_the_first(es: Seq<EntryV>, i: int, j: int, id: (u64, u64))
    requires
        0 <= i < j < es.len(),
        es[i].kind == Kind::File,
        es[j].kind == Kind::File,
        es[i].link_id == Some(id),
        es[j].link_id == Some(id),
        forall|k: int| 0 <= k < i ==> !((#[trigger] es[k]).kind == Kind::File && es[k].link_id == Some(id)),
    ensures
        leader(es, j) == Some(i),
        leader(es, i) is None,
{
    assert(crate::manifest::leads(es, i, j)) by {
        assert forall|k: int| 0 <= k < i implies !crate::manifest::same_inode(#[trigger] es[k], es[j]) by {}
    }
    crate::manifest::lemma_leader(es, j, i);
    if exists|k: int| crate::manifest::leads(es, k, i) {
        let k = choose|k: int| crate::manifest::leads(es, k, i);
        assert(es[k].kind == Kind::File && es[k].link_id == Some(id));
    }
}

/// What has no other name follows none.
pub proof fn a_single_name_follows_none(es: Seq<EntryV>, i: int)
    requires
        0 <= i < es.len(),
        es[i].link_id is None || es[i].kind != Kind::File,
    ensures
        leader(es, i) is None,
{
    if exists|k: int| crate::manifest::leads(es, k, i) {
        let k = choose|k: int| crate::manifest::leads(es, k, i);
        assert(crate::manifest::same_inode(es[k], es[i]));
    }
}

/// The view of the source is incomplete exactly where a source file that had to be read could not be.
pub proof fn only_an_unread_source_file_is_a_gap(x: DiffIn)
    requires
        covers(x),
    ensures
        classified(x).source_unreadable <==> exists|i: int|
            0 <= i < x.s.len() && needs_src(x.s, x.d, x.eager, i) && (#[trigger] x.src_hash[i] matches Some(
                HashV::Failed { .. },
            )),
{
    let (s, d) = (x.s, x.d);
    if exists|i: int|
        0 <= i < x.s.len() && needs_src(x.s, x.d, x.eager, i) && (#[trigger] x.src_hash[i] matches Some(
            HashV::Failed { .. },
        )) {
        let i = choose|i: int|
            0 <= i < x.s.len() && needs_src(x.s, x.d, x.eager, i) && (#[trigger] x.src_hash[i] matches Some(
                HashV::Failed { .. },
            ));
        if let Some(HashV::Failed { message, denied }) = x.src_hash[i] {
            an_unreadable_source_file_is_reported(x, i, message, denied);
        }
    }
    if classified(x).source_unreadable {
        if exists|i: int|
            0 <= i < x.s.len() && (#[trigger] comparison(x, i) matches Some(c) && c.source_unreadable) {
            let i = choose|i: int|
                0 <= i < x.s.len() && (#[trigger] comparison(x, i) matches Some(c) && c.source_unreadable);
            assert(needs_src(s, d, x.eager, i));
            assert(x.src_hash[i] matches Some(HashV::Failed { .. }));
        } else {
            let c = choose|c: int|
                0 <= c < add_cands(s, d).len() && (#[trigger] add_outcome(x, c)) matches Some(HashV::Failed { .. });
            lemma_source_of(add_files(s, d).len() as int, add_cand_rule(s, d), c);
            let q = add_cands(s, d)[c];
            lemma_source_of(s.len() as int, add_file_rule(s, d), q);
            let i = add_files(s, d)[q];
            assert(needs_src(s, d, x.eager, i));
            assert(x.src_hash[i] matches Some(HashV::Failed { .. }));
        }
    }
}

/// What is added is an entry of the source that the destination does not have, or has as another kind.
pub proof fn what_is_added_is_missing_there(x: DiffIn, c: ChangeV)
    requires
        classified(x).added.contains(c),
    ensures
        exists|i: int|
            0 <= i < x.s.len() && (#[trigger] x.s[i]).rel == c.rel && x.s[i].text == c.text && x.s[i].kind == c.kind
                && leader(x.s, i) is None && is_missing(x, c),
{
    let (s, d) = (x.s, x.d);
    let n = s.len() as int;
    let all = added_list(x);
    lemma_by_path_strict();
    lemma_sorted_contains(all, change_paths(all), by_path(), c);
    let k = choose|k: int| 0 <= k < all.len() && all[k] == c;
    let head = collect(n, plain_add_rule(x));
    if k < head.len() {
        lemma_source_of(n, plain_add_rule(x), k);
        let i = source_of(n, plain_add_rule(x), k);
        lemma_missing(x, i);
        assert(x.s[i].rel == c.rel);
    } else {
        let m = add_files(s, d).len() as int;
        let tail = collect(m, kept_add_rule(x));
        assert(tail[k - head.len()] == c);
        lemma_source_of(m, kept_add_rule(x), k - head.len());
        let p = source_of(m, kept_add_rule(x), k - head.len());
        lemma_source_of(n, add_file_rule(s, d), p);
        let i = add_files(s, d)[p];
        lemma_missing(x, i);
        assert(x.s[i].rel == c.rel);
    }
}

/// The last entry of the destination at the path is of another kind, or there is none.
pub open spec fn is_missing(x: DiffIn, c: ChangeV) -> bool {
    forall|j: int| #[trigger] stands_last(x.d, j, c.rel) ==> x.d[j].kind != c.kind
}

/// The entry is the last one with this path.
pub open spec fn stands_last(es: Seq<EntryV>, j: int, p: PathV) -> bool {
    0 <= j < es.len() && es[j].rel == p && forall|k: int| j < k < es.len() ==> (#[trigger] es[k]).rel != p
}

proof fn lemma_missing(x: DiffIn, i: int)
    requires
        0 <= i < x.s.len(),
        is_new(x.s, x.d, i),
    ensures
        is_missing(x, change_of(x.s[i])),
{
    let p = x.s[i].rel;
    let ds = rels(x.d);
    lemma_last_at(ds, p);
    assert forall|j: int| #[trigger] stands_last(x.d, j, p) implies x.d[j].kind != x.s[i].kind by {
        assert(ds[j] == p);
        let l = crate::order::last_at(ds, p)->0;
        assert(ds[l] == p && ds[l] == x.d[l].rel);
        if j < l {
            assert(x.d[l].rel != p);
        } else if l < j {
            assert(ds[j] != p);
        }
        assert(l == j);
    }
}

/// What is removed is an entry of the destination where the source has nothing, or has another kind.
pub proof fn what_is_removed_has_no_source(x: DiffIn, c: ChangeV)
    requires
        classified(x).removed.contains(c),
    ensures
        exists|j: int|
            {
                &&& 0 <= j < x.d.len()
                &&& (#[trigger] x.d[j]).rel == c.rel
                &&& x.d[j].text == c.text
                &&& x.d[j].kind == c.kind
                &&& {
                    ||| forall|i: int| 0 <= i < x.s.len() ==> (#[trigger] x.s[i]).rel != c.rel
                    ||| exists|i: int| 0 <= i < x.s.len() && (#[trigger] x.s[i]).rel == c.rel && x.s[i].kind != c.kind
                }
            },
{
    let (s, d) = (x.s, x.d);
    let (n, m) = (s.len() as int, d.len() as int);
    let all = removed_list(x);
    lemma_by_path_strict();
    lemma_sorted_contains(all, change_paths(all), by_path(), c);
    let k = choose|k: int| 0 <= k < all.len() && all[k] == c;
    let (one, two) = (collect(n, clash_rule(x)), collect(m, extra_rule(x)));
    let r = rm_files(s, d).len() as int;
    let three = collect(r, kept_rem_rule(x));
    let (a, b) = (collect(n, clash_file_rule(s, d)), collect(m, extra_file_rule(s, d)));
    if k < one.len() {
        lemma_source_of(n, clash_rule(x), k);
        let i = source_of(n, clash_rule(x), k);
        lemma_clash(x, i);
        assert(x.s[i].rel == c.rel && x.s[i].kind != c.kind);
    } else if k < one.len() + two.len() {
        assert(two[k - one.len()] == c);
        lemma_source_of(m, extra_rule(x), k - one.len());
        let j = source_of(m, extra_rule(x), k - one.len());
        lemma_extra(x, j);
        assert(x.d[j].rel == c.rel);
    } else {
        let q = k - one.len() - two.len();
        assert(three[q] == c);
        lemma_source_of(r, kept_rem_rule(x), q);
        let p = source_of(r, kept_rem_rule(x), q);
        let j = rm_files(s, d)[p];
        if p < a.len() {
            assert(a[p] == j);
            lemma_source_of(n, clash_file_rule(s, d), p);
            let i = source_of(n, clash_file_rule(s, d), p);
            lemma_clash(x, i);
            assert(x.s[i].rel == c.rel && x.s[i].kind != c.kind);
        } else {
            assert(b[p - a.len()] == j);
            lemma_source_of(m, extra_file_rule(s, d), p - a.len());
            lemma_extra(x, j);
        }
        assert(x.d[j].rel == c.rel);
    }
}

proof fn lemma_clash(x: DiffIn, i: int)
    requires
        0 <= i < x.s.len(),
    ensures
        place(x.s, x.d, i) matches Some(j) ==> 0 <= j < x.d.len() && x.d[j].rel == x.s[i].rel,
{
    lemma_last_at(rels(x.d), x.s[i].rel);
}

proof fn lemma_extra(x: DiffIn, j: int)
    requires
        0 <= j < x.d.len(),
        is_extra(x.s, x.d, j),
    ensures
        forall|i: int| 0 <= i < x.s.len() ==> (#[trigger] x.s[i]).rel != x.d[j].rel,
{
    assert forall|i: int| 0 <= i < x.s.len() implies (#[trigger] x.s[i]).rel != x.d[j].rel by {
        assert(rels(x.s)[i] == x.s[i].rel);
    }
}

/// What is updated or refreshed stands on both sides under one path and as one kind.
pub proof fn what_is_updated_stands_on_both_sides(x: DiffIn, c: ChangeV)
    requires
        classified(x).changed.contains(c) || classified(x).touched.contains(c),
    ensures
        exists|i: int, j: int|
            0 <= i < x.s.len() && 0 <= j < x.d.len() && (#[trigger] x.s[i]).rel == c.rel && x.s[i].kind == c.kind && (
            #[trigger] x.d[j]).rel == c.rel && x.d[j].kind == c.kind,
{
    let n = x.s.len() as int;
    let (a, b) = (changed_list(x), touched_list(x));
    let (f, g) = (verdict_rule(x, Verdict::Changed), verdict_rule(x, Verdict::Touched));
    lemma_by_path_strict();
    lemma_sorted_contains(a, change_paths(a), by_path(), c);
    lemma_sorted_contains(b, change_paths(b), by_path(), c);
    lemma_collect_contains(n, f, c);
    lemma_collect_contains(n, g, c);
    let i = if a.contains(c) {
        choose|i: int| 0 <= i < n && #[trigger] f(i) == Some(c)
    } else {
        choose|i: int| 0 <= i < n && #[trigger] g(i) == Some(c)
    };
    lemma_clash(x, i);
    let j = place(x.s, x.d, i)->0;
    assert(x.s[i].rel == c.rel && x.d[j].rel == c.rel);
}

/// The unchanged entries are listed where that was asked for, and counted in any case.
pub proof fn unchanged_entries_are_listed_on_request(x: DiffIn)
    ensures
        !x.include_same ==> classified(x).unchanged_paths.len() == 0,
        x.include_same ==> classified(x).unchanged_paths.len() == classified(x).unchanged,
        forall|y: DiffIn| #[trigger]
            classified(y).unchanged == classified(x).unchanged <== y == (DiffIn { include_same: y.include_same, ..x }),
{
    let l = crate::diff::unchanged_list(x);
    if l.len() > 0 {
        lemma_by_path_strict();
        lemma_sorted_contains(l, crate::paths::bare(l), by_path(), l[0]);
    }
    assert forall|y: DiffIn| y == (DiffIn { include_same: y.include_same, ..x }) implies #[trigger] classified(
        y,
    ).unchanged == classified(x).unchanged by {
        lemma_same_unchanged(x, y);
    }
}

proof fn lemma_same_unchanged(x: DiffIn, y: DiffIn)
    requires
        y == (DiffIn { include_same: y.include_same, ..x }),
    ensures
        classified(y).unchanged == classified(x).unchanged,
{
    every_source_entry_is_counted_once(x);
    every_source_entry_is_counted_once(y);
    if y.include_same == x.include_same {
        assert(x == y);
    } else {
        lemma_flag(x, y);
    }
}

proof fn lemma_flag(x: DiffIn, y: DiffIn)
    requires
        y == (DiffIn { include_same: y.include_same, ..x }),
    ensures
        collect(x.s.len() as int, unchanged_rule(x)).len() == collect(x.s.len() as int, unchanged_rule(y)).len(),
{
    assert(forall|i: int| comparison(x, i) == comparison(y, i));
    assert(forall|c: int| add_outcome(x, c) == add_outcome(y, c));
    assert(forall|c: int| crate::diff::rem_outcome(x, c) == crate::diff::rem_outcome(y, c));
    assert(add_hash_rule(x) =~= add_hash_rule(y));
    assert(crate::diff::rem_hash_rule(x) =~= crate::diff::rem_hash_rule(y));
    assert(add_hashed(x) == add_hashed(y));
    assert(crate::diff::rem_hashed(x) == crate::diff::rem_hashed(y));
    assert(forall|k: int| match_of(x, k) == match_of(y, k));
    assert(plain_add_rule(x) =~= plain_add_rule(y));
    assert(forall|p: int| crate::diff::comes_by_move(x, p) == crate::diff::comes_by_move(y, p));
    assert(kept_add_rule(x) =~= kept_add_rule(y));
    assert(verdict_rule(x, Verdict::Changed) =~= verdict_rule(y, Verdict::Changed));
    assert(move_rule(x) =~= move_rule(y));
    assert(written_anew(x) == written_anew(y));
    assert(forall|i: int, l: int| crate::diff::well_linked(x, i, l) == crate::diff::well_linked(y, i, l));
    assert(unchanged_rule(x) =~= unchanged_rule(y));
}

} // verus!
