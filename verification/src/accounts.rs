//! What the conclusions of a comparison add up to, stated over the entries and changes themselves.
use vstd::prelude::*;
use vstd::utf8::encode_utf8;

use crate::collect::{collect, lemma_collect_contains, lemma_source_of, lemma_source_of_increasing};
use crate::conclusions::{FileV, FolderV, SubtreeV, above, added_column, added_rule, added_share, added_shares, bytes_of, bytes_rule, changed_column, changed_rule, changed_share, concluded, counted_rule, counts, empties, empty_rule, extensions_of, extension_text, file_rule, file_sizes, files_of, files_under, folder_names, folder_row, folder_rows, folder_shares, histogram, junk_in, junk_pattern_of, junk_rows, junk_rule, largest_first, lower_name, most_first, moved_in_column, moved_in_share, moved_out_share, moved_shares, name_in, nested, net_bytes_column, net_files_column, ones_then_zeros, orphan_rule, orphans, removed_column, removed_share, removed_shares, size_or_zero, sized_files, sized_rule, subtree_rule, subtrees, sum_of, top_folder, under_rule, unique_rule, zeros_then_ones};
use crate::diff::{ChangeV, DiffV, MoveV};
use crate::manifest::{EntryV, Kind, rels};
use crate::order::{lemma_last_at, lemma_order, lemma_order_in_range, lemma_sorted_contains, lemma_sorted_in_order, order};
use crate::paths::{PathV, starts_with};
use crate::tally::{by_amount_and_name, by_amount_and_path, firsts, lemma_by_amount_and_name_strict, lemma_by_amount_and_path_strict, lemma_collected_count, lemma_first_place, lemma_firsts, lemma_shares_are_all, lemma_total_added, lemma_total_collected, lemma_total_ext, lemma_total_negated, lemma_total_none, lemma_total_one, lemma_total_permuted, lemma_total_split, share_of, share_rule, top, total};
use crate::text::{lowercase, utf8_lossy};

verus! {

/// No two entries of a tree have the same path.
pub open spec fn distinct(es: Seq<EntryV>) -> bool {
    forall|i: int, j: int| 0 <= i < j < es.len() ==> (#[trigger] es[i]).rel != (#[trigger] es[j]).rel
}

/// The bytes that the files at a path hold.
pub open spec fn held(es: Seq<EntryV>, p: PathV) -> int {
    total(es.len() as int, held_rule(es, p))
}

pub open spec fn held_rule(es: Seq<EntryV>, p: PathV) -> spec_fn(int) -> int {
    |i: int|
        if es[i].kind == Kind::File && es[i].rel == p {
            es[i].size as int
        } else {
            0
        }
}

/// The path lies in the top-level folder of this name, or at the root of the tree.
pub open spec fn lies_in(p: PathV, folder: Seq<char>) -> bool {
    if p.len() >= 2 {
        utf8_lossy(p[0]) == folder
    } else {
        folder == "(top-level files)"@
    }
}

/// A size is looked up by path: that of the file there, and nothing where there is none.
pub proof fn a_size_is_that_of_the_file_there(es: Seq<EntryV>, p: PathV)
    requires
        distinct(es),
    ensures
        size_or_zero(es, p) == held(es, p),
        forall|i: int|
            0 <= i < es.len() && (#[trigger] es[i]).kind == Kind::File ==> held(es, es[i].rel) == es[i].size,
{
    let n = es.len() as int;
    let rule = file_rule(es);
    let fs = files_of(es);
    lemma_last_at(rels(fs), p);
    if rels(fs).contains(p) {
        let k = crate::order::last_at(rels(fs), p)->0;
        lemma_source_of(n, rule, k);
        let i = crate::collect::source_of(n, rule, k);
        assert(es[i] == fs[k]);
        assert(rels(fs)[k] == p);
        lemma_total_one(n, held_rule(es, p), i);
    } else {
        assert forall|i: int| 0 <= i < n implies #[trigger] held_rule(es, p)(i) == 0 by {
            if es[i].kind == Kind::File && es[i].rel == p {
                assert(rule(i) == Some(es[i]));
                lemma_collect_contains(n, rule, es[i]);
                let k = choose|k: int| 0 <= k < fs.len() && fs[k] == es[i];
                assert(rels(fs)[k] == p);
            }
        }
        lemma_total_none(n, held_rule(es, p));
    }
    assert forall|i: int| 0 <= i < es.len() && (#[trigger] es[i]).kind == Kind::File implies held(es, es[i].rel)
        == es[i].size by {
        lemma_total_one(n, held_rule(es, es[i].rel), i);
    }
}

/// The bytes of the files among some changes.
pub open spec fn change_bytes(cs: Seq<ChangeV>, es: Seq<EntryV>) -> int {
    total(cs.len() as int, change_bytes_rule(cs, es))
}

pub open spec fn change_bytes_rule(cs: Seq<ChangeV>, es: Seq<EntryV>) -> spec_fn(int) -> int {
    |i: int|
        if cs[i].kind == Kind::File {
            held(es, cs[i].rel)
        } else {
            0
        }
}

/// How many of some changes are of files.
pub open spec fn change_files(cs: Seq<ChangeV>) -> int {
    total(
        cs.len() as int,
        |i: int|
            if cs[i].kind == Kind::File {
                1int
            } else {
                0
            },
    )
}

/// How many of some changes are of files that hold nothing.
pub open spec fn change_empties(cs: Seq<ChangeV>, es: Seq<EntryV>) -> int {
    total(
        cs.len() as int,
        |i: int|
            if cs[i].kind == Kind::File && held(es, cs[i].rel) == 0 {
                1int
            } else {
                0
            },
    )
}

proof fn lemma_sized(cs: Seq<ChangeV>, es: Seq<EntryV>)
    requires
        distinct(es),
    ensures
        bytes_of(sized_files(cs, es)) == change_bytes(cs, es),
        sized_files(cs, es).len() == change_files(cs),
        empties(sized_files(cs, es)) == change_empties(cs, es),
{
    let n = cs.len() as int;
    let rule = sized_rule(cs, es);
    let fs = sized_files(cs, es);
    assert forall|i: int| 0 <= i < n implies #[trigger] change_bytes_rule(cs, es)(i) == match rule(i) {
        Some(x) => x.bytes,
        None => 0,
    } by {
        a_size_is_that_of_the_file_there(es, cs[i].rel);
    }
    lemma_total_collected(n, rule, |x: FileV| x.bytes, bytes_rule(fs), change_bytes_rule(cs, es));
    lemma_collected_count(
        n,
        rule,
        |i: int|
            if cs[i].kind == Kind::File {
                1int
            } else {
                0
            },
    );
    let hollow = |x: FileV|
        if x.bytes == 0 {
            1int
        } else {
            0
        };
    let h = |k: int| hollow(fs[k]);
    lemma_collected_count(fs.len() as int, empty_rule(fs), h);
    let g = |i: int|
        if cs[i].kind == Kind::File && held(es, cs[i].rel) == 0 {
            1int
        } else {
            0
        };
    assert forall|i: int| 0 <= i < n implies #[trigger] g(i) == match rule(i) {
        Some(x) => hollow(x),
        None => 0,
    } by {
        a_size_is_that_of_the_file_there(es, cs[i].rel);
    }
    lemma_total_collected(n, rule, hollow, h, g);
}

/// The watch counts what a sync would take away: as many files as are removed, with the bytes that the
/// destination holds of them, out of all the files and bytes of the destination.
pub proof fn the_watch_counts_what_goes(d: DiffV, s: Seq<EntryV>, t: Seq<EntryV>)
    requires
        distinct(t),
    ensures
        concluded(d, s, t).deleted_files == change_files(d.removed),
        concluded(d, s, t).deleted_bytes == change_bytes(d.removed, t),
        concluded(d, s, t).empty_removes == change_empties(d.removed, t),
        concluded(d, s, t).dest_files == total(
            t.len() as int,
            |i: int|
                if t[i].kind == Kind::File {
                    1int
                } else {
                    0
                },
        ),
        concluded(d, s, t).dest_bytes == total(
            t.len() as int,
            |i: int|
                if t[i].kind == Kind::File {
                    t[i].size as int
                } else {
                    0
                },
        ),
{
    lemma_sized(d.removed, t);
    lemma_file_sizes(t);
}

/// The sizes of a tree's files are the sizes of its files, each once.
proof fn lemma_file_sizes(t: Seq<EntryV>)
    requires
        distinct(t),
    ensures
        file_sizes(t).len() == total(
            t.len() as int,
            |i: int|
                if t[i].kind == Kind::File {
                    1int
                } else {
                    0
                },
        ),
        sum_of(file_sizes(t)) == total(
            t.len() as int,
            |i: int|
                if t[i].kind == Kind::File {
                    t[i].size as int
                } else {
                    0
                },
        ),
        forall|x: int| #[trigger]
            file_sizes(t).contains(x) <==> exists|i: int|
                0 <= i < t.len() && (#[trigger] t[i]).kind == Kind::File && t[i].size == x,
{
    let n = t.len() as int;
    let rule = file_rule(t);
    let fs = files_of(t);
    let m = fs.len() as int;
    let ones = |i: int|
        if t[i].kind == Kind::File {
            1int
        } else {
            0
        };
    let sizes = |i: int|
        if t[i].kind == Kind::File {
            t[i].size as int
        } else {
            0
        };
    lemma_collected_count(n, rule, ones);
    let keep = counted_rule(fs);
    assert forall|k: int| 0 <= k < m implies #[trigger] keep(k) == Some(fs[k].size as int) by {
        lemma_last_at(rels(fs), fs[k].rel);
        assert(rels(fs)[k] == fs[k].rel);
        let l = crate::order::last_at(rels(fs), fs[k].rel)->0;
        lemma_source_of(n, rule, k);
        lemma_source_of(n, rule, l);
        assert(rels(fs)[l] == fs[l].rel);
        if k < l {
            lemma_source_of_increasing(n, rule, k, l);
        } else if l < k {
            lemma_source_of_increasing(n, rule, l, k);
        }
        assert(k == l);
    }
    crate::collect::lemma_collect_stretch(0, m, keep, true);
    assert(file_sizes(t).len() == m);
    let v = file_sizes(t);
    let f = |i: int| v[i];
    let g = |k: int| fs[k].size as int;
    lemma_total_collected(m, keep, |x: int| x, f, g);
    lemma_total_collected(n, rule, |e: EntryV| e.size as int, g, sizes);
    assert forall|x: int| #[trigger] v.contains(x) <==> exists|i: int|
        0 <= i < t.len() && (#[trigger] t[i]).kind == Kind::File && t[i].size == x by {
        lemma_collect_contains(m, keep, x);
        if v.contains(x) {
            let k = choose|k: int| 0 <= k < m && #[trigger] keep(k) == Some(x);
            lemma_source_of(n, rule, k);
            let i = crate::collect::source_of(n, rule, k);
            assert(t[i].kind == Kind::File && t[i].size == x);
        }
        if exists|i: int| 0 <= i < t.len() && (#[trigger] t[i]).kind == Kind::File && t[i].size == x {
            let i = choose|i: int| 0 <= i < t.len() && (#[trigger] t[i]).kind == Kind::File && t[i].size == x;
            assert(rule(i) == Some(t[i]));
            lemma_collect_contains(n, rule, t[i]);
            let k = choose|k: int| 0 <= k < m && fs[k] == t[i];
            assert(keep(k) == Some(x));
        }
    }
}

/// The overview counts the difference, and the bytes that the source holds of what is added.
pub proof fn the_overview_counts_the_difference(d: DiffV, s: Seq<EntryV>, t: Seq<EntryV>)
    requires
        distinct(s),
    ensures
        concluded(d, s, t).added == d.added.len(),
        concluded(d, s, t).moved == d.moved.len(),
        concluded(d, s, t).changed == d.changed.len(),
        concluded(d, s, t).refreshed == d.touched.len(),
        concluded(d, s, t).linked == d.to_link.len(),
        concluded(d, s, t).unchanged == d.unchanged,
        concluded(d, s, t).added_bytes == total(d.added.len() as int, |i: int| held(s, d.added[i].rel)),
        concluded(d, s, t).empty_adds == change_empties(d.added, s),
{
    lemma_sized(d.added, s);
    let g = |i: int| held(s, d.added[i].rel);
    assert forall|i: int| 0 <= i < d.added.len() implies #[trigger] added_rule(d.added, s)(i) == g(i) by {
        a_size_is_that_of_the_file_there(s, d.added[i].rel);
    }
    lemma_total_ext(d.added.len() as int, added_rule(d.added, s), g);
}

// ── by folder ────────────────────────────────────────────────────────────────

/// What the shares of one folder come to, by what is counted of each.
spec fn part(v: Seq<FolderV>, t: Seq<char>, f: spec_fn(FolderV) -> int) -> int {
    total(v.len() as int, part_rule(v, t, f))
}

spec fn part_rule(v: Seq<FolderV>, t: Seq<char>, f: spec_fn(FolderV) -> int) -> spec_fn(int) -> int {
    |i: int| mine(v[i], t, f)
}

spec fn mine(x: FolderV, t: Seq<char>, f: spec_fn(FolderV) -> int) -> int {
    if x.folder == t {
        f(x)
    } else {
        0
    }
}

proof fn lemma_part_joined(a: Seq<FolderV>, b: Seq<FolderV>, t: Seq<char>, f: spec_fn(FolderV) -> int)
    ensures
        part(a + b, t, f) == part(a, t, f) + part(b, t, f),
{
    let v = a + b;
    let (m, n) = (a.len() as int, v.len() as int);
    let r = part_rule(v, t, f);
    lemma_total_split(m, n, r);
    lemma_total_ext(m, r, part_rule(a, t, f));
    let rest = |i: int| r(m + i);
    assert forall|i: int| 0 <= i < n - m implies #[trigger] rest(i) == part_rule(b, t, f)(i) by {
        assert(v[m + i] == b[i]);
    }
    lemma_total_ext(n - m, rest, part_rule(b, t, f));
}

/// A sum over pairs.
proof fn lemma_total_pairs(n: int, h: spec_fn(int) -> int, g: spec_fn(int) -> int)
    requires
        0 <= n,
        forall|i: int| 0 <= i < n ==> #[trigger] g(i) == h(2 * i) + h(2 * i + 1),
    ensures
        total(2 * n, h) == total(n, g),
    decreases n,
{
    if n > 0 {
        lemma_total_pairs(n - 1, h, g);
        assert(g(n - 1) == h(2 * (n - 1)) + h(2 * (n - 1) + 1));
        assert(total(2 * n, h) == total(2 * n - 1, h) + h(2 * n - 1));
        assert(total(2 * n - 1, h) == total(2 * n - 2, h) + h(2 * n - 2));
    }
}

/// What the changes of a difference do to one folder, for something counted of each.
spec fn folder_sum(
    d: DiffV,
    s: Seq<EntryV>,
    t: Seq<EntryV>,
    folder: Seq<char>,
    f: spec_fn(FolderV) -> int,
) -> int {
    total(
        d.added.len() as int,
        |i: int|
            if d.added[i].kind == Kind::File {
                mine(
                    added_share(
                        FileV { rel: d.added[i].rel, text: d.added[i].text, bytes: size_or_zero(s, d.added[i].rel) },
                    ),
                    folder,
                    f,
                )
            } else {
                0
            },
    ) + total(
        d.removed.len() as int,
        |i: int|
            if d.removed[i].kind == Kind::File {
                mine(
                    removed_share(
                        FileV {
                            rel: d.removed[i].rel,
                            text: d.removed[i].text,
                            bytes: size_or_zero(t, d.removed[i].rel),
                        },
                    ),
                    folder,
                    f,
                )
            } else {
                0
            },
    ) + total(
        d.changed.len() as int,
        |i: int|
            if d.changed[i].kind == Kind::File {
                mine(
                    changed_share(
                        d.changed[i].rel,
                        size_or_zero(t, d.changed[i].rel),
                        size_or_zero(s, d.changed[i].rel),
                    ),
                    folder,
                    f,
                )
            } else {
                0
            },
    ) + total(
        d.moved.len() as int,
        |i: int|
            mine(moved_in_share(d.moved[i].to, size_or_zero(s, d.moved[i].to)), folder, f) + mine(
                moved_out_share(d.moved[i].from, size_or_zero(s, d.moved[i].to)),
                folder,
                f,
            ),
    )
}

proof fn lemma_folder_sum(d: DiffV, s: Seq<EntryV>, t: Seq<EntryV>, folder: Seq<char>, f: spec_fn(FolderV) -> int)
    ensures
        part(folder_shares(d, s, t), folder, f) == folder_sum(d, s, t, folder, f),
{
    let (fa, fr) = (sized_files(d.added, s), sized_files(d.removed, t));
    let (a, r) = (added_shares(fa), removed_shares(fr));
    let c = collect(d.changed.len() as int, changed_rule(d.changed, s, t));
    let m = moved_shares(d.moved, s);
    lemma_part_joined(a, r, folder, f);
    lemma_part_joined(a + r, c, folder, f);
    lemma_part_joined(a + r + c, m, folder, f);
    lemma_total_collected(
        d.added.len() as int,
        sized_rule(d.added, s),
        |x: FileV| mine(added_share(x), folder, f),
        part_rule(a, folder, f),
        |i: int|
            if d.added[i].kind == Kind::File {
                mine(
                    added_share(
                        FileV { rel: d.added[i].rel, text: d.added[i].text, bytes: size_or_zero(s, d.added[i].rel) },
                    ),
                    folder,
                    f,
                )
            } else {
                0
            },
    );
    lemma_total_collected(
        d.removed.len() as int,
        sized_rule(d.removed, t),
        |x: FileV| mine(removed_share(x), folder, f),
        part_rule(r, folder, f),
        |i: int|
            if d.removed[i].kind == Kind::File {
                mine(
                    removed_share(
                        FileV {
                            rel: d.removed[i].rel,
                            text: d.removed[i].text,
                            bytes: size_or_zero(t, d.removed[i].rel),
                        },
                    ),
                    folder,
                    f,
                )
            } else {
                0
            },
    );
    lemma_total_collected(
        d.changed.len() as int,
        changed_rule(d.changed, s, t),
        |x: FolderV| mine(x, folder, f),
        part_rule(c, folder, f),
        |i: int|
            if d.changed[i].kind == Kind::File {
                mine(
                    changed_share(
                        d.changed[i].rel,
                        size_or_zero(t, d.changed[i].rel),
                        size_or_zero(s, d.changed[i].rel),
                    ),
                    folder,
                    f,
                )
            } else {
                0
            },
    );
    let n = d.moved.len() as int;
    let h = part_rule(m, folder, f);
    let g = |i: int|
        mine(moved_in_share(d.moved[i].to, size_or_zero(s, d.moved[i].to)), folder, f) + mine(
            moved_out_share(d.moved[i].from, size_or_zero(s, d.moved[i].to)),
            folder,
            f,
        );
    assert forall|i: int| 0 <= i < n implies #[trigger] g(i) == h(2 * i) + h(2 * i + 1) by {
        assert((2 * i) % 2 == 0 && (2 * i) / 2 == i && (2 * i + 1) % 2 == 1 && (2 * i + 1) / 2 == i);
        assert(m[2 * i] == moved_in_share(d.moved[i].to, size_or_zero(s, d.moved[i].to)));
        assert(m[2 * i + 1] == moved_out_share(d.moved[i].from, size_or_zero(s, d.moved[i].to)));
    }
    lemma_total_pairs(n, h, g);
}

/// A row is what its folder's shares come to.
proof fn lemma_row(d: DiffV, s: Seq<EntryV>, t: Seq<EntryV>, k: int)
    requires
        0 <= k < concluded(d, s, t).folders.len(),
    ensures
        ({
            let v = folder_shares(d, s, t);
            let r = concluded(d, s, t).folders[k];
            r == folder_row(v, r.folder)
        }),
{
    let v = folder_shares(d, s, t);
    let rows = folder_rows(v);
    let r = concluded(d, s, t).folders[k];
    let keys = Seq::new(rows.len(), |i: int| (rows[i].net_bytes, encode_utf8(rows[i].folder)));
    lemma_by_amount_and_name_strict();
    assert(concluded(d, s, t).folders.contains(r));
    lemma_sorted_contains(rows, keys, by_amount_and_name(), r);
    let j = choose|j: int| 0 <= j < rows.len() && rows[j] == r;
    assert(rows[j] == folder_row(v, v[firsts(folder_names(v))[j]].folder));
}

/// The number of the changes of files that lie in a folder.
pub open spec fn files_in(cs: Seq<ChangeV>, folder: Seq<char>) -> int {
    total(
        cs.len() as int,
        |i: int|
            if cs[i].kind == Kind::File && lies_in(cs[i].rel, folder) {
                1int
            } else {
                0
            },
    )
}

/// The bytes of the changes of files that lie in a folder.
pub open spec fn bytes_in(cs: Seq<ChangeV>, es: Seq<EntryV>, folder: Seq<char>) -> int {
    total(
        cs.len() as int,
        |i: int|
            if cs[i].kind == Kind::File && lies_in(cs[i].rel, folder) {
                held(es, cs[i].rel)
            } else {
                0
            },
    )
}

/// How many moves lead into a folder.
pub open spec fn moves_in(ms: Seq<MoveV>, folder: Seq<char>) -> int {
    total(
        ms.len() as int,
        |i: int|
            if lies_in(ms[i].to, folder) {
                1int
            } else {
                0
            },
    )
}

/// How many moves lead out of a folder.
pub open spec fn moves_out(ms: Seq<MoveV>, folder: Seq<char>) -> int {
    total(
        ms.len() as int,
        |i: int|
            if lies_in(ms[i].from, folder) {
                1int
            } else {
                0
            },
    )
}

/// The bytes that moves bring into a folder.
pub open spec fn bytes_moved_in(ms: Seq<MoveV>, s: Seq<EntryV>, folder: Seq<char>) -> int {
    total(
        ms.len() as int,
        |i: int|
            if lies_in(ms[i].to, folder) {
                held(s, ms[i].to)
            } else {
                0
            },
    )
}

/// The bytes that moves take out of a folder.
pub open spec fn bytes_moved_out(ms: Seq<MoveV>, s: Seq<EntryV>, folder: Seq<char>) -> int {
    total(
        ms.len() as int,
        |i: int|
            if lies_in(ms[i].from, folder) {
                held(s, ms[i].to)
            } else {
                0
            },
    )
}

proof fn lemma_shares_of(names: Seq<Seq<char>>, column: Seq<int>, v: Seq<FolderV>, t: Seq<char>, f: spec_fn(FolderV) -> int)
    requires
        names == folder_names(v),
        column.len() == v.len(),
        forall|i: int| 0 <= i < v.len() ==> #[trigger] column[i] == f(v[i]),
    ensures
        share_of(names, column, t) == part(v, t, f),
{
    lemma_total_ext(v.len() as int, share_rule(names, column, t), part_rule(v, t, f));
}

/// A row of the folder table counts what changes in its folder: the files added, removed and updated
/// there and those moved in; and it nets the bytes that the source will bring less those that the
/// destination gives up.
pub proof fn a_row_nets_what_its_folder_gains(d: DiffV, s: Seq<EntryV>, t: Seq<EntryV>, k: int)
    requires
        distinct(s),
        distinct(t),
        0 <= k < concluded(d, s, t).folders.len(),
    ensures
        ({
            let r = concluded(d, s, t).folders[k];
            let at = r.folder;
            &&& r.added == files_in(d.added, at)
            &&& r.removed == files_in(d.removed, at)
            &&& r.changed == files_in(d.changed, at)
            &&& r.moved_in == moves_in(d.moved, at)
            &&& r.net_files == files_in(d.added, at) - files_in(d.removed, at) + moves_in(d.moved, at)
                - moves_out(d.moved, at)
            &&& r.net_bytes == bytes_in(d.added, s, at) - bytes_in(d.removed, t, at) + bytes_in(d.changed, s, at)
                - bytes_in(d.changed, t, at) + bytes_moved_in(d.moved, s, at) - bytes_moved_out(d.moved, s, at)
        }),
{
    let v = folder_shares(d, s, t);
    let r = concluded(d, s, t).folders[k];
    let at = r.folder;
    let names = folder_names(v);
    lemma_row(d, s, t, k);
    let f1 = |x: FolderV| x.added;
    let f2 = |x: FolderV| x.removed;
    let f3 = |x: FolderV| x.changed;
    let f4 = |x: FolderV| x.moved_in;
    let f5 = |x: FolderV| x.net_files;
    let f6 = |x: FolderV| x.net_bytes;
    lemma_shares_of(names, added_column(v), v, at, f1);
    lemma_shares_of(names, removed_column(v), v, at, f2);
    lemma_shares_of(names, changed_column(v), v, at, f3);
    lemma_shares_of(names, moved_in_column(v), v, at, f4);
    lemma_shares_of(names, net_files_column(v), v, at, f5);
    lemma_shares_of(names, net_bytes_column(v), v, at, f6);
    lemma_folder_sum(d, s, t, at, f1);
    lemma_folder_sum(d, s, t, at, f2);
    lemma_folder_sum(d, s, t, at, f3);
    lemma_folder_sum(d, s, t, at, f4);
    lemma_folder_sum(d, s, t, at, f5);
    lemma_folder_sum(d, s, t, at, f6);
    lemma_columns(d, s, t, at);
    lemma_byte_columns(d, s, t, at);
}

/// The counts of one folder.
proof fn lemma_columns(d: DiffV, s: Seq<EntryV>, t: Seq<EntryV>, at: Seq<char>)
    ensures
        folder_sum(d, s, t, at, |x: FolderV| x.added) == files_in(d.added, at),
        folder_sum(d, s, t, at, |x: FolderV| x.removed) == files_in(d.removed, at),
        folder_sum(d, s, t, at, |x: FolderV| x.changed) == files_in(d.changed, at),
        folder_sum(d, s, t, at, |x: FolderV| x.moved_in) == moves_in(d.moved, at),
        folder_sum(d, s, t, at, |x: FolderV| x.net_files) == files_in(d.added, at) - files_in(d.removed, at)
            + moves_in(d.moved, at) - moves_out(d.moved, at),
{
    let f1 = |x: FolderV| x.added;
    let f2 = |x: FolderV| x.removed;
    let f3 = |x: FolderV| x.changed;
    let f4 = |x: FolderV| x.moved_in;
    let f5 = |x: FolderV| x.net_files;
    lemma_parts(d, s, t, at, f1, 1, 0, 0, 0, 0);
    lemma_parts(d, s, t, at, f2, 0, 1, 0, 0, 0);
    lemma_parts(d, s, t, at, f3, 0, 0, 1, 0, 0);
    lemma_parts(d, s, t, at, f4, 0, 0, 0, 1, 0);
    lemma_parts(d, s, t, at, f5, 1, -1, 0, 1, -1);
}

/// Where each change counts the same, a folder's sum is that many times the changes in it.
proof fn lemma_parts(
    d: DiffV,
    s: Seq<EntryV>,
    t: Seq<EntryV>,
    at: Seq<char>,
    f: spec_fn(FolderV) -> int,
    a: int,
    r: int,
    c: int,
    i: int,
    o: int,
)
    requires
        forall|x: FileV| f(#[trigger] added_share(x)) == a,
        forall|x: FileV| f(#[trigger] removed_share(x)) == r,
        forall|p: PathV, x: int, y: int| f(#[trigger] changed_share(p, x, y)) == c,
        forall|p: PathV, x: int| f(#[trigger] moved_in_share(p, x)) == i,
        forall|p: PathV, x: int| f(#[trigger] moved_out_share(p, x)) == o,
        -1 <= a <= 1,
        -1 <= r <= 1,
        -1 <= c <= 1,
        -1 <= i <= 1,
        -1 <= o <= 1,
    ensures
        folder_sum(d, s, t, at, f) == scaled(a, files_in(d.added, at)) + scaled(r, files_in(d.removed, at)) + scaled(
            c,
            files_in(d.changed, at),
        ) + scaled(i, moves_in(d.moved, at)) + scaled(o, moves_out(d.moved, at)),
{
    lemma_scaled(
        d.added.len() as int,
        a,
        |k: int|
            if d.added[k].kind == Kind::File && lies_in(d.added[k].rel, at) {
                1int
            } else {
                0
            },
        |k: int|
            if d.added[k].kind == Kind::File {
                mine(
                    added_share(
                        FileV { rel: d.added[k].rel, text: d.added[k].text, bytes: size_or_zero(s, d.added[k].rel) },
                    ),
                    at,
                    f,
                )
            } else {
                0
            },
    );
    lemma_scaled(
        d.removed.len() as int,
        r,
        |k: int|
            if d.removed[k].kind == Kind::File && lies_in(d.removed[k].rel, at) {
                1int
            } else {
                0
            },
        |k: int|
            if d.removed[k].kind == Kind::File {
                mine(
                    removed_share(
                        FileV {
                            rel: d.removed[k].rel,
                            text: d.removed[k].text,
                            bytes: size_or_zero(t, d.removed[k].rel),
                        },
                    ),
                    at,
                    f,
                )
            } else {
                0
            },
    );
    lemma_scaled(
        d.changed.len() as int,
        c,
        |k: int|
            if d.changed[k].kind == Kind::File && lies_in(d.changed[k].rel, at) {
                1int
            } else {
                0
            },
        |k: int|
            if d.changed[k].kind == Kind::File {
                mine(
                    changed_share(
                        d.changed[k].rel,
                        size_or_zero(t, d.changed[k].rel),
                        size_or_zero(s, d.changed[k].rel),
                    ),
                    at,
                    f,
                )
            } else {
                0
            },
    );
    let n = d.moved.len() as int;
    let ins = |k: int| mine(moved_in_share(d.moved[k].to, size_or_zero(s, d.moved[k].to)), at, f);
    let outs = |k: int| mine(moved_out_share(d.moved[k].from, size_or_zero(s, d.moved[k].to)), at, f);
    lemma_scaled(
        n,
        i,
        |k: int|
            if lies_in(d.moved[k].to, at) {
                1int
            } else {
                0
            },
        ins,
    );
    lemma_scaled(
        n,
        o,
        |k: int|
            if lies_in(d.moved[k].from, at) {
                1int
            } else {
                0
            },
        outs,
    );
    lemma_total_added(
        n,
        ins,
        outs,
        |k: int|
            mine(moved_in_share(d.moved[k].to, size_or_zero(s, d.moved[k].to)), at, f) + mine(
                moved_out_share(d.moved[k].from, size_or_zero(s, d.moved[k].to)),
                at,
                f,
            ),
    );
}

/// A number taken once, not at all, or away.
spec fn scaled(a: int, x: int) -> int {
    if a == 1 {
        x
    } else if a == -1 {
        -x
    } else {
        0
    }
}

proof fn lemma_scaled(n: int, a: int, f: spec_fn(int) -> int, h: spec_fn(int) -> int)
    requires
        -1 <= a <= 1,
        forall|k: int| 0 <= k < n ==> #[trigger] h(k) == scaled(a, f(k)),
    ensures
        total(n, h) == scaled(a, total(n, f)),
    decreases n,
{
    if n > 0 {
        lemma_scaled(n - 1, a, f, h);
        assert(h(n - 1) == scaled(a, f(n - 1)));
    }
}

/// The bytes of one folder.
proof fn lemma_byte_columns(d: DiffV, s: Seq<EntryV>, t: Seq<EntryV>, at: Seq<char>)
    requires
        distinct(s),
        distinct(t),
    ensures
        folder_sum(d, s, t, at, |x: FolderV| x.net_bytes) == bytes_in(d.added, s, at) - bytes_in(d.removed, t, at)
            + bytes_in(d.changed, s, at) - bytes_in(d.changed, t, at) + bytes_moved_in(d.moved, s, at)
            - bytes_moved_out(d.moved, s, at),
{
    let f = |x: FolderV| x.net_bytes;
    assert forall|p: PathV| #[trigger] size_or_zero(s, p) == held(s, p) by {
        a_size_is_that_of_the_file_there(s, p);
    }
    assert forall|p: PathV| #[trigger] size_or_zero(t, p) == held(t, p) by {
        a_size_is_that_of_the_file_there(t, p);
    }
    lemma_scaled(
        d.added.len() as int,
        1,
        |k: int|
            if d.added[k].kind == Kind::File && lies_in(d.added[k].rel, at) {
                held(s, d.added[k].rel)
            } else {
                0
            },
        |k: int|
            if d.added[k].kind == Kind::File {
                mine(
                    added_share(
                        FileV { rel: d.added[k].rel, text: d.added[k].text, bytes: size_or_zero(s, d.added[k].rel) },
                    ),
                    at,
                    f,
                )
            } else {
                0
            },
    );
    lemma_scaled(
        d.removed.len() as int,
        -1,
        |k: int|
            if d.removed[k].kind == Kind::File && lies_in(d.removed[k].rel, at) {
                held(t, d.removed[k].rel)
            } else {
                0
            },
        |k: int|
            if d.removed[k].kind == Kind::File {
                mine(
                    removed_share(
                        FileV {
                            rel: d.removed[k].rel,
                            text: d.removed[k].text,
                            bytes: size_or_zero(t, d.removed[k].rel),
                        },
                    ),
                    at,
                    f,
                )
            } else {
                0
            },
    );
    let m = d.changed.len() as int;
    let gain = |k: int|
        if d.changed[k].kind == Kind::File && lies_in(d.changed[k].rel, at) {
            held(s, d.changed[k].rel)
        } else {
            0
        };
    let was = |k: int|
        if d.changed[k].kind == Kind::File && lies_in(d.changed[k].rel, at) {
            held(t, d.changed[k].rel)
        } else {
            0
        };
    let loss = |k: int| -was(k);
    lemma_total_negated(m, was, loss);
    lemma_total_added(
        m,
        gain,
        loss,
        |k: int|
            if d.changed[k].kind == Kind::File {
                mine(
                    changed_share(
                        d.changed[k].rel,
                        size_or_zero(t, d.changed[k].rel),
                        size_or_zero(s, d.changed[k].rel),
                    ),
                    at,
                    f,
                )
            } else {
                0
            },
    );
    let n = d.moved.len() as int;
    let ins = |k: int| mine(moved_in_share(d.moved[k].to, size_or_zero(s, d.moved[k].to)), at, f);
    let outs = |k: int| mine(moved_out_share(d.moved[k].from, size_or_zero(s, d.moved[k].to)), at, f);
    lemma_scaled(
        n,
        1,
        |k: int|
            if lies_in(d.moved[k].to, at) {
                held(s, d.moved[k].to)
            } else {
                0
            },
        ins,
    );
    lemma_scaled(
        n,
        -1,
        |k: int|
            if lies_in(d.moved[k].from, at) {
                held(s, d.moved[k].to)
            } else {
                0
            },
        outs,
    );
    lemma_total_added(
        n,
        ins,
        outs,
        |k: int|
            mine(moved_in_share(d.moved[k].to, size_or_zero(s, d.moved[k].to)), at, f) + mine(
                moved_out_share(d.moved[k].from, size_or_zero(s, d.moved[k].to)),
                at,
                f,
            ),
    );
}

/// A folder in which one file is updated and nothing else happens nets that file's size in the source
/// less its size at the destination.
pub proof fn a_lone_update_nets_the_difference_of_sizes(
    d: DiffV,
    s: Seq<EntryV>,
    t: Seq<EntryV>,
    k: int,
    i: int,
    a: int,
    b: int,
)
    requires
        distinct(s),
        distinct(t),
        0 <= k < concluded(d, s, t).folders.len(),
        d.added.len() == 0,
        d.removed.len() == 0,
        d.moved.len() == 0,
        0 <= i < d.changed.len(),
        d.changed[i].kind == Kind::File,
        lies_in(d.changed[i].rel, concluded(d, s, t).folders[k].folder),
        forall|j: int|
            0 <= j < d.changed.len() && j != i ==> !lies_in(
                (#[trigger] d.changed[j]).rel,
                concluded(d, s, t).folders[k].folder,
            ),
        0 <= a < s.len() && s[a].kind == Kind::File && s[a].rel == d.changed[i].rel,
        0 <= b < t.len() && t[b].kind == Kind::File && t[b].rel == d.changed[i].rel,
    ensures
        concluded(d, s, t).folders[k].changed == 1,
        concluded(d, s, t).folders[k].net_files == 0,
        concluded(d, s, t).folders[k].net_bytes == s[a].size - t[b].size,
{
    let at = concluded(d, s, t).folders[k].folder;
    a_row_nets_what_its_folder_gains(d, s, t, k);
    a_size_is_that_of_the_file_there(s, s[a].rel);
    a_size_is_that_of_the_file_there(t, t[b].rel);
    let n = d.changed.len() as int;
    lemma_total_one(
        n,
        |i: int|
            if d.changed[i].kind == Kind::File && lies_in(d.changed[i].rel, at) {
                1int
            } else {
                0
            },
        i,
    );
    lemma_total_one(
        n,
        |i: int|
            if d.changed[i].kind == Kind::File && lies_in(d.changed[i].rel, at) {
                held(s, d.changed[i].rel)
            } else {
                0
            },
        i,
    );
    lemma_total_one(
        n,
        |i: int|
            if d.changed[i].kind == Kind::File && lies_in(d.changed[i].rel, at) {
                held(t, d.changed[i].rel)
            } else {
                0
            },
        i,
    );
}

/// The folder table balances: over all its rows it nets the bytes of the added files and the source's
/// bytes of the updated ones, less the bytes of the removed files and the destination's bytes of the
/// updated ones. Moves come to nothing.
pub proof fn the_folder_table_balances(d: DiffV, s: Seq<EntryV>, t: Seq<EntryV>)
    requires
        distinct(s),
        distinct(t),
    ensures
        total(
            concluded(d, s, t).folders.len() as int,
            |k: int| concluded(d, s, t).folders[k].net_bytes,
        ) == change_bytes(d.added, s) + change_bytes(d.changed, s) - change_bytes(d.removed, t) - change_bytes(
            d.changed,
            t,
        ),
{
    let v = folder_shares(d, s, t);
    let rows = folder_rows(v);
    let out = concluded(d, s, t).folders;
    let keys = Seq::new(rows.len(), |i: int| (rows[i].net_bytes, encode_utf8(rows[i].folder)));
    let lt = by_amount_and_name();
    lemma_by_amount_and_name_strict();
    lemma_order(keys, lt);
    let o = order(keys, lt);
    let n = rows.len() as int;
    let f = |k: int| rows[k].net_bytes;
    lemma_order_in_range(o, n);
    lemma_total_permuted(o, n, f);
    let g = |k: int| out[k].net_bytes;
    lemma_total_ext(n, g, |k: int| f(o[k]));
    let names = folder_names(v);
    assert forall|k: int| 0 <= k < firsts(names).len() implies #[trigger] f(k) == share_of(
        names,
        net_bytes_column(v),
        names[firsts(names)[k]],
    ) by {
        lemma_firsts(names, k, k);
    }
    lemma_shares_are_all(names, net_bytes_column(v), f);
    let c = net_bytes_column(v);
    let all = |i: int| c[i];
    // the shares part by part
    assert forall|p: PathV| #[trigger] size_or_zero(s, p) == held(s, p) by {
        a_size_is_that_of_the_file_there(s, p);
    }
    assert forall|p: PathV| #[trigger] size_or_zero(t, p) == held(t, p) by {
        a_size_is_that_of_the_file_there(t, p);
    }
    let (fa, fr) = (sized_files(d.added, s), sized_files(d.removed, t));
    let (a, r) = (added_shares(fa), removed_shares(fr));
    let ch = collect(d.changed.len() as int, changed_rule(d.changed, s, t));
    let m = moved_shares(d.moved, s);
    let (l1, l2, l3, l4) = (a.len() as int, r.len() as int, ch.len() as int, m.len() as int);
    lemma_total_split(l1, v.len() as int, all);
    let rest1 = |i: int| all(l1 + i);
    lemma_total_split(l2, l2 + l3 + l4, rest1);
    let rest2 = |i: int| rest1(l2 + i);
    lemma_total_split(l3, l3 + l4, rest2);
    let rest3 = |i: int| rest2(l3 + i);
    assert(v.len() == l1 + l2 + l3 + l4);
    lemma_total_collected(
        d.added.len() as int,
        sized_rule(d.added, s),
        |x: FileV| x.bytes,
        all,
        change_bytes_rule(d.added, s),
    );
    let neg = |i: int| -change_bytes_rule(d.removed, t)(i);
    assert forall|i: int| 0 <= i < l2 implies #[trigger] rest1(i) == -fr[i].bytes by {
        assert(v[l1 + i] == r[i]);
    }
    lemma_total_collected(d.removed.len() as int, sized_rule(d.removed, t), |x: FileV| -x.bytes, rest1, neg);
    lemma_total_negated(d.removed.len() as int, change_bytes_rule(d.removed, t), neg);
    let (up, down) = (change_bytes_rule(d.changed, s), change_bytes_rule(d.changed, t));
    let minus = |i: int| -down(i);
    let net = |i: int| up(i) + minus(i);
    assert forall|i: int| 0 <= i < l3 implies #[trigger] rest2(i) == ch[i].net_bytes by {
        assert(v[l1 + l2 + i] == ch[i]);
    }
    lemma_total_collected(
        d.changed.len() as int,
        changed_rule(d.changed, s, t),
        |x: FolderV| x.net_bytes,
        rest2,
        net,
    );
    lemma_total_negated(d.changed.len() as int, down, minus);
    lemma_total_added(d.changed.len() as int, up, minus, net);
    let zero = |i: int| 0int;
    let k = d.moved.len() as int;
    assert forall|i: int| 0 <= i < k implies #[trigger] zero(i) == rest3(2 * i) + rest3(2 * i + 1) by {
        assert((2 * i) % 2 == 0 && (2 * i) / 2 == i && (2 * i + 1) % 2 == 1 && (2 * i + 1) / 2 == i);
        assert(v[l1 + l2 + l3 + 2 * i] == m[2 * i]);
        assert(v[l1 + l2 + l3 + (2 * i + 1)] == m[2 * i + 1]);
    }
    lemma_total_pairs(k, rest3, zero);
    lemma_total_none(k, zero);
}

/// Every folder in which a file is added, removed or updated has its row, and only one.
pub proof fn every_folder_has_one_row(d: DiffV, s: Seq<EntryV>, t: Seq<EntryV>, a: int, b: int)
    ensures
        0 <= a < d.added.len() && d.added[a].kind == Kind::File ==> exists|k: int|
            0 <= k < concluded(d, s, t).folders.len() && lies_in(
                d.added[a].rel,
                (#[trigger] concluded(d, s, t).folders[k]).folder,
            ),
        0 <= a < d.removed.len() && d.removed[a].kind == Kind::File ==> exists|k: int|
            0 <= k < concluded(d, s, t).folders.len() && lies_in(
                d.removed[a].rel,
                (#[trigger] concluded(d, s, t).folders[k]).folder,
            ),
        0 <= a < d.changed.len() && d.changed[a].kind == Kind::File ==> exists|k: int|
            0 <= k < concluded(d, s, t).folders.len() && lies_in(
                d.changed[a].rel,
                (#[trigger] concluded(d, s, t).folders[k]).folder,
            ),
        0 <= a < b < concluded(d, s, t).folders.len() ==> concluded(d, s, t).folders[a].folder != concluded(
            d,
            s,
            t,
        ).folders[b].folder,
{
    let v = folder_shares(d, s, t);
    let rows = folder_rows(v);
    let names = folder_names(v);
    let out = concluded(d, s, t).folders;
    let keys = Seq::new(rows.len(), |i: int| (rows[i].net_bytes, encode_utf8(rows[i].folder)));
    let lt = by_amount_and_name();
    lemma_by_amount_and_name_strict();
    let (fa, fr) = (sized_files(d.added, s), sized_files(d.removed, t));
    let ch = collect(d.changed.len() as int, changed_rule(d.changed, s, t));
    if 0 <= a < d.added.len() && d.added[a].kind == Kind::File {
        let x = sized_rule(d.added, s)(a)->0;
        assert(sized_rule(d.added, s)(a) == Some(x));
        lemma_collect_contains(d.added.len() as int, sized_rule(d.added, s), x);
        let i = choose|i: int| 0 <= i < fa.len() && fa[i] == x;
        assert(v[i] == added_share(x));
        lemma_row_at(d, s, t, i);
    }
    if 0 <= a < d.removed.len() && d.removed[a].kind == Kind::File {
        let x = sized_rule(d.removed, t)(a)->0;
        assert(sized_rule(d.removed, t)(a) == Some(x));
        lemma_collect_contains(d.removed.len() as int, sized_rule(d.removed, t), x);
        let i = choose|i: int| 0 <= i < fr.len() && fr[i] == x;
        assert(v[fa.len() + i] == removed_share(x));
        lemma_row_at(d, s, t, fa.len() + i);
    }
    if 0 <= a < d.changed.len() && d.changed[a].kind == Kind::File {
        let x = changed_rule(d.changed, s, t)(a)->0;
        assert(changed_rule(d.changed, s, t)(a) == Some(x));
        lemma_collect_contains(d.changed.len() as int, changed_rule(d.changed, s, t), x);
        let i = choose|i: int| 0 <= i < ch.len() && ch[i] == x;
        assert(v[fa.len() + fr.len() + i] == x);
        lemma_row_at(d, s, t, fa.len() + fr.len() + i);
    }
    if 0 <= a < b < out.len() {
        lemma_sorted_in_order(rows, keys, lt, a, b);
        let o = order(keys, lt);
        lemma_firsts(names, o[a], o[b]);
        lemma_firsts(names, o[b], o[a]);
        assert(out[a] == rows[o[a]] && out[b] == rows[o[b]]);
        assert(rows[o[a]].folder == names[firsts(names)[o[a]]]);
        assert(rows[o[b]].folder == names[firsts(names)[o[b]]]);
    }
}

proof fn lemma_row_at(d: DiffV, s: Seq<EntryV>, t: Seq<EntryV>, i: int)
    requires
        0 <= i < folder_shares(d, s, t).len(),
    ensures
        exists|k: int|
            0 <= k < concluded(d, s, t).folders.len() && (#[trigger] concluded(d, s, t).folders[k]).folder
                == folder_shares(d, s, t)[i].folder,
{
    let v = folder_shares(d, s, t);
    let rows = folder_rows(v);
    let names = folder_names(v);
    let out = concluded(d, s, t).folders;
    let keys = Seq::new(rows.len(), |i: int| (rows[i].net_bytes, encode_utf8(rows[i].folder)));
    lemma_by_amount_and_name_strict();
    let j = lemma_first_place(names, i);
    lemma_firsts(names, j, j);
    lemma_sorted_contains(rows, keys, by_amount_and_name(), rows[j]);
    assert(rows.contains(rows[j]));
    let k = choose|k: int| 0 <= k < out.len() && out[k] == rows[j];
    assert(out[k].folder == v[i].folder);
}

// ── what goes for good ───────────────────────────────────────────────────────

/// A change that removes a file, as the conclusions list it.
pub open spec fn is_loss(d: DiffV, t: Seq<EntryV>, i: int, x: FileV) -> bool {
    &&& d.removed[i].kind == Kind::File
    &&& x.rel == d.removed[i].rel
    &&& x.text == d.removed[i].text
    &&& x.bytes == held(t, d.removed[i].rel)
}

proof fn lemma_losses(d: DiffV, t: Seq<EntryV>, x: FileV)
    requires
        distinct(t),
    ensures
        sized_files(d.removed, t).contains(x) <==> exists|i: int|
            0 <= i < d.removed.len() && #[trigger] is_loss(d, t, i, x),
{
    let n = d.removed.len() as int;
    let rule = sized_rule(d.removed, t);
    lemma_collect_contains(n, rule, x);
    if sized_files(d.removed, t).contains(x) {
        let i = choose|i: int| 0 <= i < n && #[trigger] rule(i) == Some(x);
        a_size_is_that_of_the_file_there(t, d.removed[i].rel);
        assert(is_loss(d, t, i, x));
    }
    if exists|i: int| 0 <= i < n && #[trigger] is_loss(d, t, i, x) {
        let i = choose|i: int| 0 <= i < n && #[trigger] is_loss(d, t, i, x);
        a_size_is_that_of_the_file_there(t, d.removed[i].rel);
        assert(rule(i) == Some(x));
    }
}

/// The last name of a path in lower case.
pub open spec fn bare_name(p: PathV) -> Seq<char> {
    lowercase(utf8_lossy(p.last()))
}

/// Every path ends in a name.
pub open spec fn named(es: Seq<EntryV>) -> bool {
    forall|i: int| 0 <= i < es.len() ==> (#[trigger] es[i]).rel.len() > 0 && crate::paths::is_name(es[i].rel.last())
}

/// The list of content that simply goes away holds exactly the removed files that share their name,
/// letter case aside, with nothing in the source.
pub proof fn content_that_goes_is_listed(d: DiffV, s: Seq<EntryV>, t: Seq<EntryV>, x: FileV)
    requires
        distinct(t),
        named(s),
        x.rel.len() > 0 && crate::paths::is_name(x.rel.last()),
    ensures
        concluded(d, s, t).orphan_deletes.contains(x) <==> (exists|i: int|
            0 <= i < d.removed.len() && #[trigger] is_loss(d, t, i, x)) && forall|j: int|
            0 <= j < s.len() ==> bare_name((#[trigger] s[j]).rel) != bare_name(x.rel),
{
    let dels = sized_files(d.removed, t);
    let lost = orphans(dels, s);
    let rule = orphan_rule(dels, s);
    let keys = Seq::new(lost.len(), |i: int| (-lost[i].bytes, lost[i].rel));
    lemma_by_amount_and_path_strict();
    lemma_sorted_contains(lost, keys, by_amount_and_path(), x);
    lemma_collect_contains(dels.len() as int, rule, x);
    lemma_losses(d, t, x);
    if lost.contains(x) {
        let k = choose|k: int| 0 <= k < dels.len() && #[trigger] rule(k) == Some(x);
        assert(dels[k] == x);
        assert(dels.contains(x));
        assert(!name_in(s, x.rel));
        assert forall|j: int| 0 <= j < s.len() implies bare_name((#[trigger] s[j]).rel) != bare_name(x.rel) by {
            assert(lower_name(s[j].rel) != lower_name(x.rel));
        }
    }
    if dels.contains(x) && forall|j: int| 0 <= j < s.len() ==> bare_name((#[trigger] s[j]).rel) != bare_name(x.rel) {
        let k = choose|k: int| 0 <= k < dels.len() && dels[k] == x;
        assert(!name_in(s, x.rel));
        assert(rule(k) == Some(x));
    }
}

/// What goes away comes to the bytes of the list, and so many of them are of a size that no file of the
/// source has.
pub proof fn content_that_goes_is_summed_up(d: DiffV, s: Seq<EntryV>, t: Seq<EntryV>)
    requires
        distinct(s),
    ensures
        concluded(d, s, t).orphan_bytes == total(
            concluded(d, s, t).orphan_deletes.len() as int,
            |k: int| concluded(d, s, t).orphan_deletes[k].bytes,
        ),
        concluded(d, s, t).orphan_unique_size == total(
            concluded(d, s, t).orphan_deletes.len() as int,
            |k: int|
                if exists|i: int|
                    0 <= i < s.len() && (#[trigger] s[i]).kind == Kind::File && s[i].size
                        == concluded(d, s, t).orphan_deletes[k].bytes {
                    0int
                } else {
                    1
                },
        ),
{
    let dels = sized_files(d.removed, t);
    let lost = orphans(dels, s);
    let out = concluded(d, s, t).orphan_deletes;
    let keys = Seq::new(lost.len(), |i: int| (-lost[i].bytes, lost[i].rel));
    let lt = by_amount_and_path();
    lemma_by_amount_and_path_strict();
    lemma_order(keys, lt);
    let o = order(keys, lt);
    let n = lost.len() as int;
    lemma_order_in_range(o, n);
    let f = bytes_rule(lost);
    lemma_total_permuted(o, n, f);
    lemma_total_ext(n, |k: int| out[k].bytes, |k: int| f(o[k]));
    lemma_file_sizes(s);
    let rare = |x: FileV|
        if exists|i: int| 0 <= i < s.len() && (#[trigger] s[i]).kind == Kind::File && s[i].size == x.bytes {
            0int
        } else {
            1
        };
    let g = |k: int| rare(lost[k]);
    assert forall|k: int| 0 <= k < n implies #[trigger] g(k) == if unique_rule(lost, s)(k) is Some {
        1int
    } else {
        0
    } by {
        assert(file_sizes(s).contains(lost[k].bytes) <==> exists|i: int|
            0 <= i < s.len() && (#[trigger] s[i]).kind == Kind::File && s[i].size == lost[k].bytes);
    }
    lemma_collected_count(n, unique_rule(lost, s), g);
    lemma_total_permuted(o, n, g);
    lemma_total_ext(
        n,
        |k: int|
            if exists|i: int|
                0 <= i < s.len() && (#[trigger] s[i]).kind == Kind::File && s[i].size == out[k].bytes {
                0int
            } else {
                1
            },
        |k: int| g(o[k]),
    );
}

/// Largest first: no file of a list stands behind a smaller one, and files of one size stand in the
/// order of their paths.
pub open spec fn shrinking(fs: Seq<FileV>) -> bool {
    forall|a: int, b: int|
        #![trigger fs[a], fs[b]]
        0 <= a < b < fs.len() ==> fs[a].bytes > fs[b].bytes || (fs[a].bytes == fs[b].bytes
            && !crate::order::path_lt(fs[b].rel, fs[a].rel))
}

proof fn lemma_largest_first(fs: Seq<FileV>)
    ensures
        shrinking(largest_first(fs)),
        largest_first(fs).len() == fs.len(),
        forall|x: FileV| #[trigger] largest_first(fs).contains(x) <==> fs.contains(x),
{
    let keys = Seq::new(fs.len(), |i: int| (-fs[i].bytes, fs[i].rel));
    let lt = by_amount_and_path();
    let out = largest_first(fs);
    lemma_by_amount_and_path_strict();
    assert forall|a: int, b: int|
        #![trigger out[a], out[b]]
        0 <= a < b < out.len() implies out[a].bytes > out[b].bytes || (out[a].bytes == out[b].bytes
        && !crate::order::path_lt(out[b].rel, out[a].rel)) by {
        lemma_sorted_in_order(fs, keys, lt, a, b);
        let o = order(keys, lt);
        assert(out[a] == fs[o[a]] && out[b] == fs[o[b]]);
    }
    assert forall|x: FileV| #[trigger] out.contains(x) <==> fs.contains(x) by {
        lemma_sorted_contains(fs, keys, lt, x);
    }
}

/// The largest deletions are listed, largest first, twenty at most; what is left out is no larger than
/// what is listed.
pub proof fn the_largest_deletions_are_listed(d: DiffV, s: Seq<EntryV>, t: Seq<EntryV>, x: FileV, k: int)
    requires
        distinct(t),
        0 <= k < concluded(d, s, t).largest_deletes.len(),
    ensures
        ({
            let out = concluded(d, s, t).largest_deletes;
            &&& shrinking(out)
            &&& shrinking(concluded(d, s, t).orphan_deletes)
            &&& out.len() == if change_files(d.removed) < 20 {
                change_files(d.removed)
            } else {
                20
            }
            &&& exists|i: int| 0 <= i < d.removed.len() && #[trigger] is_loss(d, t, i, out[k])
            &&& (exists|i: int| 0 <= i < d.removed.len() && #[trigger] is_loss(d, t, i, x)) && !out.contains(x)
                ==> x.bytes <= out[k].bytes
        }),
{
    let dels = sized_files(d.removed, t);
    let all = largest_first(dels);
    let out = concluded(d, s, t).largest_deletes;
    lemma_largest_first(dels);
    lemma_largest_first(orphans(dels, s));
    lemma_sized(d.removed, t);
    lemma_losses(d, t, x);
    assert(out[k] == all[k]);
    assert(all.contains(all[k]));
    lemma_losses(d, t, out[k]);
    if dels.contains(x) && !out.contains(x) {
        assert(all.contains(x));
        let j = choose|j: int| 0 <= j < all.len() && all[j] == x;
        if j < out.len() {
            assert(out[j] == x);
        }
        assert(k < j);
        assert(all[k].bytes > all[j].bytes || all[k].bytes == all[j].bytes);
    }
}

/// The largest additions are listed alike, with the bytes that the source holds of them.
pub proof fn the_largest_additions_are_listed(d: DiffV, s: Seq<EntryV>, t: Seq<EntryV>, k: int)
    requires
        distinct(s),
        0 <= k < concluded(d, s, t).largest_adds.len(),
    ensures
        ({
            let out = concluded(d, s, t).largest_adds;
            &&& shrinking(out)
            &&& out.len() == if change_files(d.added) < 20 {
                change_files(d.added)
            } else {
                20
            }
            &&& exists|i: int|
                0 <= i < d.added.len() && (#[trigger] d.added[i]).kind == Kind::File && d.added[i].rel == out[k].rel
                    && out[k].bytes == held(s, d.added[i].rel)
        }),
{
    let adds = sized_files(d.added, s);
    let all = largest_first(adds);
    let out = concluded(d, s, t).largest_adds;
    lemma_largest_first(adds);
    lemma_sized(d.added, s);
    assert(out[k] == all[k]);
    assert(all.contains(all[k]));
    let rule = sized_rule(d.added, s);
    lemma_collect_contains(d.added.len() as int, rule, out[k]);
    let i = choose|i: int| 0 <= i < d.added.len() && #[trigger] rule(i) == Some(out[k]);
    a_size_is_that_of_the_file_there(s, d.added[i].rel);
    assert(d.added[i].rel == out[k].rel);
}

// ── whole folders ────────────────────────────────────────────────────────────

/// One path lies properly below another.
pub open spec fn properly_below(p: PathV, dir: PathV) -> bool {
    dir.len() < p.len() && p.subrange(0, dir.len() as int) == dir
}

/// A folder is listed as going entirely exactly where the directory itself is removed and none above it
/// is; it counts the removed files at or below it and their bytes.
pub proof fn whole_folders_are_listed(d: DiffV, s: Seq<EntryV>, t: Seq<EntryV>, x: SubtreeV)
    requires
        distinct(t),
        forall|i: int|
            0 <= i < d.removed.len() ==> (#[trigger] d.removed[i]).rel.len() > 0 && d.removed[i].rel[0]
                != crate::paths::root_comp(),
    ensures
        concluded(d, s, t).deleted_subtrees.contains(x) <==> exists|i: int|
            {
                &&& 0 <= i < d.removed.len()
                &&& (#[trigger] d.removed[i]).kind == Kind::Dir
                &&& x.root == d.removed[i].rel
                &&& x.text == d.removed[i].text
                &&& forall|j: int|
                    0 <= j < d.removed.len() && (#[trigger] d.removed[j]).kind == Kind::Dir ==> !properly_below(
                        x.root,
                        d.removed[j].rel,
                    )
                &&& x.files == files_below(d, x.root)
                &&& x.bytes == bytes_below(d, t, x.root)
            },
        forall|a: int, b: int|
            0 <= a < b < concluded(d, s, t).deleted_subtrees.len()
                ==> (#[trigger] concluded(d, s, t).deleted_subtrees[a]).bytes >= (
            #[trigger] concluded(d, s, t).deleted_subtrees[b]).bytes,
{
    let dels = sized_files(d.removed, t);
    let all = subtrees(d.removed, dels);
    let rule = subtree_rule(d.removed, dels);
    let n = d.removed.len() as int;
    let keys = Seq::new(all.len(), |i: int| (-all[i].bytes, all[i].root));
    let lt = by_amount_and_path();
    let out = concluded(d, s, t).deleted_subtrees;
    lemma_by_amount_and_path_strict();
    lemma_sorted_contains(all, keys, lt, x);
    lemma_collect_contains(n, rule, x);
    assert forall|a: int, b: int| 0 <= a < b < out.len() implies (#[trigger] out[a]).bytes >= (
    #[trigger] out[b]).bytes by {
        lemma_sorted_in_order(all, keys, lt, a, b);
        let o = order(keys, lt);
        assert(out[a] == all[o[a]] && out[b] == all[o[b]]);
    }
    if all.contains(x) {
        let i = choose|i: int| 0 <= i < n && #[trigger] rule(i) == Some(x);
        lemma_below(d, t, x.root);
        assert forall|j: int| 0 <= j < n && (#[trigger] d.removed[j]).kind == Kind::Dir implies !properly_below(
            x.root,
            d.removed[j].rel,
        ) by {
            assert(!above(d.removed[j].rel, x.root));
        }
        assert(d.removed[i].kind == Kind::Dir);
    }
    if exists|i: int|
        {
            &&& 0 <= i < d.removed.len()
            &&& (#[trigger] d.removed[i]).kind == Kind::Dir
            &&& x.root == d.removed[i].rel
            &&& x.text == d.removed[i].text
            &&& forall|j: int|
                0 <= j < d.removed.len() && (#[trigger] d.removed[j]).kind == Kind::Dir ==> !properly_below(
                    x.root,
                    d.removed[j].rel,
                )
            &&& x.files == files_below(d, x.root)
            &&& x.bytes == bytes_below(d, t, x.root)
        } {
        let i = choose|i: int|
            {
                &&& 0 <= i < d.removed.len()
                &&& (#[trigger] d.removed[i]).kind == Kind::Dir
                &&& x.root == d.removed[i].rel
                &&& x.text == d.removed[i].text
                &&& forall|j: int|
                    0 <= j < d.removed.len() && (#[trigger] d.removed[j]).kind == Kind::Dir ==> !properly_below(
                        x.root,
                        d.removed[j].rel,
                    )
                &&& x.files == files_below(d, x.root)
                &&& x.bytes == bytes_below(d, t, x.root)
            };
        lemma_below(d, t, x.root);
        assert(!nested(d.removed, x.root)) by {
            if nested(d.removed, x.root) {
                let j = choose|j: int|
                    0 <= j < d.removed.len() && (#[trigger] d.removed[j]).kind == Kind::Dir && above(
                        d.removed[j].rel,
                        x.root,
                    );
                assert(properly_below(x.root, d.removed[j].rel));
            }
        }
        assert(rule(i) == Some(x));
    }
}

/// How many removed files lie at or below a directory.
pub open spec fn files_below(d: DiffV, dir: PathV) -> int {
    total(
        d.removed.len() as int,
        |i: int|
            if d.removed[i].kind == Kind::File && (d.removed[i].rel == dir || properly_below(d.removed[i].rel, dir)) {
                1int
            } else {
                0
            },
    )
}

/// The bytes of the removed files at or below a directory.
pub open spec fn bytes_below(d: DiffV, t: Seq<EntryV>, dir: PathV) -> int {
    total(
        d.removed.len() as int,
        |i: int|
            if d.removed[i].kind == Kind::File && (d.removed[i].rel == dir || properly_below(d.removed[i].rel, dir)) {
                held(t, d.removed[i].rel)
            } else {
                0
            },
    )
}

proof fn lemma_below(d: DiffV, t: Seq<EntryV>, dir: PathV)
    requires
        distinct(t),
    ensures
        files_under(sized_files(d.removed, t), dir).len() == files_below(d, dir),
        bytes_of(files_under(sized_files(d.removed, t), dir)) == bytes_below(d, t, dir),
{
    let dels = sized_files(d.removed, t);
    let n = d.removed.len() as int;
    let m = dels.len() as int;
    let pick = under_rule(dels, dir);
    let rule = sized_rule(d.removed, t);
    let one = |x: FileV|
        if starts_with(x.rel, dir) {
            1int
        } else {
            0
        };
    let bytes = |x: FileV|
        if starts_with(x.rel, dir) {
            x.bytes
        } else {
            0
        };
    lemma_collected_count(m, pick, |k: int| one(dels[k]));
    let g1 = |i: int|
        if d.removed[i].kind == Kind::File && (d.removed[i].rel == dir || properly_below(d.removed[i].rel, dir)) {
            1int
        } else {
            0
        };
    let g2 = |i: int|
        if d.removed[i].kind == Kind::File && (d.removed[i].rel == dir || properly_below(d.removed[i].rel, dir)) {
            held(t, d.removed[i].rel)
        } else {
            0
        };
    assert forall|i: int| 0 <= i < n implies (d.removed[i].rel == dir || properly_below(d.removed[i].rel, dir))
        == starts_with((#[trigger] d.removed[i]).rel, dir) by {
        let p = d.removed[i].rel;
        assert(p.subrange(0, p.len() as int) =~= p);
    }
    assert forall|p: PathV| #[trigger] size_or_zero(t, p) == held(t, p) by {
        a_size_is_that_of_the_file_there(t, p);
    }
    assert forall|i: int| 0 <= i < n implies #[trigger] g1(i) == match rule(i) {
        Some(x) => one(x),
        None => 0,
    } by {
        assert(starts_with(d.removed[i].rel, dir) == (d.removed[i].rel == dir || properly_below(
            d.removed[i].rel,
            dir,
        )));
    }
    assert forall|i: int| 0 <= i < n implies #[trigger] g2(i) == match rule(i) {
        Some(x) => bytes(x),
        None => 0,
    } by {
        assert(starts_with(d.removed[i].rel, dir) == (d.removed[i].rel == dir || properly_below(
            d.removed[i].rel,
            dir,
        )));
    }
    lemma_total_collected(n, rule, one, |k: int| one(dels[k]), g1);
    lemma_total_collected(n, rule, bytes, |k: int| bytes(dels[k]), g2);
    let under = files_under(dels, dir);
    lemma_total_collected(m, pick, |x: FileV| x.bytes, bytes_rule(under), |k: int| bytes(dels[k]));
}

// ── the alarm ────────────────────────────────────────────────────────────────

/// The alarm goes off where a tenth of the destination's files or of its bytes would be deleted, or a
/// whole top-level folder; and only there.
pub proof fn the_alarm_goes_by_what_is_lost(d: DiffV, s: Seq<EntryV>, t: Seq<EntryV>, files: int, bytes: int)
    requires
        distinct(t),
        files == total(
            t.len() as int,
            |i: int|
                if t[i].kind == Kind::File {
                    1int
                } else {
                    0
                },
        ),
        bytes == total(
            t.len() as int,
            |i: int|
                if t[i].kind == Kind::File {
                    t[i].size as int
                } else {
                    0
                },
        ),
        forall|j: int|
            0 <= j < d.removed.len() ==> (#[trigger] d.removed[j]).rel.len() > 0 && d.removed[j].rel[0]
                != crate::paths::root_comp(),
    ensures
        crate::conclusions_text::alarming(concluded(d, s, t)) <==> {
            ||| files > 0 && change_files(d.removed) * 10 >= files
            ||| bytes > 0 && change_bytes(d.removed, t) * 10 >= bytes
            ||| exists|j: int|
                0 <= j < d.removed.len() && (#[trigger] d.removed[j]).kind == Kind::Dir && d.removed[j].rel.len() == 1
        },
{
    let c = concluded(d, s, t);
    the_watch_counts_what_goes(d, s, t);
    if exists|j: int|
        0 <= j < d.removed.len() && (#[trigger] d.removed[j]).kind == Kind::Dir && d.removed[j].rel.len() == 1 {
        let j = choose|j: int|
            0 <= j < d.removed.len() && (#[trigger] d.removed[j]).kind == Kind::Dir && d.removed[j].rel.len() == 1;
        crate::conclusions_text::deleting_a_top_level_folder_raises_the_alarm(d, s, t, j);
    }
    if exists|i: int| 0 <= i < c.deleted_subtrees.len() && (#[trigger] c.deleted_subtrees[i]).root.len() == 1 {
        let i = choose|i: int| 0 <= i < c.deleted_subtrees.len() && (#[trigger] c.deleted_subtrees[i]).root.len() == 1;
        let x = c.deleted_subtrees[i];
        assert(c.deleted_subtrees.contains(x));
        whole_folders_are_listed(d, s, t, x);
    }
}

// ── junk and extensions ──────────────────────────────────────────────────────

/// A component that is noise: a trash folder, or what systems leave behind.
pub open spec fn is_noise(c: Seq<u8>) -> bool {
    ||| c == encode_utf8(".Trash"@)
    ||| crate::scan::begins_with(c, encode_utf8(".Trash-"@))
    ||| c == encode_utf8("$RECYCLE.BIN"@)
    ||| c == encode_utf8("System Volume Information"@)
    ||| c == encode_utf8(".DS_Store"@)
    ||| c == encode_utf8("@eaDir"@)
    ||| c == encode_utf8("lost+found"@)
    ||| c == encode_utf8(".Spotlight-V100"@)
    ||| c == encode_utf8(".fseventsd"@)
    ||| c == encode_utf8(".TemporaryItems"@)
}

proof fn lemma_junk_from(c: Seq<u8>, k: int)
    requires
        0 <= k <= crate::conclusions::junk_names().len(),
    ensures
        crate::conclusions::junk_from(c, k) is Some <==> exists|j: int|
            k <= j < crate::conclusions::junk_names().len() && c == encode_utf8(
                #[trigger] crate::conclusions::junk_names()[j],
            ),
        crate::conclusions::junk_from(c, k) matches Some(t) ==> encode_utf8(t) == c,
    decreases crate::conclusions::junk_names().len() - k,
{
    if k < crate::conclusions::junk_names().len() {
        lemma_junk_from(c, k + 1);
        if c == encode_utf8(crate::conclusions::junk_names()[k]) {
            assert(c == encode_utf8(crate::conclusions::junk_names()[k]));
        }
    }
}

proof fn lemma_noise(c: Seq<u8>)
    ensures
        crate::conclusions::junk_component(c) is Some <==> is_noise(c),
        crate::conclusions::junk_component(c) matches Some(t) ==> t == ".Trash*"@ || encode_utf8(t) == c,
{
    let names = crate::conclusions::junk_names();
    lemma_junk_from(c, 0);
    assert(names[0] == "$RECYCLE.BIN"@ && names[1] == "System Volume Information"@ && names[2] == ".DS_Store"@
        && names[3] == "@eaDir"@ && names[4] == "lost+found"@ && names[5] == ".Spotlight-V100"@ && names[6]
        == ".fseventsd"@ && names[7] == ".TemporaryItems"@ && names.len() == 8);
}

/// A path counts as junk exactly where one of its components is noise, and it counts under the first of
/// them: under its own name, or as trash.
pub proof fn junk_is_told_by_any_component(p: PathV)
    ensures
        junk_pattern_of(p) is Some <==> exists|i: int| 0 <= i < p.len() && is_noise(#[trigger] p[i]),
        junk_pattern_of(p) matches Some(t) ==> t == ".Trash*"@ || p.contains(encode_utf8(t)),
    decreases p.len(),
{
    if p.len() > 0 {
        let rest = p.subrange(1, p.len() as int);
        lemma_noise(p[0]);
        junk_is_told_by_any_component(rest);
        if is_noise(p[0]) {
            assert(is_noise(p[0]));
        } else {
            if exists|i: int| 0 <= i < rest.len() && is_noise(#[trigger] rest[i]) {
                let i = choose|i: int| 0 <= i < rest.len() && is_noise(#[trigger] rest[i]);
                assert(p[i + 1] == rest[i]);
            }
            if exists|i: int| 0 <= i < p.len() && is_noise(#[trigger] p[i]) {
                let i = choose|i: int| 0 <= i < p.len() && is_noise(#[trigger] p[i]);
                assert(rest[i - 1] == p[i]);
            }
            if let Some(t) = junk_pattern_of(rest) {
                if rest.contains(encode_utf8(t)) {
                    let i = choose|i: int| 0 <= i < rest.len() && rest[i] == encode_utf8(t);
                    assert(p[i + 1] == encode_utf8(t));
                }
            }
        }
    }
}

/// How many of some changes count under a junk pattern.
pub open spec fn junk_count(cs: Seq<ChangeV>, pattern: Seq<char>) -> int {
    total(
        cs.len() as int,
        |i: int|
            if junk_pattern_of(cs[i].rel) == Some(pattern) {
                1int
            } else {
                0
            },
    )
}

/// A row of the junk table counts the removed and the added paths of its pattern.
pub proof fn a_junk_row_counts_both_sides(d: DiffV, s: Seq<EntryV>, t: Seq<EntryV>, k: int)
    requires
        0 <= k < concluded(d, s, t).junk.len(),
    ensures
        ({
            let r = concluded(d, s, t).junk[k];
            &&& r.deleting_from_dest == junk_count(d.removed, r.pattern)
            &&& r.copying_from_source == junk_count(d.added, r.pattern)
        }),
{
    let (del, cp) = (junk_in(d.removed), junk_in(d.added));
    let all = del + cp;
    let rows = junk_rows(del, cp);
    let r = concluded(d, s, t).junk[k];
    let keys = Seq::new(
        rows.len(),
        |i: int| (-(rows[i].deleting_from_dest + rows[i].copying_from_source), encode_utf8(rows[i].pattern)),
    );
    lemma_by_amount_and_name_strict();
    assert(concluded(d, s, t).junk.contains(r));
    lemma_sorted_contains(rows, keys, by_amount_and_name(), r);
    let j = choose|j: int| 0 <= j < rows.len() && rows[j] == r;
    let pat = r.pattern;
    let (a, b) = (del.len() as int, cp.len() as int);
    let f = share_rule(all, ones_then_zeros(del.len(), cp.len()), pat);
    let g = share_rule(all, zeros_then_ones(del.len(), cp.len()), pat);
    lemma_total_split(a, a + b, f);
    lemma_total_split(a, a + b, g);
    let one = |x: Seq<char>|
        if x == pat {
            1int
        } else {
            0
        };
    let (f2, g2) = (|i: int| f(a + i), |i: int| g(a + i));
    lemma_total_none(b, f2);
    lemma_total_none(a, g);
    lemma_total_collected(
        d.removed.len() as int,
        junk_rule(d.removed),
        one,
        f,
        |i: int|
            if junk_pattern_of(d.removed[i].rel) == Some(pat) {
                1int
            } else {
                0
            },
    );
    assert forall|i: int| 0 <= i < b implies #[trigger] g2(i) == one(cp[i]) by {
        assert(all[a + i] == cp[i]);
    }
    lemma_total_collected(
        d.added.len() as int,
        junk_rule(d.added),
        one,
        g2,
        |i: int|
            if junk_pattern_of(d.added[i].rel) == Some(pat) {
                1int
            } else {
                0
            },
    );
}

/// Every junk path of the job shows in the table.
pub proof fn every_junk_path_shows(d: DiffV, s: Seq<EntryV>, t: Seq<EntryV>, i: int)
    ensures
        0 <= i < d.removed.len() && junk_pattern_of(d.removed[i].rel) is Some ==> exists|k: int|
            0 <= k < concluded(d, s, t).junk.len() && (#[trigger] concluded(d, s, t).junk[k]).pattern
                == junk_pattern_of(d.removed[i].rel)->0,
        0 <= i < d.added.len() && junk_pattern_of(d.added[i].rel) is Some ==> exists|k: int|
            0 <= k < concluded(d, s, t).junk.len() && (#[trigger] concluded(d, s, t).junk[k]).pattern
                == junk_pattern_of(d.added[i].rel)->0,
{
    let (del, cp) = (junk_in(d.removed), junk_in(d.added));
    let all = del + cp;
    if 0 <= i < d.removed.len() && junk_pattern_of(d.removed[i].rel) is Some {
        let x = junk_pattern_of(d.removed[i].rel)->0;
        assert(junk_rule(d.removed)(i) == Some(x));
        lemma_collect_contains(d.removed.len() as int, junk_rule(d.removed), x);
        let j = choose|j: int| 0 <= j < del.len() && del[j] == x;
        assert(all[j] == x);
        lemma_junk_row_at(d, s, t, j);
    }
    if 0 <= i < d.added.len() && junk_pattern_of(d.added[i].rel) is Some {
        let x = junk_pattern_of(d.added[i].rel)->0;
        assert(junk_rule(d.added)(i) == Some(x));
        lemma_collect_contains(d.added.len() as int, junk_rule(d.added), x);
        let j = choose|j: int| 0 <= j < cp.len() && cp[j] == x;
        assert(all[del.len() + j] == x);
        lemma_junk_row_at(d, s, t, del.len() + j);
    }
}

proof fn lemma_junk_row_at(d: DiffV, s: Seq<EntryV>, t: Seq<EntryV>, j: int)
    requires
        0 <= j < junk_in(d.removed).len() + junk_in(d.added).len(),
    ensures
        exists|k: int|
            0 <= k < concluded(d, s, t).junk.len() && (#[trigger] concluded(d, s, t).junk[k]).pattern == (junk_in(
                d.removed,
            ) + junk_in(d.added))[j],
{
    let (del, cp) = (junk_in(d.removed), junk_in(d.added));
    let all = del + cp;
    let rows = junk_rows(del, cp);
    let out = concluded(d, s, t).junk;
    let keys = Seq::new(
        rows.len(),
        |i: int| (-(rows[i].deleting_from_dest + rows[i].copying_from_source), encode_utf8(rows[i].pattern)),
    );
    lemma_by_amount_and_name_strict();
    let r = lemma_first_place(all, j);
    lemma_sorted_contains(rows, keys, by_amount_and_name(), rows[r]);
    assert(rows.contains(rows[r]));
    let k = choose|k: int| 0 <= k < out.len() && out[k] == rows[r];
    assert(out[k].pattern == all[j]);
}

proof fn lemma_last_dot(name: Seq<u8>, at: int, k: int)
    requires
        0 <= at < k <= name.len(),
        name[at] == crate::paths::DOT,
        forall|i: int| at < i < k ==> #[trigger] name[i] != crate::paths::DOT,
    ensures
        crate::conclusions::last_dot(name, k) == Some(at),
    decreases k,
{
    if k - 1 > at {
        assert(name[k - 1] != crate::paths::DOT);
        lemma_last_dot(name, at, k - 1);
    }
}

proof fn lemma_no_dot(name: Seq<u8>, k: int)
    requires
        0 <= k <= name.len(),
        forall|i: int| 0 <= i < k ==> #[trigger] name[i] != crate::paths::DOT,
    ensures
        crate::conclusions::last_dot(name, k) is None,
    decreases k,
{
    if k > 0 {
        assert(name[k - 1] != crate::paths::DOT);
        lemma_no_dot(name, k - 1);
    }
}

/// An extension is what follows the last dot of a name, in lower case and with the dot; a name without
/// a dot, or that only begins with one, has none.
pub proof fn an_extension_follows_the_last_dot(dir: PathV, stem: Seq<u8>, ext: Seq<u8>)
    requires
        stem.len() > 0,
        forall|i: int| 0 <= i < ext.len() ==> #[trigger] ext[i] != crate::paths::DOT,
    ensures
        crate::paths::is_name(stem + seq![crate::paths::DOT] + ext) ==> extension_text(
            dir.push(stem + seq![crate::paths::DOT] + ext),
        ) == "."@ + lowercase(utf8_lossy(ext)),
        crate::paths::is_name(ext) ==> extension_text(dir.push(ext)) == "(none)"@,
        crate::paths::is_name(seq![crate::paths::DOT] + ext) ==> extension_text(
            dir.push(seq![crate::paths::DOT] + ext),
        ) == "(none)"@,
{
    let dot = crate::paths::DOT;
    let whole = stem + seq![dot] + ext;
    let hidden = seq![dot] + ext;
    assert(dir.push(whole).last() == whole && dir.push(ext).last() == ext && dir.push(hidden).last() == hidden);
    assert(whole[stem.len() as int] == dot);
    assert forall|i: int| stem.len() < i < whole.len() implies #[trigger] whole[i] != dot by {
        assert(whole[i] == ext[i - stem.len() - 1]);
    }
    lemma_last_dot(whole, stem.len() as int, whole.len() as int);
    assert(whole.subrange(stem.len() as int + 1, whole.len() as int) =~= ext);
    lemma_no_dot(ext, ext.len() as int);
    assert(hidden[0] == dot);
    assert forall|i: int| 0 < i < hidden.len() implies #[trigger] hidden[i] != dot by {
        assert(hidden[i] == ext[i - 1]);
    }
    lemma_last_dot(hidden, 0, hidden.len() as int);
}

/// A row of the histogram counts the removed files with its extension.
pub proof fn the_histogram_counts_extensions(d: DiffV, s: Seq<EntryV>, t: Seq<EntryV>, k: int)
    requires
        0 <= k < concluded(d, s, t).delete_ext_histogram.len(),
    ensures
        ({
            let out = concluded(d, s, t).delete_ext_histogram;
            &&& out.len() <= 20
            &&& out[k].1 == total(
                d.removed.len() as int,
                |i: int|
                    if d.removed[i].kind == Kind::File && extension_text(d.removed[i].rel) == out[k].0 {
                        1int
                    } else {
                        0
                    },
            )
            &&& forall|a: int, b: int| 0 <= a < b < out.len() ==> (#[trigger] out[a]).1 >= (#[trigger] out[b]).1
        }),
{
    let dels = sized_files(d.removed, t);
    let texts = extensions_of(dels);
    let rows = histogram(texts);
    let all = most_first(rows);
    let out = concluded(d, s, t).delete_ext_histogram;
    let keys = Seq::new(rows.len(), |i: int| (-rows[i].1, encode_utf8(rows[i].0)));
    let lt = by_amount_and_name();
    lemma_by_amount_and_name_strict();
    assert(out[k] == all[k]);
    assert(all.contains(all[k]));
    lemma_sorted_contains(rows, keys, lt, all[k]);
    let j = choose|j: int| 0 <= j < rows.len() && rows[j] == all[k];
    let e = out[k].0;
    let f = share_rule(texts, ones_then_zeros(texts.len(), 0), e);
    let one = |x: FileV|
        if extension_text(x.rel) == e {
            1int
        } else {
            0
        };
    lemma_total_collected(
        d.removed.len() as int,
        sized_rule(d.removed, t),
        one,
        f,
        |i: int|
            if d.removed[i].kind == Kind::File && extension_text(d.removed[i].rel) == e {
                1int
            } else {
                0
            },
    );
    assert forall|a: int, b: int| 0 <= a < b < out.len() implies (#[trigger] out[a]).1 >= (#[trigger] out[b]).1 by {
        lemma_sorted_in_order(rows, keys, lt, a, b);
        let o = order(keys, lt);
        assert(out[a] == rows[o[a]] && out[b] == rows[o[b]]);
    }
}

/// The folder table begins with the biggest loss.
pub proof fn the_biggest_loss_comes_first(d: DiffV, s: Seq<EntryV>, t: Seq<EntryV>, a: int, b: int)
    requires
        0 <= a < b < concluded(d, s, t).folders.len(),
    ensures
        concluded(d, s, t).folders[a].net_bytes <= concluded(d, s, t).folders[b].net_bytes,
{
    let rows = folder_rows(folder_shares(d, s, t));
    let keys = Seq::new(rows.len(), |i: int| (rows[i].net_bytes, encode_utf8(rows[i].folder)));
    let lt = by_amount_and_name();
    lemma_by_amount_and_name_strict();
    lemma_sorted_in_order(rows, keys, lt, a, b);
    let o = order(keys, lt);
    let out = concluded(d, s, t).folders;
    assert(out[a] == rows[o[a]] && out[b] == rows[o[b]]);
}

} // verus!
