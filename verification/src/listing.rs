//! What the textual summary of a difference is made of: seven lines of counts, and in detail one
//! more line for each entry.
use vstd::prelude::*;

use crate::diff::{ChangeV, DiffV, LinkV, MoveV, put_added, put_change, put_count, put_link, put_move, put_same, rendered};
use crate::manifest::Kind;
use crate::number::lemma_dec_digits;
use crate::paths::SpelledV;
use crate::text::{dec, put_all, put_each, utf8_lossy};

verus! {

// ── lines ────────────────────────────────────────────────────────────────────

/// The pieces of a text between line breaks; there is always one more piece than line breaks.
pub open spec fn broken(t: Seq<char>) -> Seq<Seq<char>>
    decreases t.len(),
{
    if t.len() == 0 {
        seq![Seq::empty()]
    } else if t.last() == '\n' {
        broken(t.drop_last()).push(Seq::empty())
    } else {
        let b = broken(t.drop_last());
        b.drop_last().push(b.last().push(t.last()))
    }
}

/// The lines of a text: what stands before each line break.
pub open spec fn lines_of(t: Seq<char>) -> Seq<Seq<char>> {
    broken(t).drop_last()
}

/// The text has no line break in it.
pub open spec fn unbroken(t: Seq<char>) -> bool {
    forall|i: int| 0 <= i < t.len() ==> #[trigger] t[i] != '\n'
}

/// The text is made of whole lines.
pub open spec fn whole_lines(t: Seq<char>) -> bool {
    broken(t).last() == Seq::<char>::empty()
}

/// `a` is what is left of `b` when some elements are taken out.
pub open spec fn is_within(a: Seq<Seq<char>>, b: Seq<Seq<char>>) -> bool {
    exists|at: Seq<int>| #[trigger] stands_at(a, b, at)
}

/// The elements of `a` stand, in order, at the positions `at` of `b`.
pub open spec fn stands_at(a: Seq<Seq<char>>, b: Seq<Seq<char>>, at: Seq<int>) -> bool {
    &&& at.len() == a.len()
    &&& forall|i: int| 0 <= i < at.len() ==> 0 <= #[trigger] at[i] < b.len() && b[at[i]] == a[i]
    &&& forall|i: int, j: int| 0 <= i < j < at.len() ==> #[trigger] at[i] < #[trigger] at[j]
}

proof fn lemma_broken_some(t: Seq<char>)
    ensures
        broken(t).len() > 0,
    decreases t.len(),
{
    if t.len() > 0 {
        lemma_broken_some(t.drop_last());
    }
}

/// What is appended without a line break lengthens the last piece.
proof fn lemma_same_line(t: Seq<char>, line: Seq<char>)
    requires
        unbroken(line),
    ensures
        broken(t + line) == broken(t).drop_last().push(broken(t).last() + line),
    decreases line.len(),
{
    lemma_broken_some(t);
    if line.len() == 0 {
        assert(t + line =~= t);
        assert(broken(t).last() + line =~= broken(t).last());
        assert(broken(t).drop_last().push(broken(t).last()) =~= broken(t));
    } else {
        let head = line.drop_last();
        assert(unbroken(head)) by {
            assert forall|i: int| 0 <= i < head.len() implies #[trigger] head[i] != '\n' by {
                assert(line[i] != '\n');
            }
        }
        lemma_same_line(t, head);
        assert((t + line).drop_last() =~= t + head);
        assert((t + line).last() == line.last());
        assert(line[line.len() - 1] != '\n');
        let b = broken(t + head);
        assert(b.drop_last() =~= broken(t).drop_last());
        assert(b.last() == broken(t).last() + head);
        assert((broken(t).last() + head).push(line.last()) =~= broken(t).last() + line);
    }
}

/// Appending a line appends a line.
proof fn lemma_next_line(t: Seq<char>, line: Seq<char>)
    requires
        whole_lines(t),
        unbroken(line),
    ensures
        whole_lines(t + line + "\n"@),
        lines_of(t + line + "\n"@) == lines_of(t).push(line),
{
    reveal_strlit("\n");
    lemma_broken_some(t);
    lemma_same_line(t, line);
    let u = t + line + "\n"@;
    assert(u.last() == '\n');
    assert(u.drop_last() =~= t + line);
    assert(broken(t).last() + line =~= line);
    assert(broken(u) == broken(t + line).push(Seq::empty()));
    assert(lines_of(u) =~= broken(t + line));
}

proof fn lemma_unbroken_cat(a: Seq<char>, b: Seq<char>)
    requires
        unbroken(a),
        unbroken(b),
    ensures
        unbroken(a + b),
{
    assert forall|i: int| 0 <= i < (a + b).len() implies #[trigger] (a + b)[i] != '\n' by {
        if i < a.len() {
            assert(a[i] != '\n');
        } else {
            assert(b[i - a.len()] != '\n');
        }
    }
}

/// A count has no line break in it.
proof fn lemma_dec_unbroken(n: nat)
    ensures
        unbroken(dec(n)),
{
    lemma_dec_digits(n);
}

/// Listing items, one to a line, appends their lines.
proof fn lemma_listed<T>(
    out: Seq<char>,
    items: Seq<T>,
    n: int,
    put: spec_fn(Seq<char>, T) -> Seq<char>,
    line: spec_fn(T) -> Seq<char>,
)
    requires
        whole_lines(out),
        0 <= n <= items.len(),
        forall|o: Seq<char>, i: int| 0 <= i < n ==> #[trigger] put(o, items[i]) == o + line(items[i]) + "\n"@,
        forall|i: int| 0 <= i < n ==> unbroken(line(#[trigger] items[i])),
    ensures
        whole_lines(put_each(out, items, n, put)),
        lines_of(put_each(out, items, n, put)) == lines_of(out) + Seq::new(n as nat, |i: int| line(items[i])),
    decreases n,
{
    let all = Seq::new(n as nat, |i: int| line(items[i]));
    if n == 0 {
        assert(lines_of(out) + all =~= lines_of(out));
    } else {
        lemma_listed(out, items, n - 1, put, line);
        let before = put_each(out, items, n - 1, put);
        let some = Seq::new((n - 1) as nat, |i: int| line(items[i]));
        assert(unbroken(line(items[n - 1])));
        lemma_next_line(before, line(items[n - 1]));
        assert(put(before, items[n - 1]) == before + line(items[n - 1]) + "\n"@);
        assert((lines_of(out) + some).push(line(items[n - 1])) =~= lines_of(out) + all);
    }
}

// ── the lines of a summary ───────────────────────────────────────────────────

pub open spec fn move_line(m: MoveV) -> Seq<char> {
    "    ~ "@ + utf8_lossy(m.from_text) + "  ->  "@ + utf8_lossy(m.to_text)
}

pub open spec fn added_line(c: ChangeV) -> Seq<char> {
    if c.kind == Kind::Other {
        "    + "@ + utf8_lossy(c.text) + " (special file — no content; will be skipped)"@
    } else {
        "    + "@ + utf8_lossy(c.text)
    }
}

pub open spec fn change_line(mark: Seq<char>) -> spec_fn(ChangeV) -> Seq<char> {
    |c: ChangeV| mark + utf8_lossy(c.text)
}

pub open spec fn link_line(l: LinkV) -> Seq<char> {
    "    & "@ + utf8_lossy(l.name_text) + "  ->  "@ + utf8_lossy(l.leader_text)
}

pub open spec fn same_line(p: SpelledV) -> Seq<char> {
    "    = "@ + utf8_lossy(p.text)
}

/// No path of a difference is shown with a line break in it.
pub open spec fn plain_names(d: DiffV) -> bool {
    &&& forall|i: int|
        0 <= i < d.moved.len() ==> unbroken(utf8_lossy((#[trigger] d.moved[i]).from_text)) && unbroken(utf8_lossy(d.moved[i].to_text))
    &&& forall|i: int| 0 <= i < d.added.len() ==> unbroken(utf8_lossy((#[trigger] d.added[i]).text))
    &&& forall|i: int| 0 <= i < d.removed.len() ==> unbroken(utf8_lossy((#[trigger] d.removed[i]).text))
    &&& forall|i: int| 0 <= i < d.changed.len() ==> unbroken(utf8_lossy((#[trigger] d.changed[i]).text))
    &&& forall|i: int|
        0 <= i < d.to_link.len() ==> unbroken(utf8_lossy((#[trigger] d.to_link[i]).name_text)) && unbroken(
            utf8_lossy(d.to_link[i].leader_text),
        )
    &&& forall|i: int| 0 <= i < d.touched.len() ==> unbroken(utf8_lossy((#[trigger] d.touched[i]).text))
    &&& forall|i: int| 0 <= i < d.unchanged_paths.len() ==> unbroken(utf8_lossy((#[trigger] d.unchanged_paths[i]).text))
}

proof fn lemma_moves_listed(out: Seq<char>, items: Seq<MoveV>)
    requires
        whole_lines(out),
        forall|i: int|
            0 <= i < items.len() ==> unbroken(utf8_lossy((#[trigger] items[i]).from_text)) && unbroken(utf8_lossy(items[i].to_text)),
    ensures
        whole_lines(put_all(out, items, put_move())),
        lines_of(put_all(out, items, put_move())) == lines_of(out) + Seq::new(
            items.len(),
            |i: int| move_line(items[i]),
        ),
{
    reveal_strlit("    ~ ");
    reveal_strlit("  ->  ");
    let line = |m: MoveV| move_line(m);
    assert forall|o: Seq<char>, i: int| 0 <= i < items.len() implies #[trigger] put_move()(o, items[i]) == o + line(
        items[i],
    ) + "\n"@ by {
        assert(put_move()(o, items[i]) =~= o + line(items[i]) + "\n"@);
    }
    assert forall|i: int| 0 <= i < items.len() implies unbroken(line(#[trigger] items[i])) by {
        let m = items[i];
        lemma_unbroken_cat("    ~ "@, utf8_lossy(m.from_text));
        lemma_unbroken_cat("    ~ "@ + utf8_lossy(m.from_text), "  ->  "@);
        lemma_unbroken_cat("    ~ "@ + utf8_lossy(m.from_text) + "  ->  "@, utf8_lossy(m.to_text));
    }
    lemma_listed(out, items, items.len() as int, put_move(), line);
    assert(Seq::new(items.len(), |i: int| line(items[i])) =~= Seq::new(items.len(), |i: int| move_line(items[i])));
}

proof fn lemma_links_listed(out: Seq<char>, items: Seq<LinkV>)
    requires
        whole_lines(out),
        forall|i: int|
            0 <= i < items.len() ==> unbroken(utf8_lossy((#[trigger] items[i]).name_text)) && unbroken(utf8_lossy(items[i].leader_text)),
    ensures
        whole_lines(put_all(out, items, put_link())),
        lines_of(put_all(out, items, put_link())) == lines_of(out) + Seq::new(
            items.len(),
            |i: int| link_line(items[i]),
        ),
{
    reveal_strlit("    & ");
    reveal_strlit("  ->  ");
    let line = |l: LinkV| link_line(l);
    assert forall|o: Seq<char>, i: int| 0 <= i < items.len() implies #[trigger] put_link()(o, items[i]) == o + line(
        items[i],
    ) + "\n"@ by {
        assert(put_link()(o, items[i]) =~= o + line(items[i]) + "\n"@);
    }
    assert forall|i: int| 0 <= i < items.len() implies unbroken(line(#[trigger] items[i])) by {
        let l = items[i];
        lemma_unbroken_cat("    & "@, utf8_lossy(l.name_text));
        lemma_unbroken_cat("    & "@ + utf8_lossy(l.name_text), "  ->  "@);
        lemma_unbroken_cat("    & "@ + utf8_lossy(l.name_text) + "  ->  "@, utf8_lossy(l.leader_text));
    }
    lemma_listed(out, items, items.len() as int, put_link(), line);
    assert(Seq::new(items.len(), |i: int| line(items[i])) =~= Seq::new(items.len(), |i: int| link_line(items[i])));
}

proof fn lemma_added_listed(out: Seq<char>, items: Seq<ChangeV>)
    requires
        whole_lines(out),
        forall|i: int| 0 <= i < items.len() ==> unbroken(utf8_lossy((#[trigger] items[i]).text)),
    ensures
        whole_lines(put_all(out, items, put_added())),
        lines_of(put_all(out, items, put_added())) == lines_of(out) + Seq::new(
            items.len(),
            |i: int| added_line(items[i]),
        ),
{
    reveal_strlit("    + ");
    reveal_strlit("\n");
    reveal_strlit(" (special file — no content; will be skipped)");
    reveal_strlit(" (special file — no content; will be skipped)\n");
    assert(" (special file — no content; will be skipped)\n"@
        =~= " (special file — no content; will be skipped)"@ + "\n"@);
    let line = |c: ChangeV| added_line(c);
    assert forall|o: Seq<char>, i: int| 0 <= i < items.len() implies #[trigger] put_added()(o, items[i]) == o + line(
        items[i],
    ) + "\n"@ by {
        assert(put_added()(o, items[i]) =~= o + line(items[i]) + "\n"@);
    }
    assert forall|i: int| 0 <= i < items.len() implies unbroken(line(#[trigger] items[i])) by {
        let c = items[i];
        lemma_unbroken_cat("    + "@, utf8_lossy(c.text));
        lemma_unbroken_cat("    + "@ + utf8_lossy(c.text), " (special file — no content; will be skipped)"@);
    }
    lemma_listed(out, items, items.len() as int, put_added(), line);
    assert(Seq::new(items.len(), |i: int| line(items[i])) =~= Seq::new(items.len(), |i: int| added_line(items[i])));
}

proof fn lemma_changes_listed(out: Seq<char>, mark: Seq<char>, items: Seq<ChangeV>)
    requires
        whole_lines(out),
        unbroken(mark),
        forall|i: int| 0 <= i < items.len() ==> unbroken(utf8_lossy((#[trigger] items[i]).text)),
    ensures
        whole_lines(put_all(out, items, put_change(mark))),
        lines_of(put_all(out, items, put_change(mark))) == lines_of(out) + Seq::new(
            items.len(),
            |i: int| change_line(mark)(items[i]),
        ),
{
    let line = change_line(mark);
    assert forall|o: Seq<char>, i: int| 0 <= i < items.len() implies #[trigger] put_change(mark)(o, items[i]) == o
        + line(items[i]) + "\n"@ by {
        assert(put_change(mark)(o, items[i]) =~= o + line(items[i]) + "\n"@);
    }
    assert forall|i: int| 0 <= i < items.len() implies unbroken(line(#[trigger] items[i])) by {
        lemma_unbroken_cat(mark, utf8_lossy(items[i].text));
    }
    lemma_listed(out, items, items.len() as int, put_change(mark), line);
    assert(Seq::new(items.len(), |i: int| line(items[i])) =~= Seq::new(
        items.len(),
        |i: int| change_line(mark)(items[i]),
    ));
}

proof fn lemma_same_listed(out: Seq<char>, items: Seq<SpelledV>)
    requires
        whole_lines(out),
        forall|i: int| 0 <= i < items.len() ==> unbroken(utf8_lossy((#[trigger] items[i]).text)),
    ensures
        whole_lines(put_all(out, items, put_same())),
        lines_of(put_all(out, items, put_same())) == lines_of(out) + Seq::new(
            items.len(),
            |i: int| same_line(items[i]),
        ),
{
    reveal_strlit("    = ");
    let line = |p: SpelledV| same_line(p);
    assert forall|o: Seq<char>, i: int| 0 <= i < items.len() implies #[trigger] put_same()(o, items[i]) == o + line(
        items[i],
    ) + "\n"@ by {
        assert(put_same()(o, items[i]) =~= o + line(items[i]) + "\n"@);
    }
    assert forall|i: int| 0 <= i < items.len() implies unbroken(line(#[trigger] items[i])) by {
        lemma_unbroken_cat("    = "@, utf8_lossy(items[i].text));
    }
    lemma_listed(out, items, items.len() as int, put_same(), line);
    assert(Seq::new(items.len(), |i: int| line(items[i])) =~= Seq::new(items.len(), |i: int| same_line(items[i])));
}

proof fn lemma_within_nothing()
    ensures
        is_within(Seq::empty(), Seq::empty()),
{
    assert(stands_at(Seq::empty(), Seq::empty(), Seq::empty()));
}

/// A line more on both sides, and further lines on one, keep what is within what.
proof fn lemma_within_more(a: Seq<Seq<char>>, b: Seq<Seq<char>>, c: Seq<char>, more: Seq<Seq<char>>)
    requires
        is_within(a, b),
    ensures
        is_within(a.push(c), b.push(c) + more),
{
    let at = choose|at: Seq<int>| #[trigger] stands_at(a, b, at);
    let all = b.push(c) + more;
    let here = at.push(b.len() as int);
    assert forall|i: int| 0 <= i < here.len() implies 0 <= #[trigger] here[i] < all.len() && all[here[i]] == a.push(c)[i] by {
        if i < at.len() {
            assert(here[i] == at[i]);
        }
    }
    assert forall|i: int, j: int| 0 <= i < j < here.len() implies #[trigger] here[i] < #[trigger] here[j] by {
        assert(here[i] == at[i]);
        if j < at.len() {
            assert(here[j] == at[j]);
        }
    }
    assert(stands_at(a.push(c), all, here));
}

/// A short and a long summary in the making: both of whole lines, so many of counts in both and so
/// many more in the long one, which has those of the short one in order.
spec fn in_step(short: Seq<char>, long: Seq<char>, counts: int, listed: int) -> bool {
    &&& whole_lines(short) && whole_lines(long)
    &&& lines_of(short).len() == counts
    &&& lines_of(long).len() == counts + listed
    &&& is_within(lines_of(short), lines_of(long))
}

/// Both get the same line.
proof fn lemma_both(short: Seq<char>, long: Seq<char>, counts: int, listed: int, line: Seq<char>)
    requires
        in_step(short, long, counts, listed),
        unbroken(line),
    ensures
        in_step(short + line + "\n"@, long + line + "\n"@, counts + 1, listed),
{
    lemma_next_line(short, line);
    lemma_next_line(long, line);
    lemma_within_more(lines_of(short), lines_of(long), line, Seq::empty());
    assert(lines_of(long).push(line) + Seq::<Seq<char>>::empty() =~= lines_of(long).push(line));
}

/// Both get the same count.
proof fn lemma_counted(short: Seq<char>, long: Seq<char>, counts: int, listed: int, label: Seq<char>, n: int)
    requires
        in_step(short, long, counts, listed),
        unbroken(label),
    ensures
        in_step(put_count(short, label, n), put_count(long, label, n), counts + 1, listed),
{
    let line = label + dec(n as nat);
    lemma_dec_unbroken(n as nat);
    lemma_unbroken_cat(label, dec(n as nat));
    lemma_both(short, long, counts, listed, line);
    assert(put_count(short, label, n) =~= short + line + "\n"@);
    assert(put_count(long, label, n) =~= long + line + "\n"@);
}

/// `out` with the count of links.
spec fn put_links_count(out: Seq<char>, n: nat) -> Seq<char> {
    out + "to link:   "@ + dec(n) + " (hard links — content written once via the leader)\n"@
}

/// Both get the count of links.
proof fn lemma_links_counted(short: Seq<char>, long: Seq<char>, counts: int, listed: int, n: nat)
    requires
        in_step(short, long, counts, listed),
    ensures
        in_step(put_links_count(short, n), put_links_count(long, n), counts + 1, listed),
{
    reveal_strlit("to link:   ");
    reveal_strlit("\n");
    reveal_strlit(" (hard links — content written once via the leader)");
    reveal_strlit(" (hard links — content written once via the leader)\n");
    let note = " (hard links — content written once via the leader)"@;
    assert(" (hard links — content written once via the leader)\n"@ =~= note + "\n"@);
    let line = "to link:   "@ + dec(n) + note;
    lemma_dec_unbroken(n);
    lemma_unbroken_cat("to link:   "@, dec(n));
    lemma_unbroken_cat("to link:   "@ + dec(n), note);
    lemma_both(short, long, counts, listed, line);
    assert(put_links_count(short, n) =~= short + line + "\n"@);
    assert(put_links_count(long, n) =~= long + line + "\n"@);
}

/// The long one gets further lines.
proof fn lemma_detailed(short: Seq<char>, long: Seq<char>, longer: Seq<char>, counts: int, listed: int, more: Seq<Seq<char>>)
    requires
        in_step(short, long, counts, listed),
        whole_lines(longer),
        lines_of(longer) == lines_of(long) + more,
    ensures
        in_step(short, longer, counts, listed + more.len()),
{
    let (a, b) = (lines_of(short), lines_of(long));
    let at = choose|at: Seq<int>| #[trigger] stands_at(a, b, at);
    let all = b + more;
    assert forall|i: int| 0 <= i < at.len() implies 0 <= #[trigger] at[i] < all.len() && all[at[i]] == a[i] by {
        assert(b[at[i]] == a[i]);
    }
    assert(stands_at(a, all, at));
}

// ── laws ─────────────────────────────────────────────────────────────────────

/// The short summary names no path: it depends on how much there is of each kind, and on nothing
/// else.
pub proof fn a_short_summary_names_no_path(a: DiffV, b: DiffV)
    requires
        a.moved.len() == b.moved.len(),
        a.added.len() == b.added.len(),
        a.removed.len() == b.removed.len(),
        a.changed.len() == b.changed.len(),
        a.to_link.len() == b.to_link.len(),
        a.touched.len() == b.touched.len(),
        a.unchanged == b.unchanged,
    ensures
        rendered(a, false) == rendered(b, false),
{
}

/// The short summary has seven lines. In detail these lines stand, in order, among one more line
/// for each entry that moves, is copied, deleted, updated, linked, refreshed or listed as
/// unchanged, as long as no path is shown with a line break in it.
pub proof fn detail_adds_one_line_for_each_entry(d: DiffV)
    requires
        plain_names(d),
    ensures
        lines_of(rendered(d, false)).len() == 7,
        lines_of(rendered(d, true)).len() == 7 + d.moved.len() + d.added.len() + d.removed.len() + d.changed.len()
            + d.to_link.len() + d.touched.len() + d.unchanged_paths.len(),
        is_within(lines_of(rendered(d, false)), lines_of(rendered(d, true))),
{
    reveal_strlit("moved:     ");
    reveal_strlit("to copy:   ");
    reveal_strlit("to delete: ");
    reveal_strlit("to update: ");
    reveal_strlit("to refresh (content identical, metadata drift): ");
    reveal_strlit("unchanged: ");
    reveal_strlit("    - ");
    reveal_strlit("    * ");
    reveal_strlit("    ≈ ");
    let s0 = Seq::<char>::empty();
    assert(broken(s0) == seq![s0]);
    assert(lines_of(s0) =~= Seq::empty());
    lemma_within_nothing();
    assert(in_step(s0, s0, 0, 0));

    let s1 = put_count(s0, "moved:     "@, d.moved.len() as int);
    lemma_counted(s0, s0, 0, 0, "moved:     "@, d.moved.len() as int);
    lemma_moves_listed(s1, d.moved);
    let l1 = put_all(s1, d.moved, put_move());
    let n1 = d.moved.len() as int;
    lemma_detailed(s1, s1, l1, 1, 0, Seq::new(d.moved.len(), |i: int| move_line(d.moved[i])));

    let s2 = put_count(s1, "to copy:   "@, d.added.len() as int);
    let k2 = put_count(l1, "to copy:   "@, d.added.len() as int);
    lemma_counted(s1, l1, 1, n1, "to copy:   "@, d.added.len() as int);
    lemma_added_listed(k2, d.added);
    let l2 = put_all(k2, d.added, put_added());
    let n2 = n1 + d.added.len();
    lemma_detailed(s2, k2, l2, 2, n1, Seq::new(d.added.len(), |i: int| added_line(d.added[i])));

    let s3 = put_count(s2, "to delete: "@, d.removed.len() as int);
    let k3 = put_count(l2, "to delete: "@, d.removed.len() as int);
    lemma_counted(s2, l2, 2, n2, "to delete: "@, d.removed.len() as int);
    lemma_changes_listed(k3, "    - "@, d.removed);
    let l3 = put_all(k3, d.removed, put_change("    - "@));
    let n3 = n2 + d.removed.len();
    lemma_detailed(s3, k3, l3, 3, n2, Seq::new(d.removed.len(), |i: int| change_line("    - "@)(d.removed[i])));

    let s4 = put_count(s3, "to update: "@, d.changed.len() as int);
    let k4 = put_count(l3, "to update: "@, d.changed.len() as int);
    lemma_counted(s3, l3, 3, n3, "to update: "@, d.changed.len() as int);
    lemma_changes_listed(k4, "    * "@, d.changed);
    let l4 = put_all(k4, d.changed, put_change("    * "@));
    let n4 = n3 + d.changed.len();
    lemma_detailed(s4, k4, l4, 4, n3, Seq::new(d.changed.len(), |i: int| change_line("    * "@)(d.changed[i])));

    let s5 = put_links_count(s4, d.to_link.len());
    let k5 = put_links_count(l4, d.to_link.len());
    lemma_links_counted(s4, l4, 4, n4, d.to_link.len());
    lemma_links_listed(k5, d.to_link);
    let l5 = put_all(k5, d.to_link, put_link());
    let n5 = n4 + d.to_link.len();
    lemma_detailed(s5, k5, l5, 5, n4, Seq::new(d.to_link.len(), |i: int| link_line(d.to_link[i])));

    let drift = "to refresh (content identical, metadata drift): "@;
    let s6 = put_count(s5, drift, d.touched.len() as int);
    let k6 = put_count(l5, drift, d.touched.len() as int);
    lemma_counted(s5, l5, 5, n5, drift, d.touched.len() as int);
    lemma_changes_listed(k6, "    ≈ "@, d.touched);
    let l6 = put_all(k6, d.touched, put_change("    ≈ "@));
    let n6 = n5 + d.touched.len();
    lemma_detailed(s6, k6, l6, 6, n5, Seq::new(d.touched.len(), |i: int| change_line("    ≈ "@)(d.touched[i])));

    let s7 = put_count(s6, "unchanged: "@, d.unchanged);
    let k7 = put_count(l6, "unchanged: "@, d.unchanged);
    lemma_counted(s6, l6, 6, n6, "unchanged: "@, d.unchanged);
    lemma_same_listed(k7, d.unchanged_paths);
    let l7 = put_all(k7, d.unchanged_paths, put_same());
    lemma_detailed(s7, k7, l7, 7, n6, Seq::new(d.unchanged_paths.len(), |i: int| same_line(d.unchanged_paths[i])));
    assert(rendered(d, false) == s7);
    assert(rendered(d, true) == l7);
}

} // verus!
