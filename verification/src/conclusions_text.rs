//! The conclusions as text: what a `…conclusions.txt` file holds.
use vstd::prelude::*;

use crate::collect::lemma_collect_contains;
use crate::conclusions::{Conclusions, ConclusionsV, FileEntry, FileV, FolderDelta, FolderV, JunkTally, JunkV, Subtree, SubtreeV, TOP_N, above, bytes_of, bytes_rule, concluded, countable, largest_first, lemma_part_bytes, nested, orphan_rule, orphans, sized_files, sized_rule, subtree_rule, subtrees};
use crate::diff::DiffV;
use crate::manifest::{EntryV, Kind};
use crate::order::{Item, lemma_order, lemma_order_in_range, lemma_sorted_contains, order, values};
use crate::paths::starts_with;
use crate::tally::{by_amount_and_path, lemma_total_ext, lemma_total_grows, lemma_total_permuted, lemma_total_split, total};
use crate::text::{dec, dec_text, left_aligned, push_dec, push_left, push_right, push_spelled, put_all, put_each, right_aligned, signed_dec, utf8_lossy};
use crate::units::{bytes_text, push_bytes, signed_bytes, signed_bytes_text};

verus! {

/// The deletion is alarming: it removes a tenth of the destination's files or bytes, or wipes a
/// whole top-level folder.
pub open spec fn alarming(c: ConclusionsV) -> bool {
    ||| 10 * c.deleted_files >= c.dest_files && c.dest_files > 0
    ||| 10 * c.deleted_bytes >= c.dest_bytes && c.dest_bytes > 0
    ||| exists|i: int| 0 <= i < c.deleted_subtrees.len() && (#[trigger] c.deleted_subtrees[i]).root.len() == 1
}

/// `part` of `whole` in percent, rounded down; nothing of nothing is none.
pub open spec fn percentage(part: int, whole: int) -> nat {
    if whole == 0 {
        0
    } else {
        ((if part * 100 <= u64::MAX {
            part * 100
        } else {
            u64::MAX as int
        }) / whole) as nat
    }
}

/// At most `max` characters of a text; a cut is marked.
pub open spec fn shortened(s: Seq<char>, max: int) -> Seq<char> {
    if s.len() <= max {
        s
    } else {
        s.subrange(0, max - 1) + "…"@
    }
}

/// The first rows that a bounded list shows.
pub open spec fn shown_rows(n: nat) -> int {
    if n <= TOP_N {
        n as int
    } else {
        TOP_N as int
    }
}

pub open spec fn put_file(indent: Seq<char>) -> spec_fn(Seq<char>, FileV) -> Seq<char> {
    |out: Seq<char>, f: FileV|
        out + indent + utf8_lossy(f.text) + "  ("@ + bytes_text(f.bytes as nat) + ")\n"@
}

/// What the files that a bounded list leaves out come to.
pub open spec fn rest_bytes(fs: Seq<FileV>) -> int {
    if fs.len() > TOP_N {
        bytes_of(fs.subrange(TOP_N as int, fs.len() as int))
    } else {
        0
    }
}

/// `out` with the first files of a list, and a summary of the rest.
pub open spec fn put_files(out: Seq<char>, fs: Seq<FileV>, indent: Seq<char>) -> Seq<char> {
    let o = put_each(out, fs, shown_rows(fs.len()), put_file(indent));
    if fs.len() > TOP_N {
        o + indent + "… and "@ + dec((fs.len() - TOP_N) as nat) + " more ("@ + bytes_text(
            rest_bytes(fs) as nat,
        ) + ")\n"@
    } else {
        o
    }
}

pub open spec fn put_subtree() -> spec_fn(Seq<char>, SubtreeV) -> Seq<char> {
    |out: Seq<char>, t: SubtreeV|
        out + "    "@ + utf8_lossy(t.text) + "   "@ + dec(t.files as nat) + " file(s), "@ + bytes_text(
            t.bytes as nat,
        ) + "\n"@
}

/// `out` with the first subtrees of a list, and a summary of the rest.
pub open spec fn put_subtrees(out: Seq<char>, ts: Seq<SubtreeV>) -> Seq<char> {
    let o = put_each(out, ts, shown_rows(ts.len()), put_subtree());
    if ts.len() > TOP_N {
        o + "    … and "@ + dec((ts.len() - TOP_N) as nat) + " more folder(s)\n"@
    } else {
        o
    }
}

/// `out` with what is known of deletions whose name the source lacks.
pub open spec fn put_orphans(out: Seq<char>, c: ConclusionsV) -> Seq<char> {
    if c.orphan_deletes.len() == 0 {
        out
            + "  Every deletion shares a name with something in the source (all likely moves/renames).\n"@
    } else {
        put_files(
            out + "  "@ + dec(c.orphan_deletes.len()) + " deletion(s) ("@ + bytes_text(
                c.orphan_bytes as nat,
            )
                + ") have NO same-named file in the source — not a move; this content would be gone. "@
                + dec(c.orphan_unique_size as nat)
                + " of them also have no same-size file anywhere in the source.\n"@
                + "  Largest such deletions:\n"@,
            c.orphan_deletes,
            "    "@,
        )
    }
}

/// `out` with the whole folders that would go.
pub open spec fn put_whole_folders(out: Seq<char>, c: ConclusionsV) -> Seq<char> {
    if c.deleted_subtrees.len() > 0 {
        put_subtrees(
            out + "  "@ + dec(c.deleted_subtrees.len())
                + " destination folder(s) would be deleted ENTIRELY (absent from the source):\n"@,
            c.deleted_subtrees,
        )
    } else {
        out
    }
}

/// `out` with the watch on data loss.
pub open spec fn put_watch(out: Seq<char>, c: ConclusionsV) -> Seq<char> {
    if c.deleted_files == 0 && c.deleted_subtrees.len() == 0 {
        out + "DATA-LOSS WATCH: nothing would be deleted this run.\n"@
    } else {
        let o1 = if alarming(c) {
            out + "‼‼ DATA-LOSS WATCH — review before syncing ‼‼\n"@
        } else {
            out + "DATA-LOSS WATCH\n"@
        };
        let o2 = o1 + "  Deleting "@ + dec(c.deleted_files as nat) + " file(s), "@ + bytes_text(
            c.deleted_bytes as nat,
        ) + " — "@ + dec(percentage(c.deleted_files, c.dest_files))
            + "% of the destination's files, "@ + dec(percentage(c.deleted_bytes, c.dest_bytes))
            + "% of its bytes.\n"@;
        put_orphans(put_whole_folders(o2, c), c)
    }
}

/// `out` with the counts.
pub open spec fn put_overview(out: Seq<char>, c: ConclusionsV) -> Seq<char> {
    out + "OVERVIEW\n"@ + "  copy "@ + dec(c.added as nat) + " ("@ + bytes_text(c.added_bytes as nat)
        + ") · move "@ + dec(c.moved as nat) + " · delete "@ + dec(c.deleted_files as nat) + " ("@
        + bytes_text(c.deleted_bytes as nat) + ") · update "@ + dec(c.changed as nat) + " · refresh "@
        + dec(c.refreshed as nat) + " · link "@ + dec(c.linked as nat) + " · unchanged "@ + dec(
        c.unchanged as nat,
    ) + "\n"@ + "\n"@
}

/// `out` with the note on empty files, where both sides have some.
pub open spec fn put_empties(out: Seq<char>, c: ConclusionsV) -> Seq<char> {
    if c.empty_adds > 0 && c.empty_removes > 0 {
        out + "NOTE: "@ + dec(c.empty_adds as nat) + " empty (0-byte) file(s) to copy and "@ + dec(
            c.empty_removes as nat,
        )
            + " to delete are handled as plain add/delete — NO move was attempted, because a size of 0 has no content to match.\n"@
            + "\n"@
    } else {
        out
    }
}

pub open spec fn put_folder() -> spec_fn(Seq<char>, FolderV) -> Seq<char> {
    |out: Seq<char>, f: FolderV|
        out + "  "@ + left_aligned(shortened(f.folder, 28), 28) + " "@ + right_aligned(
            dec(f.added as nat),
            5,
        ) + " "@ + right_aligned(dec(f.removed as nat), 6) + " "@ + right_aligned(
            dec(f.changed as nat),
            5,
        ) + " "@ + right_aligned(dec(f.moved_in as nat), 6) + "  "@ + right_aligned(
            signed_dec(f.net_files),
            10,
        ) + " "@ + right_aligned(signed_bytes_text(f.net_bytes), 13) + "\n"@
}

/// `out` with the table of folders.
pub open spec fn put_folders(out: Seq<char>, c: ConclusionsV) -> Seq<char> {
    if c.folders.len() > 0 {
        put_all(
            out + "CHANGES BY TOP-LEVEL FOLDER (biggest byte losses first)\n"@
                + "  folder                        +add   -del  *chg  ~move   net files     net bytes\n"@,
            c.folders,
            put_folder(),
        ) + "\n"@
    } else {
        out
    }
}

/// What is happening to a junk pattern.
pub open spec fn junk_parts(j: JunkV) -> Seq<char> {
    let a = dec(j.deleting_from_dest as nat) + " to delete from destination"@;
    let b = dec(j.copying_from_source as nat) + " to copy from source"@;
    if j.deleting_from_dest > 0 && j.copying_from_source > 0 {
        a + ", "@ + b
    } else if j.deleting_from_dest > 0 {
        a
    } else if j.copying_from_source > 0 {
        b
    } else {
        Seq::empty()
    }
}

pub open spec fn put_junk_row() -> spec_fn(Seq<char>, JunkV) -> Seq<char> {
    |out: Seq<char>, j: JunkV|
        out + "  "@ + left_aligned(j.pattern, 26) + " "@ + junk_parts(j) + "\n"@
}

/// `out` with the junk and system paths.
pub open spec fn put_junk(out: Seq<char>, c: ConclusionsV) -> Seq<char> {
    if c.junk.len() > 0 {
        put_all(out + "JUNK / SYSTEM PATHS\n"@, c.junk, put_junk_row()) + "\n"@
    } else {
        out
    }
}

pub open spec fn put_extension() -> spec_fn(Seq<char>, (Seq<char>, int)) -> Seq<char> {
    |out: Seq<char>, e: (Seq<char>, int)|
        out + "  "@ + right_aligned(dec(e.1 as nat), 8) + "  "@ + e.0 + "\n"@
}

/// `out` with the extremes.
pub open spec fn put_extremes(out: Seq<char>, c: ConclusionsV) -> Seq<char> {
    let o1 = if c.largest_deletes.len() > 0 {
        put_files(out + "LARGEST DELETIONS\n"@, c.largest_deletes, "  "@) + "\n"@
    } else {
        out
    };
    let o2 = if c.largest_adds.len() > 0 {
        put_files(o1 + "LARGEST ADDITIONS\n"@, c.largest_adds, "  "@) + "\n"@
    } else {
        o1
    };
    if c.delete_ext_histogram.len() > 0 {
        put_all(o2 + "DELETIONS BY EXTENSION\n"@, c.delete_ext_histogram, put_extension()) + "\n"@
    } else {
        o2
    }
}

pub open spec fn put_orphan_path() -> spec_fn(Seq<char>, FileV) -> Seq<char> {
    |out: Seq<char>, f: FileV| out + "  "@ + utf8_lossy(f.text) + "\n"@
}

/// `out` with the full list of deletions whose name the source lacks.
pub open spec fn put_full_list(out: Seq<char>, c: ConclusionsV) -> Seq<char> {
    if c.orphan_deletes.len() > 0 {
        put_all(
            out + "FULL LIST — deletions with no same-named file in the source ("@ + dec(
                c.orphan_deletes.len(),
            ) + ")\n"@,
            c.orphan_deletes,
            put_orphan_path(),
        )
    } else {
        out
    }
}

/// The conclusions as text.
pub open spec fn conclusions_text(c: ConclusionsV, src: Seq<char>, dst: Seq<char>) -> Seq<char> {
    let o0 = "filesync diff — conclusions\n"@ + "comparing "@ + src + "  ->  "@ + dst + "\n"@ + "\n"@;
    let o1 = put_watch(o0, c) + "\n"@;
    let o2 = put_overview(o1, c);
    let o3 = put_empties(o2, c);
    let o4 = put_folders(o3, c);
    let o5 = put_junk(o4, c);
    let o6 = put_extremes(o5, c);
    put_full_list(o6, c)
}

/// The sizes that are summed up for display can be held.
pub open spec fn listable(c: ConclusionsV) -> bool {
    &&& rest_bytes(c.orphan_deletes) <= u64::MAX
    &&& rest_bytes(c.largest_adds) <= u64::MAX
    &&& rest_bytes(c.largest_deletes) <= u64::MAX
}

fn percent(part: u64, whole: u64) -> (r: u64)
    ensures
        r == percentage(part as int, whole as int),
{
    if whole == 0 {
        0
    } else {
        let scaled: u128 = part as u128 * 100;
        let capped: u64 = if scaled <= u64::MAX as u128 {
            scaled as u64
        } else {
            u64::MAX
        };
        capped / whole
    }
}

/// At most `max` characters of a text; a cut is marked.
fn truncate(s: &str, max: usize) -> (r: String)
    requires
        max >= 1,
    ensures
        r@ == shortened(s@, max as int),
{
    if s.unicode_len() <= max {
        String::from_str(s)
    } else {
        let mut t = String::from_str(s.substring_char(0, max - 1));
        t.append("…");
        t
    }
}

fn write_files(out: &mut String, files: &Vec<FileEntry>, indent: &str)
    requires
        rest_bytes(values(files@)) <= u64::MAX,
    ensures
        final(out)@ == put_files(old(out)@, values(files@), indent@),
{
    let ghost start = out@;
    let ghost fs = values(files@);
    let n: usize = if files.len() <= TOP_N {
        files.len()
    } else {
        TOP_N
    };
    let mut i: usize = 0;
    while i < n
        invariant
            fs == values(files@),
            n == shown_rows(fs.len()),
            0 <= i <= n,
            out@ == put_each(start, fs, i as int, put_file(indent@)),
        decreases n - i,
    {
        assert(fs[i as int] == files@[i as int].value());
        out.append(indent);
        push_spelled(out, &files[i].rel);
        out.append("  (");
        push_bytes(out, files[i].bytes);
        out.append(")\n");
        i = i + 1;
    }
    if files.len() > TOP_N {
        let ghost tail = fs.subrange(TOP_N as int, fs.len() as int);
        let mut rest: u64 = 0;
        let mut k: usize = TOP_N;
        while k < files.len()
            invariant
                fs == values(files@),
                tail == fs.subrange(TOP_N as int, fs.len() as int),
                bytes_of(tail) <= u64::MAX,
                TOP_N <= k <= files@.len(),
                rest == total(k - TOP_N, bytes_rule(tail)),
            decreases files@.len() - k,
        {
            proof {
                assert(tail[k - TOP_N] == files@[k as int].value());
                assert forall|i: int| 0 <= i < tail.len() implies #[trigger] bytes_rule(tail)(i) >= 0 by {
                    assert(tail[i] == files@[i + TOP_N].value());
                }
                lemma_total_grows(k - TOP_N + 1, tail.len() as int, bytes_rule(tail));
            }
            rest = rest + files[k].bytes;
            k = k + 1;
        }
        out.append(indent);
        out.append("… and ");
        push_dec(out, (files.len() - TOP_N) as u64);
        out.append(" more (");
        push_bytes(out, rest);
        out.append(")\n");
    }
}

fn write_subtrees(out: &mut String, subs: &Vec<Subtree>)
    ensures
        final(out)@ == put_subtrees(old(out)@, values(subs@)),
{
    let ghost start = out@;
    let ghost ts = values(subs@);
    let n: usize = if subs.len() <= TOP_N {
        subs.len()
    } else {
        TOP_N
    };
    let mut i: usize = 0;
    while i < n
        invariant
            ts == values(subs@),
            n == shown_rows(ts.len()),
            0 <= i <= n,
            out@ == put_each(start, ts, i as int, put_subtree()),
        decreases n - i,
    {
        assert(ts[i as int] == subs@[i as int].value());
        out.append("    ");
        push_spelled(out, &subs[i].root);
        out.append("   ");
        push_dec(out, subs[i].files);
        out.append(" file(s), ");
        push_bytes(out, subs[i].bytes);
        out.append("\n");
        i = i + 1;
    }
    if subs.len() > TOP_N {
        out.append("    … and ");
        push_dec(out, (subs.len() - TOP_N) as u64);
        out.append(" more folder(s)\n");
    }
}

fn write_right_dec(out: &mut String, n: u64, width: usize)
    ensures
        final(out)@ == old(out)@ + right_aligned(dec(n as nat), width as int),
{
    let t = dec_text(n);
    push_right(out, t.as_str(), width);
}

fn write_folder(out: &mut String, f: &FolderDelta)
    ensures
        final(out)@ == put_folder()(old(out)@, f.value()),
{
    out.append("  ");
    let name = truncate(f.folder.as_str(), 28);
    push_left(out, name.as_str(), 28);
    out.append(" ");
    write_right_dec(out, f.added as u64, 5);
    out.append(" ");
    write_right_dec(out, f.removed as u64, 6);
    out.append(" ");
    write_right_dec(out, f.changed as u64, 5);
    out.append(" ");
    write_right_dec(out, f.moved_in as u64, 6);
    out.append("  ");
    let mut net = String::new();
    crate::text::push_signed(&mut net, f.net_files);
    assert(net@ =~= signed_dec(f.net_files as int));
    push_right(out, net.as_str(), 10);
    out.append(" ");
    let bytes = signed_bytes(f.net_bytes);
    push_right(out, bytes.as_str(), 13);
    out.append("\n");
}

fn write_junk_row(out: &mut String, j: &JunkTally)
    ensures
        final(out)@ == put_junk_row()(old(out)@, j.value()),
{
    let ghost start = out@;
    out.append("  ");
    push_left(out, j.pattern.as_str(), 26);
    out.append(" ");
    let mut parts = String::new();
    if j.deleting_from_dest > 0 {
        push_dec(&mut parts, j.deleting_from_dest);
        parts.append(" to delete from destination");
        if j.copying_from_source > 0 {
            parts.append(", ");
        }
    }
    if j.copying_from_source > 0 {
        push_dec(&mut parts, j.copying_from_source);
        parts.append(" to copy from source");
    }
    assert(parts@ =~= junk_parts(j.value()));
    out.append(parts.as_str());
    out.append("\n");
}

fn write_extension(out: &mut String, e: &(String, u64))
    ensures
        final(out)@ == put_extension()(old(out)@, e.value()),
{
    out.append("  ");
    write_right_dec(out, e.1, 8);
    out.append("  ");
    out.append(e.0.as_str());
    out.append("\n");
}

impl Conclusions {
    /// The deletion is alarming enough to shout about: it removes a large share of the destination,
    /// or wipes a whole top-level folder.
    pub fn data_loss_alarm(&self) -> (r: bool)
        ensures
            r == alarming(self@),
    {
        let files: u128 = self.deleted_files as u128 * 10;
        let bytes: u128 = self.deleted_bytes as u128 * 10;
        if files >= self.dest_files as u128 && self.dest_files > 0 {
            return true;
        }
        if bytes >= self.dest_bytes as u128 && self.dest_bytes > 0 {
            return true;
        }
        let ghost ts = values(self.deleted_subtrees@);
        let mut i: usize = 0;
        while i < self.deleted_subtrees.len()
            invariant
                ts == values(self.deleted_subtrees@),
                0 <= i <= self.deleted_subtrees@.len(),
                forall|k: int| 0 <= k < i ==> (#[trigger] ts[k]).root.len() != 1,
            decreases self.deleted_subtrees@.len() - i,
        {
            assert(ts[i as int] == self.deleted_subtrees@[i as int].value());
            if self.deleted_subtrees[i].root.depth() == 1 {
                assert(self@.deleted_subtrees[i as int].root.len() == 1);
                return true;
            }
            i = i + 1;
        }
        false
    }

    fn write_watch(&self, s: &mut String)
        requires
            listable(self@),
        ensures
            final(s)@ == put_watch(old(s)@, self@),
    {
        if self.deleted_files == 0 && self.deleted_subtrees.len() == 0 {
            s.append("DATA-LOSS WATCH: nothing would be deleted this run.\n");
            return;
        }
        if self.data_loss_alarm() {
            s.append("‼‼ DATA-LOSS WATCH — review before syncing ‼‼\n");
        } else {
            s.append("DATA-LOSS WATCH\n");
        }
        s.append("  Deleting ");
        push_dec(s, self.deleted_files);
        s.append(" file(s), ");
        push_bytes(s, self.deleted_bytes);
        s.append(" — ");
        push_dec(s, percent(self.deleted_files, self.dest_files));
        s.append("% of the destination's files, ");
        push_dec(s, percent(self.deleted_bytes, self.dest_bytes));
        s.append("% of its bytes.\n");
        if self.deleted_subtrees.len() > 0 {
            s.append("  ");
            push_dec(s, self.deleted_subtrees.len() as u64);
            s.append(" destination folder(s) would be deleted ENTIRELY (absent from the source):\n");
            write_subtrees(s, &self.deleted_subtrees);
        }
        if self.orphan_deletes.len() == 0 {
            s.append("  Every deletion shares a name with something in the source (all likely moves/renames).\n");
        } else {
            s.append("  ");
            push_dec(s, self.orphan_deletes.len() as u64);
            s.append(" deletion(s) (");
            push_bytes(s, self.orphan_bytes);
            s.append(") have NO same-named file in the source — not a move; this content would be gone. ");
            push_dec(s, self.orphan_unique_size);
            s.append(" of them also have no same-size file anywhere in the source.\n");
            s.append("  Largest such deletions:\n");
            write_files(s, &self.orphan_deletes, "    ");
        }
    }

    fn write_overview(&self, s: &mut String)
        ensures
            final(s)@ == put_empties(put_overview(old(s)@, self@), self@),
    {
        s.append("OVERVIEW\n");
        s.append("  copy ");
        push_dec(s, self.added as u64);
        s.append(" (");
        push_bytes(s, self.added_bytes);
        s.append(") · move ");
        push_dec(s, self.moved as u64);
        s.append(" · delete ");
        push_dec(s, self.deleted_files);
        s.append(" (");
        push_bytes(s, self.deleted_bytes);
        s.append(") · update ");
        push_dec(s, self.changed as u64);
        s.append(" · refresh ");
        push_dec(s, self.refreshed as u64);
        s.append(" · link ");
        push_dec(s, self.linked as u64);
        s.append(" · unchanged ");
        push_dec(s, self.unchanged as u64);
        s.append("\n");
        s.append("\n");
        if self.empty_adds > 0 && self.empty_removes > 0 {
            s.append("NOTE: ");
            push_dec(s, self.empty_adds);
            s.append(" empty (0-byte) file(s) to copy and ");
            push_dec(s, self.empty_removes);
            s.append(" to delete are handled as plain add/delete — NO move was attempted, because a size of 0 has no content to match.\n");
            s.append("\n");
        }
    }

    fn write_tables(&self, s: &mut String)
        ensures
            final(s)@ == put_junk(put_folders(old(s)@, self@), self@),
    {
        if self.folders.len() > 0 {
            s.append("CHANGES BY TOP-LEVEL FOLDER (biggest byte losses first)\n");
            s.append("  folder                        +add   -del  *chg  ~move   net files     net bytes\n");
            let ghost start = s@;
            let ghost fs = values(self.folders@);
            let mut i: usize = 0;
            while i < self.folders.len()
                invariant
                    fs == values(self.folders@),
                    0 <= i <= self.folders@.len(),
                    s@ == put_each(start, fs, i as int, put_folder()),
                decreases self.folders@.len() - i,
            {
                assert(fs[i as int] == self.folders@[i as int].value());
                write_folder(s, &self.folders[i]);
                i = i + 1;
            }
            s.append("\n");
        }
        if self.junk.len() > 0 {
            s.append("JUNK / SYSTEM PATHS\n");
            let ghost start = s@;
            let ghost js = values(self.junk@);
            let mut i: usize = 0;
            while i < self.junk.len()
                invariant
                    js == values(self.junk@),
                    0 <= i <= self.junk@.len(),
                    s@ == put_each(start, js, i as int, put_junk_row()),
                decreases self.junk@.len() - i,
            {
                assert(js[i as int] == self.junk@[i as int].value());
                write_junk_row(s, &self.junk[i]);
                i = i + 1;
            }
            s.append("\n");
        }
    }

    fn write_extremes(&self, s: &mut String)
        requires
            listable(self@),
        ensures
            final(s)@ == put_extremes(old(s)@, self@),
    {
        if self.largest_deletes.len() > 0 {
            s.append("LARGEST DELETIONS\n");
            write_files(s, &self.largest_deletes, "  ");
            s.append("\n");
        }
        if self.largest_adds.len() > 0 {
            s.append("LARGEST ADDITIONS\n");
            write_files(s, &self.largest_adds, "  ");
            s.append("\n");
        }
        if self.delete_ext_histogram.len() > 0 {
            s.append("DELETIONS BY EXTENSION\n");
            let ghost start = s@;
            let ghost es = values(self.delete_ext_histogram@);
            let mut i: usize = 0;
            while i < self.delete_ext_histogram.len()
                invariant
                    es == values(self.delete_ext_histogram@),
                    0 <= i <= self.delete_ext_histogram@.len(),
                    s@ == put_each(start, es, i as int, put_extension()),
                decreases self.delete_ext_histogram@.len() - i,
            {
                assert(es[i as int] == self.delete_ext_histogram@[i as int].value());
                write_extension(s, &self.delete_ext_histogram[i]);
                i = i + 1;
            }
            s.append("\n");
        }
    }

    /// The text of the conclusions. `src` and `dst` name what was compared, for the header.
    pub fn render(&self, src: &str, dst: &str) -> (s: String)
        requires
            listable(self@),
        ensures
            s@ == conclusions_text(self@, src@, dst@),
    {
        let mut s = String::from_str("filesync diff — conclusions\n");
        s.append("comparing ");
        s.append(src);
        s.append("  ->  ");
        s.append(dst);
        s.append("\n");
        s.append("\n");
        self.write_watch(&mut s);
        s.append("\n");
        self.write_overview(&mut s);
        self.write_tables(&mut s);
        self.write_extremes(&mut s);
        if self.orphan_deletes.len() > 0 {
            s.append("FULL LIST — deletions with no same-named file in the source (");
            push_dec(&mut s, self.orphan_deletes.len() as u64);
            s.append(")\n");
            let ghost start = s@;
            let ghost fs = values(self.orphan_deletes@);
            let mut i: usize = 0;
            while i < self.orphan_deletes.len()
                invariant
                    fs == values(self.orphan_deletes@),
                    0 <= i <= self.orphan_deletes@.len(),
                    s@ == put_each(start, fs, i as int, put_orphan_path()),
                decreases self.orphan_deletes@.len() - i,
            {
                assert(fs[i as int] == self.orphan_deletes@[i as int].value());
                s.append("  ");
                push_spelled(&mut s, &self.orphan_deletes[i].rel);
                s.append("\n");
                i = i + 1;
            }
        }
        s
    }
}

// ── laws ─────────────────────────────────────────────────────────────────────

proof fn lemma_rest_bytes(fs: Seq<FileV>)
    requires
        forall|i: int| 0 <= i < fs.len() ==> (#[trigger] fs[i]).bytes >= 0,
    ensures
        rest_bytes(largest_first(fs)) <= bytes_of(fs),
{
    let n = fs.len() as int;
    let keys = Seq::new(fs.len(), |i: int| (-fs[i].bytes, fs[i].rel));
    let p = order(keys, by_amount_and_path());
    let sorted = largest_first(fs);
    crate::tally::lemma_by_amount_and_path_strict();
    lemma_order(keys, by_amount_and_path());
    lemma_order_in_range(p, n);
    let f = bytes_rule(fs);
    lemma_total_permuted(p, n, f);
    lemma_total_ext(n, |k: int| f(p[k]), bytes_rule(sorted));
    assert(bytes_of(sorted) == bytes_of(fs));
    let g = bytes_rule(sorted);
    assert forall|i: int| 0 <= i < n implies #[trigger] g(i) >= 0 by {
        assert(sorted[i] == fs[p[i]]);
    }
    lemma_total_grows(0, n, g);
    if n > TOP_N {
        let m = TOP_N as int;
        let tail = sorted.subrange(m, n);
        lemma_total_split(m, n, g);
        lemma_total_ext(n - m, |i: int| g(m + i), bytes_rule(tail));
        lemma_total_grows(m, n, g);
    }
}

/// What is concluded from a comparison whose totals can be held can be shown as text.
pub proof fn conclusions_can_be_shown(d: DiffV, s: Seq<EntryV>, t: Seq<EntryV>)
    requires
        countable(d, s, t),
    ensures
        listable(concluded(d, s, t)),
{
    let dels = sized_files(d.removed, t);
    let rule = sized_rule(d.removed, t);
    assert forall|i: int| 0 <= i < dels.len() implies (#[trigger] dels[i]).bytes >= 0 by {
        assert(dels.contains(dels[i]));
        lemma_collect_contains(d.removed.len() as int, rule, dels[i]);
    }
    let lost = orphans(dels, s);
    let keep = orphan_rule(dels, s);
    assert forall|i: int| 0 <= i < lost.len() implies (#[trigger] lost[i]).bytes >= 0 by {
        assert(lost.contains(lost[i]));
        lemma_collect_contains(dels.len() as int, keep, lost[i]);
    }
    lemma_rest_bytes(lost);
    lemma_part_bytes(dels, keep, dels.len() as int);
}

/// Every deleted directory lies at or below a directory that the watch lists as going entirely.
pub proof fn every_deleted_folder_is_watched(d: DiffV, s: Seq<EntryV>, t: Seq<EntryV>, i: int)
    requires
        0 <= i < d.removed.len(),
        d.removed[i].kind == Kind::Dir,
    ensures
        exists|k: int|
            0 <= k < concluded(d, s, t).deleted_subtrees.len() && starts_with(
                d.removed[i].rel,
                (#[trigger] concluded(d, s, t).deleted_subtrees[k]).root,
            ),
    decreases d.removed[i].rel.len(),
{
    let p = d.removed[i].rel;
    let dels = sized_files(d.removed, t);
    let listed = concluded(d, s, t).deleted_subtrees;
    if nested(d.removed, p) {
        let j = choose|j: int|
            0 <= j < d.removed.len() && (#[trigger] d.removed[j]).kind == Kind::Dir && above(d.removed[j].rel, p);
        let q = d.removed[j].rel;
        every_deleted_folder_is_watched(d, s, t, j);
        let k = choose|k: int|
            0 <= k < listed.len() && starts_with(q, (#[trigger] listed[k]).root);
        let r = listed[k].root;
        assert(p.subrange(0, r.len() as int) =~= r) by {
            assert forall|x: int| 0 <= x < r.len() implies p[x] == r[x] by {
                assert(q.subrange(0, r.len() as int)[x] == r[x]);
                assert(p.subrange(0, q.len() as int)[x] == q[x]);
            }
        }
        assert(starts_with(p, listed[k].root));
    } else {
        let rule = subtree_rule(d.removed, dels);
        let all = subtrees(d.removed, dels);
        let x = rule(i)->0;
        assert(rule(i) == Some(x));
        lemma_collect_contains(d.removed.len() as int, rule, x);
        assert(all.contains(x));
        let keys = Seq::new(all.len(), |i: int| (-all[i].bytes, all[i].root));
        crate::tally::lemma_by_amount_and_path_strict();
        lemma_sorted_contains(all, keys, by_amount_and_path(), x);
        let k = choose|k: int| 0 <= k < listed.len() && listed[k] == x;
        assert(p.subrange(0, p.len() as int) =~= p);
        assert(starts_with(p, listed[k].root));
    }
}

/// Deleting a whole top-level folder raises the alarm.
pub proof fn deleting_a_top_level_folder_raises_the_alarm(d: DiffV, s: Seq<EntryV>, t: Seq<EntryV>, i: int)
    requires
        0 <= i < d.removed.len(),
        d.removed[i].kind == Kind::Dir,
        d.removed[i].rel.len() == 1,
        forall|j: int| 0 <= j < d.removed.len() ==> (#[trigger] d.removed[j]).rel.len() > 0,
    ensures
        alarming(concluded(d, s, t)),
{
    let dels = sized_files(d.removed, t);
    let listed = concluded(d, s, t).deleted_subtrees;
    every_deleted_folder_is_watched(d, s, t, i);
    let k = choose|k: int|
        0 <= k < listed.len() && starts_with(d.removed[i].rel, (#[trigger] listed[k]).root);
    let all = subtrees(d.removed, dels);
    let keys = Seq::new(all.len(), |i: int| (-all[i].bytes, all[i].root));
    crate::tally::lemma_by_amount_and_path_strict();
    assert(listed.contains(listed[k]));
    lemma_sorted_contains(all, keys, by_amount_and_path(), listed[k]);
    lemma_collect_contains(d.removed.len() as int, subtree_rule(d.removed, dels), listed[k]);
    assert(listed[k].root.len() == 1);
}

/// A percentage is the whole number of hundredths that the part has of the whole, rounded down.
pub proof fn a_percentage_is_rounded_down(part: int, whole: int)
    requires
        0 <= part,
        100 * part <= u64::MAX,
        whole > 0,
    ensures
        percentage(part, whole) * whole <= 100 * part < (percentage(part, whole) + 1) * whole,
        percentage(part, 0) == 0,
{
    let a = part * 100;
    let q = a / whole;
    assert(q * whole <= a < (q + 1) * whole && q >= 0) by (nonlinear_arith)
        requires
            q == a / whole,
            whole > 0,
            a >= 0,
    ;
}

/// A name that fits is shown as it is. One that does not is cut to the width, and the cut is marked.
pub proof fn a_long_name_is_cut_to_its_width(s: Seq<char>, max: int)
    requires
        max > 0,
    ensures
        s.len() <= max ==> shortened(s, max) == s,
        s.len() > max ==> shortened(s, max).len() == max && shortened(s, max).last() == '…' && forall|i: int|
            0 <= i < max - 1 ==> #[trigger] shortened(s, max)[i] == s[i],
{
    reveal_strlit("…");
}

/// A list of up to twenty files is shown whole: each adds its line.
pub proof fn a_short_list_is_shown_whole(out: Seq<char>, fs: Seq<FileV>, f: FileV, indent: Seq<char>)
    requires
        fs.len() < 20,
    ensures
        put_files(out, Seq::empty(), indent) == out,
        put_files(out, fs.push(f), indent) == put_files(out, fs, indent) + indent + utf8_lossy(f.text) + "  ("@
            + bytes_text(f.bytes as nat) + ")\n"@,
{
    let all = fs.push(f);
    lemma_same_files(out, all, fs, fs.len() as int, put_file(indent));
    assert(all[fs.len() as int] == f);
}

proof fn lemma_same_files(
    out: Seq<char>,
    a: Seq<FileV>,
    b: Seq<FileV>,
    n: int,
    put: spec_fn(Seq<char>, FileV) -> Seq<char>,
)
    requires
        n <= a.len(),
        n <= b.len(),
        forall|i: int| 0 <= i < n ==> #[trigger] a[i] == b[i],
    ensures
        put_each(out, a, n, put) == put_each(out, b, n, put),
    decreases n,
{
    if n > 0 {
        lemma_same_files(out, a, b, n - 1, put);
        assert(a[n - 1] == b[n - 1]);
    }
}

/// Of a longer list the first twenty files are shown, and the rest is counted and summed up: what is
/// shown and what is summed up make the whole.
pub proof fn a_long_list_is_summed_up(out: Seq<char>, fs: Seq<FileV>, indent: Seq<char>)
    requires
        fs.len() > 20,
    ensures
        put_files(out, fs, indent) == put_files(out, fs.subrange(0, 20), indent) + indent + "… and "@ + dec(
            (fs.len() - 20) as nat,
        ) + " more ("@ + bytes_text(rest_bytes(fs) as nat) + ")\n"@,
        bytes_of(fs.subrange(0, 20)) + rest_bytes(fs) == bytes_of(fs),
{
    let n = fs.len() as int;
    let (head, rest) = (fs.subrange(0, 20), fs.subrange(20, n));
    lemma_same_files(out, fs, head, 20, put_file(indent));
    let f = bytes_rule(fs);
    lemma_total_split(20, n, f);
    lemma_total_ext(20, f, bytes_rule(head));
    lemma_total_ext(n - 20, |i: int| f(20 + i), bytes_rule(rest));
}

/// The watch says that nothing is deleted exactly where no file and no whole folder is. Else it begins
/// with an alarm where a tenth of the files or of the bytes goes or a whole top-level folder, and
/// without one where none of this holds.
pub proof fn the_watch_raises_the_alarm(c: ConclusionsV)
    ensures
        c.deleted_files == 0 && c.deleted_subtrees.len() == 0 ==> put_watch(Seq::empty(), c)
            == "DATA-LOSS WATCH: nothing would be deleted this run.\n"@,
        c.deleted_files > 0 && c.deleted_subtrees.len() == 0 && c.orphan_deletes.len() == 0 ==> put_watch(
            Seq::empty(),
            c,
        ) == (if 10 * c.deleted_files >= c.dest_files && c.dest_files > 0 || 10 * c.deleted_bytes >= c.dest_bytes
            && c.dest_bytes > 0 {
            "‼‼ DATA-LOSS WATCH — review before syncing ‼‼\n"@
        } else {
            "DATA-LOSS WATCH\n"@
        }) + "  Deleting "@ + dec(c.deleted_files as nat) + " file(s), "@ + bytes_text(c.deleted_bytes as nat) + " — "@
            + dec(percentage(c.deleted_files, c.dest_files)) + "% of the destination's files, "@ + dec(
            percentage(c.deleted_bytes, c.dest_bytes),
        ) + "% of its bytes.\n"@
            + "  Every deletion shares a name with something in the source (all likely moves/renames).\n"@,
{
    assert(Seq::<char>::empty() + "DATA-LOSS WATCH: nothing would be deleted this run.\n"@
        =~= "DATA-LOSS WATCH: nothing would be deleted this run.\n"@);
    assert(Seq::<char>::empty() + "DATA-LOSS WATCH\n"@ =~= "DATA-LOSS WATCH\n"@);
    assert(Seq::<char>::empty() + "‼‼ DATA-LOSS WATCH — review before syncing ‼‼\n"@
        =~= "‼‼ DATA-LOSS WATCH — review before syncing ‼‼\n"@);
}

/// A row of junk tells what is deleted, what is copied, or both, and nothing that does not happen.
pub proof fn a_junk_row_tells_what_happens(j: JunkV)
    ensures
        j.deleting_from_dest > 0 && j.copying_from_source == 0 ==> junk_parts(j) == dec(j.deleting_from_dest as nat)
            + " to delete from destination"@,
        j.deleting_from_dest == 0 && j.copying_from_source > 0 ==> junk_parts(j) == dec(j.copying_from_source as nat)
            + " to copy from source"@,
        j.deleting_from_dest > 0 && j.copying_from_source > 0 ==> junk_parts(j) == dec(j.deleting_from_dest as nat)
            + " to delete from destination"@ + ", "@ + (dec(j.copying_from_source as nat) + " to copy from source"@),
{
}

/// A part of the conclusions on which there is nothing to say is left out, and the note on empty files
/// stands only where both sides have some.
pub proof fn what_is_empty_is_left_out(c: ConclusionsV, out: Seq<char>)
    ensures
        c.empty_adds <= 0 || c.empty_removes <= 0 ==> put_empties(out, c) == out,
        c.empty_adds > 0 && c.empty_removes > 0 ==> put_empties(out, c).len() > out.len(),
        c.folders.len() == 0 ==> put_folders(out, c) == out,
        c.junk.len() == 0 ==> put_junk(out, c) == out,
        c.orphan_deletes.len() == 0 ==> put_full_list(out, c) == out,
        c.largest_deletes.len() == 0 && c.largest_adds.len() == 0 && c.delete_ext_histogram.len() == 0 ==> put_extremes(
            out,
            c,
        ) == out,
        c.deleted_subtrees.len() == 0 ==> put_whole_folders(out, c) == out,
{
    reveal_strlit("NOTE: ");
}

/// Whatever there is to say is said: each part that is not empty stands under its title, with its rows.
pub proof fn what_is_there_is_shown(c: ConclusionsV, out: Seq<char>)
    ensures
        c.orphan_deletes.len() >= 1 ==> put_full_list(out, c) == put_all(
            out + "FULL LIST — deletions with no same-named file in the source ("@ + dec(c.orphan_deletes.len()) + ")\n"@,
            c.orphan_deletes,
            put_orphan_path(),
        ),
        c.folders.len() >= 1 ==> put_folders(out, c) == put_all(
            out + "CHANGES BY TOP-LEVEL FOLDER (biggest byte losses first)\n"@
                + "  folder                        +add   -del  *chg  ~move   net files     net bytes\n"@,
            c.folders,
            put_folder(),
        ) + "\n"@,
        c.junk.len() >= 1 ==> put_junk(out, c) == put_all(out + "JUNK / SYSTEM PATHS\n"@, c.junk, put_junk_row())
            + "\n"@,
        c.deleted_subtrees.len() >= 1 ==> put_whole_folders(out, c) == put_subtrees(
            out + "  "@ + dec(c.deleted_subtrees.len())
                + " destination folder(s) would be deleted ENTIRELY (absent from the source):\n"@,
            c.deleted_subtrees,
        ),
        c.largest_deletes.len() >= 1 && c.largest_adds.len() >= 1 && c.delete_ext_histogram.len() >= 1 ==> put_extremes(
            out,
            c,
        ) == put_all(
            put_files(
                put_files(out + "LARGEST DELETIONS\n"@, c.largest_deletes, "  "@) + "\n"@ + "LARGEST ADDITIONS\n"@,
                c.largest_adds,
                "  "@,
            ) + "\n"@ + "DELETIONS BY EXTENSION\n"@,
            c.delete_ext_histogram,
            put_extension(),
        ) + "\n"@,
        c.orphan_deletes.len() >= 1 ==> put_orphans(out, c) == put_files(
            out + "  "@ + dec(c.orphan_deletes.len()) + " deletion(s) ("@ + bytes_text(c.orphan_bytes as nat)
                + ") have NO same-named file in the source — not a move; this content would be gone. "@ + dec(
                c.orphan_unique_size as nat,
            ) + " of them also have no same-size file anywhere in the source.\n"@ + "  Largest such deletions:\n"@,
            c.orphan_deletes,
            "    "@,
        ),
{
}

/// A row of the folder table shows the counts of its folder and what it nets, each in its column.
pub proof fn a_folder_row_shows_its_counts(f: FolderV, out: Seq<char>)
    ensures
        put_folder()(out, f) == out + "  "@ + left_aligned(shortened(f.folder, 28), 28) + " "@ + right_aligned(
            dec(f.added as nat),
            5,
        ) + " "@ + right_aligned(dec(f.removed as nat), 6) + " "@ + right_aligned(dec(f.changed as nat), 5) + " "@
            + right_aligned(dec(f.moved_in as nat), 6) + "  "@ + right_aligned(signed_dec(f.net_files), 10) + " "@
            + right_aligned(signed_bytes_text(f.net_bytes), 13) + "\n"@,
{
}

/// Of the folders that go entirely the first twenty are shown, and the rest is counted.
pub proof fn a_long_list_of_folders_is_counted(out: Seq<char>, ts: Seq<SubtreeV>)
    ensures
        ts.len() <= 20 ==> put_subtrees(out, ts) == put_each(out, ts, ts.len() as int, put_subtree()),
        ts.len() > 20 ==> put_subtrees(out, ts) == put_each(out, ts, 20, put_subtree()) + "    … and "@ + dec(
            (ts.len() - 20) as nat,
        ) + " more folder(s)\n"@,
{
}

/// The conclusions tell of losses first, then give the overview, and end with the full list.
pub proof fn losses_are_told_first(c: ConclusionsV, src: Seq<char>, dst: Seq<char>)
    ensures
        conclusions_text(c, src, dst) == put_full_list(
            put_extremes(
                put_junk(
                    put_folders(
                        put_empties(
                            put_overview(
                                put_watch(
                                    "filesync diff — conclusions\n"@ + "comparing "@ + src + "  ->  "@ + dst + "\n"@ + "\n"@,
                                    c,
                                ) + "\n"@,
                                c,
                            ),
                            c,
                        ),
                        c,
                    ),
                    c,
                ),
                c,
            ),
            c,
        ),
{
}

} // verus!
