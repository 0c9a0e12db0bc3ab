//! The `….findings.txt` file: what the run did (sync) or would do (diff).
//!
//! A sync keeps a [`Report`], whose lines are written as they are recorded, so that an interrupted
//! run still leaves a usable record. A completed report ends with a `run completed` line, so a
//! cut-short one is recognizable. A comparison produces its whole classification at once.
use vstd::prelude::*;

use crate::paths::FsPath;
use crate::text::{add_text, dec, push_dec, put_all, put_each, texts_view, utf8_lossy};

verus! {

/// What a sync did.
#[derive(Debug)]
pub struct Report {
    pub copied: u64,
    pub moved: u64,
    /// Hard links created: another destination name for an already-copied inode.
    pub linked: u64,
    pub deleted: u64,
    /// Content-identical files whose metadata was refreshed instead of copying again.
    pub refreshed: u64,
    pub bytes_copied: u64,
    /// What went wrong or needs attention; this makes the run fail.
    pub issues: Vec<String>,
    /// What was deliberately not done because there is nothing to do.
    pub skipped: Vec<String>,
    /// Operations that needed root to get past a permission wall.
    pub root_assisted: Vec<String>,
    /// Set when a graceful stop cut the run short: the actions performed and planned.
    pub stopped_early: Option<(usize, usize)>,
}

/// The value of a [`Report`].
pub struct ReportV {
    pub copied: nat,
    pub moved: nat,
    pub linked: nat,
    pub deleted: nat,
    pub refreshed: nat,
    pub bytes_copied: nat,
    pub issues: Seq<Seq<char>>,
    pub skipped: Seq<Seq<char>>,
    pub root_assisted: Seq<Seq<char>>,
    pub stopped_early: Option<(usize, usize)>,
}

impl View for Report {
    type V = ReportV;

    open spec fn view(&self) -> ReportV {
        ReportV {
            copied: self.copied as nat,
            moved: self.moved as nat,
            linked: self.linked as nat,
            deleted: self.deleted as nat,
            refreshed: self.refreshed as nat,
            bytes_copied: self.bytes_copied as nat,
            issues: texts_view(self.issues@),
            skipped: texts_view(self.skipped@),
            root_assisted: texts_view(self.root_assisted@),
            stopped_early: self.stopped_early,
        }
    }
}

/// A report on nothing.
pub open spec fn blank() -> ReportV {
    ReportV {
        copied: 0,
        moved: 0,
        linked: 0,
        deleted: 0,
        refreshed: 0,
        bytes_copied: 0,
        issues: Seq::empty(),
        skipped: Seq::empty(),
        root_assisted: Seq::empty(),
        stopped_early: None,
    }
}

/// The report with an issue more.
pub open spec fn with_issue(r: ReportV, text: Seq<char>) -> ReportV {
    ReportV { issues: r.issues.push(text), ..r }
}

/// The report with a skip more.
pub open spec fn with_skip(r: ReportV, text: Seq<char>) -> ReportV {
    ReportV { skipped: r.skipped.push(text), ..r }
}

// ── the text of a report ─────────────────────────────────────────────────────

/// `out` with the counts.
pub open spec fn put_counts(out: Seq<char>, r: ReportV) -> Seq<char> {
    let o = out + "copied:  "@ + dec(r.copied) + " ("@ + dec(r.bytes_copied) + " bytes)\nmoved:   "@
        + dec(r.moved) + "\nlinked:  "@ + dec(r.linked) + "\ndeleted: "@ + dec(r.deleted)
        + "\nrefreshed: "@ + dec(r.refreshed) + "\nskipped: "@ + dec(r.skipped.len()) + "\nissues:  "@
        + dec(r.issues.len()) + "\n"@;
    if r.root_assisted.len() > 0 {
        o + "root-assisted: "@ + dec(r.root_assisted.len()) + "\n"@
    } else {
        o
    }
}

pub open spec fn put_marked(mark: Seq<char>) -> spec_fn(Seq<char>, Seq<char>) -> Seq<char> {
    |out: Seq<char>, m: Seq<char>| out + mark + m + "\n"@
}

/// The summary for the terminal: the counts, what was skipped, and where root helped. Issues are
/// not in it: they live in the errors file.
pub open spec fn summary_text(r: ReportV) -> Seq<char> {
    let o1 = put_counts(Seq::empty(), r);
    let o2 = put_all(o1, r.skipped, put_marked("    ~ "@));
    let o3 = put_all(o2, r.root_assisted, put_marked("    % root: "@));
    match r.stopped_early {
        Some((done, total)) => o3 + "STOPPED EARLY by request — "@ + dec(done as nat) + "/"@ + dec(
            total as nat,
        ) + " actions done; re-run to finish\n"@,
        None => o3,
    }
}

/// What stands at the end of a report file. A report cut short lacks it.
pub open spec fn closing_text(r: ReportV, errors_name: Option<Seq<char>>) -> Seq<char> {
    let o1 = put_counts("\n"@, r);
    let o2 = match errors_name {
        Some(n) => if r.issues.len() > 0 {
            o1 + dec(r.issues.len()) + " issue(s) recorded in "@ + n + "\n"@
        } else {
            o1
        },
        None => o1,
    };
    match r.stopped_early {
        Some((done, total)) => o2 + "run stopped early by request — "@ + dec(done as nat) + " of "@ + dec(
            total as nat,
        ) + " planned action(s) done; the mirror is incomplete, re-run to finish\n"@,
        None => o2 + "run completed\n"@,
    }
}

/// What stands at the beginning of a report file.
pub open spec fn header_text(context: Seq<char>, errors_name: Seq<char>) -> Seq<char> {
    "filesync report — "@ + context + "\n"@ + "(any issues are recorded in "@ + errors_name + ")\n"@
}

/// What stands at the beginning of a report file: what the run does, and where its issues go.
pub fn header(context: &str, errors_name: &str) -> (r: String)
    ensures
        r@ == header_text(context@, errors_name@),
{
    let mut s = String::from_str("filesync report — ");
    s.append(context);
    s.append("\n");
    s.append("(any issues are recorded in ");
    s.append(errors_name);
    s.append(")\n");
    s
}

/// The line of a report file for a skip.
pub fn skip_line(msg: &str) -> (r: String)
    ensures
        r@ == "  ~ "@ + msg@ + "\n"@,
{
    let mut s = String::from_str("  ~ ");
    s.append(msg);
    s.append("\n");
    s
}

/// The line of a report file for an operation that root helped with.
pub fn root_line(msg: &str) -> (r: String)
    ensures
        r@ == "  % root: "@ + msg@ + "\n"@,
{
    let mut s = String::from_str("  % root: ");
    s.append(msg);
    s.append("\n");
    s
}

fn push_marked(out: &mut String, mark: &str, texts: &Vec<String>)
    ensures
        final(out)@ == put_all(old(out)@, texts_view(texts@), put_marked(mark@)),
{
    let ghost start = out@;
    let ghost ts = texts_view(texts@);
    let mut i: usize = 0;
    while i < texts.len()
        invariant
            ts == texts_view(texts@),
            0 <= i <= texts@.len(),
            out@ == put_each(start, ts, i as int, put_marked(mark@)),
        decreases texts@.len() - i,
    {
        assert(ts[i as int] == texts@[i as int]@);
        out.append(mark);
        out.append(texts[i].as_str());
        out.append("\n");
        i = i + 1;
    }
}

impl Default for Report {
    fn default() -> (r: Report)
        ensures
            r@ == blank(),
    {
        let r = Report {
            copied: 0,
            moved: 0,
            linked: 0,
            deleted: 0,
            refreshed: 0,
            bytes_copied: 0,
            issues: Vec::new(),
            skipped: Vec::new(),
            root_assisted: Vec::new(),
            stopped_early: None,
        };
        assert(r@.issues =~= Seq::empty());
        assert(r@.skipped =~= Seq::empty());
        assert(r@.root_assisted =~= Seq::empty());
        r
    }
}

impl Report {
    /// A report on nothing.
    pub fn new() -> (r: Report)
        ensures
            r@ == blank(),
    {
        Report::default()
    }

    /// Records a failed operation on `path`.
    pub fn issue(&mut self, path: &FsPath, err: &str)
        ensures
            final(self)@ == with_issue(old(self)@, utf8_lossy(path.spelled()) + ": "@ + err@),
    {
        let mut s = crate::text::show_spelled(path);
        s.append(": ");
        s.append(err);
        self.issue_msg(s);
    }

    /// Records an issue.
    pub fn issue_msg(&mut self, msg: String)
        ensures
            final(self)@ == with_issue(old(self)@, msg@),
    {
        add_text(&mut self.issues, msg);
    }

    /// Records that a graceful stop ended the run before all planned actions ran, so that the
    /// mirror is incomplete.
    pub fn mark_stopped_early(&mut self, performed: usize, planned: usize)
        ensures
            final(self)@ == (ReportV { stopped_early: Some((performed, planned)), ..old(self)@ }),
    {
        self.stopped_early = Some((performed, planned));
    }

    /// Whether the run was cut short by a requested stop.
    pub fn was_stopped_early(&self) -> (r: bool)
        ensures
            r == (self@.stopped_early is Some),
    {
        self.stopped_early.is_some()
    }

    /// Records one operation that root helped with.
    pub fn root_op(&mut self, msg: String)
        ensures
            final(self)@ == (ReportV { root_assisted: old(self)@.root_assisted.push(msg@), ..old(self)@ }),
    {
        add_text(&mut self.root_assisted, msg);
    }

    /// Records a benign skip: something with nothing to copy.
    pub fn skip_msg(&mut self, msg: String)
        ensures
            final(self)@ == with_skip(old(self)@, msg@),
    {
        add_text(&mut self.skipped, msg);
    }

    fn push_counts(&self, s: &mut String)
        ensures
            final(s)@ == put_counts(old(s)@, self@),
    {
        s.append("copied:  ");
        push_dec(s, self.copied);
        s.append(" (");
        push_dec(s, self.bytes_copied);
        s.append(" bytes)\nmoved:   ");
        push_dec(s, self.moved);
        s.append("\nlinked:  ");
        push_dec(s, self.linked);
        s.append("\ndeleted: ");
        push_dec(s, self.deleted);
        s.append("\nrefreshed: ");
        push_dec(s, self.refreshed);
        s.append("\nskipped: ");
        push_dec(s, self.skipped.len() as u64);
        s.append("\nissues:  ");
        push_dec(s, self.issues.len() as u64);
        s.append("\n");
        if self.root_assisted.len() > 0 {
            s.append("root-assisted: ");
            push_dec(s, self.root_assisted.len() as u64);
            s.append("\n");
        }
    }

    /// The summary for the terminal.
    pub fn render(&self) -> (s: String)
        ensures
            s@ == summary_text(self@),
    {
        let mut s = String::new();
        self.push_counts(&mut s);
        push_marked(&mut s, "    ~ ", &self.skipped);
        push_marked(&mut s, "    % root: ", &self.root_assisted);
        match self.stopped_early {
            Some((done, total)) => {
                s.append("STOPPED EARLY by request — ");
                push_dec(&mut s, done as u64);
                s.append("/");
                push_dec(&mut s, total as u64);
                s.append(" actions done; re-run to finish\n");
            },
            None => {},
        }
        s
    }

    /// What stands at the end of the report file. `errors_name` is the name of the errors file,
    /// where a report file has one beside it.
    pub fn finish(&self, errors_name: &Option<String>) -> (s: String)
        ensures
            s@ == closing_text(self@, crate::text::opt_text(*errors_name)),
    {
        let mut s = String::from_str("\n");
        self.push_counts(&mut s);
        match errors_name {
            Some(n) => {
                if self.issues.len() > 0 {
                    push_dec(&mut s, self.issues.len() as u64);
                    s.append(" issue(s) recorded in ");
                    s.append(n.as_str());
                    s.append("\n");
                }
            },
            None => {},
        }
        match self.stopped_early {
            Some((done, total)) => {
                s.append("run stopped early by request — ");
                push_dec(&mut s, done as u64);
                s.append(" of ");
                push_dec(&mut s, total as u64);
                s.append(" planned action(s) done; the mirror is incomplete, re-run to finish\n");
            },
            None => {
                s.append("run completed\n");
            },
        }
        s
    }

    /// The exit code of the run: success only where nothing needs attention and the run was not
    /// stopped early.
    pub fn exit_code(&self) -> (code: u8)
        ensures
            code == if self@.issues.len() == 0 && self@.stopped_early is None {
                0u8
            } else {
                1u8
            },
    {
        if self.issues.len() == 0 && self.stopped_early.is_none() {
            0
        } else {
            1
        }
    }
}

// ── a comparison's findings ──────────────────────────────────────────────────

/// `out` with the operations that root helped with, if any.
pub open spec fn put_audit(out: Seq<char>, audit: Seq<Seq<char>>) -> Seq<char> {
    if audit.len() == 0 {
        out
    } else {
        put_all(
            out + "\nroot-assisted operations: "@ + dec(audit.len()) + "\n"@,
            audit,
            put_marked("  % root: "@),
        )
    }
}

/// What a comparison's findings file holds.
pub open spec fn diff_findings_text(
    src: Seq<char>,
    dst: Seq<char>,
    rendered: Seq<char>,
    audit: Seq<Seq<char>>,
) -> Seq<char> {
    put_audit("filesync diff — comparing "@ + src + " -> "@ + dst + "\n\n"@ + rendered, audit)
}

/// What a comparison's findings file holds: a header, the full classification, and the operations
/// that root helped with.
pub fn diff_findings(src: &str, dst: &str, rendered: &str, audit: &Vec<String>) -> (r: String)
    ensures
        r@ == diff_findings_text(src@, dst@, rendered@, texts_view(audit@)),
{
    let mut s = String::from_str("filesync diff — comparing ");
    s.append(src);
    s.append(" -> ");
    s.append(dst);
    s.append("\n\n");
    s.append(rendered);
    if audit.len() > 0 {
        s.append("\nroot-assisted operations: ");
        push_dec(&mut s, audit.len() as u64);
        s.append("\n");
        push_marked(&mut s, "  % root: ", audit);
    }
    s
}

// ── laws ─────────────────────────────────────────────────────────────────────

/// A text ends so.
pub open spec fn ends_so(text: Seq<char>, end: Seq<char>) -> bool {
    end.len() <= text.len() && text.subrange(text.len() - end.len(), text.len() as int) == end
}

/// A report says at its end whether the run was completed: how far it got where a stop cut it short, and
/// that it was completed only where none did.
pub proof fn a_report_says_how_far_the_run_got(r: ReportV, name: Option<Seq<char>>, done: usize, planned: usize)
    ensures
        r.stopped_early is None ==> ends_so(closing_text(r, name), "run completed\n"@),
        r.stopped_early == Some((done, planned)) ==> ends_so(
            closing_text(r, name),
            "run stopped early by request — "@ + dec(done as nat) + " of "@ + dec(planned as nat)
                + " planned action(s) done; the mirror is incomplete, re-run to finish\n"@,
        ),
        r.stopped_early == Some((done, planned)) ==> ends_so(
            summary_text(r),
            "STOPPED EARLY by request — "@ + dec(done as nat) + "/"@ + dec(planned as nat)
                + " actions done; re-run to finish\n"@,
        ),
{
    let t = closing_text(r, name);
    let u = summary_text(r);
    match r.stopped_early {
        None => {
            let e = "run completed\n"@;
            assert(t.subrange(t.len() - e.len(), t.len() as int) =~= e);
        },
        Some((d, p)) => {
            let e = "run stopped early by request — "@ + dec(d as nat) + " of "@ + dec(p as nat)
                + " planned action(s) done; the mirror is incomplete, re-run to finish\n"@;
            assert(t.subrange(t.len() - e.len(), t.len() as int) =~= e);
            let f = "STOPPED EARLY by request — "@ + dec(d as nat) + "/"@ + dec(p as nat)
                + " actions done; re-run to finish\n"@;
            assert(u.subrange(u.len() - f.len(), u.len() as int) =~= f);
        },
    }
}

/// A text begins so.
pub open spec fn begins_so(text: Seq<char>, start: Seq<char>) -> bool {
    start.len() <= text.len() && text.subrange(0, start.len() as int) == start
}

proof fn lemma_put_each_keeps<T>(out: Seq<char>, items: Seq<T>, n: int, put: spec_fn(Seq<char>, T) -> Seq<char>)
    requires
        forall|o: Seq<char>, x: T| begins_so(#[trigger] put(o, x), o),
    ensures
        begins_so(crate::text::put_each(out, items, n, put), out),
    decreases n,
{
    if n > 0 {
        lemma_put_each_keeps(out, items, n - 1, put);
        let o = crate::text::put_each(out, items, n - 1, put);
        let t = put(o, items[n - 1]);
        assert(begins_so(t, o));
        assert(t.subrange(0, out.len() as int) =~= out) by {
            assert forall|i: int| 0 <= i < out.len() implies t[i] == out[i] by {
                assert(t.subrange(0, o.len() as int)[i] == o[i]);
                assert(o.subrange(0, out.len() as int)[i] == out[i]);
            }
        }
    } else {
        assert(out.subrange(0, out.len() as int) =~= out);
    }
}

/// A summary begins with the counts of what was done.
pub proof fn a_summary_begins_with_the_counts(r: ReportV)
    ensures
        begins_so(
            summary_text(r),
            "copied:  "@ + dec(r.copied) + " ("@ + dec(r.bytes_copied) + " bytes)\nmoved:   "@ + dec(r.moved)
                + "\nlinked:  "@ + dec(r.linked) + "\ndeleted: "@ + dec(r.deleted) + "\nrefreshed: "@ + dec(
                r.refreshed,
            ) + "\nskipped: "@ + dec(r.skipped.len()) + "\nissues:  "@ + dec(r.issues.len()) + "\n"@,
        ),
{
    let head = "copied:  "@ + dec(r.copied) + " ("@ + dec(r.bytes_copied) + " bytes)\nmoved:   "@ + dec(r.moved)
        + "\nlinked:  "@ + dec(r.linked) + "\ndeleted: "@ + dec(r.deleted) + "\nrefreshed: "@ + dec(r.refreshed)
        + "\nskipped: "@ + dec(r.skipped.len()) + "\nissues:  "@ + dec(r.issues.len()) + "\n"@;
    let o1 = put_counts(Seq::empty(), r);
    assert(Seq::<char>::empty() + "copied:  "@ =~= "copied:  "@);
    assert(o1.subrange(0, head.len() as int) =~= head);
    let (m1, m2) = (put_marked("    ~ "@), put_marked("    % root: "@));
    assert forall|o: Seq<char>, x: Seq<char>| begins_so(#[trigger] m1(o, x), o) by {
        assert(m1(o, x).subrange(0, o.len() as int) =~= o);
    }
    assert forall|o: Seq<char>, x: Seq<char>| begins_so(#[trigger] m2(o, x), o) by {
        assert(m2(o, x).subrange(0, o.len() as int) =~= o);
    }
    lemma_put_each_keeps(o1, r.skipped, r.skipped.len() as int, m1);
    let o2 = put_all(o1, r.skipped, m1);
    lemma_put_each_keeps(o2, r.root_assisted, r.root_assisted.len() as int, m2);
    let o3 = put_all(o2, r.root_assisted, m2);
    let t = summary_text(r);
    assert(begins_so(t, o3)) by {
        assert(t.subrange(0, o3.len() as int) =~= o3);
    }
    assert(t.subrange(0, head.len() as int) =~= head) by {
        assert forall|i: int| 0 <= i < head.len() implies t[i] == head[i] by {
            assert(o1.subrange(0, head.len() as int)[i] == head[i]);
            assert(o2.subrange(0, o1.len() as int)[i] == o1[i]);
            assert(o3.subrange(0, o2.len() as int)[i] == o2[i]);
            assert(t.subrange(0, o3.len() as int)[i] == o3[i]);
        }
    }
}

/// A text holds this piece somewhere.
pub open spec fn occurs(text: Seq<char>, piece: Seq<char>) -> bool {
    exists|k: int| 0 <= k <= text.len() - piece.len() && #[trigger] text.subrange(k, k + piece.len()) == piece
}

proof fn lemma_occurs_on(text: Seq<char>, more: Seq<char>, piece: Seq<char>)
    requires
        occurs(text, piece),
        begins_so(more, text),
    ensures
        occurs(more, piece),
{
    let k = choose|k: int| 0 <= k <= text.len() - piece.len() && #[trigger] text.subrange(k, k + piece.len()) == piece;
    assert(more.subrange(k, k + piece.len()) =~= piece) by {
        assert forall|i: int| 0 <= i < piece.len() implies more.subrange(k, k + piece.len())[i] == piece[i] by {
            assert(more.subrange(0, text.len() as int)[k + i] == text[k + i]);
            assert(text.subrange(k, k + piece.len())[i] == piece[i]);
        }
    }
}

proof fn lemma_marked_keeps(mark: Seq<char>)
    ensures
        forall|o: Seq<char>, x: Seq<char>| begins_so(#[trigger] put_marked(mark)(o, x), o),
{
    assert forall|o: Seq<char>, x: Seq<char>| begins_so(#[trigger] put_marked(mark)(o, x), o) by {
        assert(put_marked(mark)(o, x).subrange(0, o.len() as int) =~= o);
    }
}

proof fn lemma_marked_occurs(out: Seq<char>, items: Seq<Seq<char>>, n: int, i: int, mark: Seq<char>)
    requires
        0 <= i < n <= items.len(),
    ensures
        occurs(put_each(out, items, n, put_marked(mark)), mark + items[i] + "\n"@),
    decreases n,
{
    let put = put_marked(mark);
    let o = put_each(out, items, n - 1, put);
    let t = put(o, items[n - 1]);
    let piece = mark + items[i] + "\n"@;
    if i == n - 1 {
        assert(t.subrange(o.len() as int, o.len() as int + piece.len()) =~= piece);
    } else {
        lemma_marked_occurs(out, items, n - 1, i, mark);
        assert(begins_so(t, o)) by {
            assert(t.subrange(0, o.len() as int) =~= o);
        }
        lemma_occurs_on(o, t, piece);
    }
}

/// A summary tells everything that was skipped and everything that root helped with.
pub proof fn a_summary_tells_every_skip(r: ReportV, i: int)
    ensures
        0 <= i < r.skipped.len() ==> occurs(summary_text(r), "    ~ "@ + r.skipped[i] + "\n"@),
        0 <= i < r.root_assisted.len() ==> occurs(summary_text(r), "    % root: "@ + r.root_assisted[i] + "\n"@),
{
    let o1 = put_counts(Seq::empty(), r);
    let o2 = put_all(o1, r.skipped, put_marked("    ~ "@));
    let o3 = put_all(o2, r.root_assisted, put_marked("    % root: "@));
    let t = summary_text(r);
    assert(begins_so(t, o3)) by {
        assert(t.subrange(0, o3.len() as int) =~= o3);
    }
    if 0 <= i < r.root_assisted.len() {
        lemma_marked_occurs(o2, r.root_assisted, r.root_assisted.len() as int, i, "    % root: "@);
        lemma_occurs_on(o3, t, "    % root: "@ + r.root_assisted[i] + "\n"@);
    }
    if 0 <= i < r.skipped.len() {
        let piece = "    ~ "@ + r.skipped[i] + "\n"@;
        lemma_marked_occurs(o1, r.skipped, r.skipped.len() as int, i, "    ~ "@);
        lemma_marked_keeps("    % root: "@);
        lemma_put_each_keeps(o2, r.root_assisted, r.root_assisted.len() as int, put_marked("    % root: "@));
        lemma_occurs_on(o2, o3, piece);
        lemma_occurs_on(o3, t, piece);
    }
}

/// The findings of a comparison are its title and its difference, and behind them every use of root;
/// without one nothing is added.
pub proof fn findings_tell_every_use_of_root(
    src: Seq<char>,
    dst: Seq<char>,
    rendered: Seq<char>,
    audit: Seq<Seq<char>>,
    i: int,
)
    ensures
        audit.len() == 0 ==> diff_findings_text(src, dst, rendered, audit) == "filesync diff — comparing "@ + src
            + " -> "@ + dst + "\n\n"@ + rendered,
        0 <= i < audit.len() ==> occurs(
            diff_findings_text(src, dst, rendered, audit),
            "  % root: "@ + audit[i] + "\n"@,
        ),
        begins_so(
            diff_findings_text(src, dst, rendered, audit),
            "filesync diff — comparing "@ + src + " -> "@ + dst + "\n\n"@ + rendered,
        ),
{
    let o = "filesync diff — comparing "@ + src + " -> "@ + dst + "\n\n"@ + rendered;
    let t = diff_findings_text(src, dst, rendered, audit);
    if audit.len() == 0 {
        assert(o.subrange(0, o.len() as int) =~= o);
    } else {
        let p = o + "\nroot-assisted operations: "@ + dec(audit.len()) + "\n"@;
        let n = audit.len() as int;
        lemma_marked_keeps("  % root: "@);
        lemma_put_each_keeps(p, audit, n, put_marked("  % root: "@));
        if 0 <= i < n {
            lemma_marked_occurs(p, audit, n, i, "  % root: "@);
        }
        assert(t.subrange(0, o.len() as int) =~= o) by {
            assert forall|k: int| 0 <= k < o.len() implies t[k] == o[k] by {
                assert(t.subrange(0, p.len() as int)[k] == p[k]);
            }
        }
    }
}

/// The end of a report points to the errors file where there is one and an issue is in it.
pub proof fn a_closing_points_to_the_issues(r: ReportV, name: Seq<char>)
    requires
        r.stopped_early is None,
    ensures
        closing_text(r, None) == put_counts("\n"@, r) + "run completed\n"@,
        r.issues.len() == 0 ==> closing_text(r, Some(name)) == put_counts("\n"@, r) + "run completed\n"@,
        r.issues.len() > 0 ==> closing_text(r, Some(name)) == put_counts("\n"@, r) + dec(r.issues.len())
            + " issue(s) recorded in "@ + name + "\n"@ + "run completed\n"@,
        r.root_assisted.len() == 0 ==> ends_so(
            put_counts("\n"@, r),
            "\nskipped: "@ + dec(r.skipped.len()) + "\nissues:  "@ + dec(r.issues.len()) + "\n"@,
        ),
        r.root_assisted.len() > 0 ==> ends_so(
            put_counts("\n"@, r),
            "root-assisted: "@ + dec(r.root_assisted.len()) + "\n"@,
        ),
{
    let t = put_counts("\n"@, r);
    let e = "\nskipped: "@ + dec(r.skipped.len()) + "\nissues:  "@ + dec(r.issues.len()) + "\n"@;
    let f = "root-assisted: "@ + dec(r.root_assisted.len()) + "\n"@;
    if r.root_assisted.len() == 0 {
        assert(t.subrange(t.len() - e.len(), t.len() as int) =~= e);
    } else {
        assert(t.subrange(t.len() - f.len(), t.len() as int) =~= f);
    }
}

} // verus!
