//! The `….errors.txt` companion: everything needing the user's attention, one issue per line.
//!
//! Created only if at least one issue occurs, so "no errors file" always means "clean run". A sync
//! streams its issues as they happen; a comparison collects them and writes them once.
use vstd::prelude::*;

use crate::paths::{FsPath, PathV};
use crate::reports::{name_text, shown_name};
use crate::text::{put_each, texts_view};

verus! {

/// How far an errors file has got.
#[derive(Debug, Clone, Copy, PartialEq, Eq, Structural)]
pub enum Stage {
    /// No issue has been recorded yet.
    Unopened,
    /// The file is there.
    Open,
    /// The file could not be created; this is not tried again.
    Failed,
}

/// A stream to the errors file that opens itself on the first recorded issue. Whoever holds the
/// issues keeps them in memory as well, so nothing is lost where the file cannot be created.
#[derive(Debug)]
pub struct LazyErrors {
    path: FsPath,
    stage: Stage,
}

impl LazyErrors {
    pub closed spec fn spec_path(&self) -> PathV {
        self.path@
    }

    pub closed spec fn spec_stage(&self) -> Stage {
        self.stage
    }

    pub fn new(path: &FsPath) -> (r: LazyErrors)
        ensures
            r.spec_path() == path@,
            r.spec_stage() == Stage::Unopened,
    {
        LazyErrors { path: path.clone(), stage: Stage::Unopened }
    }

    /// Where the file is or would be.
    pub fn path(&self) -> (r: &FsPath)
        ensures
            r@ == self.spec_path(),
    {
        &self.path
    }

    /// Whether recording an issue has to create the file first.
    pub fn wants_creating(&self) -> (r: bool)
        ensures
            r == (self.spec_stage() == Stage::Unopened),
    {
        self.stage == Stage::Unopened
    }

    /// Notes whether the file could be created.
    pub fn note_creation(&mut self, created: bool)
        ensures
            final(self).spec_path() == old(self).spec_path(),
            final(self).spec_stage() == if old(self).spec_stage() == Stage::Unopened {
                if created {
                    Stage::Open
                } else {
                    Stage::Failed
                }
            } else {
                old(self).spec_stage()
            },
    {
        if self.stage == Stage::Unopened {
            self.stage = if created {
                Stage::Open
            } else {
                Stage::Failed
            };
        }
    }

    /// The file's path, but only once issues have actually been written to it.
    pub fn written_path(&self) -> (r: Option<&FsPath>)
        ensures
            r is Some <==> self.spec_stage() == Stage::Open,
            r matches Some(p) ==> p@ == self.spec_path(),
    {
        if self.stage == Stage::Open {
            Some(&self.path)
        } else {
            None
        }
    }

    /// The file's name, for pointing at it.
    pub fn file_name(&self) -> (r: String)
        ensures
            r@ == shown_name(self.spec_path()),
    {
        name_text(&self.path)
    }
}

/// The first line of a sync's errors file.
pub const ISSUES_HEADER: &'static str = "filesync issues (one per line)";

pub open spec fn put_line() -> spec_fn(Seq<char>, Seq<char>) -> Seq<char> {
    |out: Seq<char>, m: Seq<char>| out + m + "\n"@
}

/// `out` with each text on a line of its own, but for the last line break.
pub open spec fn put_joined(out: Seq<char>, texts: Seq<Seq<char>>) -> Seq<char> {
    if texts.len() == 0 {
        out
    } else {
        put_each(out, texts, texts.len() - 1, put_line()) + texts.last()
    }
}

/// What a comparison's errors file holds.
pub open spec fn diff_errors_text(issues: Seq<Seq<char>>) -> Seq<char> {
    put_joined("filesync diff issues (one per line)\n"@, issues) + "\n"@
}

/// What a comparison's errors file holds: the collected issues, one per line.
pub fn diff_errors(issues: &Vec<String>) -> (r: String)
    ensures
        r@ == diff_errors_text(texts_view(issues@)),
{
    let mut s = String::from_str("filesync diff issues (one per line)\n");
    let ghost start = s@;
    let ghost ts = texts_view(issues@);
    let n: usize = issues.len();
    let mut i: usize = 0;
    while i + 1 < n
        invariant
            n == issues@.len(),
            ts == texts_view(issues@),
            0 <= i,
            n > 0 ==> i < n,
            n == 0 ==> i == 0,
            s@ == put_each(start, ts, i as int, put_line()),
        decreases n - i,
    {
        assert(ts[i as int] == issues@[i as int]@);
        s.append(issues[i].as_str());
        s.append("\n");
        i = i + 1;
    }
    if n > 0 {
        assert(ts.last() == issues@[n - 1]@);
        s.append(issues[n - 1].as_str());
    }
    s.append("\n");
    s
}

// ── laws ─────────────────────────────────────────────────────────────────────

proof fn lemma_same_front(out: Seq<char>, a: Seq<Seq<char>>, b: Seq<Seq<char>>, n: int)
    requires
        n <= a.len(),
        n <= b.len(),
        forall|i: int| 0 <= i < n ==> #[trigger] a[i] == b[i],
    ensures
        put_each(out, a, n, put_line()) == put_each(out, b, n, put_line()),
    decreases n,
{
    if n > 0 {
        lemma_same_front(out, a, b, n - 1);
        assert(a[n - 1] == b[n - 1]);
    }
}

/// Each issue adds a line of its own to an errors file, behind the title and those before it.
pub proof fn each_issue_adds_a_line(issues: Seq<Seq<char>>, m: Seq<char>)
    ensures
        issues.len() == 0 ==> diff_errors_text(issues.push(m)) == "filesync diff issues (one per line)\n"@ + m + "\n"@,
        issues.len() > 0 ==> diff_errors_text(issues.push(m)) == diff_errors_text(issues) + m + "\n"@,
{
    let all = issues.push(m);
    let out = "filesync diff issues (one per line)\n"@;
    assert(all.last() == m);
    if issues.len() > 0 {
        let n = issues.len() as int;
        lemma_same_front(out, all, issues, n - 1);
        assert(all[n - 1] == issues[n - 1]);
        assert(put_each(out, all, n, put_line()) == put_each(out, issues, n - 1, put_line()) + issues.last() + "\n"@);
    }
}

} // verus!
