//! Refuse bad configurations before touching a single file. Every rule here compares canonical paths
//! (see [`canonicalize_lenient`]), so that none can be dodged with a symlink, `..`, or a tail that
//! does not exist yet.
use vstd::prelude::*;

use crate::manifest::{DstRoot, SrcRoot, opt_path};
use crate::paths::{FsPath, PathV, SpelledV, cur_comp, is_absolute, is_name, joined, parent_of, path_bytes, root_comp, starts_with, up_comp};
use crate::text::{push_spelled, utf8_lossy};

verus! {

// ── canonical paths ──────────────────────────────────────────────────────────

/// What resolving a path on the file system came to: its canonical form, if it exists.
#[derive(Debug)]
pub struct Answer {
    pub path: FsPath,
    pub resolved: Option<FsPath>,
}

/// The value of an [`Answer`].
pub struct AnswerV {
    pub path: PathV,
    pub resolved: Option<PathV>,
}

impl Answer {
    pub open spec fn value(&self) -> AnswerV {
        AnswerV { path: self.path@, resolved: opt_path(self.resolved) }
    }
}

pub open spec fn answers_view(v: Seq<Answer>) -> Seq<AnswerV> {
    Seq::new(v.len(), |i: int| v[i].value())
}

/// The first answer for a path, if there is one.
pub open spec fn answer_for(answers: Seq<AnswerV>, p: PathV) -> Option<Option<PathV>>
    decreases answers.len(),
{
    if answers.len() == 0 {
        None
    } else if answers[0].path == p {
        Some(answers[0].resolved)
    } else {
        answer_for(answers.subrange(1, answers.len() as int), p)
    }
}

/// A path is canonicalized, or it takes to know first what this path resolves to.
#[derive(Debug)]
pub enum Lenient {
    Done(FsPath),
    Ask(FsPath),
}

/// The value of [`Lenient`], while components are still being walked.
pub enum Walk {
    /// The path so far, and whether all of it exists.
    At { out: PathV, exists: bool },
    Ask(PathV),
}

/// The path without its last component, or as it is where it has no parent.
pub open spec fn popped(p: PathV) -> PathV {
    match parent_of(p) {
        Some(q) => q,
        None => p,
    }
}

/// One component further.
pub open spec fn stepped(out: PathV, exists: bool, c: Seq<u8>, answers: Seq<AnswerV>) -> Walk {
    if c == root_comp() {
        Walk::At { out: seq![root_comp()], exists }
    } else if c == cur_comp() {
        Walk::At { out, exists }
    } else if c == up_comp() {
        Walk::At { out: popped(out), exists }
    } else if !exists {
        Walk::At { out: out.push(c), exists: false }
    } else {
        match answer_for(answers, out.push(c)) {
            None => Walk::Ask(out.push(c)),
            Some(Some(r)) => Walk::At { out: r, exists: true },
            Some(None) => Walk::At { out: out.push(c), exists: false },
        }
    }
}

/// The first `n` components of a path, walked. While they exist, they are resolved for real; once
/// one does not, the rest is taken by its text.
pub open spec fn walked(abs: PathV, n: int, answers: Seq<AnswerV>) -> Walk
    decreases n,
{
    if n <= 0 {
        Walk::At { out: Seq::empty(), exists: true }
    } else {
        match walked(abs, n - 1, answers) {
            Walk::Ask(p) => Walk::Ask(p),
            Walk::At { out, exists } => stepped(out, exists, abs[n - 1], answers),
        }
    }
}

/// A path taken from the current directory.
pub open spec fn absolutized(p: PathV, cwd: Option<PathV>) -> PathV {
    if is_absolute(p) {
        p
    } else {
        match cwd {
            Some(c) => joined(c, p),
            None => p,
        }
    }
}

/// A path walked to its end.
pub open spec fn lenient(p: PathV, cwd: Option<PathV>, answers: Seq<AnswerV>) -> Walk {
    let abs = absolutized(p, cwd);
    walked(abs, abs.len() as int, answers)
}

fn lookup<'a>(answers: &'a Vec<Answer>, p: &FsPath) -> (r: Option<&'a Option<FsPath>>)
    ensures
        match answer_for(answers_view(answers@), p@) {
            None => r is None,
            Some(x) => r matches Some(y) && opt_path(*y) == x,
        },
{
    let ghost all = answers_view(answers@);
    let mut i: usize = 0;
    assert(all.subrange(0, all.len() as int) =~= all);
    while i < answers.len()
        invariant
            all == answers_view(answers@),
            0 <= i <= answers@.len(),
            answer_for(all, p@) == answer_for(all.subrange(i as int, all.len() as int), p@),
        decreases answers@.len() - i,
    {
        let ghost rest = all.subrange(i as int, all.len() as int);
        assert(rest[0] == answers@[i as int].value());
        if answers[i].path.same(p) {
            return Some(&answers[i].resolved);
        }
        assert(rest.subrange(1, rest.len() as int) =~= all.subrange(i + 1, all.len() as int));
        i = i + 1;
    }
    None
}

fn is_comp(c: &Vec<u8>, first: u8, twice: bool) -> (r: bool)
    ensures
        r == (c@ == if twice {
            seq![first, first]
        } else {
            seq![first]
        }),
{
    if twice {
        let r = c.len() == 2 && c[0] == first && c[1] == first;
        proof {
            if r {
                assert(c@ =~= seq![first, first]);
            }
        }
        r
    } else {
        let r = c.len() == 1 && c[0] == first;
        proof {
            if r {
                assert(c@ =~= seq![first]);
            }
        }
        r
    }
}

/// Canonicalizes `path`, tolerating a tail that was not created yet. A relative path is taken from
/// the current directory first, so that a relative argument can never dodge an overlap check. While
/// components exist, they are resolved for real, following symlinks, by the answers given; `..` then
/// leads to the physical parent. Once a component does not exist, the rest is taken by its text,
/// which is what creating the directories will amount to. Where an answer is missing, it is asked
/// for. What comes of it is spelled plainly, as resolved paths are.
pub fn canonicalize_lenient(path: &FsPath, cwd: &Option<FsPath>, answers: &Vec<Answer>) -> (r: Lenient)
    ensures
        match lenient(path@, opt_path(*cwd), answers_view(answers@)) {
            Walk::At { out, .. } => r matches Lenient::Done(p) && p@ == out && p.spelled() == path_bytes(out),
            Walk::Ask(q) => r matches Lenient::Ask(p) && p@ == q && p.spelled() == path_bytes(q),
        },
{
    let abs = if path.is_absolute() {
        path.clone()
    } else {
        match cwd {
            Some(c) => c.join(path),
            None => path.clone(),
        }
    };
    let ghost ans = answers_view(answers@);
    let mut out = FsPath::empty();
    let mut exists = true;
    let n: usize = abs.depth();
    let mut i: usize = 0;
    while i < n
        invariant
            n == abs@.len(),
            0 <= i <= n,
            abs@ == absolutized(path@, opt_path(*cwd)),
            ans == answers_view(answers@),
            walked(abs@, i as int, ans) == (Walk::At { out: out@, exists }),
        decreases n - i,
    {
        let c = abs.component(i);
        let ghost step = stepped(out@, exists, c@, ans);
        assert(walked(abs@, i + 1, ans) == step);
        if is_comp(c, crate::paths::SLASH, false) {
            let mut root = FsPath::empty();
            root.push(crate::paths::copy_bytes(c.as_slice()));
            assert(root@ =~= seq![root_comp()]);
            out = root;
        } else if is_comp(c, crate::paths::DOT, false) {
        } else if is_comp(c, crate::paths::DOT, true) {
            if let Some(p) = out.parent() {
                out = p;
            }
        } else {
            out.push(crate::paths::copy_bytes(c.as_slice()));
            if exists {
                match lookup(answers, &out) {
                    None => {
                        proof {
                            lemma_ask_stays(abs@, i + 1, n as int, ans);
                        }
                        return Lenient::Ask(out);
                    },
                    Some(Some(p)) => {
                        out = p.clone();
                    },
                    Some(None) => {
                        exists = false;
                    },
                }
            }
        }
        i = i + 1;
    }
    Lenient::Done(out.plain())
}

proof fn lemma_ask_stays(abs: PathV, m: int, n: int, answers: Seq<AnswerV>)
    requires
        0 <= m <= n,
        walked(abs, m, answers) is Ask,
    ensures
        walked(abs, n, answers) == walked(abs, m, answers),
    decreases n - m,
{
    if m < n {
        lemma_ask_stays(abs, m, n - 1, answers);
    }
}

/// A canonical path: it starts at the root, and nothing after that is the root, `.` or `..`.
pub open spec fn is_canonical(p: PathV) -> bool {
    is_absolute(p) && forall|i: int| 1 <= i < p.len() ==> is_name(#[trigger] p[i])
}

/// Wherever the file system resolves paths to canonical ones, canonicalizing an absolute path, or a
/// relative one from an absolute current directory, comes to a canonical path: no relative argument,
/// `.` or `..` is left to dodge a comparison.
pub proof fn nothing_dodges_canonicalization(p: PathV, cwd: Option<PathV>, answers: Seq<AnswerV>)
    requires
        is_absolute(p) || (cwd matches Some(c) && is_absolute(c)),
        forall|i: int|
            0 <= i < answers.len() ==> ((#[trigger] answers[i]).resolved matches Some(r) ==> is_canonical(r)),
    ensures
        lenient(p, cwd, answers) matches Walk::At { out, .. } ==> is_canonical(out),
{
    let abs = absolutized(p, cwd);
    assert(is_absolute(abs));
    lemma_walked_canonical(abs, abs.len() as int, answers);
}

proof fn lemma_answer_for(answers: Seq<AnswerV>, p: PathV)
    requires
        forall|i: int|
            0 <= i < answers.len() ==> ((#[trigger] answers[i]).resolved matches Some(r) ==> is_canonical(r)),
    ensures
        answer_for(answers, p) matches Some(Some(r)) ==> is_canonical(r),
    decreases answers.len(),
{
    if answers.len() > 0 && answers[0].path != p {
        let rest = answers.subrange(1, answers.len() as int);
        assert forall|i: int| 0 <= i < rest.len() implies ((#[trigger] rest[i]).resolved matches Some(r)
            ==> is_canonical(r)) by {
            assert(rest[i] == answers[i + 1]);
        }
        lemma_answer_for(rest, p);
    }
}

proof fn lemma_walked_canonical(abs: PathV, n: int, answers: Seq<AnswerV>)
    requires
        is_absolute(abs),
        1 <= n <= abs.len(),
        forall|i: int|
            0 <= i < answers.len() ==> ((#[trigger] answers[i]).resolved matches Some(r) ==> is_canonical(r)),
    ensures
        walked(abs, n, answers) matches Walk::At { out, .. } ==> is_canonical(out),
    decreases n,
{
    if n == 1 {
        assert(walked(abs, 0, answers) == (Walk::At { out: Seq::empty(), exists: true }));
        assert(walked(abs, 1, answers) == stepped(Seq::empty(), true, abs[0], answers));
    } else {
        lemma_walked_canonical(abs, n - 1, answers);
        match walked(abs, n - 1, answers) {
            Walk::At { out, exists } => {
                let c = abs[n - 1];
                lemma_answer_for(answers, out.push(c));
                if is_name(c) {
                    assert forall|i: int| 1 <= i < out.push(c).len() implies is_name(#[trigger] out.push(c)[i]) by {
                        if i < out.len() {
                            assert(out.push(c)[i] == out[i]);
                        }
                    }
                }
                if c == up_comp() && out.len() > 1 {
                    assert(is_name(out[out.len() - 1]));
                    assert(popped(out) == out.drop_last());
                    assert forall|i: int| 1 <= i < popped(out).len() implies is_name(#[trigger] popped(out)[i]) by {
                        assert(popped(out)[i] == out[i]);
                    }
                }
            },
            Walk::Ask(_) => {},
        }
    }
}

/// A canonical path of which nothing below the root exists is its own canonical form.
pub proof fn a_missing_path_stays_as_it_is(p: PathV, cwd: Option<PathV>, answers: Seq<AnswerV>)
    requires
        is_canonical(p),
        p.len() > 1 ==> answer_for(answers, p.subrange(0, 2)) == Some(None::<PathV>),
    ensures
        lenient(p, cwd, answers) matches Walk::At { out, .. } && out == p,
{
    lemma_missing_prefix(p, p.len() as int, answers);
    assert(p.subrange(0, p.len() as int) =~= p);
}

proof fn lemma_missing_prefix(p: PathV, n: int, answers: Seq<AnswerV>)
    requires
        is_canonical(p),
        p.len() > 1 ==> answer_for(answers, p.subrange(0, 2)) == Some(None::<PathV>),
        1 <= n <= p.len(),
    ensures
        walked(p, n, answers) == (Walk::At { out: p.subrange(0, n), exists: n == 1 }),
    decreases n,
{
    if n == 1 {
        assert(walked(p, 0, answers) == (Walk::At { out: Seq::empty(), exists: true }));
        assert(p.subrange(0, 1) =~= seq![root_comp()]);
    } else {
        lemma_missing_prefix(p, n - 1, answers);
        assert(is_name(p[n - 1]));
        assert(p.subrange(0, n - 1).push(p[n - 1]) =~= p.subrange(0, n));
    }
}

// ── the roots ────────────────────────────────────────────────────────────────

/// What is known of `--from`.
#[derive(Debug)]
pub enum Source {
    NotDir,
    /// It is a directory, but could not be resolved: what the system reported.
    Unresolved(String),
    /// It is a directory with this canonical path.
    At(FsPath),
}

/// The value of [`Source`].
pub enum SourceV {
    NotDir,
    Unresolved(Seq<char>),
    At(SpelledV),
}

impl View for Source {
    type V = SourceV;

    open spec fn view(&self) -> SourceV {
        match self {
            Source::NotDir => SourceV::NotDir,
            Source::Unresolved(e) => SourceV::Unresolved(e@),
            Source::At(p) => SourceV::At(p.named()),
        }
    }
}

/// Why a source and a destination are refused, if they are.
pub open spec fn roots_refusal(from: Seq<u8>, source: SourceV, ct: SpelledV) -> Option<Seq<char>> {
    match source {
        SourceV::NotDir => Some("source is not a directory: "@ + utf8_lossy(from)),
        SourceV::Unresolved(e) => Some("cannot resolve --from "@ + utf8_lossy(from) + ": "@ + e),
        SourceV::At(cf) => if parent_of(cf.path) is None {
            Some(
                "--from must not be the filesystem root (scanning / would descend into every mount, including the destination itself)"@,
            )
        } else if parent_of(ct.path) is None {
            Some("--to must not be the filesystem root"@)
        } else if cf.path == ct.path {
            Some("--from and --to are the same directory"@)
        } else if starts_with(ct.path, cf.path) {
            Some(
                "--to is inside --from — that would copy the tree into itself (from="@ + utf8_lossy(cf.text)
                    + ", to="@ + utf8_lossy(ct.text) + ")"@,
            )
        } else if starts_with(cf.path, ct.path) {
            Some(
                "--from is inside --to — mirror-delete could erase the source (from="@ + utf8_lossy(cf.text)
                    + ", to="@ + utf8_lossy(ct.text) + ")"@,
            )
        } else {
            None
        },
    }
}

fn pair_text(lead: &str, a: &FsPath, middle: &str, b: &FsPath) -> (r: String)
    ensures
        r@ == lead@ + utf8_lossy(a.spelled()) + middle@ + utf8_lossy(b.spelled()) + ")"@,
{
    let mut s = String::from_str(lead);
    push_spelled(&mut s, a);
    s.append(middle);
    push_spelled(&mut s, b);
    s.append(")");
    s
}

/// Validates the source and destination before doing anything: the source is a directory, neither is
/// the file system root, and they do not overlap, be they the same or one inside the other. `ct` is
/// the canonical path of the destination.
pub fn validate_roots(from: &FsPath, source: &Source, ct: &FsPath) -> (r: Result<(), String>)
    ensures
        match roots_refusal(from.spelled(), source@, ct.named()) {
            None => r == Ok::<(), String>(()),
            Some(why) => r matches Err(e) && e@ == why,
        },
{
    match source {
        Source::NotDir => {
            let mut s = String::from_str("source is not a directory: ");
            push_spelled(&mut s, from);
            Err(s)
        },
        Source::Unresolved(e) => {
            let mut s = String::from_str("cannot resolve --from ");
            push_spelled(&mut s, from);
            s.append(": ");
            s.append(e.as_str());
            Err(s)
        },
        Source::At(cf) => {
            if cf.parent().is_none() {
                Err(
                    String::from_str(
                        "--from must not be the filesystem root (scanning / would descend into every mount, including the destination itself)",
                    ),
                )
            } else if ct.parent().is_none() {
                Err(String::from_str("--to must not be the filesystem root"))
            } else if cf.same(ct) {
                Err(String::from_str("--from and --to are the same directory"))
            } else if ct.starts_with(cf) {
                Err(
                    pair_text(
                        "--to is inside --from — that would copy the tree into itself (from=",
                        cf,
                        ", to=",
                        ct,
                    ),
                )
            } else if cf.starts_with(ct) {
                Err(
                    pair_text(
                        "--from is inside --to — mirror-delete could erase the source (from=",
                        cf,
                        ", to=",
                        ct,
                    ),
                )
            } else {
                Ok(())
            }
        },
    }
}

/// Two trees share no path.
pub open spec fn disjoint(a: PathV, b: PathV) -> bool {
    !starts_with(a, b) && !starts_with(b, a)
}

/// Roots that are accepted share no path: nothing written below the destination lies in the source.
pub proof fn accepted_roots_are_disjoint(from: Seq<u8>, cf: SpelledV, ct: SpelledV, p: PathV)
    requires
        roots_refusal(from, SourceV::At(cf), ct) is None,
    ensures
        disjoint(cf.path, ct.path),
        !(starts_with(p, cf.path) && starts_with(p, ct.path)),
{
    let f = cf.path;
    let t = ct.path;
    if starts_with(p, f) && starts_with(p, t) {
        if f.len() <= t.len() {
            assert(t.subrange(0, f.len() as int) =~= p.subrange(0, f.len() as int));
        } else {
            assert(f.subrange(0, t.len() as int) =~= p.subrange(0, t.len() as int));
        }
    }
}

// ── the output directory ─────────────────────────────────────────────────────

/// The directory that the output files go into: the one asked for, which must exist, or the current
/// one. `report_is_dir` tells whether the one asked for is a directory; `cwd` is the current one, or
/// why it is not known.
pub fn choose_output_dir(report: &Option<FsPath>, report_is_dir: bool, cwd: &Result<FsPath, String>) -> (r:
    Result<FsPath, String>)
    ensures
        match report {
            Some(p) => if report_is_dir {
                r matches Ok(d) && d@ == p@ && d.spelled() == p.spelled()
            } else {
                r matches Err(e) && e@
                    == "--report must be an existing directory to write the output files into: "@ + utf8_lossy(p.spelled())
            },
            None => match cwd {
                Ok(c) => r matches Ok(d) && d@ == c@ && d.spelled() == c.spelled(),
                Err(e) => r matches Err(x) && x@
                    == "cannot determine the current directory for output files: "@ + e@,
            },
        },
{
    match report {
        Some(p) => {
            if report_is_dir {
                Ok(p.clone())
            } else {
                let mut s = String::from_str(
                    "--report must be an existing directory to write the output files into: ",
                );
                push_spelled(&mut s, p);
                Err(s)
            }
        },
        None => match cwd {
            Ok(c) => Ok(c.clone()),
            Err(e) => {
                let mut s = String::from_str("cannot determine the current directory for output files: ");
                s.append(e.as_str());
                Err(s)
            },
        },
    }
}

/// Why an output directory is refused, if it is.
pub open spec fn output_refusal(
    dir: Seq<u8>,
    cdir: PathV,
    cf: Option<PathV>,
    cd: PathV,
) -> Option<Seq<char>> {
    if cf matches Some(f) && starts_with(cdir, f) {
        Some(
            "the output directory ("@ + utf8_lossy(dir)
                + ") is inside the source, which is read-only — run from a different directory or pass --report <dir outside it>"@,
        )
    } else if starts_with(cdir, cd) {
        Some(
            "the output directory ("@ + utf8_lossy(dir)
                + ") is inside the destination — the next sync would delete the files as extras; pass --report <dir outside it>"@,
        )
    } else {
        None
    }
}

/// Refuses to place the output files inside either tree: the source is never written to, and in the
/// destination the next sync would delete them as extras. `cdir` and `cd` are the canonical paths of
/// the directory and the destination; `cf` is that of the source, where it resolves.
pub fn resolve_output_dir(dir: FsPath, cdir: &FsPath, cf: &Option<FsPath>, cd: &FsPath) -> (r: Result<
    FsPath,
    String,
>)
    ensures
        match output_refusal(dir.spelled(), cdir@, opt_path(*cf), cd@) {
            None => r matches Ok(d) && d@ == dir@ && d.spelled() == dir.spelled(),
            Some(why) => r matches Err(e) && e@ == why,
        },
{
    let in_source = match cf {
        Some(f) => cdir.starts_with(f),
        None => false,
    };
    if in_source {
        let mut s = String::from_str("the output directory (");
        push_spelled(&mut s, &dir);
        s.append(") is inside the source, which is read-only — run from a different directory or pass --report <dir outside it>");
        return Err(s);
    }
    if cdir.starts_with(cd) {
        let mut s = String::from_str("the output directory (");
        push_spelled(&mut s, &dir);
        s.append(") is inside the destination — the next sync would delete the files as extras; pass --report <dir outside it>");
        return Err(s);
    }
    Ok(dir)
}

/// No output file lies in either tree: a directory that is accepted is below neither root.
pub proof fn reports_stay_out_of_the_trees(dir: Seq<u8>, cdir: PathV, cf: PathV, cd: PathV)
    requires
        output_refusal(dir, cdir, Some(cf), cd) is None,
    ensures
        !starts_with(cdir, cf),
        !starts_with(cdir, cd),
{
}

// ── the backup directory ─────────────────────────────────────────────────────

/// What is found where the backup directory is to be.
#[derive(Debug)]
pub enum BackupPlace {
    Missing,
    /// It could not be examined.
    Unknown(String),
    NotDir,
    /// It is a directory that could not be listed.
    Unreadable(String),
    Empty,
    NotEmpty,
}

/// The value of a [`BackupPlace`].
pub enum PlaceV {
    Missing,
    Unknown(Seq<char>),
    NotDir,
    Unreadable(Seq<char>),
    Empty,
    NotEmpty,
}

impl View for BackupPlace {
    type V = PlaceV;

    open spec fn view(&self) -> PlaceV {
        match self {
            BackupPlace::Missing => PlaceV::Missing,
            BackupPlace::Unknown(e) => PlaceV::Unknown(e@),
            BackupPlace::NotDir => PlaceV::NotDir,
            BackupPlace::Unreadable(e) => PlaceV::Unreadable(e@),
            BackupPlace::Empty => PlaceV::Empty,
            BackupPlace::NotEmpty => PlaceV::NotEmpty,
        }
    }
}

/// The value of a question that may have failed.
pub open spec fn answered(r: Result<bool, String>) -> Result<bool, Seq<char>> {
    match r {
        Ok(b) => Ok(b),
        Err(e) => Err(e@),
    }
}

pub open spec fn resolved_source(r: Result<FsPath, String>) -> Result<SpelledV, Seq<char>> {
    match r {
        Ok(p) => Ok(p.named()),
        Err(e) => Err(e@),
    }
}

/// Why what is found at the backup directory's place rules it out, if it does.
pub open spec fn place_refusal(cb: SpelledV, place: PlaceV) -> Option<Seq<char>> {
    match place {
        PlaceV::Missing => None,
        PlaceV::Empty => None,
        PlaceV::Unknown(e) => Some("cannot inspect --backup-dir "@ + utf8_lossy(cb.text) + ": "@ + e),
        PlaceV::NotDir => Some("--backup-dir "@ + utf8_lossy(cb.text) + " exists and is not a directory"@),
        PlaceV::Unreadable(e) => Some("cannot read --backup-dir "@ + utf8_lossy(cb.text) + ": "@ + e),
        PlaceV::NotEmpty => Some(
            "--backup-dir "@ + utf8_lossy(cb.text)
                + " is not empty — each run needs a fresh backup dir (a previous run's backups stay untouched; pick a new directory)"@,
        ),
    }
}

/// Why a backup directory is refused, if it is.
pub open spec fn backup_refusal(
    cb: SpelledV,
    src: Seq<u8>,
    cf: Result<SpelledV, Seq<char>>,
    dst: Seq<u8>,
    cd: PathV,
    place: PlaceV,
    same: Result<bool, Seq<char>>,
) -> Option<Seq<char>> {
    match cf {
        Err(e) => Some("cannot resolve source "@ + utf8_lossy(src) + ": "@ + e),
        Ok(f) => if starts_with(cb.path, f.path) || starts_with(f.path, cb.path) {
            Some(
                "--backup-dir must not overlap the source (backup-dir="@ + utf8_lossy(cb.text) + ", source="@ + utf8_lossy(f.text) + ")"@,
            )
        } else if cb.path == cd {
            Some("--backup-dir must not be the destination itself"@)
        } else if place_refusal(cb, place) is Some {
            place_refusal(cb, place)
        } else {
            match same {
                Ok(true) => None,
                Ok(false) => Some(
                    "--backup-dir must be on the same filesystem as the destination (backup-dir="@ + utf8_lossy(cb.text) + ", destination="@ + utf8_lossy(dst) + ")"@,
                ),
                Err(e) => Some("cannot check --backup-dir location: "@ + e),
            }
        },
    }
}

fn judge_place(cb: &FsPath, place: &BackupPlace) -> (r: Result<(), String>)
    ensures
        match place_refusal(cb.named(), place@) {
            None => r == Ok::<(), String>(()),
            Some(why) => r matches Err(e) && e@ == why,
        },
{
    match place {
        BackupPlace::Missing => Ok(()),
        BackupPlace::Empty => Ok(()),
        BackupPlace::Unknown(e) => {
            let mut s = String::from_str("cannot inspect --backup-dir ");
            push_spelled(&mut s, cb);
            s.append(": ");
            s.append(e.as_str());
            Err(s)
        },
        BackupPlace::NotDir => {
            let mut s = String::from_str("--backup-dir ");
            push_spelled(&mut s, cb);
            s.append(" exists and is not a directory");
            Err(s)
        },
        BackupPlace::Unreadable(e) => {
            let mut s = String::from_str("cannot read --backup-dir ");
            push_spelled(&mut s, cb);
            s.append(": ");
            s.append(e.as_str());
            Err(s)
        },
        BackupPlace::NotEmpty => {
            let mut s = String::from_str("--backup-dir ");
            push_spelled(&mut s, cb);
            s.append(" is not empty — each run needs a fresh backup dir (a previous run's backups stay untouched; pick a new directory)");
            Err(s)
        },
    }
}

/// Validates `--backup-dir` before anything is mutated. It must not overlap the source, which is
/// never written to; nor be the destination itself, whose marker would hide the whole mirror; it
/// must be fresh, for a rename would overwrite what bears the same name; and it must be on the
/// destination's file system, which a rename cannot leave. `cb` and `cd` are the canonical paths of
/// the backup directory and the destination, `cf` that of the source.
pub fn validate_backup_dir(
    cb: &FsPath,
    src: &SrcRoot,
    cf: &Result<FsPath, String>,
    dst: &DstRoot,
    cd: &FsPath,
    place: &BackupPlace,
    same: &Result<bool, String>,
) -> (r: Result<(), String>)
    ensures
        match backup_refusal(
            cb.named(),
            src.spelled(),
            resolved_source(*cf),
            dst.spelled(),
            cd@,
            place@,
            answered(*same),
        ) {
            None => r == Ok::<(), String>(()),
            Some(why) => r matches Err(e) && e@ == why,
        },
{
    let f = match cf {
        Ok(f) => f,
        Err(e) => {
            let mut s = String::from_str("cannot resolve source ");
            push_spelled(&mut s, src.path());
            s.append(": ");
            s.append(e.as_str());
            return Err(s);
        },
    };
    if cb.starts_with(f) || f.starts_with(cb) {
        return Err(pair_text("--backup-dir must not overlap the source (backup-dir=", cb, ", source=", f));
    }
    if cb.same(cd) {
        return Err(String::from_str("--backup-dir must not be the destination itself"));
    }
    match judge_place(cb, place) {
        Ok(()) => {},
        Err(e) => {
            return Err(e);
        },
    }
    match same {
        Ok(true) => Ok(()),
        Ok(false) => {
            let mut s = String::from_str(
                "--backup-dir must be on the same filesystem as the destination (backup-dir=",
            );
            push_spelled(&mut s, cb);
            s.append(", destination=");
            push_spelled(&mut s, dst.path());
            s.append(")");
            Err(s)
        },
        Err(e) => {
            let mut s = String::from_str("cannot check --backup-dir location: ");
            s.append(e.as_str());
            Err(s)
        },
    }
}

/// A backup directory that is accepted is outside the source, is not the destination, holds nothing
/// yet, and can be renamed into.
pub proof fn an_accepted_backup_dir_is_safe(
    cb: SpelledV,
    src: Seq<u8>,
    cf: SpelledV,
    dst: Seq<u8>,
    cd: PathV,
    place: PlaceV,
    same: Result<bool, Seq<char>>,
)
    requires
        backup_refusal(cb, src, Ok(cf), dst, cd, place, same) is None,
    ensures
        disjoint(cb.path, cf.path),
        cb.path != cd,
        place is Missing || place is Empty,
        same == Ok::<bool, Seq<char>>(true),
{
}

/// The last component of the path is one that can be left: it has a parent.
pub open spec fn has_parent(p: PathV) -> bool {
    p.len() > 0 && p[p.len() - 1] != root_comp()
}

/// One path lies at or below another.
pub open spec fn at_or_below(p: PathV, dir: PathV) -> bool {
    dir.len() <= p.len() && forall|i: int| 0 <= i < dir.len() ==> p[i] == #[trigger] dir[i]
}

proof fn lemma_at_or_below(p: PathV, dir: PathV)
    ensures
        at_or_below(p, dir) == starts_with(p, dir),
{
    if starts_with(p, dir) {
        assert forall|i: int| 0 <= i < dir.len() implies p[i] == #[trigger] dir[i] by {
            assert(p.subrange(0, dir.len() as int)[i] == dir[i]);
        }
    }
    if at_or_below(p, dir) {
        assert(p.subrange(0, dir.len() as int) =~= dir);
    }
}

/// A source and a destination are accepted exactly where the source is a directory that resolves,
/// neither is the root of the file system, and neither lies at or below the other.
pub proof fn only_separate_roots_are_accepted(from: Seq<u8>, source: SourceV, ct: SpelledV)
    ensures
        roots_refusal(from, source, ct) is None <==> (source matches SourceV::At(cf) && has_parent(cf.path)
            && has_parent(ct.path) && !at_or_below(cf.path, ct.path) && !at_or_below(ct.path, cf.path)),
{
    if let SourceV::At(cf) = source {
        lemma_at_or_below(cf.path, ct.path);
        lemma_at_or_below(ct.path, cf.path);
        if cf.path == ct.path {
            assert(cf.path.subrange(0, ct.path.len() as int) =~= ct.path);
        }
        if cf.path.len() > 0 {
            assert(cf.path.last() == cf.path[cf.path.len() - 1]);
        }
        if ct.path.len() > 0 {
            assert(ct.path.last() == ct.path[ct.path.len() - 1]);
        }
    }
}

/// An output directory is accepted exactly where it lies in neither tree.
pub proof fn only_outside_directories_take_output(dir: Seq<u8>, cdir: PathV, cf: Option<PathV>, cd: PathV)
    ensures
        output_refusal(dir, cdir, cf, cd) is None <==> !at_or_below(cdir, cd) && !(cf matches Some(f) && at_or_below(
            cdir,
            f,
        )),
{
    lemma_at_or_below(cdir, cd);
    if let Some(f) = cf {
        lemma_at_or_below(cdir, f);
    }
}

/// A backup directory is accepted exactly where the source resolves and shares no path with it, it is
/// not the destination, nothing is there yet or an empty directory, and it is known to be on the
/// destination's file system.
pub proof fn only_a_fresh_place_takes_backups(
    cb: SpelledV,
    src: Seq<u8>,
    cf: Result<SpelledV, Seq<char>>,
    dst: Seq<u8>,
    cd: PathV,
    place: PlaceV,
    same: Result<bool, Seq<char>>,
)
    ensures
        backup_refusal(cb, src, cf, dst, cd, place, same) is None <==> {
            &&& cf matches Ok(f) && !at_or_below(cb.path, f.path) && !at_or_below(f.path, cb.path)
            &&& cb.path != cd
            &&& place == PlaceV::Missing || place == PlaceV::Empty
            &&& same == Ok::<bool, Seq<char>>(true)
        },
{
    if let Ok(f) = cf {
        lemma_at_or_below(cb.path, f.path);
        lemma_at_or_below(f.path, cb.path);
    }
}

/// Walking on from the same place comes to the same end.
proof fn lemma_walk_on(a: PathV, b: PathV, m: int, n: int, k: int, answers: Seq<AnswerV>)
    requires
        0 <= m <= a.len(),
        0 <= n <= b.len(),
        0 <= k,
        m + k <= a.len(),
        n + k <= b.len(),
        forall|i: int| 0 <= i < k ==> a[m + i] == #[trigger] b[n + i],
        walked(a, m, answers) == walked(b, n, answers),
    ensures
        walked(a, m + k, answers) == walked(b, n + k, answers),
    decreases k,
{
    if k > 0 {
        lemma_walk_on(a, b, m, n, k - 1, answers);
        assert(a[m + (k - 1)] == b[n + (k - 1)]);
    }
}

/// A path all of whose beginnings exist under their own names.
pub open spec fn stands_for_itself(r: PathV, answers: Seq<AnswerV>) -> bool {
    is_canonical(r) && forall|n: int|
        2 <= n <= r.len() ==> answer_for(answers, #[trigger] r.subrange(0, n)) == Some(Some(r.subrange(0, n)))
}

proof fn lemma_stands(r: PathV, n: int, answers: Seq<AnswerV>)
    requires
        stands_for_itself(r, answers),
        1 <= n <= r.len(),
    ensures
        walked(r, n, answers) == (Walk::At { out: r.subrange(0, n), exists: true }),
    decreases n,
{
    if n == 1 {
        assert(walked(r, 0, answers) == (Walk::At { out: Seq::empty(), exists: true }));
        assert(r.subrange(0, 1) =~= seq![root_comp()]);
    } else {
        lemma_stands(r, n - 1, answers);
        assert(is_name(r[n - 1]));
        assert(r.subrange(0, n - 1).push(r[n - 1]) =~= r.subrange(0, n));
    }
}

/// Symlinks are followed: where the beginning of a path resolves to some place, the path leads where
/// the rest of it leads from that place.
pub proof fn a_symlink_is_followed(p: PathV, r: PathV, rest: PathV, cwd: Option<PathV>, answers: Seq<AnswerV>)
    requires
        is_absolute(p),
        lenient(p, cwd, answers) == (Walk::At { out: r, exists: true }),
        stands_for_itself(r, answers),
    ensures
        lenient(p + rest, cwd, answers) == lenient(r + rest, cwd, answers),
{
    let (a, b) = (p + rest, r + rest);
    let (m, n) = (p.len() as int, r.len() as int);
    lemma_stands(r, n, answers);
    assert(r.subrange(0, n) =~= r);
    lemma_walk_on(p, a, 0, 0, m, answers);
    lemma_walk_on(r, b, 0, 0, n, answers);
    assert(is_absolute(a) && is_absolute(b));
    lemma_walk_on(a, b, m, n, rest.len() as int, answers);
}

/// A relative path is taken from the current directory.
pub proof fn a_relative_path_starts_here(p: PathV, here: PathV, answers: Seq<AnswerV>)
    requires
        here.len() > 0 && here[0] == root_comp(),
        p.len() > 0 && is_name(p[0]),
    ensures
        lenient(p, Some(here), answers) == lenient(here + p, Some(here), answers),
        lenient(p, Some(here), answers) == lenient(here + p, None, answers),
{
    assert(joined(here, p) =~= here + p);
}

/// A refusal of the roots says which of them lies in the other, or that they are the same.
pub proof fn a_refusal_says_which_tree_holds_the_other(from: Seq<u8>, cf: SpelledV, ct: SpelledV)
    requires
        has_parent(cf.path),
        has_parent(ct.path),
    ensures
        cf.path == ct.path ==> roots_refusal(from, SourceV::At(cf), ct) == Some("--from and --to are the same directory"@),
        at_or_below(ct.path, cf.path) && cf.path != ct.path ==> roots_refusal(from, SourceV::At(cf), ct) == Some(
            "--to is inside --from — that would copy the tree into itself (from="@ + utf8_lossy(cf.text) + ", to="@
                + utf8_lossy(ct.text) + ")"@,
        ),
        at_or_below(cf.path, ct.path) && cf.path != ct.path ==> roots_refusal(from, SourceV::At(cf), ct) == Some(
            "--from is inside --to — mirror-delete could erase the source (from="@ + utf8_lossy(cf.text) + ", to="@
                + utf8_lossy(ct.text) + ")"@,
        ),
{
    lemma_at_or_below(cf.path, ct.path);
    lemma_at_or_below(ct.path, cf.path);
    if at_or_below(cf.path, ct.path) && at_or_below(ct.path, cf.path) {
        assert(cf.path =~= ct.path);
    }
}

/// A refusal of the output directory says which tree it lies in; of both, it names the source.
pub proof fn a_refusal_says_which_tree_takes_no_output(dir: Seq<u8>, cdir: PathV, f: PathV, cd: PathV)
    ensures
        at_or_below(cdir, f) ==> output_refusal(dir, cdir, Some(f), cd) == Some(
            "the output directory ("@ + utf8_lossy(dir)
                + ") is inside the source, which is read-only — run from a different directory or pass --report <dir outside it>"@,
        ),
        at_or_below(cdir, cd) && !at_or_below(cdir, f) ==> output_refusal(dir, cdir, Some(f), cd) == Some(
            "the output directory ("@ + utf8_lossy(dir)
                + ") is inside the destination — the next sync would delete the files as extras; pass --report <dir outside it>"@,
        ),
{
    lemma_at_or_below(cdir, f);
    lemma_at_or_below(cdir, cd);
}

/// A refusal of a backup directory says what is wrong with it: that it overlaps the source, that it is
/// the destination, or that something is in it.
pub proof fn a_refusal_says_what_ails_a_backup_dir(
    cb: SpelledV,
    src: Seq<u8>,
    f: SpelledV,
    dst: Seq<u8>,
    cd: PathV,
    place: PlaceV,
    same: Result<bool, Seq<char>>,
)
    ensures
        at_or_below(cb.path, f.path) || at_or_below(f.path, cb.path) ==> backup_refusal(
            cb,
            src,
            Ok(f),
            dst,
            cd,
            place,
            same,
        ) == Some(
            "--backup-dir must not overlap the source (backup-dir="@ + utf8_lossy(cb.text) + ", source="@ + utf8_lossy(f.text)
                + ")"@,
        ),
        !at_or_below(cb.path, f.path) && !at_or_below(f.path, cb.path) && cb.path == cd ==> backup_refusal(
            cb,
            src,
            Ok(f),
            dst,
            cd,
            place,
            same,
        ) == Some("--backup-dir must not be the destination itself"@),
        !at_or_below(cb.path, f.path) && !at_or_below(f.path, cb.path) && cb.path != cd && place == PlaceV::NotEmpty
            ==> backup_refusal(cb, src, Ok(f), dst, cd, place, same) == Some(
            "--backup-dir "@ + utf8_lossy(cb.text)
                + " is not empty — each run needs a fresh backup dir (a previous run's backups stay untouched; pick a new directory)"@,
        ),
        !at_or_below(cb.path, f.path) && !at_or_below(f.path, cb.path) && cb.path != cd && place == PlaceV::NotDir
            ==> backup_refusal(cb, src, Ok(f), dst, cd, place, same) == Some(
            "--backup-dir "@ + utf8_lossy(cb.text) + " exists and is not a directory"@,
        ),
        !at_or_below(cb.path, f.path) && !at_or_below(f.path, cb.path) && cb.path != cd && place == PlaceV::Missing
            && same == Ok::<bool, Seq<char>>(false) ==> backup_refusal(cb, src, Ok(f), dst, cd, place, same) == Some(
            "--backup-dir must be on the same filesystem as the destination (backup-dir="@ + utf8_lossy(cb.text)
                + ", destination="@ + utf8_lossy(dst) + ")"@,
        ),
{
    lemma_at_or_below(cb.path, f.path);
    lemma_at_or_below(f.path, cb.path);
}

} // verus!
