//! What carrying out a plan amounts to: which action comes next, and what each outcome leaves in
//! the report.
//!
//! One bad file does not abort the whole backup: failures are collected as issues. The one
//! exception to keep-going is a destination that reports itself out of space: the remaining copies
//! are skipped, since each would only churn and fail, and a single issue says so. Each copied file
//! is verified afterwards, and a copy that fails is removed so that a later run redoes it.
use vstd::prelude::*;
use vstd::utf8::encode_utf8;

use crate::artifacts::{BACKUP_MARKER, TMP_PREFIX};
use crate::hash::{Digest, HashOutcome, HashV, hash_view};
use crate::manifest::{Kind, Mtime, opt_path, total_nanos};
use crate::order::{Item, values};
use crate::oserror::{Class, ErrorV, OsError, is_disk_full, out_of_space};
use crate::paths::{FsPath, PathV, SpelledV, add_path, cur_comp, is_absolute, joined, joined_text, named_view, starts_with};
use crate::plan::{Action, ActionV, reported_text};
use crate::reports::findings::{Report, ReportV, with_issue, with_skip};
use crate::reports::shown_name;
use crate::text::{dec, push_dec, push_spelled, show_spelled, utf8_lossy};

verus! {

/// How a plan is carried out.
#[derive(Debug)]
pub struct Options {
    pub verify: bool,
    pub fsync_each: bool,
    pub backup_dir: Option<FsPath>,
    /// Rewrite link targets that lie in the source to relative paths in the mirror.
    pub relative_symlinks: bool,
}

/// What copying an entry came to.
#[derive(Debug)]
pub enum Copied {
    File { bytes: u64, hash: Digest },
    Symlink { broken: bool },
    /// Nothing to copy by nature.
    NoContent,
    /// Real content that could not be reproduced, and why.
    Failed(String),
}

/// The value of [`Copied`].
pub enum CopiedV {
    File { bytes: nat, hash: Seq<u8> },
    Symlink { broken: bool },
    NoContent,
    Failed(Seq<char>),
}

impl View for Copied {
    type V = CopiedV;

    open spec fn view(&self) -> CopiedV {
        match self {
            Copied::File { bytes, hash } => CopiedV::File { bytes: *bytes as nat, hash: hash@ },
            Copied::Symlink { broken } => CopiedV::Symlink { broken: *broken },
            Copied::NoContent => CopiedV::NoContent,
            Copied::Failed(why) => CopiedV::Failed(why@),
        }
    }
}

/// What an action came to.
#[derive(Debug)]
pub enum Outcome {
    /// Creating a directory, renaming, deleting, refreshing or linking succeeded.
    Done,
    /// It failed; or copying did.
    Failed(OsError),
    /// An entry was copied.
    Copied(Copied),
    /// A link was not possible, and what came of copying instead.
    Unlinked { link_error: OsError, copy: Result<Copied, OsError> },
}

/// The value of an [`Outcome`].
pub enum OutcomeV {
    Done,
    Failed(ErrorV),
    Copied(CopiedV),
    Unlinked { link_error: ErrorV, copy: Result<CopiedV, ErrorV> },
}

impl View for Outcome {
    type V = OutcomeV;

    open spec fn view(&self) -> OutcomeV {
        match self {
            Outcome::Done => OutcomeV::Done,
            Outcome::Failed(e) => OutcomeV::Failed(e@),
            Outcome::Copied(c) => OutcomeV::Copied(c@),
            Outcome::Unlinked { link_error, copy } => OutcomeV::Unlinked {
                link_error: link_error@,
                copy: match copy {
                    Ok(c) => Ok(c@),
                    Err(e) => Err(e@),
                },
            },
        }
    }
}

/// An action can come to this: copies end copied or failed, links done or unlinked, everything else
/// done or failed.
pub open spec fn can_come_to(a: ActionV, o: OutcomeV) -> bool {
    match a {
        ActionV::Copy(_) => o is Copied || o is Failed,
        ActionV::HardLink { .. } => o is Done || o is Unlinked,
        _ => o is Done || o is Failed,
    }
}

/// A file that was copied, to be verified.
#[derive(Debug)]
pub struct CopiedFile {
    pub rel: FsPath,
    pub bytes: u64,
    /// The digest of what was read from the source.
    pub hash: Digest,
}

/// The value of a [`CopiedFile`].
pub struct CopiedFileV {
    pub rel: SpelledV,
    pub bytes: nat,
    pub hash: Seq<u8>,
}

impl CopiedFile {
    pub open spec fn value(&self) -> CopiedFileV {
        CopiedFileV { rel: self.rel.named(), bytes: self.bytes as nat, hash: self.hash@ }
    }
}

pub open spec fn copied_view(v: Seq<CopiedFile>) -> Seq<CopiedFileV> {
    Seq::new(v.len(), |i: int| v[i].value())
}

/// How far carrying out a plan has got.
#[derive(Debug)]
pub struct Progression {
    pub report: Report,
    /// The files that were copied.
    pub copied: Vec<CopiedFile>,
    /// The files whose metadata was to be refreshed.
    pub refreshed: Vec<FsPath>,
    /// The destination reported itself out of space.
    pub disk_full: bool,
    /// How many copies were skipped on that account.
    pub skipped_full: u64,
}

/// The value of a [`Progression`].
pub struct ProgressionV {
    pub report: ReportV,
    pub copied: Seq<CopiedFileV>,
    pub refreshed: Seq<SpelledV>,
    pub disk_full: bool,
    pub skipped_full: nat,
}

impl View for Progression {
    type V = ProgressionV;

    open spec fn view(&self) -> ProgressionV {
        ProgressionV {
            report: self.report@,
            copied: copied_view(self.copied@),
            refreshed: named_view(self.refreshed@),
            disk_full: self.disk_full,
            skipped_full: self.skipped_full as nat,
        }
    }
}

// ── what each outcome leaves behind ──────────────────────────────────────────

/// A failed operation on a path.
pub open spec fn failed_text(p: Seq<u8>, e: ErrorV) -> Seq<char> {
    utf8_lossy(p) + ": "@ + e.message
}

pub open spec fn independent_text(p: Seq<u8>, e: ErrorV) -> Seq<char> {
    utf8_lossy(p) + ": hard link not possible ("@ + e.message + "); copied as an independent file"@
}

pub open spec fn twice_failed_text(p: Seq<u8>, link: ErrorV, copy: ErrorV) -> Seq<char> {
    utf8_lossy(p) + ": hard link failed ("@ + link.message + ") and the fallback copy failed ("@ + copy.message
        + ")"@
}

pub open spec fn dangling_text(p: Seq<u8>) -> Seq<char> {
    utf8_lossy(p) + ": symlink target does not exist (link copied anyway)"@
}

pub open spec fn no_content_text(p: Seq<u8>) -> Seq<char> {
    utf8_lossy(p) + ": special file (fifo/socket/device) — no content to copy"@
}

pub open spec fn issue_in(s: ProgressionV, text: Seq<char>) -> ProgressionV {
    ProgressionV { report: with_issue(s.report, text), ..s }
}

/// A file was copied.
pub open spec fn file_copied(s: ProgressionV, p: SpelledV, bytes: nat, hash: Seq<u8>) -> ProgressionV {
    ProgressionV {
        report: ReportV {
            copied: s.report.copied + 1,
            bytes_copied: s.report.bytes_copied + bytes,
            ..s.report
        },
        copied: s.copied.push(CopiedFileV { rel: p, bytes, hash }),
        ..s
    }
}

/// An entry was copied, or failed to be.
pub open spec fn after_copy(s: ProgressionV, p: SpelledV, c: CopiedV) -> ProgressionV {
    match c {
        CopiedV::File { bytes, hash } => file_copied(s, p, bytes, hash),
        CopiedV::Symlink { broken } => {
            let r = ReportV { copied: s.report.copied + 1, ..s.report };
            ProgressionV {
                report: if broken {
                    with_issue(r, dangling_text(p.text))
                } else {
                    r
                },
                ..s
            }
        },
        CopiedV::NoContent => ProgressionV { report: with_skip(s.report, no_content_text(p.text)), ..s },
        CopiedV::Failed(why) => issue_in(s, utf8_lossy(p.text) + ": "@ + why),
    }
}

/// The path by which an action is reported.
pub open spec fn reported_path(a: ActionV) -> PathV {
    match a {
        ActionV::CreateDir(p) => p,
        ActionV::Rename { to, .. } => to,
        ActionV::Delete(p) => p,
        ActionV::Copy(p) => p,
        ActionV::RefreshMeta(p) => p,
        ActionV::HardLink { name, .. } => name,
    }
}

/// What an outcome leaves behind. `text` is how the path is spelled by which the action is reported.
pub open spec fn after(s: ProgressionV, a: ActionV, text: Seq<u8>, o: OutcomeV) -> ProgressionV {
    let at = SpelledV { path: reported_path(a), text };
    match a {
        ActionV::CreateDir(_) => match o {
            OutcomeV::Failed(e) => issue_in(s, failed_text(text, e)),
            _ => s,
        },
        ActionV::Rename { .. } => match o {
            OutcomeV::Failed(e) => issue_in(s, failed_text(text, e)),
            _ => ProgressionV { report: ReportV { moved: s.report.moved + 1, ..s.report }, ..s },
        },
        ActionV::Delete(_) => match o {
            OutcomeV::Failed(e) => issue_in(s, failed_text(text, e)),
            _ => ProgressionV { report: ReportV { deleted: s.report.deleted + 1, ..s.report }, ..s },
        },
        ActionV::RefreshMeta(_) => {
            let t = match o {
                OutcomeV::Failed(e) => issue_in(s, failed_text(text, e)),
                _ => ProgressionV {
                    report: ReportV { refreshed: s.report.refreshed + 1, ..s.report },
                    ..s
                },
            };
            ProgressionV { refreshed: t.refreshed.push(at), ..t }
        },
        ActionV::HardLink { .. } => match o {
            OutcomeV::Unlinked { link_error, copy } => match copy {
                Ok(CopiedV::File { bytes, hash }) => {
                    let t = file_copied(s, at, bytes, hash);
                    ProgressionV {
                        report: with_skip(t.report, independent_text(text, link_error)),
                        ..t
                    }
                },
                Ok(_) => issue_in(s, failed_text(text, link_error)),
                Err(e) => issue_in(s, twice_failed_text(text, link_error, e)),
            },
            _ => ProgressionV { report: ReportV { linked: s.report.linked + 1, ..s.report }, ..s },
        },
        ActionV::Copy(_) => match o {
            OutcomeV::Failed(e) => {
                let t = issue_in(s, failed_text(text, e));
                ProgressionV { disk_full: t.disk_full || out_of_space(e), ..t }
            },
            OutcomeV::Copied(c) => after_copy(s, at, c),
            _ => s,
        },
    }
}

/// A copy was skipped because the destination is full.
pub open spec fn after_skip(s: ProgressionV) -> ProgressionV {
    ProgressionV { skipped_full: s.skipped_full + 1, ..s }
}

/// The bytes that an outcome copied.
pub open spec fn bytes_in(o: OutcomeV) -> nat {
    match o {
        OutcomeV::Copied(CopiedV::File { bytes, .. }) => bytes,
        OutcomeV::Unlinked { copy: Ok(CopiedV::File { bytes, .. }), .. } => bytes,
        _ => 0,
    }
}

/// The counts can take one more, and so many more bytes.
pub open spec fn has_room(s: ProgressionV, bytes: nat) -> bool {
    &&& s.report.copied < u64::MAX
    &&& s.report.moved < u64::MAX
    &&& s.report.linked < u64::MAX
    &&& s.report.deleted < u64::MAX
    &&& s.report.refreshed < u64::MAX
    &&& s.skipped_full < u64::MAX
    &&& s.report.bytes_copied + bytes <= u64::MAX
}

pub open spec fn full_text(n: nat) -> Seq<char> {
    "destination is full — skipped the remaining "@ + dec(n)
        + " copies; free some space (or use a larger target) and re-run"@
}

/// What is to be done next.
#[derive(Debug, Clone, Copy, PartialEq, Eq, Structural)]
pub enum Step {
    /// The action at this place is carried out.
    Perform,
    /// The action is a copy onto a full destination, and is skipped.
    Skip,
    /// A stop was requested: nothing further is started.
    Stop,
    /// There is nothing left.
    Finished,
}

/// What is to be done at place `i` of a plan.
pub open spec fn next_step(s: ProgressionV, acts: Seq<ActionV>, i: int, stop: bool) -> Step {
    if i >= acts.len() {
        Step::Finished
    } else if stop {
        Step::Stop
    } else if s.disk_full && acts[i] is Copy {
        Step::Skip
    } else {
        Step::Perform
    }
}

fn message(p: &FsPath, middle: &str, why: &str) -> (r: String)
    ensures
        r@ == utf8_lossy(p.spelled()) + middle@ + why@,
{
    let mut s = show_spelled(p);
    s.append(middle);
    s.append(why);
    s
}

impl Progression {
    /// Nothing has been done yet; `report` may already hold issues.
    pub fn start(report: Report) -> (r: Progression)
        ensures
            r@ == (ProgressionV {
                report: report@,
                copied: Seq::empty(),
                refreshed: Seq::empty(),
                disk_full: false,
                skipped_full: 0,
            }),
    {
        let r = Progression {
            report,
            copied: Vec::new(),
            refreshed: Vec::new(),
            disk_full: false,
            skipped_full: 0,
        };
        assert(r@.copied =~= Seq::empty());
        assert(r@.refreshed =~= Seq::empty());
        r
    }

    /// What is to be done at place `i` of the plan. A stop is only ever honoured between actions,
    /// so that the file in flight completes.
    pub fn next(&self, actions: &Vec<Action>, i: usize, stop: bool) -> (r: Step)
        ensures
            r == next_step(self@, values(actions@), i as int, stop),
    {
        if i >= actions.len() {
            return Step::Finished;
        }
        assert(values(actions@)[i as int] == actions@[i as int].value());
        if stop {
            return Step::Stop;
        }
        match &actions[i] {
            Action::Copy(_) => {
                if self.disk_full {
                    Step::Skip
                } else {
                    Step::Perform
                }
            },
            _ => Step::Perform,
        }
    }

    /// Whether the counts can take this outcome.
    pub fn can_record(&self, outcome: &Outcome) -> (r: bool)
        ensures
            r == has_room(self@, bytes_in(outcome@)),
    {
        let bytes: u64 = match outcome {
            Outcome::Copied(Copied::File { bytes, .. }) => *bytes,
            Outcome::Unlinked { copy: Ok(Copied::File { bytes, .. }), .. } => *bytes,
            _ => 0,
        };
        self.report.copied < u64::MAX && self.report.moved < u64::MAX && self.report.linked < u64::MAX
            && self.report.deleted < u64::MAX && self.report.refreshed < u64::MAX && self.skipped_full
            < u64::MAX && bytes <= u64::MAX - self.report.bytes_copied
    }

    fn record_file(&mut self, rel: &FsPath, bytes: u64, hash: &Digest)
        requires
            has_room(old(self)@, bytes as nat),
        ensures
            final(self)@ == file_copied(old(self)@, rel.named(), bytes as nat, hash@),
    {
        let ghost before = self@;
        let f = CopiedFile { rel: rel.clone(), bytes, hash: Digest::from_bytes(*hash.as_bytes()) };
        self.report.copied = self.report.copied + 1;
        self.report.bytes_copied = self.report.bytes_copied + bytes;
        self.copied.push(f);
        assert(self@.copied =~= before.copied.push(CopiedFileV { rel: rel.named(), bytes: bytes as nat, hash: hash@ }));
    }

    fn record_copy(&mut self, rel: &FsPath, c: &Copied)
        requires
            has_room(old(self)@, bytes_in(OutcomeV::Copied(c@))),
        ensures
            final(self)@ == after_copy(old(self)@, rel.named(), c@),
    {
        match c {
            Copied::File { bytes, hash } => {
                self.record_file(rel, *bytes, hash);
            },
            Copied::Symlink { broken } => {
                self.report.copied = self.report.copied + 1;
                if *broken {
                    let mut s = show_spelled(rel);
                    s.append(": symlink target does not exist (link copied anyway)");
                    self.report.issue_msg(s);
                }
            },
            Copied::NoContent => {
                let mut s = show_spelled(rel);
                s.append(": special file (fifo/socket/device) — no content to copy");
                self.report.skip_msg(s);
            },
            Copied::Failed(why) => {
                self.report.issue(rel, why.as_str());
            },
        }
    }

    fn record_link(&mut self, name: &FsPath, outcome: &Outcome, Ghost(leader): Ghost<PathV>)
        requires
            outcome is Done || outcome is Unlinked,
            has_room(old(self)@, bytes_in(outcome@)),
        ensures
            final(self)@ == after(
                old(self)@,
                ActionV::HardLink { leader, name: name@ },
                name.spelled(),
                outcome@,
            ),
    {
        match outcome {
            Outcome::Unlinked { link_error, copy } => match copy {
                Ok(Copied::File { bytes, hash }) => {
                    self.record_file(name, *bytes, hash);
                    let mut s = show_spelled(name);
                    s.append(": hard link not possible (");
                    s.append(link_error.message.as_str());
                    s.append("); copied as an independent file");
                    self.report.skip_msg(s);
                },
                Ok(_) => {
                    self.report.issue(name, link_error.message.as_str());
                },
                Err(e) => {
                    let mut s = show_spelled(name);
                    s.append(": hard link failed (");
                    s.append(link_error.message.as_str());
                    s.append(") and the fallback copy failed (");
                    s.append(e.message.as_str());
                    s.append(")");
                    self.report.issue_msg(s);
                },
            },
            _ => {
                self.report.linked = self.report.linked + 1;
            },
        }
    }

    /// Records what an action came to.
    pub fn record(&mut self, action: &Action, outcome: &Outcome)
        requires
            can_come_to(action.value(), outcome@),
            has_room(old(self)@, bytes_in(outcome@)),
        ensures
            final(self)@ == after(old(self)@, action.value(), reported_text(*action), outcome@),
    {
        match action {
            Action::CreateDir(p) => {
                if let Outcome::Failed(e) = outcome {
                    self.report.issue(p, e.message.as_str());
                }
            },
            Action::Rename { from: _, to } => {
                if let Outcome::Failed(e) = outcome {
                    self.report.issue(to, e.message.as_str());
                } else {
                    self.report.moved = self.report.moved + 1;
                }
            },
            Action::Delete(p) => {
                if let Outcome::Failed(e) = outcome {
                    self.report.issue(p, e.message.as_str());
                } else {
                    self.report.deleted = self.report.deleted + 1;
                }
            },
            Action::RefreshMeta(p) => {
                if let Outcome::Failed(e) = outcome {
                    self.report.issue(p, e.message.as_str());
                } else {
                    self.report.refreshed = self.report.refreshed + 1;
                }
                add_path(&mut self.refreshed, p.clone());
            },
            Action::HardLink { leader, name } => {
                self.record_link(name, outcome, Ghost(leader@));
            },
            Action::Copy(p) => match outcome {
                Outcome::Failed(e) => {
                    if is_disk_full(e) {
                        self.disk_full = true;
                    }
                    self.report.issue(p, e.message.as_str());
                },
                Outcome::Copied(c) => {
                    self.record_copy(p, c);
                },
                _ => {},
            },
        }
    }

    /// Records that a copy was skipped because the destination is full.
    pub fn record_skip(&mut self)
        requires
            old(self)@.skipped_full < u64::MAX,
        ensures
            final(self)@ == after_skip(old(self)@),
    {
        self.skipped_full = self.skipped_full + 1;
    }

    /// Records that a requested stop ended the run after `performed` of `planned` actions.
    pub fn record_stop(&mut self, performed: usize, planned: usize)
        ensures
            final(self)@ == (ProgressionV {
                report: ReportV { stopped_early: Some((performed, planned)), ..old(self)@.report },
                ..old(self)@
            }),
    {
        self.report.mark_stopped_early(performed, planned);
    }

    /// Reports the copies that were skipped because the destination is full.
    pub fn close(&mut self)
        ensures
            final(self)@ == if old(self)@.skipped_full > 0 {
                issue_in(old(self)@, full_text(old(self)@.skipped_full))
            } else {
                old(self)@
            },
    {
        if self.skipped_full > 0 {
            let mut s = String::from_str("destination is full — skipped the remaining ");
            push_dec(&mut s, self.skipped_full);
            s.append(" copies; free some space (or use a larger target) and re-run");
            self.report.issue_msg(s);
        }
    }

    /// The files whose content or metadata the durability barrier has to cover: those copied, then
    /// those refreshed.
    pub fn flushed(&self) -> (r: Vec<FsPath>)
        ensures
            named_view(r@) == Seq::new(self@.copied.len(), |i: int| self@.copied[i].rel) + self@.refreshed,
    {
        let ghost first = Seq::new(self@.copied.len(), |i: int| self@.copied[i].rel);
        let mut out: Vec<FsPath> = Vec::new();
        let mut i: usize = 0;
        assert(named_view(out@) =~= first.subrange(0, 0));
        while i < self.copied.len()
            invariant
                first == Seq::new(self@.copied.len(), |i: int| self@.copied[i].rel),
                0 <= i <= self.copied@.len(),
                named_view(out@) == first.subrange(0, i as int),
            decreases self.copied@.len() - i,
        {
            assert(self@.copied[i as int] == self.copied@[i as int].value());
            add_path(&mut out, self.copied[i].rel.clone());
            i = i + 1;
            assert(named_view(out@) =~= first.subrange(0, i as int));
        }
        let ghost second = self@.refreshed;
        let mut k: usize = 0;
        assert(named_view(out@) =~= first + second.subrange(0, 0));
        while k < self.refreshed.len()
            invariant
                second == named_view(self.refreshed@),
                0 <= k <= self.refreshed@.len(),
                named_view(out@) == first + second.subrange(0, k as int),
            decreases self.refreshed@.len() - k,
        {
            add_path(&mut out, self.refreshed[k].clone());
            k = k + 1;
            assert(named_view(out@) =~= first + second.subrange(0, k as int));
        }
        assert(named_view(out@) =~= first + second);
        out
    }

    /// Records what verifying a copied file came to.
    pub fn record_verification(&mut self, rel: &FsPath, checked: &Verified)
        ensures
            final(self)@ == match verification_text(rel.spelled(), checked@) {
                Some(t) => issue_in(old(self)@, t),
                None => old(self)@,
            },
    {
        match verification_issue(rel, checked) {
            Some(t) => {
                self.report.issue_msg(t);
            },
            None => {},
        }
    }
}

/// Whether the end-of-run durability barrier is due: not where each file was made durable on its
/// own, nor where nothing was done.
pub fn needs_flush(opts: &Options, actions: &Vec<Action>) -> (r: bool)
    ensures
        r == (!opts.fsync_each && actions@.len() > 0),
{
    !opts.fsync_each && actions.len() > 0
}

// ── verifying copies ─────────────────────────────────────────────────────────

/// What verifying a copied file came to.
#[derive(Debug)]
pub enum Verified {
    /// The content is the source's.
    Matches,
    /// It is not, and the corrupt copy was removed.
    Removed,
    /// It is not, and removing the corrupt copy failed.
    Kept(String),
    /// The copy could not be read: no proof of corruption.
    Unreadable(String),
}

/// The value of [`Verified`].
pub enum VerifiedV {
    Matches,
    Removed,
    Kept(Seq<char>),
    Unreadable(Seq<char>),
}

impl View for Verified {
    type V = VerifiedV;

    open spec fn view(&self) -> VerifiedV {
        match self {
            Verified::Matches => VerifiedV::Matches,
            Verified::Removed => VerifiedV::Removed,
            Verified::Kept(e) => VerifiedV::Kept(e@),
            Verified::Unreadable(e) => VerifiedV::Unreadable(e@),
        }
    }
}

/// Whether a file read back has the wanted content: the check behind verifying a copy.
pub fn verify_matches(read_back: &HashOutcome, want: &Digest) -> (r: Result<bool, String>)
    ensures
        match hash_view(*read_back) {
            HashV::Digest(d) => r == Ok::<bool, String>(d == want@),
            HashV::Failed { message, .. } => r matches Err(e) && e@ == message,
        },
{
    match read_back {
        Ok(d) => Ok(d.matches(want)),
        Err(e) => Err(e.message.clone()),
    }
}

/// Whether the copy has to be removed: only where it was read and its content differs. A corrupt
/// copy carries the source's size and time, so in place it would look unchanged for ever.
pub fn must_remove(read_back: &HashOutcome, want: &Digest) -> (r: bool)
    ensures
        r == match hash_view(*read_back) {
            HashV::Digest(d) => d != want@,
            HashV::Failed { .. } => false,
        },
{
    match verify_matches(read_back, want) {
        Ok(same) => !same,
        Err(_) => false,
    }
}

/// What verifying came to. `removal` is the failure of removing a corrupt copy, if it failed.
pub open spec fn verification(h: HashV, want: Seq<u8>, removal: Option<Seq<char>>) -> VerifiedV {
    match h {
        HashV::Digest(d) => if d == want {
            VerifiedV::Matches
        } else {
            match removal {
                None => VerifiedV::Removed,
                Some(e) => VerifiedV::Kept(e),
            }
        },
        HashV::Failed { message, .. } => VerifiedV::Unreadable(message),
    }
}

/// What verifying came to. `removal` is the failure of removing a corrupt copy, if it failed.
pub fn verified(read_back: &HashOutcome, want: &Digest, removal: &Option<String>) -> (r: Verified)
    ensures
        r@ == verification(hash_view(*read_back), want@, crate::text::opt_text(*removal)),
{
    match verify_matches(read_back, want) {
        Ok(true) => Verified::Matches,
        Ok(false) => match removal {
            None => Verified::Removed,
            Some(e) => Verified::Kept(e.clone()),
        },
        Err(e) => Verified::Unreadable(e),
    }
}

/// What is reported of verifying a copied file, if anything.
pub open spec fn verification_text(p: Seq<u8>, v: VerifiedV) -> Option<Seq<char>> {
    match v {
        VerifiedV::Matches => None,
        VerifiedV::Removed => Some(
            utf8_lossy(p)
                + ": verify failed — corrupt copy removed from the destination; re-run filesync to copy it again"@,
        ),
        VerifiedV::Kept(e) => Some(
            utf8_lossy(p)
                + ": verify failed — content mismatch, and removing the corrupt copy also failed: "@ + e,
        ),
        VerifiedV::Unreadable(e) => Some(utf8_lossy(p) + ": "@ + e),
    }
}

/// What is reported of verifying a copied file, if anything.
pub fn verification_issue(rel: &FsPath, v: &Verified) -> (r: Option<String>)
    ensures
        crate::text::opt_text(r) == verification_text(rel.spelled(), v@),
{
    match v {
        Verified::Matches => None,
        Verified::Removed => {
            let mut s = show_spelled(rel);
            s.append(": verify failed — corrupt copy removed from the destination; re-run filesync to copy it again");
            Some(s)
        },
        Verified::Kept(e) => {
            Some(
                message(
                    rel,
                    ": verify failed — content mismatch, and removing the corrupt copy also failed: ",
                    e.as_str(),
                ),
            )
        },
        Verified::Unreadable(e) => Some(message(rel, ": ", e.as_str())),
    }
}

// ── single operations ────────────────────────────────────────────────────────

/// How an entry is deleted.
#[derive(Debug)]
pub enum Deletion {
    /// It is gone already.
    Nothing,
    /// A directory, empty by the order of the deletions.
    RemoveDir,
    /// A file or link is moved aside, to this place.
    MoveAside(FsPath),
    /// A file or link is erased.
    RemoveFile,
    /// It could not be examined.
    Fail,
}

/// What is found where something is to be deleted.
#[derive(Debug, Clone, Copy, PartialEq, Eq, Structural)]
pub enum Found {
    Missing,
    Dir,
    NotDir,
    Unknown,
}

/// How the entry at `rel` is deleted, by what is found there. With a backup directory, files and
/// links are moved aside instead of erased; directories carry no data.
pub fn deletion(found: Found, rel: &FsPath, opts: &Options) -> (r: Deletion)
    ensures
        match found {
            Found::Missing => r is Nothing,
            Found::Dir => r is RemoveDir,
            Found::Unknown => r is Fail,
            Found::NotDir => match opt_path(opts.backup_dir) {
                Some(b) => r matches Deletion::MoveAside(p) && p@ == joined(b, rel@),
                None => r is RemoveFile,
            },
        },
{
    match found {
        Found::Missing => Deletion::Nothing,
        Found::Dir => Deletion::RemoveDir,
        Found::Unknown => Deletion::Fail,
        Found::NotDir => match &opts.backup_dir {
            Some(b) => Deletion::MoveAside(b.join(rel)),
            None => Deletion::RemoveFile,
        },
    }
}

/// Where what is about to be overwritten at `rel` is moved first: into the backup directory, where
/// there is one and something is in the way.
pub fn aside_before_overwrite(occupied: bool, rel: &FsPath, opts: &Options) -> (r: Option<FsPath>)
    ensures
        opt_path(r) == match opt_path(opts.backup_dir) {
            Some(b) => if occupied {
                Some(joined(b, rel@))
            } else {
                None
            },
            None => None,
        },
        r matches Some(p) ==> p.spelled() == joined_text(opts.backup_dir->0.spelled(), rel.spelled()),
{
    match &opts.backup_dir {
        Some(b) => {
            if occupied {
                Some(b.join(rel))
            } else {
                None
            }
        },
        None => None,
    }
}

/// Where the marker of a backup directory lies.
pub fn backup_marker(bdir: &FsPath) -> (r: FsPath)
    ensures
        r@ == joined(bdir@, seq![encode_utf8(BACKUP_MARKER@)]),
{
    crate::scan::marker_path(bdir)
}

/// What a backup directory's marker says.
pub const MARKER_TEXT: &'static str = "This directory holds files that filesync moved aside (--backup-dir).\nfilesync ignores directories containing this marker, so the saved files are never\nmirrored, deleted, or backed up again by later runs. Each run must use a fresh\nbackup dir. Delete this file to make filesync treat the directory as normal data.\n";

/// The name of the temp file that a copy of `name` is written to first.
pub open spec fn temp_name(name: Seq<char>, pid: nat) -> Seq<char> {
    TMP_PREFIX@ + dec(pid) + "."@ + name
}

/// The temp file that a copy is written to, beside its final path, before it is renamed into place.
pub fn temp_path(parent: &FsPath, final_path: &FsPath, pid: u32) -> (r: FsPath)
    ensures
        r@ == joined(
            parent@,
            crate::paths::parsed(encode_utf8(temp_name(shown_name(final_path@), pid as nat))),
        ),
        r.spelled() == joined_text(
            parent.spelled(),
            encode_utf8(temp_name(shown_name(final_path@), pid as nat)),
        ),
{
    let mut s = String::from_str(TMP_PREFIX);
    push_dec(&mut s, pid as u64);
    s.append(".");
    let name = crate::reports::name_text(final_path);
    s.append(name.as_str());
    let rel = FsPath::parse(s.as_str().as_bytes());
    parent.join(&rel)
}

/// How an entry is copied.
#[derive(Debug, Clone, Copy, PartialEq, Eq, Structural)]
pub enum CopyWay {
    /// The link is made anew.
    Relink,
    /// The content is streamed to a temp file that is renamed into place.
    Stream,
    /// There is no content to copy.
    Nothing,
}

/// How an entry of some kind is copied.
pub fn copy_way(kind: Kind) -> (r: CopyWay)
    ensures
        r == match kind {
            Kind::Symlink => CopyWay::Relink,
            Kind::File => CopyWay::Stream,
            _ => CopyWay::Nothing,
        },
{
    match kind {
        Kind::Symlink => CopyWay::Relink,
        Kind::File => CopyWay::Stream,
        _ => CopyWay::Nothing,
    }
}

/// Why a link could not be kept, with what it points at, so that it can be made by hand.
pub open spec fn unsupported_link_text(target: Seq<u8>) -> Seq<char> {
    "symlink (-> "@ + utf8_lossy(target)
        + ") not supported on the destination filesystem; recorded here so it can be reconstructed manually"@
}

/// What making a link anew came to. `resolves` tells whether the source's link leads anywhere,
/// which only matters where targets were resolved anyway.
pub fn relinked(
    made: Result<(), OsError>,
    target: &FsPath,
    opts: &Options,
    resolves: bool,
) -> (r: Result<Copied, OsError>)
    ensures
        match made {
            Ok(()) => r matches Ok(c) && c@ == (CopiedV::Symlink {
                broken: opts.relative_symlinks && !resolves,
            }),
            Err(e) => if e.class == Class::Unsupported {
                r matches Ok(c) && c@ == CopiedV::Failed(unsupported_link_text(target.spelled()))
            } else {
                r matches Err(x) && x@ == e@
            },
        },
{
    match made {
        Ok(()) => Ok(Copied::Symlink { broken: opts.relative_symlinks && !resolves }),
        Err(e) => {
            if e.class == Class::Unsupported {
                let mut s = String::from_str("symlink (-> ");
                push_spelled(&mut s, target);
                s.append(") not supported on the destination filesystem; recorded here so it can be reconstructed manually");
                Ok(Copied::Failed(s))
            } else {
                Err(e)
            }
        },
    }
}

/// Two times are more than two seconds apart.
pub open spec fn drifted(a: Mtime, b: Mtime) -> bool {
    let d = total_nanos(a) - total_nanos(b);
    d > 2000000000 || d < -2000000000
}

/// Whether a directory's time has to be brought in line: both are known and lie more than two
/// seconds apart.
pub fn dir_time_differs(src: Option<Mtime>, dst: Option<Mtime>) -> (r: bool)
    ensures
        r == match (src, dst) {
            (Some(a), Some(b)) => drifted(a, b),
            _ => false,
        },
{
    match (src, dst) {
        (Some(a), Some(b)) => {
            let x: i128 = a.secs as i128 * 1000000000 + a.nanos as i128;
            let y: i128 = b.secs as i128 * 1000000000 + b.nanos as i128;
            x - y > 2000000000 || x - y < -2000000000
        },
        _ => false,
    }
}

/// Whether a directory's permissions have to be brought in line.
pub fn dir_mode_differs(src_mode: u32, dst_mode: u32) -> (r: bool)
    ensures
        r == (src_mode & 0o7777 != dst_mode & 0o7777),
{
    src_mode & 0o7777 != dst_mode & 0o7777
}

// ── laws ─────────────────────────────────────────────────────────────────────

/// The outcome leaves the mirror short of the source.
pub open spec fn falls_short(o: OutcomeV) -> bool {
    match o {
        OutcomeV::Done => false,
        OutcomeV::Failed(_) => true,
        OutcomeV::Copied(CopiedV::Failed(_)) => true,
        OutcomeV::Copied(_) => false,
        OutcomeV::Unlinked { copy: Ok(CopiedV::File { .. }), .. } => false,
        OutcomeV::Unlinked { .. } => true,
    }
}

/// What is moved aside never collides: different entries go to different places, all of them inside
/// the backup directory.
pub proof fn what_is_moved_aside_does_not_collide(b: PathV, p: PathV, q: PathV)
    requires
        b.len() > 0,
        p != q,
        p.len() > 0,
        q.len() > 0,
        p[0] != cur_comp() && !is_absolute(p),
        q[0] != cur_comp() && !is_absolute(q),
    ensures
        joined(b, p) != joined(b, q),
        starts_with(joined(b, p), b),
{
    assert(joined(b, p).subrange(b.len() as int, joined(b, p).len() as int) =~= p);
    assert(joined(b, q).subrange(b.len() as int, joined(b, q).len() as int) =~= q);
    assert(joined(b, p).subrange(0, b.len() as int) =~= b);
}

/// An outcome never takes an issue back, and one that falls short adds one.
pub proof fn every_shortfall_is_an_issue(s: ProgressionV, a: ActionV, text: Seq<u8>, o: OutcomeV)
    requires
        can_come_to(a, o),
    ensures
        after(s, a, text, o).report.issues.len() >= s.report.issues.len(),
        falls_short(o) ==> after(s, a, text, o).report.issues.len() > s.report.issues.len(),
{
}

/// What the first `n` actions of a plan leave behind, where each of them is performed or, once the
/// destination is full, skipped. `names` are how the paths are spelled by which they are reported.
pub open spec fn carried_out(
    s: ProgressionV,
    acts: Seq<ActionV>,
    names: Seq<Seq<u8>>,
    outcomes: Seq<OutcomeV>,
    n: int,
) -> ProgressionV
    decreases n,
{
    if n <= 0 {
        s
    } else {
        let t = carried_out(s, acts, names, outcomes, n - 1);
        if next_step(t, acts, n - 1, false) == Step::Skip {
            after_skip(t)
        } else {
            after(t, acts[n - 1], names[n - 1], outcomes[n - 1])
        }
    }
}

/// The report after a plan was carried out to its end.
pub open spec fn final_report(
    s: ProgressionV,
    acts: Seq<ActionV>,
    names: Seq<Seq<u8>>,
    outcomes: Seq<OutcomeV>,
) -> ReportV {
    let t = carried_out(s, acts, names, outcomes, acts.len() as int);
    if t.skipped_full > 0 {
        with_issue(t.report, full_text(t.skipped_full))
    } else {
        t.report
    }
}

/// A run that reports nothing has carried out its whole plan: no copy was skipped, and nothing that
/// it did fell short.
pub proof fn a_clean_report_means_a_finished_plan(
    s: ProgressionV,
    acts: Seq<ActionV>,
    names: Seq<Seq<u8>>,
    outcomes: Seq<OutcomeV>,
    i: int,
)
    requires
        outcomes.len() == acts.len(),
        forall|k: int| 0 <= k < acts.len() ==> can_come_to(#[trigger] acts[k], outcomes[k]),
        final_report(s, acts, names, outcomes).issues.len() == 0,
        0 <= i < acts.len(),
    ensures
        next_step(carried_out(s, acts, names, outcomes, i), acts, i, false) == Step::Perform,
        !falls_short(outcomes[i]),
{
    lemma_carried_out_grows(s, acts, names, outcomes, i + 1, acts.len() as int);
    lemma_carried_out_grows(s, acts, names, outcomes, i, i + 1);
    let t = carried_out(s, acts, names, outcomes, i);
    assert(can_come_to(acts[i], outcomes[i]));
    if next_step(t, acts, i, false) == Step::Perform {
        every_shortfall_is_an_issue(t, acts[i], names[i], outcomes[i]);
    }
}

proof fn lemma_carried_out_grows(
    s: ProgressionV,
    acts: Seq<ActionV>,
    names: Seq<Seq<u8>>,
    outcomes: Seq<OutcomeV>,
    m: int,
    n: int,
)
    requires
        outcomes.len() == acts.len(),
        forall|k: int| 0 <= k < acts.len() ==> can_come_to(#[trigger] acts[k], outcomes[k]),
        0 <= m <= n <= acts.len(),
    ensures
        carried_out(s, acts, names, outcomes, m).report.issues.len() <= carried_out(
            s,
            acts,
            names,
            outcomes,
            n,
        ).report.issues.len(),
        carried_out(s, acts, names, outcomes, m).skipped_full <= carried_out(s, acts, names, outcomes, n).skipped_full,
    decreases n,
{
    if m < n {
        lemma_carried_out_grows(s, acts, names, outcomes, m, n - 1);
        assert(can_come_to(acts[n - 1], outcomes[n - 1]));
        every_shortfall_is_an_issue(carried_out(s, acts, names, outcomes, n - 1), acts[n - 1], names[n - 1], outcomes[n - 1]);
    }
}

/// Nothing was done since: the counts and the issues are the same, and only skips were added.
pub open spec fn only_skipped(before: ReportV, now: ReportV) -> bool {
    &&& now == (ReportV { skipped: now.skipped, ..before })
    &&& before.skipped.is_prefix_of(now.skipped)
}

/// Copying entries without content counts as nothing and is no issue: each is one more skip.
pub proof fn entries_without_content_are_only_skipped(
    s: ProgressionV,
    acts: Seq<ActionV>,
    names: Seq<Seq<u8>>,
    outcomes: Seq<OutcomeV>,
)
    requires
        outcomes.len() == acts.len(),
        !s.disk_full,
        s.skipped_full == 0,
        forall|k: int|
            0 <= k < acts.len() ==> #[trigger] acts[k] is Copy && outcomes[k] == OutcomeV::Copied(
                CopiedV::NoContent,
            ),
    ensures
        only_skipped(s.report, final_report(s, acts, names, outcomes)),
        final_report(s, acts, names, outcomes).skipped.len() == s.report.skipped.len() + acts.len(),
{
    lemma_only_skipped(s, acts, names, outcomes, acts.len() as int);
}

proof fn lemma_only_skipped(
    s: ProgressionV,
    acts: Seq<ActionV>,
    names: Seq<Seq<u8>>,
    outcomes: Seq<OutcomeV>,
    n: int,
)
    requires
        outcomes.len() == acts.len(),
        !s.disk_full,
        s.skipped_full == 0,
        0 <= n <= acts.len(),
        forall|k: int|
            0 <= k < acts.len() ==> #[trigger] acts[k] is Copy && outcomes[k] == OutcomeV::Copied(
                CopiedV::NoContent,
            ),
    ensures
        only_skipped(s.report, carried_out(s, acts, names, outcomes, n).report),
        carried_out(s, acts, names, outcomes, n).report.skipped.len() == s.report.skipped.len() + n,
        !carried_out(s, acts, names, outcomes, n).disk_full,
        carried_out(s, acts, names, outcomes, n).skipped_full == 0,
    decreases n,
{
    if n > 0 {
        lemma_only_skipped(s, acts, names, outcomes, n - 1);
        assert(acts[n - 1] is Copy);
    }
}

/// Once the destination is full, no further copy is started.
pub proof fn a_full_destination_gets_no_more_copies(
    s: ProgressionV,
    acts: Seq<ActionV>,
    names: Seq<Seq<u8>>,
    outcomes: Seq<OutcomeV>,
    i: int,
    j: int,
)
    requires
        0 <= i <= j < acts.len(),
        carried_out(s, acts, names, outcomes, i).disk_full,
        acts[j] is Copy,
    ensures
        next_step(carried_out(s, acts, names, outcomes, j), acts, j, false) == Step::Skip,
    decreases j,
{
    lemma_stays_full(s, acts, names, outcomes, i, j);
}

proof fn lemma_stays_full(
    s: ProgressionV,
    acts: Seq<ActionV>,
    names: Seq<Seq<u8>>,
    outcomes: Seq<OutcomeV>,
    i: int,
    j: int,
)
    requires
        0 <= i <= j <= acts.len(),
        carried_out(s, acts, names, outcomes, i).disk_full,
    ensures
        carried_out(s, acts, names, outcomes, j).disk_full,
    decreases j,
{
    if i < j {
        lemma_stays_full(s, acts, names, outcomes, i, j - 1);
    }
}

/// A corrupt copy does not survive its verification unreported: whatever differs from the source
/// is removed, or an issue says that it could not be.
pub proof fn corruption_is_removed_or_reported(
    p: Seq<u8>,
    found: Seq<u8>,
    want: Seq<u8>,
    removal: Option<Seq<char>>,
)
    requires
        found != want,
    ensures
        verification_text(p, verification(HashV::Digest(found), want, removal)) is Some,
        removal is None ==> verification(HashV::Digest(found), want, removal) is Removed,
{
}

/// A stop that is requested is heeded at once: wherever the run stands in its plan, and whatever
/// came of it so far, nothing further is started or skipped. Without one the run goes on to the end.
pub proof fn a_requested_stop_starts_nothing_further(s: ProgressionV, acts: Seq<ActionV>, i: int)
    requires
        0 <= i < acts.len(),
    ensures
        next_step(s, acts, i, true) == Step::Stop,
        next_step(s, acts, i, false) == Step::Perform || next_step(s, acts, i, false) == Step::Skip,
        next_step(s, acts, acts.len() as int, true) == Step::Finished,
        next_step(s, acts, acts.len() as int, false) == Step::Finished,
{
}

/// Only copies are skipped, and only on a destination that is full.
pub proof fn only_copies_onto_a_full_destination_are_skipped(s: ProgressionV, acts: Seq<ActionV>, i: int)
    requires
        0 <= i < acts.len(),
    ensures
        next_step(s, acts, i, false) == Step::Skip <==> s.disk_full && acts[i] is Copy,
{
}

/// Each action is counted for what it came to and for nothing else: a count grows by one exactly
/// where an action of its kind succeeded, and the bytes by what was written.
pub proof fn a_count_grows_by_what_was_done(s: ProgressionV, a: ActionV, text: Seq<u8>, o: OutcomeV)
    requires
        can_come_to(a, o),
    ensures
        ({
            let (r, t) = (s.report, after(s, a, text, o).report);
            let wrote = match o {
                OutcomeV::Copied(CopiedV::File { bytes, .. }) => Some(bytes),
                OutcomeV::Unlinked { copy: Ok(CopiedV::File { bytes, .. }), .. } => Some(bytes),
                _ => None,
            };
            let linked_anew = o matches OutcomeV::Copied(CopiedV::Symlink { .. });
            &&& t.deleted == r.deleted + if a is Delete && o is Done {
                1int
            } else {
                0
            }
            &&& t.moved == r.moved + if a is Rename && o is Done {
                1int
            } else {
                0
            }
            &&& t.linked == r.linked + if a is HardLink && o is Done {
                1int
            } else {
                0
            }
            &&& t.refreshed == r.refreshed + if a is RefreshMeta && o is Done {
                1int
            } else {
                0
            }
            &&& t.copied == r.copied + if wrote is Some || linked_anew {
                1int
            } else {
                0
            }
            &&& t.bytes_copied == r.bytes_copied + match wrote {
                Some(n) => n,
                None => 0,
            }
            &&& t.stopped_early == r.stopped_early
            &&& t.root_assisted == r.root_assisted
        }),
{
}

/// Every file that was written is remembered with its path, its size and the digest of what was
/// read, so that it is verified and flushed; and nothing else is.
pub proof fn every_written_file_is_remembered(s: ProgressionV, a: ActionV, text: Seq<u8>, o: OutcomeV)
    requires
        can_come_to(a, o),
    ensures
        match (a, o) {
            (ActionV::Copy(p), OutcomeV::Copied(CopiedV::File { bytes, hash })) => after(s, a, text, o).copied
                == s.copied.push(CopiedFileV { rel: SpelledV { path: p, text }, bytes, hash }),
            (
                ActionV::HardLink { name, .. },
                OutcomeV::Unlinked { copy: Ok(CopiedV::File { bytes, hash }), .. },
            ) => after(s, a, text, o).copied == s.copied.push(
                CopiedFileV { rel: SpelledV { path: name, text }, bytes, hash },
            ),
            _ => after(s, a, text, o).copied == s.copied,
        },
        match a {
            ActionV::RefreshMeta(p) => after(s, a, text, o).refreshed == s.refreshed.push(
                SpelledV { path: p, text },
            ),
            _ => after(s, a, text, o).refreshed == s.refreshed,
        },
{
}

/// A failure is reported under the path of its action with the reason that the system gave.
pub proof fn a_failure_names_its_path_and_reason(s: ProgressionV, a: ActionV, text: Seq<u8>, e: ErrorV)
    requires
        !(a is HardLink),
    ensures
        after(s, a, text, OutcomeV::Failed(e)).report.issues == s.report.issues.push(
            utf8_lossy(text) + ": "@ + e.message,
        ),
        after(s, a, text, OutcomeV::Failed(e)).report.skipped == s.report.skipped,
{
}

/// The destination counts as full from the first copy that fails for want of space on, and for no
/// other reason.
pub proof fn only_want_of_space_fills_the_destination(s: ProgressionV, a: ActionV, text: Seq<u8>, o: OutcomeV)
    ensures
        after(s, a, text, o).disk_full <==> s.disk_full || (a is Copy && (o matches OutcomeV::Failed(e) && (
        e.errno == Some(crate::oserror::Errno::NoSpace) || e.class == Class::StorageFull))),
        after(s, a, text, o).skipped_full == s.skipped_full,
        after_skip(s).report == s.report,
        after_skip(s).skipped_full == s.skipped_full + 1,
        after_skip(s).disk_full == s.disk_full,
{
}

/// How many of the first `n` actions succeeded, of those that a test picks.
pub open spec fn successes(
    acts: Seq<ActionV>,
    outcomes: Seq<OutcomeV>,
    n: int,
    test: spec_fn(ActionV) -> bool,
) -> int
    decreases n,
{
    if n <= 0 {
        0
    } else {
        successes(acts, outcomes, n - 1, test) + if test(acts[n - 1]) && outcomes[n - 1] is Done {
            1int
        } else {
            0
        }
    }
}

/// A run's report counts the deletions, renames, links and refreshes of its plan that succeeded.
pub proof fn a_report_counts_the_run(
    s: ProgressionV,
    acts: Seq<ActionV>,
    names: Seq<Seq<u8>>,
    outcomes: Seq<OutcomeV>,
    n: int,
)
    requires
        outcomes.len() == acts.len(),
        0 <= n <= acts.len(),
        forall|k: int| 0 <= k < acts.len() ==> can_come_to(#[trigger] acts[k], outcomes[k]),
    ensures
        ({
            let t = carried_out(s, acts, names, outcomes, n).report;
            &&& t.deleted == s.report.deleted + successes(acts, outcomes, n, |a: ActionV| a is Delete)
            &&& t.moved == s.report.moved + successes(acts, outcomes, n, |a: ActionV| a is Rename)
            &&& t.linked == s.report.linked + successes(acts, outcomes, n, |a: ActionV| a is HardLink)
            &&& t.refreshed == s.report.refreshed + successes(acts, outcomes, n, |a: ActionV| a is RefreshMeta)
        }),
    decreases n,
{
    if n > 0 {
        a_report_counts_the_run(s, acts, names, outcomes, n - 1);
        assert(can_come_to(acts[n - 1], outcomes[n - 1]));
        a_count_grows_by_what_was_done(
            carried_out(s, acts, names, outcomes, n - 1),
            acts[n - 1],
            names[n - 1],
            outcomes[n - 1],
        );
    }
}

/// What verifying says depends on the content alone: a copy that reads back as the source was read
/// is never reported, and one that could not be read is neither removed nor passed over.
pub proof fn a_sound_copy_passes_and_an_unread_one_does_not(
    p: Seq<u8>,
    found: Seq<u8>,
    why: Seq<char>,
    denied: bool,
    want: Seq<u8>,
    removal: Option<Seq<char>>,
)
    ensures
        verification_text(p, verification(HashV::Digest(want), want, removal)) is None,
        verification_text(p, verification(HashV::Failed { message: why, denied }, want, removal)) == Some(
            utf8_lossy(p) + ": "@ + why,
        ),
        !(verification(HashV::Failed { message: why, denied }, want, removal) is Removed),
        found != want && removal is Some ==> verification(HashV::Digest(found), want, removal)
            == VerifiedV::Kept(removal->0),
{
}

/// A temp file is never taken for content: its name is one that a scan leaves out.
pub proof fn a_temp_file_is_scratch(name: Seq<char>, pid: nat)
    ensures
        crate::scan::begins_with(encode_utf8(temp_name(name, pid)), encode_utf8(TMP_PREFIX@)),
        temp_name(name, pid) == TMP_PREFIX@ + dec(pid) + "."@ + name,
{
    let (a, b) = (TMP_PREFIX@, dec(pid) + "."@ + name);
    assert(temp_name(name, pid) =~= a + b);
    crate::text::lemma_encode_joined(a, b);
    assert(encode_utf8(a + b).subrange(0, encode_utf8(a).len() as int) =~= encode_utf8(a));
}

/// A directory's time is left alone within two seconds of the source's, both ways, and brought in
/// line beyond them.
pub proof fn times_drift_alike_both_ways(a: Mtime, b: Mtime)
    ensures
        drifted(a, b) == drifted(b, a),
        !drifted(a, a),
        a.nanos == b.nanos && a.secs == b.secs + 2 ==> !drifted(a, b),
        a.secs == b.secs + 2 && a.nanos == b.nanos + 1 ==> drifted(a, b),
        a.secs >= b.secs + 3 && a.nanos >= b.nanos ==> drifted(a, b),
        a.secs == b.secs ==> (drifted(a, b) <==> a.nanos > b.nanos + 2000000000 || b.nanos > a.nanos + 2000000000),
{
}

} // verus!
