//! Everything a run writes for the user to read: one module per output, shared naming here.
//!
//! | file                  | module           | written by       |
//! |-----------------------|------------------|------------------|
//! | `….findings.txt`      | [`findings`]     | both commands    |
//! | `….errors.txt`        | [`errors`]       | both, if any     |
//! | `….conclusions.txt`   | [`crate::conclusions`] | diff       |
//! | `….showstoppers.txt`  | [`showstoppers`] | both, if any     |
//!
//! All four share one timestamped stem, built by [`OutputPaths`].
use vstd::prelude::*;
use vstd::utf8::encode_utf8;

use crate::calendar::{timestamp_text, timestamp_utc};
use crate::manifest::Mtime;
use crate::paths::{FsPath, PathV, file_name_of, joined, joined_text, parsed, paths_view, with_name, with_name_text};
use crate::text::{dec, push_dec, text_of_bytes, utf8_lossy};

pub mod diff_cmd;
pub mod errors;
pub mod findings;
pub mod showstoppers;
pub mod sync_cmd;

verus! {

/// The output files of a run, all sharing one stem inside the output directory:
/// `filesync-<command>-<source>-<YYYY-mm-DD_HHMM>.<kind>.txt`.
#[derive(Debug)]
pub struct OutputPaths {
    pub report: FsPath,
    pub errors: FsPath,
    pub conclusions: FsPath,
    pub showstoppers: FsPath,
}

/// The value of [`OutputPaths`].
pub struct OutputV {
    pub report: PathV,
    pub errors: PathV,
    pub conclusions: PathV,
    pub showstoppers: PathV,
}

impl Clone for OutputPaths {
    fn clone(&self) -> (r: Self)
        ensures
            r@ == self@,
            r.spelled() == self.spelled(),
    {
        OutputPaths {
            report: self.report.clone(),
            errors: self.errors.clone(),
            conclusions: self.conclusions.clone(),
            showstoppers: self.showstoppers.clone(),
        }
    }
}

impl View for OutputPaths {
    type V = OutputV;

    open spec fn view(&self) -> OutputV {
        OutputV {
            report: self.report@,
            errors: self.errors@,
            conclusions: self.conclusions@,
            showstoppers: self.showstoppers@,
        }
    }
}

/// How the output files are spelled.
pub struct OutputText {
    pub report: Seq<u8>,
    pub errors: Seq<u8>,
    pub conclusions: Seq<u8>,
    pub showstoppers: Seq<u8>,
}

impl OutputPaths {
    pub open spec fn spelled(&self) -> OutputText {
        OutputText {
            report: self.report.spelled(),
            errors: self.errors.spelled(),
            conclusions: self.conclusions.spelled(),
            showstoppers: self.showstoppers.spelled(),
        }
    }
}

// ── the stem ─────────────────────────────────────────────────────────────────

/// The character is a letter or a number, in the sense of Unicode.
pub uninterp spec fn alphanumeric(c: char) -> bool;

/// `char::is_alphanumeric`. The result depends on the character alone; of the ASCII characters, the
/// digits and the letters `A` to `Z` and `a` to `z` are alphanumeric and no others. Which other
/// characters are is Unicode's table, and not stated.
#[verifier::external_body]
fn is_alphanumeric(c: char) -> (r: bool)
    ensures
        r == alphanumeric(c),
        (c as u32) < 128 ==> r == ('0' <= c <= '9' || 'A' <= c <= 'Z' || 'a' <= c <= 'z'),
{
    c.is_alphanumeric()
}

/// A character that a file name keeps.
pub open spec fn kept_char(c: char) -> char {
    if alphanumeric(c) || c == '-' || c == '_' || c == '.' {
        c
    } else {
        '_'
    }
}

/// A text fit for a file name.
pub open spec fn sanitized(s: Seq<char>) -> Seq<char> {
    Seq::new(s.len(), |i: int| kept_char(s[i]))
}

/// The source's folder name, fit for a file name; `root` where it has none.
pub open spec fn source_name(src_root: PathV) -> Seq<char> {
    match file_name_of(src_root) {
        Some(n) => if utf8_lossy(n).len() > 0 {
            sanitized(utf8_lossy(n))
        } else {
            "root"@
        },
        None => "root"@,
    }
}

/// Seconds since 1970; a time before that counts as 1970.
pub open spec fn epoch_seconds(now: Mtime) -> int {
    if now.secs >= 0 {
        now.secs as int
    } else {
        0
    }
}

/// The shared stem of the file names.
pub open spec fn stem_text(command: Seq<char>, src_root: PathV, now: Mtime) -> Seq<char> {
    "filesync-"@ + command + "-"@ + source_name(src_root) + "-"@ + timestamp_text(epoch_seconds(now))
}

/// The `n`-th stem to try.
pub open spec fn candidate(stem: Seq<char>, n: int) -> Seq<char> {
    if n <= 1 {
        stem
    } else {
        stem + "-"@ + dec(n as nat)
    }
}

/// The file of some kind with this stem.
pub open spec fn output_path(dir: PathV, stem: Seq<char>, kind: Seq<char>) -> PathV {
    joined(dir, parsed(encode_utf8(stem + "."@ + kind + ".txt"@)))
}

/// How the file of some kind with this stem is spelled.
pub open spec fn output_text(dir: Seq<u8>, stem: Seq<char>, kind: Seq<char>) -> Seq<u8> {
    joined_text(dir, encode_utf8(stem + "."@ + kind + ".txt"@))
}

/// A findings file with this stem exists already.
pub open spec fn is_taken(dir: PathV, existing: Seq<PathV>, stem: Seq<char>) -> bool {
    existing.contains(output_path(dir, stem, "findings"@))
}

/// The first stem from the `n`-th on that is not taken; the last one tried where a hundred are.
pub open spec fn free_stem(dir: PathV, existing: Seq<PathV>, stem: Seq<char>, n: int) -> Seq<char>
    decreases 101 - n,
{
    if n > 100 {
        candidate(stem, 100)
    } else if !is_taken(dir, existing, candidate(stem, n)) {
        candidate(stem, n)
    } else {
        free_stem(dir, existing, stem, n + 1)
    }
}

/// The output files of a run.
pub open spec fn outputs(
    dir: PathV,
    command: Seq<char>,
    src_root: PathV,
    now: Mtime,
    existing: Seq<PathV>,
) -> OutputV {
    let stem = free_stem(dir, existing, stem_text(command, src_root, now), 1);
    OutputV {
        report: output_path(dir, stem, "findings"@),
        errors: output_path(dir, stem, "errors"@),
        conclusions: output_path(dir, stem, "conclusions"@),
        showstoppers: output_path(dir, stem, "showstoppers"@),
    }
}

/// How the output files with a stem are spelled.
pub open spec fn output_texts(dir: Seq<u8>, stem: Seq<char>) -> OutputText {
    OutputText {
        report: output_text(dir, stem, "findings"@),
        errors: output_text(dir, stem, "errors"@),
        conclusions: output_text(dir, stem, "conclusions"@),
        showstoppers: output_text(dir, stem, "showstoppers"@),
    }
}

/// A text fit for a file name.
fn sanitize(s: &str) -> (r: String)
    ensures
        r@ == sanitized(s@),
{
    let n: usize = s.unicode_len();
    let mut out = String::new();
    let mut i: usize = 0;
    assert(out@ =~= sanitized(s@).subrange(0, 0));
    while i < n
        invariant
            n == s@.len(),
            0 <= i <= n,
            out@ == sanitized(s@).subrange(0, i as int),
        decreases n - i,
    {
        let c = s.get_char(i);
        if is_alphanumeric(c) || c == '-' || c == '_' || c == '.' {
            out.push(c);
        } else {
            out.push('_');
        }
        i = i + 1;
        assert(out@ =~= sanitized(s@).subrange(0, i as int));
    }
    assert(sanitized(s@).subrange(0, n as int) =~= sanitized(s@));
    out
}

/// `filesync-<command>-<source-folder-name>-<YYYY-mm-DD_HHMM>` in UTC.
fn raw_stem(command: &str, src_root: &FsPath, now: Mtime) -> (r: String)
    ensures
        r@ == stem_text(command@, src_root@, now),
{
    let mut s = String::from_str("filesync-");
    s.append(command);
    s.append("-");
    let name = match src_root.file_name() {
        Some(n) => {
            let t = text_of_bytes(n.as_slice());
            if t.as_str().unicode_len() > 0 {
                sanitize(t.as_str())
            } else {
                String::from_str("root")
            }
        },
        None => String::from_str("root"),
    };
    s.append(name.as_str());
    s.append("-");
    let secs: u64 = if now.secs >= 0 {
        now.secs as u64
    } else {
        0
    };
    let t = timestamp_utc(secs);
    s.append(t.as_str());
    s
}

fn output_file(dir: &FsPath, stem: &str, kind: &str) -> (r: FsPath)
    ensures
        r@ == output_path(dir@, stem@, kind@),
        r.spelled() == output_text(dir.spelled(), stem@, kind@),
{
    let mut s = String::from_str(stem);
    s.append(".");
    s.append(kind);
    s.append(".txt");
    let name = FsPath::parse(s.as_str().as_bytes());
    dir.join(&name)
}

/// Whether a path is among some paths.
pub(crate) fn is_among(p: &FsPath, paths: &Vec<FsPath>) -> (r: bool)
    ensures
        r == paths_view(paths@).contains(p@),
{
    let ghost ps = paths_view(paths@);
    let mut i: usize = 0;
    while i < paths.len()
        invariant
            ps == paths_view(paths@),
            0 <= i <= paths@.len(),
            forall|k: int| 0 <= k < i ==> #[trigger] ps[k] != p@,
        decreases paths@.len() - i,
    {
        assert(ps[i as int] == paths@[i as int]@);
        if paths[i].same(p) {
            return true;
        }
        i = i + 1;
    }
    false
}

/// A stem whose findings file does not exist yet: the stem itself, else `…-2`, `…-3`, … After a
/// hundred collisions it is the last one tried; creating the file then fails loudly.
fn unique_stem(dir: &FsPath, existing: &Vec<FsPath>, stem: &str) -> (r: String)
    ensures
        r@ == free_stem(dir@, paths_view(existing@), stem@, 1),
{
    let mut n: u64 = 1;
    while n <= 100
        invariant
            1 <= n <= 101,
            free_stem(dir@, paths_view(existing@), stem@, 1) == free_stem(
                dir@,
                paths_view(existing@),
                stem@,
                n as int,
            ),
        decreases 101 - n,
    {
        let mut c = String::from_str(stem);
        if n > 1 {
            c.append("-");
            push_dec(&mut c, n);
        }
        let f = output_file(dir, c.as_str(), "findings");
        if !is_among(&f, existing) {
            return c;
        }
        n = n + 1;
    }
    let mut last = String::from_str(stem);
    last.append("-");
    push_dec(&mut last, 100);
    last
}

impl OutputPaths {
    /// The output files for `command` inside `dir`, with a stem that no earlier run has used, so
    /// that a run in the same minute never overwrites the previous one. `existing` are the paths
    /// that exist already.
    pub fn build(
        dir: &FsPath,
        command: &str,
        src_root: &FsPath,
        now: Mtime,
        existing: &Vec<FsPath>,
    ) -> (r: OutputPaths)
        ensures
            r@ == outputs(dir@, command@, src_root@, now, paths_view(existing@)),
            r.spelled() == output_texts(
                dir.spelled(),
                free_stem(dir@, paths_view(existing@), stem_text(command@, src_root@, now), 1),
            ),
    {
        let raw = raw_stem(command, src_root, now);
        let stem = unique_stem(dir, existing, raw.as_str());
        OutputPaths {
            report: output_file(dir, stem.as_str(), "findings"),
            errors: output_file(dir, stem.as_str(), "errors"),
            conclusions: output_file(dir, stem.as_str(), "conclusions"),
            showstoppers: output_file(dir, stem.as_str(), "showstoppers"),
        }
    }
}

/// The file name of a path as shown, or nothing.
pub open spec fn shown_name(p: PathV) -> Seq<char> {
    match file_name_of(p) {
        Some(n) => utf8_lossy(n),
        None => Seq::empty(),
    }
}

/// The file name of a path as shown, or nothing.
pub fn name_text(p: &FsPath) -> (r: String)
    ensures
        r@ == shown_name(p@),
{
    match p.file_name() {
        Some(n) => text_of_bytes(n.as_slice()),
        None => {
            let s = String::new();
            assert(s@ =~= Seq::empty());
            s
        },
    }
}

// ── marking an interrupted run ───────────────────────────────────────────────

/// The last dot among the first `k` characters.
pub open spec fn dot_before(s: Seq<char>, k: int) -> Option<int>
    decreases k,
{
    if k <= 0 {
        None
    } else if s[k - 1] == '.' {
        Some(k - 1)
    } else {
        dot_before(s, k - 1)
    }
}

/// A name in three parts, split at its last two dots: what comes before, between and after.
pub open spec fn name_parts(name: Seq<char>) -> (Seq<char>, Seq<char>, Seq<char>) {
    match dot_before(name, name.len() as int) {
        None => (name, "out"@, name),
        Some(a) => match dot_before(name, a) {
            None => (name, name.subrange(0, a), name.subrange(a + 1, name.len() as int)),
            Some(b) => (
                name.subrange(0, b),
                name.subrange(b + 1, a),
                name.subrange(a + 1, name.len() as int),
            ),
        },
    }
}

/// The mark of an interrupted run, and of the `n`-th further one.
pub open spec fn interrupted_tag(n: int) -> Seq<char> {
    if n <= 0 {
        "-interrupted"@
    } else {
        "-interrupted-"@ + dec((n + 1) as nat)
    }
}

/// The file name that an output file gets when its run was interrupted.
pub open spec fn interrupted_name(p: PathV, n: int) -> Seq<u8> {
    let (stem, kind, txt) = name_parts(shown_name(p));
    encode_utf8(stem + interrupted_tag(n) + "."@ + kind + "."@ + txt)
}

/// The path that an output file gets when its run was interrupted.
pub open spec fn interrupted(p: PathV, n: int) -> PathV {
    with_name(p, parsed(interrupted_name(p, n)))
}

/// None of the marked names is taken.
pub open spec fn all_free(o: OutputV, existing: Seq<PathV>, n: int) -> bool {
    &&& !existing.contains(interrupted(o.report, n))
    &&& !existing.contains(interrupted(o.errors, n))
    &&& !existing.contains(interrupted(o.conclusions, n))
    &&& !existing.contains(interrupted(o.showstoppers, n))
}

/// The first mark from the `n`-th on with which no name is taken; the first of all where a hundred
/// are.
pub open spec fn free_mark(o: OutputV, existing: Seq<PathV>, n: int) -> int
    decreases 100 - n,
{
    if n >= 100 {
        0
    } else if all_free(o, existing, n) {
        n
    } else {
        free_mark(o, existing, n + 1)
    }
}

/// The names of the output files of an interrupted run: all on one shared mark.
pub open spec fn interrupted_outputs(o: OutputV, existing: Seq<PathV>) -> OutputV {
    let n = free_mark(o, existing, 0);
    OutputV {
        report: interrupted(o.report, n),
        errors: interrupted(o.errors, n),
        conclusions: interrupted(o.conclusions, n),
        showstoppers: interrupted(o.showstoppers, n),
    }
}

/// How the output files of an interrupted run are spelled.
pub open spec fn interrupted_texts(o: OutputV, t: OutputText, existing: Seq<PathV>) -> OutputText {
    let n = free_mark(o, existing, 0);
    OutputText {
        report: with_name_text(o.report, t.report, interrupted_name(o.report, n)),
        errors: with_name_text(o.errors, t.errors, interrupted_name(o.errors, n)),
        conclusions: with_name_text(o.conclusions, t.conclusions, interrupted_name(o.conclusions, n)),
        showstoppers: with_name_text(o.showstoppers, t.showstoppers, interrupted_name(o.showstoppers, n)),
    }
}

/// What is added to the report of an interrupted run, to explain its name.
pub const INTERRUPTED_NOTE: &'static str = "note: this run was interrupted — its output files were renamed with an '-interrupted' marker (names mentioned above refer to the original names)";

fn find_dot(s: &str, k: usize) -> (r: Option<usize>)
    requires
        k <= s@.len(),
    ensures
        crate::manifest::opt_int(r) == dot_before(s@, k as int),
{
    let mut i: usize = k;
    while i > 0
        invariant
            0 <= i <= k <= s@.len(),
            dot_before(s@, k as int) == dot_before(s@, i as int),
        decreases i,
    {
        if s.get_char(i - 1) == '.' {
            return Some(i - 1);
        }
        i = i - 1;
    }
    None
}

proof fn lemma_dot_before(s: Seq<char>, k: int)
    ensures
        dot_before(s, k) matches Some(a) ==> 0 <= a < k,
    decreases k,
{
    if k > 0 {
        lemma_dot_before(s, k - 1);
    }
}

fn marked_path(p: &FsPath, n: u64) -> (r: FsPath)
    requires
        n < 100,
    ensures
        r@ == interrupted(p@, n as int),
        r.spelled() == with_name_text(p@, p.spelled(), interrupted_name(p@, n as int)),
{
    let text = name_text(p);
    let name = text.as_str();
    let len: usize = name.unicode_len();
    proof {
        lemma_dot_before(name@, len as int);
    }
    let (stem, kind, txt) = match find_dot(name, len) {
        None => (name, "out", name),
        Some(a) => {
            proof {
                lemma_dot_before(name@, a as int);
            }
            match find_dot(name, a) {
                None => (name, name.substring_char(0, a), name.substring_char(a + 1, len)),
                Some(b) => (
                    name.substring_char(0, b),
                    name.substring_char(b + 1, a),
                    name.substring_char(a + 1, len),
                ),
            }
        },
    };
    assert((stem@, kind@, txt@) == name_parts(name@));
    let mut s = String::from_str(stem);
    let ghost base = s@;
    if n == 0 {
        s.append("-interrupted");
    } else {
        s.append("-interrupted-");
        push_dec(&mut s, n + 1);
    }
    assert(s@ =~= base + interrupted_tag(n as int));
    s.append(".");
    s.append(kind);
    s.append(".");
    s.append(txt);
    let new_name = FsPath::parse(s.as_str().as_bytes());
    p.renamed(&new_name)
}

/// The names that this run's output files get after a graceful stop, so that a partial record is
/// never mistaken for a complete one. `existing` are the paths that exist already.
pub fn interrupted_names(paths: &OutputPaths, existing: &Vec<FsPath>) -> (r: OutputPaths)
    ensures
        r@ == interrupted_outputs(paths@, paths_view(existing@)),
        r.spelled() == interrupted_texts(paths@, paths.spelled(), paths_view(existing@)),
{
    let ghost ex = paths_view(existing@);
    let mut n: u64 = 0;
    let mut mark: u64 = 0;
    let mut found = false;
    while n < 100 && !found
        invariant
            ex == paths_view(existing@),
            0 <= n <= 100,
            mark < 100,
            found ==> free_mark(paths@, ex, 0) == mark,
            !found ==> mark == 0 && free_mark(paths@, ex, 0) == free_mark(paths@, ex, n as int),
        decreases 100 - n,
    {
        let taken = is_among(&marked_path(&paths.report, n), existing) || is_among(
            &marked_path(&paths.errors, n),
            existing,
        ) || is_among(&marked_path(&paths.conclusions, n), existing) || is_among(
            &marked_path(&paths.showstoppers, n),
            existing,
        );
        if !taken {
            found = true;
            mark = n;
        }
        n = n + 1;
    }
    OutputPaths {
        report: marked_path(&paths.report, mark),
        errors: marked_path(&paths.errors, mark),
        conclusions: marked_path(&paths.conclusions, mark),
        showstoppers: marked_path(&paths.showstoppers, mark),
    }
}

// ── laws ─────────────────────────────────────────────────────────────────────

/// A report is never overwritten: unless a hundred stems are taken, the chosen one is not.
pub proof fn a_report_is_never_overwritten(
    dir: PathV,
    command: Seq<char>,
    src_root: PathV,
    now: Mtime,
    existing: Seq<PathV>,
    k: int,
)
    requires
        1 <= k <= 100,
        !is_taken(dir, existing, candidate(stem_text(command, src_root, now), k)),
    ensures
        !existing.contains(outputs(dir, command, src_root, now, existing).report),
{
    lemma_free_stem(dir, existing, stem_text(command, src_root, now), 1, k);
}

proof fn lemma_free_stem(dir: PathV, existing: Seq<PathV>, stem: Seq<char>, n: int, k: int)
    requires
        n <= k <= 100,
        !is_taken(dir, existing, candidate(stem, k)),
    ensures
        !is_taken(dir, existing, free_stem(dir, existing, stem, n)),
    decreases k - n,
{
    if is_taken(dir, existing, candidate(stem, n)) {
        lemma_free_stem(dir, existing, stem, n + 1, k);
    }
}

/// The files of a run lie in one directory under one stem, which begins with the command, the source and
/// the minute, and differ in their kind alone. A number is added only where the earlier stems are taken.
pub proof fn the_files_of_a_run_share_a_stem(
    dir: PathV,
    command: Seq<char>,
    src_root: PathV,
    now: Mtime,
    existing: Seq<PathV>,
    stem: Seq<char>,
)
    requires
        now.secs >= 0 ==> stem == "filesync-"@ + command + "-"@ + source_name(src_root) + "-"@ + timestamp_text(
            now.secs as int,
        ),
        now.secs < 0 ==> stem == "filesync-"@ + command + "-"@ + source_name(src_root) + "-"@ + timestamp_text(0),
    ensures
        exists|n: int|
            1 <= n <= 100 && {
                let o = outputs(dir, command, src_root, now, existing);
                let s = #[trigger] candidate(stem, n);
                &&& o.report == joined(dir, parsed(encode_utf8(s + "."@ + "findings"@ + ".txt"@)))
                &&& o.errors == joined(dir, parsed(encode_utf8(s + "."@ + "errors"@ + ".txt"@)))
                &&& o.conclusions == joined(dir, parsed(encode_utf8(s + "."@ + "conclusions"@ + ".txt"@)))
                &&& o.showstoppers == joined(dir, parsed(encode_utf8(s + "."@ + "showstoppers"@ + ".txt"@)))
                &&& forall|k: int|
                    1 <= k < n ==> existing.contains(
                        joined(
                            dir,
                            parsed(encode_utf8(#[trigger] candidate(stem, k) + "."@ + "findings"@ + ".txt"@)),
                        ),
                    )
            },
{
    assert(stem == stem_text(command, src_root, now));
    let n = lemma_stem_chosen(dir, existing, stem, 1);
    assert(candidate(stem, n) == free_stem(dir, existing, stem, 1));
    assert forall|k: int| 1 <= k < n implies existing.contains(
        joined(dir, parsed(encode_utf8(#[trigger] candidate(stem, k) + "."@ + "findings"@ + ".txt"@))),
    ) by {
        assert(is_taken(dir, existing, candidate(stem, k)));
    }
}

proof fn lemma_stem_chosen(dir: PathV, existing: Seq<PathV>, stem: Seq<char>, from: int) -> (n: int)
    requires
        1 <= from <= 101,
        from == 101 ==> is_taken(dir, existing, candidate(stem, 100)),
    ensures
        1 <= n <= 100,
        free_stem(dir, existing, stem, from) == candidate(stem, n),
        forall|k: int| from <= k < n ==> is_taken(dir, existing, #[trigger] candidate(stem, k)),
    decreases 101 - from,
{
    if from > 100 {
        100
    } else if !is_taken(dir, existing, candidate(stem, from)) {
        from
    } else {
        let n = lemma_stem_chosen(dir, existing, stem, from + 1);
        n
    }
}

/// Stems to try differ: the first is the bare one, each later one bears its number.
pub proof fn later_stems_bear_their_number(stem: Seq<char>, n: int)
    requires
        n >= 2,
    ensures
        candidate(stem, 1) == stem,
        candidate(stem, n) == stem + "-"@ + dec(n as nat),
{
}

/// A name made fit for a file keeps its length and every letter, number, `-`, `_` and `.`; whatever else
/// it held is a `_`. Made fit again, it stays.
pub proof fn a_fit_name_keeps_what_it_can(s: Seq<char>, i: int)
    requires
        0 <= i < s.len(),
    ensures
        sanitized(s).len() == s.len(),
        alphanumeric(s[i]) || s[i] == '-' || s[i] == '_' || s[i] == '.' ==> sanitized(s)[i] == s[i],
        !(alphanumeric(s[i]) || s[i] == '-' || s[i] == '_' || s[i] == '.') ==> sanitized(s)[i] == '_',
        sanitized(sanitized(s)) == sanitized(s),
{
    assert(sanitized(sanitized(s)) =~= sanitized(s));
}

/// A report is named after the last component of its source; one of the file system's root is named so.
pub proof fn a_report_is_named_after_its_source(dir: PathV, name: Seq<u8>)
    ensures
        crate::paths::is_name(name) && utf8_lossy(name).len() > 0 ==> source_name(dir.push(name)) == sanitized(
            utf8_lossy(name),
        ),
        source_name(seq![crate::paths::root_comp()]) == "root"@,
        source_name(Seq::empty()) == "root"@,
{
    assert(dir.push(name).last() == name);
    let r: PathV = seq![crate::paths::root_comp()];
    assert(r.last() == crate::paths::root_comp());
}

proof fn lemma_dot(s: Seq<char>, at: int, k: int)
    requires
        0 <= at < k <= s.len(),
        s[at] == '.',
        forall|i: int| at < i < k ==> #[trigger] s[i] != '.',
    ensures
        dot_before(s, k) == Some(at),
    decreases k,
{
    if at < k - 1 {
        assert(s[k - 1] != '.');
        lemma_dot(s, at, k - 1);
    }
}

/// An interrupted run's file keeps its stem and its kind, with the mark between them.
pub proof fn an_interrupted_name_keeps_stem_and_kind(p: PathV, stem: Seq<char>, kind: Seq<char>, n: int)
    requires
        shown_name(p) == stem + "."@ + kind + ".txt"@,
        forall|i: int| 0 <= i < kind.len() ==> #[trigger] kind[i] != '.',
    ensures
        n <= 0 ==> interrupted_name(p, n) == encode_utf8(stem + "-interrupted"@ + "."@ + kind + "."@ + "txt"@),
        n > 0 ==> interrupted_name(p, n) == encode_utf8(
            stem + ("-interrupted-"@ + dec((n + 1) as nat)) + "."@ + kind + "."@ + "txt"@,
        ),
{
    let name = shown_name(p);
    reveal_strlit(".");
    reveal_strlit(".txt");
    reveal_strlit("txt");
    let (a, b) = (stem.len() as int, stem.len() as int + 1 + kind.len());
    assert(name[a] == '.' && name[b] == '.');
    assert(name.len() == b + 4);
    assert forall|i: int| b < i < name.len() implies #[trigger] name[i] != '.' by {
        assert(name[i] == ".txt"@[i - b]);
    }
    lemma_dot(name, b, name.len() as int);
    assert forall|i: int| a < i < b implies #[trigger] name[i] != '.' by {
        assert(name[i] == kind[i - a - 1]);
    }
    lemma_dot(name, a, b);
    assert(name.subrange(0, a) =~= stem);
    assert(name.subrange(a + 1, b) =~= kind);
    assert(name.subrange(b + 1, name.len() as int) =~= "txt"@);
}

/// An interrupted run overwrites nothing: unless a hundred marks are taken, none of its files' names is,
/// and all four bear the same mark.
pub proof fn an_interrupted_run_overwrites_nothing(o: OutputV, existing: Seq<PathV>, k: int)
    requires
        0 <= k < 100,
        !existing.contains(interrupted(o.report, k)),
        !existing.contains(interrupted(o.errors, k)),
        !existing.contains(interrupted(o.conclusions, k)),
        !existing.contains(interrupted(o.showstoppers, k)),
    ensures
        !existing.contains(interrupted_outputs(o, existing).report),
        !existing.contains(interrupted_outputs(o, existing).errors),
        !existing.contains(interrupted_outputs(o, existing).conclusions),
        !existing.contains(interrupted_outputs(o, existing).showstoppers),
        exists|n: int|
            0 <= n <= k && interrupted_outputs(o, existing).report == #[trigger] interrupted(o.report, n)
                && interrupted_outputs(o, existing).errors == interrupted(o.errors, n) && interrupted_outputs(
                o,
                existing,
            ).conclusions == interrupted(o.conclusions, n) && interrupted_outputs(o, existing).showstoppers
                == interrupted(o.showstoppers, n),
{
    lemma_free_mark(o, existing, 0, k);
    let n = free_mark(o, existing, 0);
    assert(interrupted_outputs(o, existing).report == interrupted(o.report, n));
}

proof fn lemma_free_mark(o: OutputV, existing: Seq<PathV>, n: int, k: int)
    requires
        0 <= n <= k < 100,
        all_free(o, existing, k),
    ensures
        all_free(o, existing, free_mark(o, existing, n)),
        n <= free_mark(o, existing, n) <= k,
    decreases k - n,
{
    if !all_free(o, existing, n) {
        lemma_free_mark(o, existing, n + 1, k);
    }
}

} // verus!
