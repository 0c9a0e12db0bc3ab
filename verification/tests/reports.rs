//! What a run writes: file names, the report, the errors file.

use filesync::diff::Diff;
use filesync::manifest::{Manifest, Mtime};
use filesync::paths::FsPath;
use filesync::reports::diff_cmd::{emit, issues, preview_note, Written};
use filesync::reports::errors::{diff_errors, LazyErrors, ISSUES_HEADER};
use filesync::reports::findings::{diff_findings, header, root_line, skip_line, Report};
use filesync::reports::sync_cmd::summary;
use filesync::reports::{interrupted_names, OutputPaths, INTERRUPTED_NOTE};
use filesync::scan::ScanOutcome;
use filesync::text::show_spelled;

fn p(s: &str) -> FsPath {
    FsPath::parse(s.as_bytes())
}

const NEW_YEAR: Mtime = Mtime { secs: 1_609_459_200, nanos: 0 };

fn named(dir: &str, command: &str, src: &str, existing: &Vec<FsPath>) -> OutputPaths {
    OutputPaths::build(&p(dir), command, &p(src), NEW_YEAR, existing)
}

#[test]
fn report_output_paths_share_a_stem_named_by_command_and_source() {
    let o = named("/out", "diff", "/home/someone/My Docs", &vec![]);
    let stem = "/out/filesync-diff-My_Docs-2021-01-01_0000";
    assert_eq!(o.report, p(&format!("{stem}.findings.txt")));
    assert_eq!(o.errors, p(&format!("{stem}.errors.txt")));
    assert_eq!(o.conclusions, p(&format!("{stem}.conclusions.txt")));
}

#[test]
fn mod_output_paths_share_a_stem_named_by_command_and_source() {
    let o = named("/out", "diff", "/home/someone/My Docs", &vec![]);
    let stem = "/out/filesync-diff-My_Docs-2021-01-01_0000";
    assert_eq!(o.report, p(&format!("{stem}.findings.txt")));
    assert_eq!(o.errors, p(&format!("{stem}.errors.txt")));
    assert_eq!(o.conclusions, p(&format!("{stem}.conclusions.txt")));
    assert_eq!(o.showstoppers, p(&format!("{stem}.showstoppers.txt")));
}

#[test]
fn report_build_dedups_the_stem_when_findings_already_exists() {
    let first = named("/tmp", "sync", "/x/src", &vec![]);
    let second = named("/tmp", "sync", "/x/src", &vec![first.report.clone()]);
    assert_ne!(second.report, first.report);
    assert!(show_spelled(&second.report).ends_with("-2.findings.txt"));
    assert!(show_spelled(&second.errors).ends_with("-2.errors.txt"));
    assert!(show_spelled(&second.conclusions).ends_with("-2.conclusions.txt"));
}

#[test]
fn mod_build_dedups_the_stem_when_findings_already_exists() {
    let first = named("/tmp", "sync", "/x/src", &vec![]);
    let second = named("/tmp", "sync", "/x/src", &vec![first.report.clone()]);
    let third = named("/tmp", "sync", "/x/src", &vec![first.report.clone(), second.report.clone()]);
    assert_ne!(second.report, first.report);
    assert!(show_spelled(&second.report).ends_with("-2.findings.txt"));
    assert!(show_spelled(&second.errors).ends_with("-2.errors.txt"));
    assert!(show_spelled(&second.conclusions).ends_with("-2.conclusions.txt"));
    assert!(show_spelled(&second.showstoppers).ends_with("-2.showstoppers.txt"));
    assert!(show_spelled(&third.report).ends_with("-3.findings.txt"));
}

#[test]
fn after_a_hundred_collisions_the_last_try_is_returned() {
    let bare = "/tmp/filesync-sync-src-2021-01-01_0000";
    let mut existing = vec![p(&format!("{bare}.findings.txt"))];
    for n in 2..=99 {
        existing.push(p(&format!("{bare}-{n}.findings.txt")));
    }
    assert_eq!(named("/tmp", "sync", "/x/src", &existing).report, p(&format!("{bare}-100.findings.txt")));
    existing.push(p(&format!("{bare}-100.findings.txt")));
    assert_eq!(named("/tmp", "sync", "/x/src", &existing).report, p(&format!("{bare}-100.findings.txt")));
}

#[test]
fn interrupted_rename_tags_existing_files_and_dodges_collisions() {
    let paths = named("/tmp", "sync", "/x/my.dotted.src", &vec![]);
    let mut existing = vec![paths.report.clone(), paths.errors.clone()];
    let renamed = interrupted_names(&paths, &existing);
    assert!(show_spelled(&renamed.report).ends_with("my.dotted.src-2021-01-01_0000-interrupted.findings.txt"));
    assert!(show_spelled(&renamed.errors).ends_with("-interrupted.errors.txt"));
    assert!(INTERRUPTED_NOTE.contains("interrupted"));
    existing.push(renamed.report.clone());
    let again = interrupted_names(&paths, &existing);
    assert!(show_spelled(&again.report).ends_with("-interrupted-2.findings.txt"));
}

#[test]
fn names_that_are_no_file_names_are_made_fit() {
    let name = |src: &str| show_spelled(&named("/o", "sync", src, &vec![]).report);
    assert_eq!(name("/"), "/o/filesync-sync-root-2021-01-01_0000.findings.txt");
    assert_eq!(name("/a/b:c d"), "/o/filesync-sync-b_c_d-2021-01-01_0000.findings.txt");
    assert_eq!(name("/a/größe½"), "/o/filesync-sync-größe½-2021-01-01_0000.findings.txt");
    assert_eq!(name("/a/x→y"), "/o/filesync-sync-x_y-2021-01-01_0000.findings.txt");
}

#[test]
fn findings_issues_are_streamed_to_the_errors_file_before_finish() {
    let mut e = LazyErrors::new(&p("/t/r.errors.txt"));
    let mut r = Report::new();
    assert!(e.wants_creating());
    e.note_creation(true);
    assert!(!e.wants_creating());
    r.issue_msg("a.txt: bad".into());
    r.issue_msg("b.txt: worse".into());
    assert_eq!(r.issues, vec!["a.txt: bad".to_string(), "b.txt: worse".to_string()]);
    assert!(!header("test", &e.file_name()).contains("run completed"));
}

#[test]
fn lazy_sink_creates_the_file_only_on_first_record() {
    let path = p("/t/e.errors.txt");
    let mut e = LazyErrors::new(&path);
    assert!(e.written_path().is_none());
    e.note_creation(true);
    assert_eq!(e.written_path(), Some(&path));
    assert!(ISSUES_HEADER.contains("filesync issues (one per line)"));
    assert!(diff_errors(&vec!["a.txt: bad".to_string()]).contains("a.txt: bad"));
    let mut f = LazyErrors::new(&path);
    f.note_creation(false);
    assert!(f.written_path().is_none() && !f.wants_creating());
}

#[test]
fn findings_errors_file_appears_only_when_there_are_issues() {
    let clean = Report::new();
    assert!(!clean.finish(&None).contains("recorded in"));
    let mut dirty = Report::new();
    dirty.issue_msg("something: broke".into());
    let rep = dirty.finish(&Some("dirty.errors.txt".into()));
    assert!(rep.contains("recorded in dirty.errors.txt"), "{rep}");
}

#[test]
fn findings_finished_report_carries_a_completion_line() {
    assert!(Report::new().finish(&None).contains("run completed"));
    let mut r = Report::new();
    r.mark_stopped_early(3, 9);
    let s = r.finish(&None);
    assert!(r.was_stopped_early() && !s.contains("run completed"), "{s}");
}

#[test]
fn only_issues_and_early_stops_fail_a_run() {
    let mut r = Report::new();
    r.skip_msg("pipe: special file".into());
    r.root_op("read: /x".into());
    assert_eq!(r.exit_code(), 0);
    r.issue(&p("a/b"), "broken");
    assert_eq!(r.issues, vec!["a/b: broken".to_string()]);
    assert_eq!(r.exit_code(), 1);
    assert!(skip_line("m").contains("m") && root_line("n").contains("n"));
}

fn outcome(errors: &[&str]) -> ScanOutcome {
    ScanOutcome {
        manifest: Manifest::from_sorted(vec![]),
        errors: errors.iter().map(|e| e.to_string()).collect(),
        skipped_backup_dirs: vec![],
        denied: vec![],
    }
}

#[test]
fn a_preview_labels_issues_by_side() {
    let d = Diff { issues: vec!["source: f.bin: denied".into()], ..Diff::default() };
    let (s, t) = (outcome(&["cannot read x: e"]), outcome(&["cannot read y: e"]));
    let all = issues(&s, &t, &d);
    assert!(all.contains(&"source: cannot read x: e".to_string()));
    assert!(all.contains(&"destination: cannot read y: e".to_string()));
    assert!(all.contains(&"source: f.bin: denied".to_string()));
    assert!(preview_note(&s, &t, &d).is_none(), "nothing would be held back");
    let gone = filesync::diff::Change { rel: p("extra"), kind: filesync::manifest::Kind::File };
    let d = Diff { removed: vec![gone], ..Diff::default() };
    assert_eq!(
        preview_note(&s, &t, &d).unwrap(),
        "note: a sync would SUSPEND the 1 deletion(s) and defer the 0 hard-link update(s) and 0 \
         occupied-target rename(s) listed — the source was not fully readable"
    );
    assert!(preview_note(&outcome(&[]), &outcome(&[]), &Diff::default()).is_none());
}

#[test]
fn a_preview_ends_with_pointers_to_its_files() {
    let o = named("/out", "diff", "/src", &vec![]);
    let w = Written { report: true, conclusions: true, errors: false, showstoppers: false };
    let s = emit(&Diff::default(), &None, &o, w, 0, &vec![], &vec![], false);
    assert!(s.contains("filesync-diff-src-2021-01-01_0000.findings.txt"), "{s}");
    assert!(!s.contains("errors.txt"), "{s}");
    let f = diff_findings("/src", "/dst", "BODY", &vec!["read: /x".into()]);
    assert!(f.contains("/src") && f.contains("/dst") && f.contains("BODY") && f.contains("read: /x"));
}

#[test]
fn a_sync_ends_with_a_summary() {
    let mut r = Report::new();
    r.issue_msg("a: b".into());
    let s = summary(&r, &Some(p("/o/r.findings.txt")), &None, &Some(p("/o/r.errors.txt")), false);
    assert!(s.contains("/o/r.findings.txt") && s.contains("/o/r.errors.txt"), "{s}");
}

#[test]
fn output_files_are_shown_below_the_directory_that_was_given() {
    let o = named("out//", "sync", "/x/src", &vec![]);
    let stem = "out//filesync-sync-src-2021-01-01_0000";
    assert_eq!(show_spelled(&o.report), format!("{stem}.findings.txt"));
    let s = summary(&Report::new(), &Some(o.report.clone()), &Some((o.showstoppers.clone(), 2)), &None, false);
    assert!(s.contains(&format!("report: {stem}.findings.txt\n")), "{s}");
    assert!(s.contains(&format!("showstoppers: {stem}.showstoppers.txt  (2 item(s)")), "{s}");
    let w = Written { report: true, conclusions: false, errors: false, showstoppers: false };
    let s = emit(&Diff::default(), &None, &o, w, 0, &vec![], &vec![], false);
    assert!(s.contains(&format!("findings:    {stem}.findings.txt\n")), "{s}");
    let r = interrupted_names(&o, &vec![]);
    assert_eq!(show_spelled(&r.errors), "out/filesync-sync-src-2021-01-01_0000-interrupted.errors.txt");
}
