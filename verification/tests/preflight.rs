//! Bad configurations are refused before anything is touched. The file system is held in memory.

use filesync::cli::{Cli, Command, Common, DiffArgs, SyncArgs};
use filesync::device::{ancestors, available_bytes, different_devices, fs_device, same_filesystem};
use filesync::durability::{check_barrier, flush_destination, touched_dirs, Flush};
use filesync::manifest::{DstRoot, SrcRoot};
use filesync::paths::FsPath;
use filesync::plan::Action;
use filesync::preflight::{
    canonicalize_lenient, choose_output_dir, resolve_output_dir, validate_backup_dir, validate_roots, Answer,
    BackupPlace, Lenient, Source,
};

fn p(s: &str) -> FsPath {
    FsPath::parse(s.as_bytes())
}

/// Directories, files, and links.
struct World {
    dirs: Vec<&'static str>,
    files: Vec<&'static str>,
    links: Vec<(&'static str, &'static str)>,
}

impl World {
    fn with(dirs: Vec<&'static str>) -> World {
        World { dirs, files: vec![], links: vec![] }
    }

    fn resolve(&self, path: &FsPath) -> Option<FsPath> {
        for (from, to) in &self.links {
            if path.starts_with(&p(from)) {
                return self.resolve(&p(to).join(&path.slice(p(from).depth(), path.depth())));
            }
        }
        let known = |all: &Vec<&'static str>| all.iter().any(|e| p(e).starts_with(path));
        if path.depth() == 1 || known(&self.dirs) || known(&self.files) {
            Some(path.clone())
        } else {
            None
        }
    }

    fn is_dir(&self, path: &FsPath) -> bool {
        match self.resolve(path) {
            Some(q) => q.depth() == 1 || self.dirs.iter().any(|e| p(e).starts_with(&q)),
            None => false,
        }
    }

    fn lenient(&self, path: &FsPath) -> FsPath {
        let mut answers: Vec<Answer> = Vec::new();
        loop {
            match canonicalize_lenient(path, &Some(p("/cwd")), &answers) {
                Lenient::Done(q) => return q,
                Lenient::Ask(q) => {
                    let resolved = self.resolve(&q);
                    answers.push(Answer { path: q, resolved });
                }
            }
        }
    }

    fn roots(&self, from: &str, to: &str) -> Result<(), String> {
        let f = p(from);
        let source = if !self.is_dir(&f) {
            Source::NotDir
        } else {
            match self.resolve(&f) {
                Some(q) => Source::At(q),
                None => Source::Unresolved("gone".into()),
            }
        };
        validate_roots(&f, &source, &self.lenient(&p(to)))
    }

    fn backup(&self, b: &str, place: BackupPlace) -> Result<(), String> {
        let (s, d) = (SrcRoot::new(p("/t/src")), DstRoot::new(p("/t/dst")));
        let cf = self.resolve(s.path()).ok_or("gone".to_string());
        let (cb, cd) = (self.lenient(&p(b)), self.lenient(d.path()));
        validate_backup_dir(&cb, &s, &cf, &d, &cd, &place, &Ok(true))
    }
}

fn trees() -> World {
    World::with(vec!["/t/src", "/t/dst"])
}

#[test]
fn validate_rejects_nonexistent_source() {
    let err = World::with(vec!["/t"]).roots("/t/nope", "/t/dst").unwrap_err();
    assert!(err.contains("not a directory"), "{err}");
}

#[test]
fn validate_rejects_file_source() {
    let w = World { dirs: vec!["/t"], files: vec!["/t/f"], links: vec![] };
    assert!(w.roots("/t/f", "/t/dst").unwrap_err().contains("not a directory"));
}

#[test]
fn validate_rejects_identical_roots() {
    assert!(World::with(vec!["/t"]).roots("/t", "/t").unwrap_err().contains("same directory"));
}

#[test]
fn validate_rejects_destination_root() {
    let err = World::with(vec!["/t"]).roots("/t", "/").unwrap_err();
    assert!(err.contains("filesystem root"), "{err}");
}

#[test]
fn validate_rejects_source_root() {
    let err = World::with(vec!["/t"]).roots("/", "/t").unwrap_err();
    assert!(err.contains("--from must not be the filesystem root"), "{err}");
}

#[test]
fn validate_rejects_destination_inside_source() {
    let err = World::with(vec!["/t"]).roots("/t", "/t/backup").unwrap_err();
    assert!(err.contains("--to is inside --from"), "{err}");
    assert!(err.ends_with("(from=/t, to=/t/backup)"), "{err}");
}

#[test]
fn validate_rejects_source_inside_destination() {
    let err = World::with(vec!["/t/sub"]).roots("/t/sub", "/t").unwrap_err();
    assert!(err.contains("--from is inside --to"), "{err}");
}

#[test]
fn validate_accepts_siblings_with_shared_name_prefix() {
    let w = World::with(vec!["/t/foo", "/t/foobar"]);
    assert!(w.roots("/t/foo", "/t/foobar").is_ok());
    assert!(w.roots("/t/foobar", "/t/foo").is_ok());
}

#[test]
fn validate_detects_overlap_through_symlink() {
    let w = World { dirs: vec!["/t/inside"], files: vec![], links: vec![("/t/link", "/t/inside")] };
    let err = w.roots("/t", "/t/link").unwrap_err();
    assert!(err.contains("--to is inside --from"), "{err}");
}

#[test]
fn a_source_that_does_not_resolve_is_refused() {
    let e = validate_roots(&p("/s"), &Source::Unresolved("Permission denied".into()), &p("/d")).unwrap_err();
    assert_eq!(e, "cannot resolve --from /s: Permission denied");
}

#[test]
fn lenient_canonicalize_extends_existing_prefix() {
    assert_eq!(World::with(vec!["/t"]).lenient(&p("/t/nope/deep")), p("/t/nope/deep"));
}

#[test]
fn lenient_canonicalize_equals_canonicalize_when_present() {
    let w = World { dirs: vec!["/real/t"], files: vec![], links: vec![("/t", "/real/t")] };
    assert_eq!(w.lenient(&p("/t")), p("/real/t"));
}

#[test]
fn lenient_canonicalize_resolves_relative_paths_against_cwd() {
    let out = World::with(vec!["/cwd"]).lenient(&p("filesync-nonexistent-xyz/sub"));
    assert!(out.is_absolute());
    assert_eq!(out, p("/cwd/filesync-nonexistent-xyz/sub"));
}

#[test]
fn lenient_canonicalize_normalizes_dot_and_dotdot_in_missing_tail() {
    assert_eq!(World::with(vec!["/t"]).lenient(&p("/t/nope/../other/./x")), p("/t/other/x"));
}

#[test]
fn a_step_up_leaves_a_link_the_way_the_system_does() {
    let w = World { dirs: vec!["/far/away", "/t"], files: vec![], links: vec![("/t/hop", "/far/away")] };
    assert_eq!(w.lenient(&p("/t/hop/../x")), p("/far/x"));
    assert_eq!(w.lenient(&p("/../..")), p("/"));
}

#[test]
fn backup_dir_inside_source_is_rejected() {
    let err = trees().backup("/t/src/bk", BackupPlace::Missing).unwrap_err();
    assert!(err.contains("overlap the source"), "{err}");
    assert!(trees().backup("/t", BackupPlace::NotEmpty).unwrap_err().contains("overlap the source"));
}

#[test]
fn run_rejects_backup_dir_inside_source() {
    let refused = trees().backup("/t/src/backups", BackupPlace::Missing);
    assert!(refused.is_err(), "sync must be refused before copying, and nothing written into the source");
}

#[test]
fn run_rejects_backup_dir_on_a_different_filesystem() {
    let (s, d) = (SrcRoot::new(p("/t/src")), DstRoot::new(p("/t/dst")));
    let place = BackupPlace::Missing;
    let r = validate_backup_dir(&p("/dev/shm/bk"), &s, &Ok(p("/t/src")), &d, &p("/t/dst"), &place, &Ok(false));
    assert!(r.unwrap_err().contains("same filesystem"));
}

#[test]
fn backup_dir_reuse_is_rejected() {
    assert!(trees().backup("/t/bk", BackupPlace::NotEmpty).is_err());
}

#[test]
fn run_rejects_destination_inside_source() {
    assert!(trees().roots("/t/src", "/t/src/inside").is_err());
}

#[test]
fn backup_dir_must_be_fresh() {
    assert!(trees().backup("/t/bk", BackupPlace::Missing).is_ok());
    assert!(trees().backup("/t/bk", BackupPlace::Empty).is_ok());
    let err = trees().backup("/t/bk", BackupPlace::NotEmpty).unwrap_err();
    assert!(err.contains("not empty"), "{err}");
    let says = |place| trees().backup("/t/bk", place).unwrap_err();
    assert_eq!(says(BackupPlace::NotDir), "--backup-dir /t/bk exists and is not a directory");
    assert_eq!(says(BackupPlace::Unknown("e".into())), "cannot inspect --backup-dir /t/bk: e");
    assert_eq!(says(BackupPlace::Unreadable("e".into())), "cannot read --backup-dir /t/bk: e");
}

#[test]
fn backup_dir_may_be_inside_destination_but_not_the_destination() {
    assert!(trees().backup("/t/dst/.trash", BackupPlace::Missing).is_ok());
    let err = trees().backup("/t/dst", BackupPlace::Empty).unwrap_err();
    assert!(err.contains("destination itself"), "{err}");
}

#[test]
fn backup_dir_must_share_the_destinations_file_system() {
    let (s, d, cf) = (SrcRoot::new(p("/s")), DstRoot::new(p("/d")), Ok(p("/s")));
    let judge = |same: Result<bool, String>| {
        validate_backup_dir(&p("/b"), &s, &cf, &d, &p("/d"), &BackupPlace::Missing, &same).unwrap_err()
    };
    assert_eq!(
        judge(Ok(false)),
        "--backup-dir must be on the same filesystem as the destination (backup-dir=/b, destination=/d)"
    );
    assert_eq!(judge(Err("no".into())), "cannot check --backup-dir location: no");
    let e = validate_backup_dir(&p("/b"), &s, &Err("x".into()), &d, &p("/d"), &BackupPlace::Missing, &Ok(true));
    assert_eq!(e.unwrap_err(), "cannot resolve source /s: x");
}

#[test]
fn run_rejects_report_inside_source() {
    let e = resolve_output_dir(p("/s/out"), &p("/s/out"), &Some(p("/s")), &p("/d")).unwrap_err();
    assert!(e.contains("is inside the source"), "{e}");
}

#[test]
fn run_rejects_report_inside_destination() {
    let e = resolve_output_dir(p("/d"), &p("/d"), &Some(p("/s")), &p("/d")).unwrap_err();
    assert!(e.contains("is inside the destination"), "{e}");
    assert_eq!(resolve_output_dir(p("o"), &p("/o"), &Some(p("/s")), &p("/d")), Ok(p("o")));
    assert_eq!(resolve_output_dir(p("o"), &p("/s/o"), &None, &p("/d")), Ok(p("o")));
}

#[test]
fn the_output_directory_is_the_current_one_by_default() {
    let cwd: Result<FsPath, String> = Ok(p("/cwd"));
    assert_eq!(choose_output_dir(&None, false, &cwd), Ok(p("/cwd")));
    assert_eq!(choose_output_dir(&Some(p("/r")), true, &cwd), Ok(p("/r")));
    assert_eq!(
        choose_output_dir(&Some(p("/r")), false, &cwd).unwrap_err(),
        "--report must be an existing directory to write the output files into: /r"
    );
    assert_eq!(
        choose_output_dir(&None, false, &Err("gone".into())).unwrap_err(),
        "cannot determine the current directory for output files: gone"
    );
}

#[test]
fn different_devices_is_false_within_one_filesystem() {
    let (a, b) = (p("/t/a"), p("/t/b"));
    assert!(!different_devices(&a, &vec![Some(8)], &b, &vec![Some(8)]));
    assert!(different_devices(&a, &vec![Some(8)], &b, &vec![Some(9)]));
    assert!(!different_devices(&a, &vec![Some(8)], &b, &vec![None]));
}

#[test]
fn same_filesystem_judges_missing_paths_by_their_ancestor() {
    let (b, d) = (p("/t/backup"), p("/t/dst"));
    assert_eq!(ancestors(&b), vec![p("/t/backup"), p("/t"), p("/")]);
    assert!(same_filesystem(&b, &vec![None, Some(8), Some(1)], &d, &vec![Some(8), Some(8), Some(1)]).unwrap());
    assert!(!same_filesystem(&b, &vec![None, Some(8)], &d, &vec![Some(9)]).unwrap());
    assert_eq!(same_filesystem(&b, &vec![None], &d, &vec![Some(9)]).unwrap_err(), "cannot resolve /t/backup");
    assert_eq!(fs_device(&d, &vec![]).unwrap_err(), "cannot resolve /t/dst");
    assert_eq!(ancestors(&p("a/b")), vec![p("a/b"), p("a"), FsPath::empty()]);
    assert_eq!(available_bytes(3, 4096), 12288);
}

#[test]
fn every_touched_directory_is_flushed_once() {
    let dst = DstRoot::new(p("/d"));
    let actions = vec![
        Action::Copy(p("z/f")),
        Action::Delete(p("a")),
        Action::Rename { from: p("z/x"), to: p("m/x") },
        Action::RefreshMeta(p("quiet/f")),
        Action::HardLink { leader: p("z/f"), name: p("n/f") },
        Action::CreateDir(p("z/sub")),
    ];
    let want = vec![p("/d"), p("/d/m"), p("/d/n"), p("/d/z")];
    assert_eq!(touched_dirs(&dst, &actions), want);
    assert!(matches!(flush_destination(&dst, &actions, &vec![p("z/f")], true), Flush::Done));
    match flush_destination(&dst, &actions, &vec![p("z/f"), p("quiet/f")], false) {
        Flush::Each { files, dirs } => {
            assert_eq!(files, vec![p("/d/z/f"), p("/d/quiet/f")]);
            assert_eq!(dirs, want);
        }
        Flush::Done => panic!("the portable way was asked for"),
    }
}

fn common(eager: bool) -> Common {
    Common {
        from: p("/a"),
        to: p("/b"),
        eager_checksum: eager,
        report: None,
        relative_symlinks: true,
        unelevated: false,
    }
}

#[test]
fn commands_share_their_common_options() {
    let sync = SyncArgs {
        common: common(true),
        skip_verify: true,
        fsync_each: true,
        backup_dir: Some(p("/trash")),
    };
    let o = sync.options();
    assert!(!o.verify && o.fsync_each && o.relative_symlinks);
    assert_eq!(o.backup_dir, Some(p("/trash")));
    let cli = Cli { command: Command::Sync(sync) };
    assert!(cli.command.common().eager_checksum && !cli.command.include_same());
    assert_eq!(cli.command.common().from, p("/a"));
    let cli = Cli { command: Command::Diff(DiffArgs { common: common(false), include_same: true }) };
    assert!(!cli.command.common().eager_checksum && cli.command.include_same());
}

#[test]
fn a_path_is_one_however_it_is_spelled() {
    let (plain, odd) = (p("a/b"), p("a//./b/"));
    assert_eq!(plain, odd);
    assert_eq!(odd.to_bytes(), b"a/b");
    assert_eq!(odd.spelling(), b"a//./b/");
    assert_eq!(odd.clone().spelling(), b"a//./b/");
    assert_eq!(odd.plain().spelling(), b"a/b");
    assert_eq!(odd.join(&p("c//d")).spelling(), b"a//./b/c//d");
    assert_eq!(plain.join(&p("c")).spelling(), b"a/b/c");
    assert_eq!(plain.join(&p("")).spelling(), b"a/b/");
    assert_eq!(plain.join(&p("/r/")).spelling(), b"/r/");
    assert_eq!(p("").join(&odd).spelling(), b"a//./b/");
}

#[test]
fn a_file_name_is_replaced_where_it_stands() {
    let renamed = |path: &str| String::from_utf8(p(path).renamed(&p("new")).spelling()).unwrap();
    for path in ["a//b/x", "a//b//x/", "a/./x", "./x", "/x", "x", "x/.", "/", "..", "", "./a/.//x//."] {
        let std = std::path::Path::new(path).with_file_name("new");
        assert_eq!(renamed(path), std.to_string_lossy(), "{path:?}");
        assert_eq!(p(path).renamed(&p("new")), p(&std.to_string_lossy()), "{path:?}");
    }
}

#[test]
fn what_was_given_is_shown_as_it_was_given() {
    let e = validate_roots(&p("./src//x/"), &Source::NotDir, &p("/d")).unwrap_err();
    assert_eq!(e, "source is not a directory: ./src//x/");
    let e = validate_roots(&p("src/"), &Source::Unresolved("gone".into()), &p("/d")).unwrap_err();
    assert_eq!(e, "cannot resolve --from src/: gone");
    let e = choose_output_dir(&Some(p("out//")), false, &Ok(p("/cwd"))).unwrap_err();
    assert!(e.ends_with(": out//"), "{e}");
    let e = resolve_output_dir(p("s//out/"), &p("/s/out"), &Some(p("/s")), &p("/d")).unwrap_err();
    assert!(e.starts_with("the output directory (s//out/) is inside the source"), "{e}");
    assert_eq!(fs_device(&p("no//where/"), &vec![None]), Err("cannot resolve no//where/".to_string()));
    let (src, dst) = (SrcRoot::new(p("s/")), DstRoot::new(p("d//")));
    let bad = Err("gone".to_string());
    let e = validate_backup_dir(&p("/b"), &src, &bad, &dst, &p("/d"), &BackupPlace::Missing, &Ok(true)).unwrap_err();
    assert_eq!(e, "cannot resolve source s/: gone");
    let cf = Ok(p("/s"));
    let e = validate_backup_dir(&p("/b"), &src, &cf, &dst, &p("/d"), &BackupPlace::Missing, &Ok(false)).unwrap_err();
    assert!(e.ends_with("(backup-dir=/b, destination=d//)"), "{e}");
}

#[test]
fn a_barrier_that_cannot_hold_is_refused() {
    for (dirs, each) in [(true, true), (true, false), (false, true)] {
        assert_eq!(check_barrier(dirs, each), Ok(()));
    }
    assert_eq!(
        check_barrier(false, false).unwrap_err(),
        "on Windows the default end-of-run durability barrier cannot persist renames — run with --fsync-each"
    );
}
