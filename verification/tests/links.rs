//! Link targets in the mirror.

use filesync::links::{anchored_target, desired_target, relative_link, resolve_target, Lead};
use filesync::manifest::{DstRoot, SrcRoot};
use filesync::paths::FsPath;
use filesync::preflight::Answer;

fn p(s: &str) -> FsPath {
    FsPath::parse(s.as_bytes())
}

/// A file system in memory: the paths that exist, and the links among them.
struct World {
    exists: Vec<&'static str>,
    links: Vec<(&'static str, &'static str)>,
}

impl World {
    fn resolve(&self, path: &FsPath) -> Option<FsPath> {
        for (from, to) in &self.links {
            if path.starts_with(&p(from)) {
                return self.resolve(&p(to).join(&path.slice(p(from).depth(), path.depth())));
            }
        }
        if path.depth() == 1 || self.exists.iter().any(|e| p(e).starts_with(path)) {
            Some(path.clone())
        } else {
            None
        }
    }

    fn desired(&self, src: &str, link: &str, raw: &str, relative: bool) -> FsPath {
        let root = self.resolve(&p(src));
        let mut answers: Vec<Answer> = Vec::new();
        loop {
            match resolve_target(&p(src), &p(link), &p(raw), &root, &Some(p("/cwd")), &answers) {
                Lead::Known(resolution) => return desired_target(&p(link), &p(raw), relative, &resolution),
                Lead::Ask(q) => {
                    let resolved = self.resolve(&q);
                    answers.push(Answer { path: q, resolved });
                }
            }
        }
    }
}

fn plain() -> World {
    World { exists: vec!["/t/f1/b.txt", "/t/links", "/elsewhere"], links: vec![] }
}

#[test]
fn relative_link_from_root() {
    assert_eq!(relative_link(&p("abs"), &p("f1/b.txt")), p("f1/b.txt"));
}

#[test]
fn relative_link_preserves_an_internal_relative_link() {
    assert_eq!(relative_link(&p("links/rel"), &p("f1/b.txt")), p("../f1/b.txt"));
}

#[test]
fn relative_link_with_shared_prefix() {
    assert_eq!(relative_link(&p("a/b/link"), &p("a/c/x")), p("../c/x"));
}

#[test]
fn relative_link_in_same_directory() {
    assert_eq!(relative_link(&p("dir/link"), &p("dir/tgt")), p("tgt"));
}

#[test]
fn verbatim_when_flag_is_off() {
    assert_eq!(plain().desired("/t", "l", "/t/f1/b.txt", false), p("/t/f1/b.txt"));
}

#[test]
fn absolute_internal_target_becomes_relative() {
    assert_eq!(plain().desired("/t", "links/l", "/t/f1/b.txt", true), p("../f1/b.txt"));
}

#[test]
fn internal_relative_target_is_idempotent() {
    assert_eq!(plain().desired("/t", "links/l", "../f1/b.txt", true), p("../f1/b.txt"));
}

#[test]
fn external_target_stays_verbatim() {
    assert_eq!(plain().desired("/t", "l", "/elsewhere/ext.txt", true), p("/elsewhere/ext.txt"));
}

#[test]
fn missing_internal_target_is_still_rewritten() {
    assert_eq!(plain().desired("/t", "l", "/t/not/yet/here", true), p("not/yet/here"));
}

#[test]
fn target_reached_through_a_chained_symlink_is_seen_through() {
    let w = World { exists: vec!["/t/real/data.txt"], links: vec![("/t/hop", "/t/real")] };
    assert_eq!(w.desired("/t", "l", "/t/hop/data.txt", true), p("real/data.txt"));
}

#[test]
fn chain_escaping_the_source_stays_verbatim() {
    let w = World { exists: vec!["/t", "/outside/secret.txt"], links: vec![("/t/hop", "/outside")] };
    assert_eq!(w.desired("/t", "l", "/t/hop/secret.txt", true), p("/t/hop/secret.txt"));
}

#[test]
fn roots_expose_their_path() {
    assert_eq!(*SrcRoot::new(p("/x")).path(), p("/x"));
    assert_eq!(*DstRoot::new(p("/y")).path(), p("/y"));
}

#[test]
fn without_a_source_root_nothing_is_rewritten() {
    let w = World { exists: vec!["/elsewhere"], links: vec![] };
    assert_eq!(w.desired("/t", "l", "/t/x", true), p("/t/x"));
    assert_eq!(anchored_target(&p("/t"), &p("a/l"), &p("../b")), p("/t/a/../b"));
}

#[test]
fn a_link_to_its_own_directory_is_a_dot() {
    assert_eq!(relative_link(&p("d/l"), &p("d")).to_bytes(), b".".to_vec());
    assert_eq!(relative_link(&p("d/e/l"), &p("d")).to_bytes(), b"..".to_vec());
}
