use dupscan::model::{Entry, Error, Node};
use dupscan::scan::{scan, NoSkip, SkipExact};

fn file(content: &[u8]) -> Node {
    Node::File(content.to_vec())
}

fn link(target: &[u8]) -> Node {
    Node::Symlink(target.to_vec())
}

fn dir(entries: Vec<(&[u8], Node)>) -> Node {
    Node::Dir(
        entries
            .into_iter()
            .map(|(name, node)| Entry { name: name.to_vec(), node })
            .collect(),
    )
}

type Logs = (Vec<(Vec<u8>, Vec<u8>)>, Vec<(Vec<u8>, Error)>);

fn run(node: &Node) -> (Result<Vec<u8>, Error>, Logs) {
    let root = b"/r".to_vec();
    let mut successes = Vec::new();
    let mut failures = Vec::new();
    let r = scan(&root, node, &NoSkip, &mut successes, &mut failures);
    (r, (successes, failures))
}

fn fp_of(logs: &Logs, path: &[u8]) -> Vec<u8> {
    for (p, fp) in &logs.0 {
        if p.as_slice() == path {
            return fp.clone();
        }
    }
    panic!("no fingerprint recorded for the given path");
}

#[test]
fn determinism_two_runs() {
    let tree = dir(vec![
        (b"a", file(b"x")),
        (b"s", dir(vec![(b"c", file(b"y")), (b"l", link(b"a"))])),
    ]);
    let (r1, logs1) = run(&tree);
    let (r2, logs2) = run(&tree);
    assert_eq!(r1, r2);
    assert_eq!(logs1.0, logs2.0);
    assert_eq!(logs1.1, logs2.1);
}

#[test]
fn content_sensitivity() {
    let t1 = dir(vec![
        (b"a", file(b"x")),
        (b"s", dir(vec![(b"c", file(b"y"))])),
    ]);
    let t2 = dir(vec![
        (b"a", file(b"x")),
        (b"s", dir(vec![(b"c", file(b"z"))])),
    ]);
    let (r1, logs1) = run(&t1);
    let (r2, logs2) = run(&t2);
    // the changed file, its parent and the root all change
    assert_ne!(fp_of(&logs1, b"/r/s/c"), fp_of(&logs2, b"/r/s/c"));
    assert_ne!(fp_of(&logs1, b"/r/s"), fp_of(&logs2, b"/r/s"));
    assert_ne!(r1.unwrap(), r2.unwrap());
    // the untouched sibling does not
    assert_eq!(fp_of(&logs1, b"/r/a"), fp_of(&logs2, b"/r/a"));
}

#[test]
fn order_independence() {
    let t1 = dir(vec![(b"a", file(b"x")), (b"b", file(b"y"))]);
    let t2 = dir(vec![(b"b", file(b"y")), (b"a", file(b"x"))]);
    let (r1, _) = run(&t1);
    let (r2, _) = run(&t2);
    assert_eq!(r1.unwrap(), r2.unwrap());
}

#[test]
fn file_and_symlink_with_same_text_differ() {
    let (rf, _) = run(&file(b"target"));
    let (rl, _) = run(&link(b"target"));
    assert_ne!(rf.unwrap(), rl.unwrap());
}

#[test]
fn rename_changes_parent_not_child() {
    let t1 = dir(vec![(b"a", file(b"x"))]);
    let t2 = dir(vec![(b"b", file(b"x"))]);
    let (r1, logs1) = run(&t1);
    let (r2, logs2) = run(&t2);
    assert_ne!(r1.unwrap(), r2.unwrap());
    assert_eq!(fp_of(&logs1, b"/r/a"), fp_of(&logs2, b"/r/b"));
}

#[test]
fn skipped_child_absent_from_digest() {
    let with_extra = dir(vec![
        (b"keep", file(b"x")),
        (b"drop", dir(vec![(b"c", file(b"y"))])),
    ]);
    let without = dir(vec![(b"keep", file(b"x"))]);
    let root = b"/r".to_vec();
    let pred = SkipExact { paths: vec![b"/r/drop".to_vec()] };
    let mut successes = Vec::new();
    let mut failures = Vec::new();
    let r1 = scan(&root, &with_extra, &pred, &mut successes, &mut failures);
    let (r2, _) = run(&without);
    assert_eq!(r1.unwrap(), r2.unwrap());
    // the skipped subtree is recorded nowhere
    assert!(successes.iter().all(|(p, _)| !p.starts_with(b"/r/drop")));
    assert!(failures.is_empty());
}

#[test]
fn empty_dir_equals_dir_of_skipped_child() {
    let empty = dir(vec![]);
    let with_skipped = dir(vec![(b"gone", file(b"x"))]);
    let root = b"/r".to_vec();
    let pred = SkipExact { paths: vec![b"/r/gone".to_vec()] };
    let mut successes = Vec::new();
    let mut failures = Vec::new();
    let r1 = scan(&root, &with_skipped, &pred, &mut successes, &mut failures);
    let (r2, _) = run(&empty);
    assert_eq!(r1.unwrap(), r2.unwrap());
}

#[test]
fn equal_files_are_duplicates_but_dirs_note_names() {
    let t = dir(vec![(b"a", file(b"x")), (b"b", file(b"x"))]);
    let (r, logs) = run(&t);
    // the two files report the same fingerprint
    assert_eq!(fp_of(&logs, b"/r/a"), fp_of(&logs, b"/r/b"));
    // but the directory is no duplicate of a single-file directory of "x"
    let single = dir(vec![(b"z", file(b"x"))]);
    let (rs, _) = run(&single);
    assert_ne!(r.unwrap(), rs.unwrap());
}

#[test]
fn identical_subtrees_are_duplicates() {
    let t1 = dir(vec![(b"a", file(b"x")), (b"b", file(b"y"))]);
    let t2 = dir(vec![(b"a", file(b"x")), (b"b", file(b"y"))]);
    let (r1, _) = run(&t1);
    let (r2, _) = run(&t2);
    assert_eq!(r1.unwrap(), r2.unwrap());
}

#[test]
fn identical_subtrees_surface_in_one_run() {
    let t = dir(vec![
        (b"d1", dir(vec![(b"a", file(b"x")), (b"b", file(b"y"))])),
        (b"d2", dir(vec![(b"a", file(b"x")), (b"b", file(b"y"))])),
        (b"d3", dir(vec![(b"a", file(b"x")), (b"b", file(b"z"))])),
    ]);
    let (_, logs) = run(&t);
    assert_eq!(fp_of(&logs, b"/r/d1"), fp_of(&logs, b"/r/d2"));
    assert_ne!(fp_of(&logs, b"/r/d1"), fp_of(&logs, b"/r/d3"));
}

#[test]
fn unreadable_child_fails_fast() {
    let t = dir(vec![
        (b"early", file(b"x")),
        (b"secret", Node::Unreadable),
        (b"late", file(b"y")),
    ]);
    let (r, logs) = run(&t);
    assert_eq!(r, Err(Error::IOError));
    // the child resolved before the failure stays recorded
    assert!(logs.0.iter().any(|(p, _)| p.as_slice() == b"/r/early"));
    // the child after the failure was never attempted
    assert!(logs.0.iter().all(|(p, _)| p.as_slice() != b"/r/late"));
    // the failing node and the directory above it both report the failure
    assert!(logs.1.iter().any(|(p, e)| p.as_slice() == b"/r/secret" && *e == Error::IOError));
    assert!(logs.1.iter().any(|(p, e)| p.as_slice() == b"/r" && *e == Error::IOError));
}

#[test]
fn unsupported_kind_is_reported() {
    let t = dir(vec![(b"sock", Node::Other)]);
    let (r, logs) = run(&t);
    assert_eq!(r, Err(Error::UnsupportedKind));
    assert!(logs.1.iter().any(|(p, e)| p.as_slice() == b"/r/sock" && *e == Error::UnsupportedKind));
}

#[test]
fn symlink_target_must_be_text() {
    let (r, _) = run(&link(&[0xFF, 0xFE]));
    assert_eq!(r, Err(Error::EncodeError));
}

#[test]
fn child_name_must_be_text() {
    let bad_name: &[u8] = &[0x80, 0x41];
    let t = dir(vec![(bad_name, file(b"x"))]);
    let (r, _) = run(&t);
    assert_eq!(r, Err(Error::EncodeError));
}

#[test]
fn duplicate_child_names_are_fatal() {
    let t = dir(vec![(b"twin", file(b"x")), (b"twin", file(b"y"))]);
    let (r, _) = run(&t);
    assert_eq!(r, Err(Error::DuplicateName));
}

#[test]
fn skipped_root_is_ignored() {
    let root = b"/r".to_vec();
    let pred = SkipExact { paths: vec![b"/r".to_vec()] };
    let mut successes = Vec::new();
    let mut failures = Vec::new();
    let r = scan(&root, &file(b"x"), &pred, &mut successes, &mut failures);
    assert_eq!(r, Err(Error::Ignore));
    assert!(successes.is_empty());
    assert!(failures.is_empty());
}
