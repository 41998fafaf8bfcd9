//! The comparison of whole trees, with the trees held in memory and the
//! workers taking turns on one thread.

use dirdiff::content::{
    after_content, after_lengths, after_mtimes, compare_buffers, compare_links, file_diff,
    BufferStep, FileProgress,
};
use dirdiff::diff::{Diff, DiffHandler, GrepableHandler};
use dirdiff::entry::{FileT, LinkTarget};
use dirdiff::file_type_enum::{FileType, FileTypeFlags};
use dirdiff::merge::{DirMerge, PairTask};
use dirdiff::path::RelativePath;
use dirdiff::stack::StackHandle;
use dirdiff::worker::{DirWorker, NextWork};
use std::cell::{Cell, RefCell};
use std::collections::BTreeMap;
use std::sync::Arc;

#[derive(Clone, Debug)]
enum Node {
    File { content: Vec<u8>, mtime: i128 },
    Dir(BTreeMap<String, Node>),
    Link(String),
    Fifo,
}

fn file(content: &str) -> Node {
    Node::File { content: content.as_bytes().to_vec(), mtime: 0 }
}

fn file_at(content: &str, mtime: i128) -> Node {
    Node::File { content: content.as_bytes().to_vec(), mtime }
}

fn dir(children: Vec<(&str, Node)>) -> Node {
    Node::Dir(children.into_iter().map(|(n, c)| (n.to_string(), c)).collect())
}

fn link(target: &str) -> Node {
    Node::Link(target.to_string())
}

/// One of the two trees, and how often the content of a file was opened.
struct Tree {
    root: Node,
    opened: Cell<usize>,
}

impl Tree {
    fn new(root: Node) -> Tree {
        Tree { root, opened: Cell::new(0) }
    }

    /// The node at `path`, with every link on the way followed, and the path
    /// without links that leads to it.
    fn resolve(&self, path: &[String]) -> (Vec<String>, &Node) {
        let mut at: Vec<String> = Vec::new();
        let mut node = &self.root;
        let mut rest: Vec<String> = path.iter().rev().cloned().collect();
        while let Some(name) = rest.pop() {
            let Node::Dir(children) = node else { panic!("{at:?} is no directory") };
            let child = children.get(&name).unwrap_or_else(|| panic!("no {name} in {at:?}"));
            match child {
                Node::Link(target) => {
                    for part in target.split('/').rev() {
                        rest.push(part.to_string());
                    }
                }
                _ => {
                    at.push(name);
                    node = child;
                }
            }
        }
        (at, node)
    }

    /// The node at `path` itself, which may be a link.
    fn entry(&self, dir: &[String], name: &str) -> &Node {
        let (_, node) = self.resolve(dir);
        let Node::Dir(children) = node else { panic!("{dir:?} is no directory") };
        &children[name]
    }
}

fn names(path: &RelativePath) -> Vec<String> {
    path.components.iter().map(|c| String::from_utf8(c.clone()).unwrap()).collect()
}

fn canonical(path: &[String]) -> Vec<u8> {
    format!("/{}", path.join("/")).into_bytes()
}

fn from_canonical(path: &[u8]) -> Vec<String> {
    let text = String::from_utf8(path.to_vec()).unwrap();
    text.split('/').filter(|p| !p.is_empty()).map(|p| p.to_string()).collect()
}

fn type_of(node: &Node) -> FileType {
    let no = FileTypeFlags {
        is_file: false,
        is_dir: false,
        is_symlink: false,
        is_block_device: false,
        is_char_device: false,
        is_fifo: false,
        is_socket: false,
    };
    FileType::from(match node {
        Node::File { .. } => FileTypeFlags { is_file: true, ..no },
        Node::Dir(_) => FileTypeFlags { is_dir: true, ..no },
        Node::Link(_) => FileTypeFlags { is_symlink: true, ..no },
        Node::Fifo => FileTypeFlags { is_fifo: true, ..no },
    })
}

/// How the trees are read.
#[derive(Clone, Copy)]
struct Reading {
    check_mtime: bool,
    follow: bool,
    workers: u16,
    /// Whether directories are listed from their last name to their first.
    backwards: bool,
    left_buffer: usize,
    right_buffer: usize,
}

fn reading() -> Reading {
    Reading {
        check_mtime: false,
        follow: false,
        workers: 1,
        backwards: false,
        left_buffer: 4,
        right_buffer: 4,
    }
}

fn list(tree: &Tree, dir: &RelativePath, how: Reading) -> Vec<FileT> {
    let dir = names(dir);
    let (_, node) = tree.resolve(&dir);
    let Node::Dir(children) = node else { panic!("{dir:?} is no directory") };
    let mut entries = Vec::new();
    for (name, child) in children {
        let raw_type = type_of(child);
        let target = if FileT::needs_target(raw_type, how.follow) {
            let mut path = dir.clone();
            path.push(name.clone());
            let (at, node) = tree.resolve(&path);
            Some(LinkTarget { path: canonical(&at), file_type: type_of(node) })
        } else {
            None
        };
        entries.push(FileT::new(name.as_bytes().to_vec(), raw_type, how.follow, target));
    }
    if how.backwards {
        entries.reverse();
    }
    entries
}

fn regular<'a>(tree: &'a Tree, dir: &RelativePath, e: &FileT) -> (&'a Vec<u8>, i128) {
    let node = match e.path() {
        Some(p) => tree.resolve(&from_canonical(p)).1,
        None => tree.entry(&names(dir), &String::from_utf8(e.filename()).unwrap()),
    };
    match node {
        Node::File { content, mtime } => (content, *mtime),
        other => panic!("{other:?} is no regular file"),
    }
}

fn link_text(tree: &Tree, dir: &RelativePath, e: &FileT) -> Vec<u8> {
    match tree.entry(&names(dir), &String::from_utf8(e.filename()).unwrap()) {
        Node::Link(target) => target.as_bytes().to_vec(),
        other => panic!("{other:?} is no link"),
    }
}

fn same_content(left: &[u8], right: &[u8], how: Reading) -> bool {
    let mut at = 0;
    loop {
        let a = &left[at.min(left.len())..left.len().min(at + how.left_buffer)];
        let b = &right[at.min(right.len())..right.len().min(at + how.right_buffer)];
        match compare_buffers(a, b) {
            BufferStep::Equal => return true,
            BufferStep::Differ => return false,
            BufferStep::Consume(n) => {
                assert!(n > 0, "the reading makes no progress");
                at += n;
            }
        }
    }
}

#[derive(Default)]
struct Collector {
    seen: RefCell<Vec<Diff>>,
}

impl DiffHandler for Collector {
    fn process(&self, root1: &[u8], root2: &[u8], diff: Diff) {
        assert_eq!(root1, b"/left");
        assert_eq!(root2, b"/right");
        self.seen.borrow_mut().push(diff);
    }
}

fn process_path(
    worker: &mut DirWorker<Collector>,
    left: &Tree,
    right: &Tree,
    how: Reading,
    dir: RelativePath,
) -> Result<(), String> {
    let entries_left = list(left, &dir, how);
    let entries_right = list(right, &dir, how);
    let mut merge = DirMerge::new(dir, entries_left, entries_right);
    loop {
        match worker.advance(&mut merge) {
            None => return Ok(()),
            Some(PairTask::CompareLinks(e1, e2)) => {
                let t1 = link_text(left, merge.dir(), &e1);
                let t2 = link_text(right, merge.dir(), &e2);
                if let Some(diff) = compare_links(merge.dir(), &e1, &e2, &t1, &t2) {
                    worker.process_diff(diff);
                }
            }
            Some(PairTask::CompareFiles(e1, e2)) => {
                let (c1, m1) = regular(left, merge.dir(), &e1);
                let (c2, m2) = regular(right, merge.dir(), &e2);
                let mut progress = after_lengths(c1.len() as u64, c2.len() as u64);
                if progress == FileProgress::ReadContent {
                    left.opened.set(left.opened.get() + 1);
                    right.opened.set(right.opened.get() + 1);
                    progress = after_content(same_content(c1, c2, how), worker.check_mtime());
                }
                if progress == FileProgress::ReadMTimes {
                    progress = after_mtimes(m1, m2);
                }
                match progress {
                    FileProgress::Done(Some(difference)) => {
                        worker.process_diff(file_diff(merge.dir(), &e1, &e2, difference));
                    }
                    FileProgress::Done(None) => {}
                    other => panic!("the comparison stopped at {other:?}"),
                }
            }
            Some(PairTask::Unsupported(path, file_type)) => {
                return Err(format!(
                    "Unimplemented filetype. File {} has type {}",
                    names(&path).join("/"),
                    file_type.to_string()
                ));
            }
        }
    }
}

struct Outcome {
    /// The lines that would be printed, in the order of the reports.
    lines: Vec<String>,
    opened_left: usize,
    opened_right: usize,
    error: Option<String>,
}

impl Outcome {
    fn sorted(&self) -> Vec<String> {
        let mut lines = self.lines.clone();
        lines.sort();
        lines
    }
}

fn compare(left: &Node, right: &Node, how: Reading) -> Outcome {
    let left = Tree::new(left.clone());
    let right = Tree::new(right.clone());
    let collector = Arc::new(Collector::default());
    let mut workers: Vec<DirWorker<Collector>> = StackHandle::new(how.workers)
        .into_iter()
        .map(|stack| {
            DirWorker::new(
                b"/left".to_vec(),
                b"/right".to_vec(),
                collector.clone(),
                stack,
                how.check_mtime,
                how.follow,
            )
        })
        .collect();
    workers[0].push_to_stack(RelativePath::new());
    let mut finished = vec![false; workers.len()];
    let mut error = None;
    let mut turns = 0;
    while error.is_none() && finished.iter().any(|f| !f) {
        for (i, worker) in workers.iter_mut().enumerate() {
            if finished[i] {
                continue;
            }
            match worker.next_work() {
                NextWork::Dir(dir) => {
                    if let Err(e) = process_path(worker, &left, &right, how, dir) {
                        error = Some(e);
                        break;
                    }
                }
                NextWork::Again => {}
                NextWork::Finished => finished[i] = true,
            }
        }
        turns += 1;
        assert!(turns < 100_000, "the workers do not come to an end");
    }
    let handler = GrepableHandler::new();
    let lines = collector
        .seen
        .borrow()
        .iter()
        .map(|diff| {
            let (label, path) = handler.describe(diff.clone());
            format!("[{}]\t{:?}", label, names(&path).join("/"))
        })
        .collect();
    Outcome { lines, opened_left: left.opened.get(), opened_right: right.opened.get(), error }
}

fn lines(left: &Node, right: &Node, how: Reading) -> Vec<String> {
    let outcome = compare(left, right, how);
    assert_eq!(outcome.error, None);
    outcome.sorted()
}

/// A tree with directories, files and links on several levels.
fn big(variant: u8) -> Node {
    let leaf = |n: u8| file(&format!("content {n}"));
    let mut top = vec![
        ("a", leaf(1)),
        ("b", leaf(2)),
        ("empty", dir(vec![])),
        ("l", link("a")),
        (
            "sub",
            dir(vec![
                ("deep", dir(vec![("x", leaf(3)), ("y", leaf(4)), ("z", dir(vec![]))])),
                ("f", leaf(5)),
                ("g", leaf(6)),
                ("other", dir(vec![("h", leaf(7))])),
            ]),
        ),
        ("t", dir(vec![("u", dir(vec![("v", dir(vec![("w", leaf(8))]))]))])),
    ];
    if variant == 1 {
        top.push(("only", dir(vec![("inside", leaf(9))])));
        top[1] = ("b", leaf(20));
        top[3] = ("l", link("b"));
        top[4] = (
            "sub",
            dir(vec![
                ("deep", dir(vec![("x", leaf(3)), ("y", leaf(40)), ("new", leaf(0))])),
                ("f", dir(vec![])),
                ("g", leaf(6)),
            ]),
        );
    }
    dir(top)
}

#[test]
fn identical_trees() {
    let l = dir(vec![("a", file("x")), ("b", file("y"))]);
    let r = dir(vec![("a", file("x")), ("b", file("y"))]);
    assert_eq!(lines(&l, &r, reading()), Vec::<String>::new());
}

#[test]
fn one_side_missing() {
    let l = dir(vec![("a", file("x"))]);
    let r = dir(vec![("a", file("x")), ("b", file("y"))]);
    assert_eq!(lines(&l, &r, reading()), vec!["[Present in second dir. only]\t\"b\""]);
    assert_eq!(lines(&r, &l, reading()), vec!["[Present in first dir. only]\t\"b\""]);
}

#[test]
fn content_mismatch() {
    let l = dir(vec![("a", file("foo"))]);
    let r = dir(vec![("a", file("foobar"))]);
    let outcome = compare(&l, &r, reading());
    assert_eq!(outcome.error, None);
    assert_eq!(outcome.lines, vec!["[Files differ]\t\"a\""]);
    assert_eq!(outcome.opened_left, 0);
    assert_eq!(outcome.opened_right, 0);
}

#[test]
fn content_mismatch_at_the_same_length() {
    let l = dir(vec![("a", file("foobar"))]);
    let r = dir(vec![("a", file("foobaz"))]);
    let outcome = compare(&l, &r, reading());
    assert_eq!(outcome.lines, vec!["[Files differ]\t\"a\""]);
    assert_eq!(outcome.opened_left, 1);
    assert_eq!(outcome.opened_right, 1);
}

#[test]
fn recursive() {
    let l = dir(vec![("sub", dir(vec![("f", file("z"))]))]);
    let r = dir(vec![("sub", dir(vec![("f", file("q"))]))]);
    assert_eq!(lines(&l, &r, reading()), vec!["[Files differ]\t\"sub/f\""]);
}

#[test]
fn symlink_default_policy() {
    let l = dir(vec![("link", link("t")), ("t", file("x"))]);
    let r = dir(vec![("link", link("t")), ("t", file("y"))]);
    assert_eq!(lines(&l, &r, reading()), vec!["[Files differ]\t\"t\""]);
}

#[test]
fn symlink_follow() {
    let l = dir(vec![("link", link("t")), ("t", file("x"))]);
    let r = dir(vec![("link", link("t")), ("t", file("y"))]);
    let how = Reading { follow: true, ..reading() };
    assert_eq!(
        lines(&l, &r, how),
        vec!["[Files differ]\t\"link\"", "[Files differ]\t\"t\""]
    );
}

#[test]
fn mtime_only() {
    let l = dir(vec![("a", file_at("x", 1_000_000_000))]);
    let r = dir(vec![("a", file_at("x", 2_000_000_000))]);
    let how = Reading { check_mtime: true, ..reading() };
    assert_eq!(lines(&l, &r, how), vec!["[Differ by mtime only]\t\"a\""]);
    assert_eq!(lines(&l, &r, reading()), Vec::<String>::new());
}

#[test]
fn links_are_compared_by_what_they_name_by_default() {
    let l = dir(vec![
        ("a", dir(vec![("file", file("one"))])),
        ("link", link("a/file")),
    ]);
    let r = dir(vec![
        ("a", dir(vec![("file", file("two"))])),
        ("b", dir(vec![])),
        ("link", link("a/file")),
    ]);
    assert_eq!(
        lines(&l, &r, reading()),
        vec!["[Files differ]\t\"a/file\"", "[Present in second dir. only]\t\"b\""]
    );
    let r = dir(vec![
        ("a", dir(vec![("file", file("one"))])),
        ("link", link("a//file")),
    ]);
    assert_eq!(lines(&l, &r, reading()), vec!["[Files differ]\t\"link\""]);
}

#[test]
fn a_followed_link_is_compared_with_a_file_of_its_name() {
    let l = dir(vec![
        ("a", dir(vec![("target", file("same"))])),
        ("file", link("a/target")),
    ]);
    let r = dir(vec![("a", dir(vec![("target", file("same"))])), ("file", file("same"))]);
    let how = Reading { follow: true, ..reading() };
    assert_eq!(lines(&l, &r, how), Vec::<String>::new());
    let r = dir(vec![("a", dir(vec![("target", file("same"))])), ("file", file("else"))]);
    assert_eq!(lines(&l, &r, how), vec!["[Files differ]\t\"file\""]);
    assert_eq!(
        lines(&l, &r, reading()),
        vec!["[Present in first dir. only]\t\"file\"", "[Present in second dir. only]\t\"file\""]
    );
}

#[test]
fn a_followed_link_is_compared_with_a_directory_of_its_name() {
    let inside = || dir(vec![("file1", file("1")), ("file2", file("2"))]);
    let l = dir(vec![("a", dir(vec![("src", inside())])), ("src", link("a/src"))]);
    let r = dir(vec![
        ("a", dir(vec![("src", inside())])),
        ("src", dir(vec![("file1", file("1")), ("file2", file("changed"))])),
    ]);
    let how = Reading { follow: true, ..reading() };
    assert_eq!(lines(&l, &r, how), vec!["[Files differ]\t\"src/file2\""]);
}

#[test]
fn the_same_tree_twice_gives_no_report() {
    for workers in [1, 2, 3, 8] {
        for follow in [false, true] {
            let how = Reading { workers, follow, ..reading() };
            assert_eq!(lines(&big(0), &big(0), how), Vec::<String>::new());
        }
    }
}

#[test]
fn two_runs_give_the_same_reports() {
    let first = lines(&big(0), &big(1), reading());
    let second = lines(&big(0), &big(1), reading());
    let backwards = lines(&big(0), &big(1), Reading { backwards: true, ..reading() });
    assert_eq!(first, second);
    assert_eq!(first, backwards);
    assert_eq!(
        first,
        vec![
            "[Files differ]\t\"b\"",
            "[Files differ]\t\"l\"",
            "[Files differ]\t\"sub/deep/y\"",
            "[Present in first dir. only]\t\"sub/deep/z\"",
            "[Present in first dir. only]\t\"sub/f\"",
            "[Present in first dir. only]\t\"sub/other\"",
            "[Present in second dir. only]\t\"only\"",
            "[Present in second dir. only]\t\"sub/deep/new\"",
            "[Present in second dir. only]\t\"sub/f\"",
        ]
    );
}

#[test]
fn the_number_of_workers_does_not_change_the_reports() {
    let one = lines(&big(0), &big(1), reading());
    for workers in [2, 3, 4, 16] {
        assert_eq!(lines(&big(0), &big(1), Reading { workers, ..reading() }), one);
    }
}

#[test]
fn the_sizes_of_the_buffers_do_not_change_the_reports() {
    let one = lines(&big(0), &big(1), reading());
    for (left_buffer, right_buffer) in [(1, 1), (1, 7), (5, 2), (4096, 3), (4096, 8192)] {
        let how = Reading { left_buffer, right_buffer, ..reading() };
        assert_eq!(lines(&big(0), &big(1), how), one);
    }
}

#[test]
fn exchanging_the_trees_exchanges_first_and_second() {
    let one = lines(&big(0), &big(1), reading());
    let other = lines(&big(1), &big(0), reading());
    let mut mirrored: Vec<String> = one
        .iter()
        .map(|line| {
            if line.starts_with("[Present in first") {
                line.replace("first", "second")
            } else if line.starts_with("[Present in second") {
                line.replace("second", "first")
            } else {
                line.clone()
            }
        })
        .collect();
    mirrored.sort();
    assert_eq!(other, mirrored);
}

#[test]
fn the_check_of_times_only_adds_reports() {
    let l = dir(vec![
        ("a", file_at("x", 1)),
        ("b", file_at("y", 1)),
        ("c", file_at("z", 1)),
        ("d", dir(vec![("e", file_at("e", 5)), ("f", file_at("f", 5))])),
    ]);
    let r = dir(vec![
        ("a", file_at("x", 2)),
        ("b", file_at("Y", 2)),
        ("c", file_at("z", 1)),
        ("d", dir(vec![("e", file_at("e", 6)), ("g", file_at("f", 5))])),
    ]);
    let without = lines(&l, &r, reading());
    let with = lines(&l, &r, Reading { check_mtime: true, ..reading() });
    assert_eq!(
        without,
        vec![
            "[Files differ]\t\"b\"",
            "[Present in first dir. only]\t\"d/f\"",
            "[Present in second dir. only]\t\"d/g\"",
        ]
    );
    let rest: Vec<String> =
        with.iter().filter(|l| !l.starts_with("[Differ by mtime only]")).cloned().collect();
    assert_eq!(rest, without);
    let added: Vec<String> =
        with.iter().filter(|l| l.starts_with("[Differ by mtime only]")).cloned().collect();
    assert_eq!(
        added,
        vec!["[Differ by mtime only]\t\"a\"", "[Differ by mtime only]\t\"d/e\""]
    );
}

#[test]
fn following_links_changes_nothing_without_links() {
    let strip = |n: &Node| match n {
        Node::Dir(children) => {
            let mut children = children.clone();
            children.remove("l");
            Node::Dir(children)
        }
        other => other.clone(),
    };
    let l = strip(&big(0));
    let r = strip(&big(1));
    let default = compare(&l, &r, reading());
    let followed = compare(&l, &r, Reading { follow: true, ..reading() });
    assert_eq!(default.lines, followed.lines);
    assert!(!default.lines.is_empty());
}

#[test]
fn empty_directories_are_not_reported() {
    let l = dir(vec![("e", dir(vec![])), ("f", dir(vec![]))]);
    let r = dir(vec![("e", dir(vec![])), ("f", dir(vec![("x", file("x")), ("y", dir(vec![]))]))]);
    assert_eq!(
        lines(&l, &r, reading()),
        vec!["[Present in second dir. only]\t\"f/x\"", "[Present in second dir. only]\t\"f/y\""]
    );
    assert_eq!(lines(&dir(vec![]), &dir(vec![]), reading()), Vec::<String>::new());
    assert_eq!(
        lines(&l, &dir(vec![]), reading()),
        vec!["[Present in first dir. only]\t\"e\"", "[Present in first dir. only]\t\"f\""]
    );
}

#[test]
fn empty_files_are_equal() {
    let l = dir(vec![("a", file(""))]);
    let r = dir(vec![("a", file(""))]);
    let outcome = compare(&l, &r, reading());
    assert_eq!(outcome.lines, Vec::<String>::new());
    assert_eq!(outcome.error, None);
}

#[test]
fn a_name_with_two_types_is_reported_on_each_side() {
    let l = dir(vec![("x", link("y")), ("y", file("y")), ("z", dir(vec![]))]);
    let r = dir(vec![("x", file("y")), ("y", file("y")), ("z", file("z"))]);
    assert_eq!(
        lines(&l, &r, reading()),
        vec![
            "[Present in first dir. only]\t\"x\"",
            "[Present in first dir. only]\t\"z\"",
            "[Present in second dir. only]\t\"x\"",
            "[Present in second dir. only]\t\"z\"",
        ]
    );
}

#[test]
fn a_pair_that_cannot_be_compared_stops_the_worker() {
    let l = dir(vec![("a", file("1")), ("pipe", Node::Fifo), ("z", file("left"))]);
    let r = dir(vec![("b", file("2")), ("pipe", Node::Fifo), ("z", file("right"))]);
    let outcome = compare(&l, &r, reading());
    assert_eq!(
        outcome.error,
        Some("Unimplemented filetype. File pipe has type FIFO".to_string())
    );
    assert_eq!(outcome.lines, Vec::<String>::new());
}

#[test]
fn what_was_reported_before_the_stop_remains() {
    let l = dir(vec![("d", dir(vec![("pipe", Node::Fifo)])), ("z", file("left"))]);
    let r = dir(vec![("d", dir(vec![("pipe", Node::Fifo)])), ("z", file("right"))]);
    let outcome = compare(&l, &r, reading());
    assert_eq!(
        outcome.error,
        Some("Unimplemented filetype. File d/pipe has type FIFO".to_string())
    );
    assert_eq!(outcome.lines, vec!["[Files differ]\t\"z\""]);
}

#[test]
fn a_worker_without_work_steals_it() {
    let stacks = StackHandle::new(2);
    let collector = Arc::new(Collector::default());
    let mut workers: Vec<DirWorker<Collector>> = stacks
        .into_iter()
        .map(|s| {
            let handler = collector.clone();
            DirWorker::new(b"/left".to_vec(), b"/right".to_vec(), handler, s, false, false)
        })
        .collect();
    workers[0].push_to_stack(RelativePath::new().child(b"first"));
    workers[0].push_to_stack(RelativePath::new().child(b"second"));
    match workers[1].next_work() {
        NextWork::Dir(d) => assert_eq!(d.components, vec![b"first".to_vec()]),
        other => panic!("unexpected {other:?}"),
    }
    match workers[0].next_work() {
        NextWork::Dir(d) => assert_eq!(d.components, vec![b"second".to_vec()]),
        other => panic!("unexpected {other:?}"),
    }
    assert!(matches!(workers[0].next_work(), NextWork::Again));
    assert!(matches!(workers[1].next_work(), NextWork::Finished));
    assert!(matches!(workers[0].next_work(), NextWork::Finished));
}

#[test]
fn a_lone_worker_finishes_when_its_stack_is_empty() {
    let mut stacks = StackHandle::new(1);
    let collector = Arc::new(Collector::default());
    let mut worker = DirWorker::new(
        b"/left".to_vec(),
        b"/right".to_vec(),
        collector,
        stacks.remove(0),
        true,
        true,
    );
    assert_eq!(worker.root1(), &b"/left".to_vec());
    assert_eq!(worker.root2(), &b"/right".to_vec());
    assert!(worker.check_mtime());
    assert!(worker.follow_symlink());
    worker.push_to_stack(RelativePath::new());
    assert!(matches!(worker.next_work(), NextWork::Dir(_)));
    assert!(matches!(worker.next_work(), NextWork::Finished));
}

#[test]
fn the_handler_gets_the_roots_and_the_difference() {
    let mut stacks = StackHandle::new(1);
    let collector = Arc::new(Collector::default());
    let mut worker = DirWorker::new(
        b"/left".to_vec(),
        b"/right".to_vec(),
        collector.clone(),
        stacks.remove(0),
        false,
        false,
    );
    worker.process_diff(Diff::InDir1Only(RelativePath::new().child(b"d"), b"n".to_vec()));
    let seen = collector.seen.borrow();
    assert_eq!(seen.len(), 1);
    match &seen[0] {
        Diff::InDir1Only(d, n) => {
            assert_eq!(d.components, vec![b"d".to_vec()]);
            assert_eq!(n, &b"n".to_vec());
        }
        other => panic!("unexpected {other:?}"),
    }
}

fn worker_set(n: u16) -> Vec<DirWorker<Collector>> {
    let collector = Arc::new(Collector::default());
    StackHandle::new(n)
        .into_iter()
        .map(|s| {
            let handler = collector.clone();
            DirWorker::new(b"/left".to_vec(), b"/right".to_vec(), handler, s, false, false)
        })
        .collect()
}

fn taken(worker: &mut DirWorker<Collector>) -> String {
    match worker.next_work() {
        NextWork::Dir(d) => names(&d).join("/"),
        NextWork::Again => "again".to_string(),
        NextWork::Finished => "finished".to_string(),
    }
}

#[test]
fn the_own_stack_gives_back_the_last_first() {
    let mut workers = worker_set(1);
    let w = &mut workers[0];
    for name in ["a", "b", "c"] {
        w.push_to_stack(RelativePath::new().child(name.as_bytes()));
    }
    assert_eq!(taken(w), "c");
    assert_eq!(taken(w), "b");
    w.push_to_stack(RelativePath::new().child(b"b").child(b"d"));
    assert_eq!(taken(w), "b/d");
    assert_eq!(taken(w), "a");
    assert_eq!(taken(w), "finished");
}

#[test]
fn a_thief_takes_what_was_put_first_from_the_first_stack_that_has_any() {
    let mut workers = worker_set(3);
    workers[0].push_to_stack(RelativePath::new().child(b"a1"));
    workers[0].push_to_stack(RelativePath::new().child(b"a2"));
    workers[1].push_to_stack(RelativePath::new().child(b"b1"));
    assert_eq!(taken(&mut workers[2]), "a1");
    assert_eq!(taken(&mut workers[2]), "a2");
    assert_eq!(taken(&mut workers[2]), "b1");
    assert_eq!(taken(&mut workers[2]), "again");
    workers[2].push_to_stack(RelativePath::new().child(b"late"));
    assert_eq!(taken(&mut workers[1]), "late");
}

#[test]
fn no_worker_finishes_while_another_is_not_idle() {
    let mut workers = worker_set(3);
    workers[0].push_to_stack(RelativePath::new());
    assert_eq!(taken(&mut workers[0]), "");
    assert_eq!(taken(&mut workers[1]), "again");
    assert_eq!(taken(&mut workers[2]), "again");
    assert_eq!(taken(&mut workers[1]), "again");
    assert_eq!(taken(&mut workers[0]), "finished");
    assert_eq!(taken(&mut workers[1]), "finished");
    assert_eq!(taken(&mut workers[2]), "finished");
}
