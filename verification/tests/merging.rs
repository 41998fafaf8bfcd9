use dirdiff::diff::Diff;
use dirdiff::entry::FileT;
use dirdiff::file_type_enum::FileType;
use dirdiff::merge::{Action, DirMerge, PairTask};
use dirdiff::path::RelativePath;

fn entry(name: &str, file_type: FileType) -> FileT {
    FileT::new(name.as_bytes().to_vec(), file_type, false, None)
}

fn file(name: &str) -> FileT {
    entry(name, FileType::Regular)
}

fn dir(name: &str) -> FileT {
    entry(name, FileType::Directory)
}

fn link(name: &str) -> FileT {
    entry(name, FileType::Symlink)
}

fn path(names: &[&str]) -> RelativePath {
    let mut p = RelativePath::new();
    for n in names {
        p.push(n.as_bytes().to_vec());
    }
    p
}

/// A short text for an action: "<name" and ">name" for an entry on the left
/// or right side only, "/path" for a directory to visit, "~name", "=name"
/// and "!path:type" for pairs of links, of files and of other things.
fn show(action: Action) -> String {
    let text = |bytes: &[u8]| String::from_utf8(bytes.to_vec()).unwrap();
    let joined = |p: &RelativePath| {
        p.components.iter().map(|c| text(c)).collect::<Vec<_>>().join("/")
    };
    match action {
        Action::Report(Diff::InDir1Only(d, n)) => format!("<{}:{}", joined(&d), text(&n)),
        Action::Report(Diff::InDir2Only(d, n)) => format!(">{}:{}", joined(&d), text(&n)),
        Action::Report(Diff::Different(d, n)) => format!("#{}:{}", joined(&d), text(&n)),
        Action::Report(Diff::SameButDifferentMTime(d, n)) => {
            format!("@{}:{}", joined(&d), text(&n))
        }
        Action::Descend(p) => format!("/{}", joined(&p)),
        Action::Pair(PairTask::CompareLinks(a, b)) => {
            format!("~{}~{}", text(&a.name), text(&b.name))
        }
        Action::Pair(PairTask::CompareFiles(a, b)) => {
            format!("={}={}", text(&a.name), text(&b.name))
        }
        Action::Pair(PairTask::Unsupported(p, t)) => format!("!{}:{}", joined(&p), t.to_string()),
    }
}

fn run(at: &[&str], left: Vec<FileT>, right: Vec<FileT>) -> Vec<String> {
    let mut merge = DirMerge::new(path(at), left, right);
    let mut shown = Vec::new();
    while let Some(action) = merge.next_action() {
        shown.push(show(action));
    }
    assert!(merge.next_action().is_none());
    shown
}

#[test]
fn two_empty_directories_give_nothing() {
    assert_eq!(run(&[], vec![], vec![]), Vec::<String>::new());
}

#[test]
fn an_empty_left_side_leaves_all_on_the_right() {
    let shown = run(&["d"], vec![], vec![file("b"), dir("z"), file("a"), link("l")]);
    assert_eq!(shown, vec![">d:z", ">d:l", ">d:a", ">d:b"]);
}

#[test]
fn an_empty_right_side_leaves_all_on_the_left() {
    let shown = run(&["d", "e"], vec![file("b"), dir("z"), file("a")], vec![]);
    assert_eq!(shown, vec!["<d/e:z", "<d/e:a", "<d/e:b"]);
}

#[test]
fn equal_listings_give_pairs_only() {
    let shown = run(
        &[],
        vec![file("a"), file("b"), dir("sub"), link("l")],
        vec![link("l"), dir("sub"), file("b"), file("a")],
    );
    assert_eq!(shown, vec!["=b=b", "=a=a", "~l~l", "/sub"]);
}

#[test]
fn the_listing_order_does_not_matter() {
    let a = run(
        &["x"],
        vec![file("c"), file("a"), dir("d"), file("b")],
        vec![dir("d"), file("b"), file("e")],
    );
    let b = run(
        &["x"],
        vec![file("b"), dir("d"), file("a"), file("c")],
        vec![file("e"), file("b"), dir("d")],
    );
    assert_eq!(a, b);
    assert_eq!(a, vec![">x:e", "<x:c", "=b=b", "<x:a", "/x/d"]);
}

#[test]
fn pairs_are_taken_from_the_high_end() {
    let shown = run(
        &[],
        vec![dir("d1"), dir("d2"), file("f1"), file("f3")],
        vec![dir("d2"), dir("d3"), file("f2"), file("f3")],
    );
    assert_eq!(shown, vec!["=f3=f3", ">:f2", "<:f1", ">:d3", "/d2", "<:d1"]);
}

#[test]
fn what_is_left_of_one_side_comes_out_in_ascending_order() {
    let shown = run(&[], vec![file("m")], vec![dir("a"), dir("b"), file("c"), file("z")]);
    assert_eq!(shown, vec![">:z", "<:m", ">:a", ">:b", ">:c"]);
}

#[test]
fn a_link_is_never_paired_with_a_file_or_a_directory() {
    let shown = run(&[], vec![link("x")], vec![file("x")]);
    assert_eq!(shown, vec![">:x", "<:x"]);
    let shown = run(&[], vec![dir("x")], vec![link("x")]);
    assert_eq!(shown, vec![">:x", "<:x"]);
}

#[test]
fn a_file_is_never_paired_with_a_directory() {
    let shown = run(&["p"], vec![dir("x"), file("y")], vec![file("x"), file("y")]);
    assert_eq!(shown, vec!["=y=y", ">p:x", "<p:x"]);
}

#[test]
fn a_pair_of_directories_is_visited_below_the_current_path() {
    let shown = run(&["a", "b"], vec![dir("c")], vec![dir("c")]);
    assert_eq!(shown, vec!["/a/b/c"]);
    let shown = run(&[], vec![dir("c")], vec![dir("c")]);
    assert_eq!(shown, vec!["/c"]);
}

#[test]
fn a_pair_that_cannot_be_compared_is_told_with_path_and_type() {
    let shown = run(
        &["dev"],
        vec![entry("pipe", FileType::Fifo)],
        vec![entry("pipe", FileType::Fifo)],
    );
    assert_eq!(shown, vec!["!dev/pipe:FIFO"]);
    let shown = run(
        &[],
        vec![entry("s", FileType::Socket), file("a")],
        vec![entry("s", FileType::BlockDevice), file("a")],
    );
    assert_eq!(shown, vec!["!s:socket", "=a=a"]);
}

#[test]
fn every_entry_is_taken_exactly_once() {
    let left = vec![file("a"), file("c"), dir("d"), link("l"), file("only-left")];
    let right = vec![file("a"), file("b"), dir("d"), link("l"), dir("only-right")];
    let shown = run(&[], left, right);
    assert_eq!(shown.len(), 7);
    let mut sorted = shown.clone();
    sorted.sort();
    sorted.dedup();
    assert_eq!(sorted.len(), 7);
    for expected in ["=a=a", ">:b", "<:c", "/d", "~l~l", "<:only-left", ">:only-right"] {
        assert!(shown.iter().any(|s| s == expected), "{expected} is missing");
    }
}

#[test]
fn exchanging_the_sides_exchanges_left_and_right() {
    let left = || vec![file("a"), file("c"), dir("d"), link("l")];
    let right = || vec![file("b"), file("c"), dir("e"), link("l")];
    let one = run(&["r"], left(), right());
    let other = run(&["r"], right(), left());
    let mirrored: Vec<String> = one
        .iter()
        .map(|s| match s.as_bytes()[0] {
            b'<' => format!(">{}", &s[1..]),
            b'>' => format!("<{}", &s[1..]),
            _ => s.clone(),
        })
        .collect();
    assert_eq!(other, mirrored);
}

#[test]
fn the_directory_of_the_merge_is_kept() {
    let merge = DirMerge::new(path(&["a", "b"]), vec![], vec![]);
    assert_eq!(merge.dir().components, vec![b"a".to_vec(), b"b".to_vec()]);
}

#[test]
fn a_large_directory_is_paired_in_one_pass() {
    let name = |i: u32| format!("entry-{:08}", i.wrapping_mul(2_654_435_761) % 1_000_000);
    let left: Vec<FileT> = (0..30_000).map(|i| file(&name(i))).collect();
    let right: Vec<FileT> = (10_000..40_000).rev().map(|i| file(&name(i))).collect();
    let mut names_left: Vec<String> = (0..30_000).map(name).collect();
    names_left.sort();
    names_left.dedup();
    assert_eq!(names_left.len(), 30_000);
    let mut merge = DirMerge::new(path(&["big"]), left, right);
    let (mut only_left, mut only_right, mut pairs) = (0, 0, 0);
    while let Some(action) = merge.next_action() {
        match action {
            Action::Report(Diff::InDir1Only(..)) => only_left += 1,
            Action::Report(Diff::InDir2Only(..)) => only_right += 1,
            Action::Pair(PairTask::CompareFiles(a, b)) => {
                assert_eq!(a.name, b.name);
                pairs += 1;
            }
            other => panic!("unexpected {other:?}"),
        }
    }
    assert_eq!((only_left, only_right, pairs), (10_000, 10_000, 20_000));
}
