//! The tree, its paths and the rollups over it.

use diskscope::paths::{file_name, join, parent, split, title};
use diskscope::summary::subtree::visit;
use diskscope::summary::{
    children_by_size, for_each_in_subtree, kind_totals, kind_totals_parallel, largest_files,
    subtree_len,
};
use diskscope::tree::{arena_bytes, flags, is_under, make_node, Node, NodeId, ScanStats, Tree, ROOT};

/// A node that is a directory with children `start..start + len`.
fn dir(parent: NodeId, name: (u32, u16), depth: u8, kids: (u32, u32), size: (u64, u64)) -> Node {
    let mut n = make_node(parent, name.0, name.1, flags::DIR, depth, size.0, size.1);
    n.child_start = kids.0;
    n.child_len = kids.1;
    n
}

fn file(parent: NodeId, name: (u32, u16), depth: u8, kind: u16, size: (u64, u64)) -> Node {
    let mut n = make_node(parent, name.0, name.1, 0, depth, size.0, size.1);
    n.kind = kind;
    n
}

/// ```text
/// /vol  (600, 1200)
///   a   (500, 1000)
///     x.mp4 (300, 600)   kind 3
///     y.rs  (200, 400)   kind 4
///   b.rs    (100, 200)   kind 4
///   c   (empty folder)
/// ```
fn sample() -> Tree {
    let names = b"volab.rscx.mp4y.rs".to_vec();
    let nodes = vec![
        dir(0, (0, 3), 0, (1, 3), (600, 1200)),
        dir(0, (3, 1), 1, (4, 2), (500, 1000)),
        file(0, (4, 4), 1, 4, (100, 200)),
        dir(0, (8, 1), 1, (0, 0), (0, 0)),
        file(1, (9, 5), 2, 3, (300, 600)),
        file(1, (14, 4), 2, 4, (200, 400)),
    ];
    Tree::new(b"/vol".to_vec(), nodes, names, ScanStats::default())
}

#[test]
fn names_and_paths_come_from_the_arena() {
    let tree = sample();
    assert_eq!(tree.len(), 6);
    assert!(!tree.is_empty());
    assert_eq!(tree.name(4), "x.mp4");
    assert_eq!(tree.name_bytes(1), b"a");
    assert_eq!(tree.path(ROOT), b"/vol");
    assert_eq!(tree.path(4), b"/vol/a/x.mp4");
    assert_eq!(tree.path_text(5), "/vol/a/y.rs");
    assert_eq!(tree.display_path(5), "a/y.rs");
    assert_eq!(tree.display_path(2), "b.rs");
    assert_eq!(tree.display_path(ROOT), "");
    assert_eq!(tree.root_text(), "/vol");
    assert_eq!(tree.ancestry(5), vec![0, 1, 5]);
    assert_eq!(tree.ancestry(ROOT), vec![0]);
    assert_eq!(tree.children(1), 4..6);
    assert!(tree.children(3).is_empty());
    assert_eq!(tree.nodes().len(), 6);
    assert!(tree.memory_bytes() >= 6 * std::mem::size_of::<Node>());
}

#[test]
fn the_arena_costs_its_nodes_and_its_names() {
    assert_eq!(std::mem::size_of::<Node>(), 40);
    assert_eq!(arena_bytes(0, 0), 0);
    assert_eq!(arena_bytes(6, 18), 258);
    let tree = sample();
    assert!(tree.memory_bytes() >= 258);
}

#[test]
fn a_path_is_the_root_and_the_relative_path() {
    let tree = sample();
    for id in 1..tree.len() as NodeId {
        assert_eq!(tree.path_text(id), format!("/vol/{}", tree.display_path(id)));
    }
}

#[test]
fn the_map_stops_at_leaves() {
    let leaf = |flags: u8, kids: u32, collapse: bool| {
        let mut n = make_node(ROOT, 0, 0, flags, 1, 0, 0);
        n.child_start = 7;
        n.child_len = kids;
        n.is_leaf(collapse)
    };
    assert!(leaf(0, 0, false));
    assert!(leaf(flags::DIR, 0, false));
    assert!(!leaf(flags::DIR, 2, false));
    assert!(leaf(flags::DIR | flags::UNREADABLE, 2, false));
    assert!(!leaf(flags::DIR | flags::PACKAGE, 2, false));
    assert!(leaf(flags::DIR | flags::PACKAGE, 2, true));
}

#[test]
fn every_path_lies_under_the_root() {
    let tree = sample();
    for id in 0..tree.len() as NodeId {
        assert!(is_under(b"/vol", &tree.path(id)));
        assert!(!is_under(b"/volume", &tree.path(id)));
    }
    assert!(is_under(b"/a//b/", b"/a/b/c"));
    assert!(!is_under(b"/a/b", b"/a/bc"));
}

#[test]
fn a_name_that_is_no_text_is_shown_with_replacements() {
    let nodes = vec![make_node(ROOT, 0, 3, 0, 0, 1, 1)];
    let tree = Tree::new(b"/x\xffy".to_vec(), nodes, b"x\xffy".to_vec(), ScanStats::default());
    assert_eq!(tree.name(ROOT), "x\u{fffd}y");
    assert_eq!(tree.path_text(ROOT), "/x\u{fffd}y");
}

#[test]
fn sizes_are_read_in_either_metric() {
    let tree = sample();
    assert_eq!(tree.size(1, false), 500);
    assert_eq!(tree.size(1, true), 1000);
    assert_eq!(tree.error_count(), 0);
    assert_eq!(tree.stats_of().files, 0);
}

#[test]
fn packages_are_leaves_when_collapsed() {
    let mut n = dir(0, (0, 0), 0, (1, 1), (0, 0));
    assert!(!n.is_leaf(true));
    n.flags |= flags::PACKAGE;
    assert!(n.is_leaf(true));
    assert!(!n.is_leaf(false));
    n.child_len = 0;
    assert!(n.is_leaf(false));
}

#[test]
fn a_new_name_replaces_the_old_one() {
    let mut tree = sample();
    tree.set_name(1, b"renamed");
    assert_eq!(tree.name(1), "renamed");
    assert_eq!(tree.path(4), b"/vol/renamed/x.mp4");
    assert_eq!(tree.name(5), "y.rs");
}

#[test]
fn free_space_joins_the_children_of_the_root() {
    let mut tree = sample();
    tree.push_free_space(50, 2);
    assert_eq!(tree.len(), 7);
    assert_eq!(tree.children(ROOT), 1..5);
    assert_eq!(tree.node(4).flags & flags::FREE_SPACE, flags::FREE_SPACE);
    assert_eq!(tree.name(4), "(free space)");
    assert_eq!(tree.node(4).kind, 2);
    assert_eq!(tree.node(ROOT).logical, 650);
    assert_eq!(tree.node(ROOT).physical, 1250);
    // Nodes behind it moved up by one and kept who they are.
    assert_eq!(tree.path(5), b"/vol/a/x.mp4");
    assert_eq!(tree.children(1), 5..7);
    // It is no file that could be among the largest.
    assert!(!largest_files(&tree, ROOT, 10, false).contains(&4));
}

#[test]
fn subtrees_are_visited_in_full_and_once() {
    let tree = sample();
    assert_eq!(subtree_len(&tree, ROOT), 6);
    assert_eq!(subtree_len(&tree, 1), 3);
    assert_eq!(subtree_len(&tree, 2), 1);
    let mut seen = for_each_in_subtree(&tree, 1);
    seen.sort();
    assert_eq!(seen, vec![1, 4, 5]);
    let mut all = for_each_in_subtree(&tree, ROOT);
    all.sort();
    assert_eq!(all, vec![0, 1, 2, 3, 4, 5]);
    assert_eq!(visit(&tree, ROOT), vec![0, 1, 2, 3, 4, 5]);
}

#[test]
fn totals_are_per_kind_and_largest_first() {
    let tree = sample();
    let totals = kind_totals(&tree, ROOT, 8, false);
    let flat: Vec<(u16, u64, u64, u64)> =
        totals.iter().map(|t| (t.kind, t.logical, t.physical, t.files)).collect();
    // Equal sizes: the kind with more files goes first.
    assert_eq!(flat, vec![(4, 300, 600, 2), (3, 300, 600, 1)]);
    assert_eq!(totals.iter().map(|t| t.logical).sum::<u64>(), tree.size(ROOT, false));
    assert_eq!(totals.iter().map(|t| t.files).sum::<u64>(), 3);
    let inside = kind_totals(&tree, 1, 8, true);
    assert_eq!((inside[0].kind, inside[0].physical), (3, 600));
    assert_eq!((inside[1].kind, inside[1].physical), (4, 400));
    assert!(kind_totals(&tree, 3, 8, true).is_empty());
    let mut par = kind_totals_parallel(&tree, 8);
    par.sort_by_key(|t| t.kind);
    assert_eq!(par.len(), 2);
    assert_eq!((par[1].kind, par[1].logical, par[1].files), (4, 300, 2));
}

#[test]
fn the_largest_files_come_largest_first() {
    let tree = sample();
    assert_eq!(largest_files(&tree, ROOT, 2, false), vec![4, 5]);
    assert_eq!(largest_files(&tree, ROOT, 9, false), vec![4, 5, 2]);
    assert_eq!(largest_files(&tree, 1, 1, true), vec![4]);
    assert!(largest_files(&tree, ROOT, 0, false).is_empty());
    assert!(largest_files(&tree, 3, 5, false).is_empty());
}

#[test]
fn folders_come_largest_first() {
    // The file 2 stands between the folders by size and is left out.
    let tree = sample();
    assert_eq!(children_by_size(&tree, ROOT, false), vec![1, 3]);
    assert!(children_by_size(&tree, 1, false).is_empty());
    assert!(children_by_size(&tree, 3, false).is_empty());
}

#[test]
fn a_path_grows_by_one_separator() {
    let mut path = b"/a".to_vec();
    join(&mut path, b"b");
    assert_eq!(path, b"/a/b");
    let mut root = b"/".to_vec();
    join(&mut root, b"b");
    assert_eq!(root, b"/b");
    let mut empty = Vec::new();
    join(&mut empty, b"b");
    assert_eq!(empty, b"b");
    join(&mut path, b"/abs");
    assert_eq!(path, b"/abs");
    join(&mut path, b"");
    assert_eq!(path, b"/abs/");
}

#[test]
fn components_ignore_what_names_nothing() {
    assert_eq!(split(b"/a//b/./c/"), vec![b"/".to_vec(), b"a".to_vec(), b"b".to_vec(), b"c".to_vec()]);
    assert_eq!(split(b"./a/.."), vec![b".".to_vec(), b"a".to_vec(), b"..".to_vec()]);
    assert!(split(b"").is_empty());
}

#[test]
fn the_last_name_of_a_path() {
    assert_eq!(file_name(b"/a/b.txt"), Some(b"b.txt".to_vec()));
    assert_eq!(file_name(b"/a/b/"), Some(b"b".to_vec()));
    assert_eq!(file_name(b"/"), None);
    assert_eq!(file_name(b"a/.."), None);
    assert_eq!(title(b"/"), b"/");
    assert_eq!(title(b"/vol/x"), b"x");
}

#[test]
fn the_parent_of_a_path_is_what_std_says() {
    for path in [
        "/a/b", "/a", "/", "", "a", "a/b/", "a/./b", "//a/b", "///a", ".", "./a", "a/..", "..", "/..",
        "/a//b//", "a/.", "/.", "/./a", ".a", "./.", "a/b/.", "/a/./.", "x/.a",
    ] {
        let expected = std::path::Path::new(path).parent().map(|p| p.to_str().unwrap().as_bytes().to_vec());
        assert_eq!(parent(path.as_bytes()), expected, "{path:?}");
    }
}

#[test]
fn components_are_what_std_says() {
    for path in ["/a/b", "/", "", "a//b/./c", "./a", "a/..", "..", "./", "//", ".//a", ".a/b"] {
        let expected: Vec<Vec<u8>> = std::path::Path::new(path)
            .components()
            .map(|c| c.as_os_str().to_str().unwrap().as_bytes().to_vec())
            .collect();
        assert_eq!(split(path.as_bytes()), expected, "{path:?}");
    }
}

#[test]
fn a_node_is_forty_bytes() {
    assert_eq!(std::mem::size_of::<Node>(), 40);
}
