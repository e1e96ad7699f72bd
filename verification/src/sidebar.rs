//! The left rail: what the volume holds, broken down three ways.

use vstd::prelude::*;

use crate::app::events::action_if;
use crate::app::{Action, App};
use crate::fmt::{bytes, bytes_text, count, count_text, files, files_text, percent, percent_text};
use crate::kinds::KindTable;
use crate::summary::listed::{each_file, lemma_listed_totals, listed_files, listed_size};
use crate::summary::subtree::{each, subtree_sum};
use crate::summary::totals::kinds_in_range;
use crate::summary::{subtree_len, KindTotal};
use crate::tree::flags;
use crate::tree::{has_flag, Node, NodeId, ROOT};

verus! {

#[derive(Clone, Copy, Debug, PartialEq, Eq, Structural)]
pub enum Tab {
    Kinds,
    Folders,
    Largest,
}

impl Default for Tab {
    fn default() -> (tab: Tab)
        ensures
            tab == Tab::Kinds,
    {
        Tab::Kinds
    }
}

impl Tab {
    pub open spec fn spec_label(self) -> Seq<char> {
        match self {
            Tab::Kinds => "KINDS"@,
            Tab::Folders => "FOLDERS"@,
            Tab::Largest => "LARGEST"@,
        }
    }

    pub fn label(self) -> (label: &'static str)
        ensures
            label@ == self.spec_label(),
    {
        match self {
            Tab::Kinds => "KINDS",
            Tab::Folders => "FOLDERS",
            Tab::Largest => "LARGEST",
        }
    }
}

/// The size of a total in the metric shown.
pub fn metric(total: &KindTotal, physical: bool) -> (size: u64)
    ensures
        size == total.spec_size(physical),
{
    if physical {
        total.physical
    } else {
        total.logical
    }
}

/// What the sizes of a list of totals add up to.
pub fn whole_size(totals: &Vec<KindTotal>, physical: bool) -> (whole: u64)
    requires
        listed_size(totals@, physical) <= u64::MAX,
    ensures
        whole == listed_size(totals@, physical),
{
    let mut whole: u64 = 0;
    assert(totals@.take(0) == Seq::<KindTotal>::empty());
    for i in 0..totals.len()
        invariant
            listed_size(totals@, physical) <= u64::MAX,
            whole == listed_size(totals@.take(i as int), physical),
    {
        proof {
            assert(totals@.take(i + 1).drop_last() == totals@.take(i as int));
            lemma_lists_grow(totals@, i + 1, physical);
        }
        whole = whole + metric(&totals[i], physical);
    }
    assert(totals@.take(totals@.len() as int) == totals@);
    whole
}

/// How many files a list of totals counts.
pub fn whole_files(totals: &Vec<KindTotal>) -> (whole: u64)
    requires
        listed_files(totals@) <= u64::MAX,
    ensures
        whole == listed_files(totals@),
{
    let mut whole: u64 = 0;
    assert(totals@.take(0) == Seq::<KindTotal>::empty());
    for i in 0..totals.len()
        invariant
            listed_files(totals@) <= u64::MAX,
            whole == listed_files(totals@.take(i as int)),
    {
        proof {
            assert(totals@.take(i + 1).drop_last() == totals@.take(i as int));
            lemma_lists_grow(totals@, i + 1, false);
        }
        whole = whole + totals[i].files;
    }
    assert(totals@.take(totals@.len() as int) == totals@);
    whole
}

/// The files and sizes of the first `n` kinds are no more than those of all.
proof fn lemma_lists_grow(totals: Seq<KindTotal>, n: int, physical: bool)
    requires
        0 <= n <= totals.len(),
    ensures
        listed_size(totals.take(n), physical) <= listed_size(totals, physical),
        listed_files(totals.take(n)) <= listed_files(totals),
    decreases totals.len(),
{
    if n < totals.len() {
        assert(totals.drop_last().take(n) == totals.take(n));
        lemma_lists_grow(totals.drop_last(), n, physical);
    } else {
        assert(totals.take(n) == totals);
    }
}

/// Headline numbers for whatever is in view.
#[derive(Debug)]
pub struct Headline {
    pub title: &'static str,
    pub size: String,
    pub counts: String,
}

/// How full the volume is.
#[derive(Debug)]
pub struct Usage {
    pub used: u64,
    pub total: u64,
    pub text: String,
}

/// A row of the kinds table.
#[derive(Debug)]
pub struct KindRow {
    pub kind: u16,
    pub color: [u8; 3],
    pub name: String,
    pub size: String,
    pub share: String,
    pub files: String,
    pub selected: bool,
}

/// A row of the folder pane.
#[derive(Clone, Copy, Debug, PartialEq, Eq, Structural)]
pub struct FolderRow {
    pub size: u64,
    /// Whether it can be opened here; a package counts as one thing.
    pub has_children: bool,
    pub open: bool,
    pub selected: bool,
}

/// A row of the list of largest files.
#[derive(Clone, Copy, Debug, PartialEq, Eq, Structural)]
pub struct FileRow {
    pub id: NodeId,
    pub kind: u16,
    pub size: u64,
    /// Size of the largest file of the list, at least one.
    pub biggest: u64,
    pub selected: bool,
}

/// How full the volume of a tree is, when that is known.
pub fn usage(free_space: Option<u64>, volume_total: Option<u64>) -> (usage: Option<Usage>)
    ensures
        match (free_space, volume_total) {
            (Some(free), Some(total)) if total > 0 => {
                let used = if free <= total {
                    (total - free) as u64
                } else {
                    0
                };
                usage matches Some(u) && u.used == used && u.total == total && u.text@
                    == bytes_text(used) + " used of "@ + bytes_text(total) + " \u{b7} "@
                    + bytes_text(free) + " free"@
            },
            _ => usage is None,
        },
{
    match (free_space, volume_total) {
        (Some(free), Some(total)) => {
            if total == 0 {
                return None;
            }
            let used: u64 = total.saturating_sub(free);
            let mut text = bytes(used);
            text.append(" used of ");
            text.append(bytes(total).as_str());
            text.append(" \u{b7} ");
            text.append(bytes(free).as_str());
            text.append(" free");
            Some(Usage { used, total, text })
        },
        _ => None,
    }
}

/// The mark before a folder: whether it can be opened, and whether it is.
pub open spec fn marker_text(row: FolderRow) -> Seq<char> {
    if !row.has_children {
        "\u{b7}"@
    } else if row.open {
        "\u{25be}"@
    } else {
        "\u{25b8}"@
    }
}

/// The mark before a folder.
pub fn marker(row: &FolderRow) -> (mark: &'static str)
    ensures
        mark@ == marker_text(*row),
{
    if !row.has_children {
        "\u{b7}"
    } else if row.open {
        "\u{25be}"
    } else {
        "\u{25b8}"
    }
}

impl App {
    /// The headline of the rail: what is in view, how large it is and how much
    /// is in it.
    pub fn headline(&self) -> (headline: Option<Headline>)
        requires
            self.wf(),
        ensures
            match self.tree {
                None => headline is None,
                Some(tree) => {
                    let nodes = tree@.nodes;
                    let root = self.screen.view_root as int;
                    headline matches Some(h) && h.title@ == (if root == ROOT {
                        "SCANNED"@
                    } else {
                        "IN VIEW"@
                    }) && h.size@ == bytes_text(nodes[root].spec_size(self.screen.physical))
                        && h.counts@ == count_text(subtree_sum(nodes, root, each()) as u64)
                        + " entries \u{b7} "@ + count_text(
                        subtree_sum(nodes, root, each_file(nodes)) as u64,
                    ) + " files"@
                },
            },
    {
        match &self.tree {
            None => None,
            Some(tree) => {
                let root: NodeId = self.screen.view_root;
                let entries: usize = subtree_len(tree, root);
                proof {
                    assert(kinds_in_range(tree@.nodes, root as int, self.kind_count as int));
                    lemma_listed_totals(
                        tree@.nodes,
                        root as int,
                        self.kind_count as int,
                        self.totals@,
                        true,
                    );
                }
                let mut counts = count(entries as u64);
                counts.append(" entries \u{b7} ");
                counts.append(count(whole_files(&self.totals)).as_str());
                counts.append(" files");
                Some(
                    Headline {
                        title: if root == ROOT {
                            "SCANNED"
                        } else {
                            "IN VIEW"
                        },
                        size: bytes(tree.size(root, self.screen.physical)),
                        counts,
                    },
                )
            },
        }
    }

    /// Row `i` of the kinds table: its share is that of the size in view.
    pub fn kind_row(&self, kinds: &KindTable, i: usize) -> (row: KindRow)
        requires
            self.wf(),
            self.tree is Some,
            self.kind_count == kinds@.kinds.len(),
            i < self.totals@.len(),
        ensures
            ({
                let nodes = self.tree->0@.nodes;
                let total = self.totals@[i as int];
                let size = total.spec_size(self.screen.physical);
                let whole = nodes[self.screen.view_root as int].spec_size(self.screen.physical);
                &&& row.kind == total.kind
                &&& row.color == kinds@.kinds[total.kind as int].color
                &&& row.name@ == kinds@.kinds[total.kind as int].name@
                &&& row.size@ == bytes_text(size)
                &&& row.share@ == percent_text(size, whole)
                &&& row.files@ == files_text(total.files)
                &&& row.selected == (self.screen.highlight == Some(total.kind))
            }),
    {
        let total: KindTotal = self.totals[i];
        let physical = self.screen.physical;
        proof {
            let nodes = self.tree->0@.nodes;
            assert(kinds_in_range(nodes, self.screen.view_root as int, self.kind_count as int));
            lemma_listed_totals(
                nodes,
                self.screen.view_root as int,
                self.kind_count as int,
                self.totals@,
                physical,
            );
            assert(self.totals@[i as int].kind < self.kind_count);
        }
        let whole: u64 = whole_size(&self.totals, physical);
        let size: u64 = metric(&total, physical);
        let kind = kinds.kind(total.kind);
        KindRow {
            kind: total.kind,
            color: kind.color,
            name: crate::text::owned(kind.name.as_str()),
            size: bytes(size),
            share: percent(size, whole),
            files: files(total.files),
            selected: match self.screen.highlight {
                Some(picked) => picked == total.kind,
                None => false,
            },
        }
    }

    /// What the folder pane shows of a folder.
    pub fn folder_row(&self, child: NodeId) -> (row: Option<FolderRow>)
        requires
            self.wf(),
            self.tree matches Some(tree) ==> tree@.has(child as int),
        ensures
            match self.tree {
                None => row is None,
                Some(tree) => row == Some(
                    FolderRow {
                        size: tree@.nodes[child as int].spec_size(self.screen.physical),
                        has_children: opens(tree@.nodes[child as int]),
                        open: self.expanded@.contains(child),
                        selected: self.screen.selected == Some(child),
                    },
                ),
            },
    {
        broadcast use vstd::std_specs::hash::group_hash_axioms;

        match &self.tree {
            None => None,
            Some(tree) => {
                let node = tree.node(child);
                Some(
                    FolderRow {
                        size: tree.size(child, self.screen.physical),
                        has_children: node.child_len > 0 && !node.has(flags::PACKAGE),
                        open: self.expanded.contains(&child),
                        selected: match self.screen.selected {
                            Some(id) => id == child,
                            None => false,
                        },
                    },
                )
            },
        }
    }

    /// A click on a folder selects it and opens or closes it, if it can be
    /// opened; a double click drills into it.
    pub fn click_folder(&mut self, child: NodeId, clicked: bool, double: bool) -> (queue: Vec<
        Action,
    >)
        requires
            old(self).wf(),
            old(self).tree matches Some(tree) && tree@.has(child as int),
        ensures
            final(self).wf(),
            final(self).tree == old(self).tree,
            final(self).screen == old(self).screen,
            final(self).last_root == old(self).last_root,
            final(self).totals == old(self).totals,
            final(self).largest == old(self).largest,
            final(self).kind_count == old(self).kind_count,
            final(self).expanded@ == if clicked && opens(
                old(self).tree->0@.nodes[child as int],
            ) {
                if old(self).expanded@.contains(child) {
                    old(self).expanded@.remove(child)
                } else {
                    old(self).expanded@.insert(child)
                }
            } else {
                old(self).expanded@
            },
            queue@ == action_if(clicked, Action::Select(child)) + action_if(
                double,
                Action::Drill(child),
            ),
    {
        broadcast use vstd::std_specs::hash::group_hash_axioms;

        let mut queue: Vec<Action> = Vec::new();
        if clicked {
            queue.push(Action::Select(child));
            let mut can_open = false;
            if let Some(tree) = &self.tree {
                let node = tree.node(child);
                can_open = node.child_len > 0 && !node.has(flags::PACKAGE);
            }
            if can_open {
                if self.expanded.contains(&child) {
                    self.expanded.remove(&child);
                } else {
                    self.expanded.insert(child);
                }
            }
        }
        if double {
            queue.push(Action::Drill(child));
        }
        assert(queue@ == action_if(clicked, Action::Select(child)) + action_if(
            double,
            Action::Drill(child),
        ));
        queue
    }

    /// Row `i` of the list of largest files.
    pub fn file_row(&self, i: usize) -> (row: FileRow)
        requires
            self.wf(),
            self.tree is Some,
            i < self.largest@.len(),
        ensures
            ({
                let nodes = self.tree->0@.nodes;
                let id = self.largest@[i as int];
                let first = nodes[self.largest@[0] as int].spec_size(self.screen.physical);
                row == (FileRow {
                    id,
                    kind: nodes[id as int].kind,
                    size: nodes[id as int].spec_size(self.screen.physical),
                    biggest: if first == 0 {
                        1
                    } else {
                        first
                    },
                    selected: self.screen.selected == Some(id),
                })
            }),
    {
        let physical = self.screen.physical;
        let id: NodeId = self.largest[i];
        let first: NodeId = self.largest[0];
        match &self.tree {
            Some(tree) => {
                proof {
                    lemma_largest_known(*self, i as int);
                    lemma_largest_known(*self, 0);
                }
                let biggest: u64 = tree.size(first, physical);
                FileRow {
                    id,
                    kind: tree.node(id).kind,
                    size: tree.size(id, physical),
                    biggest: if biggest == 0 {
                        1
                    } else {
                        biggest
                    },
                    selected: match self.screen.selected {
                        Some(s) => s == id,
                        None => false,
                    },
                }
            },
            None => FileRow { id, kind: 0, size: 0, biggest: 1, selected: false },
        }
    }
}

/// Whether a folder can be opened in the folder pane.
pub open spec fn opens(node: Node) -> bool {
    node.child_len > 0 && !has_flag(node.flags, flags::PACKAGE)
}

/// What the list of largest files names is in the tree.
proof fn lemma_largest_known(app: App, i: int)
    requires
        app.wf(),
        app.tree is Some,
        0 <= i < app.largest@.len(),
    ensures
        app.tree->0@.has(app.largest@[i] as int),
{
    let nodes = app.tree->0@.nodes;
    let root = app.screen.view_root as int;
    let ids = crate::summary::subtree::visiting_order(nodes, root);
    crate::summary::subtree::lemma_visiting_order(nodes, root);
    crate::summary::largest::lemma_best(
        nodes,
        ids,
        crate::app::LARGEST_COUNT as int,
        app.screen.physical,
    );
}

} // verus!
