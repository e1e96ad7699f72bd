//! What the keyboard, the pointer and a finished scan do to the window.

use vstd::prelude::*;

use crate::app::notes::{scan_failed, scan_note, scan_note_text};
use crate::app::{Action, App, Screen};
use crate::canvas::CanvasOutput;
use crate::scan::assemble::kinds_known;
use crate::summary::largest::best;
use crate::summary::subtree::{each, subtree_sum, visiting_order};
use crate::summary::{largest_files, subtree_len};
use crate::text::lossy_text;
use crate::tree::{Node, NodeId, Tree, ROOT};

verus! {

/// The keys pressed in a frame.
#[derive(Clone, Copy, Debug, PartialEq, Eq, Structural)]
pub struct Keys {
    pub command: bool,
    pub backspace: bool,
    pub escape: bool,
    pub r: bool,
    pub o: bool,
    pub enter: bool,
}

/// The screen after the keys: only escape changes it.
pub open spec fn keyed(screen: Screen, keys: Keys) -> Screen {
    if keys.escape {
        Screen {
            selected: None,
            highlight: None,
            stale: screen.stale || screen.highlight is Some,
            ..screen
        }
    } else {
        screen
    }
}

/// `action` if `wanted`.
pub open spec fn action_if(wanted: bool, action: Action) -> Seq<Action> {
    if wanted {
        seq![action]
    } else {
        Seq::empty()
    }
}

/// The actions the keys ask for, in order. Backspace looks at the selection
/// before escape clears it, enter afterwards.
pub open spec fn key_actions(screen: Screen, keys: Keys) -> Seq<Action> {
    let back = if keys.command && screen.selected is Some {
        Action::ConfirmTrash(screen.selected->0)
    } else {
        Action::GoUp
    };
    let selected = keyed(screen, keys).selected;
    action_if(keys.backspace, back) + action_if(keys.command && keys.r, Action::Rescan)
        + action_if(keys.command && keys.o, Action::PickFolder) + action_if(
        keys.enter && selected is Some,
        Action::Reveal(selected->0),
    )
}

/// What the trash dialog asks about.
#[derive(Debug)]
pub struct TrashPrompt {
    pub path: Vec<u8>,
    pub size: u64,
    /// How many entries are inside, if it is a folder.
    pub inside: Option<u64>,
}

/// One step of the way from the scan root to the folder in view.
#[derive(Debug)]
pub struct Crumb {
    pub id: NodeId,
    pub label: String,
    pub size: u64,
    /// Size of the level above, at least one; the size itself for the root.
    pub whole: u64,
}

impl App {
    /// Everything but the screen is as it was.
    pub open spec fn only_screen_differs(&self, before: App) -> bool {
        &&& self.tree == before.tree
        &&& self.last_root == before.last_root
        &&& self.expanded == before.expanded
        &&& self.totals == before.totals
        &&& self.largest == before.largest
        &&& self.kind_count == before.kind_count
    }

    /// Takes the keys pressed in a frame.
    pub fn keyboard(&mut self, keys: &Keys) -> (queue: Vec<Action>)
        requires
            old(self).wf(),
        ensures
            final(self).wf(),
            final(self).only_screen_differs(*old(self)),
            final(self).screen == keyed(old(self).screen, *keys),
            queue@ == key_actions(old(self).screen, *keys),
    {
        let ghost before = self.screen;
        let mut queue: Vec<Action> = Vec::new();
        if keys.backspace {
            match (keys.command, self.screen.selected) {
                (true, Some(id)) => queue.push(Action::ConfirmTrash(id)),
                _ => queue.push(Action::GoUp),
            }
        }
        if keys.escape {
            self.screen.selected = None;
            if self.screen.highlight.is_some() {
                self.screen.highlight = None;
                self.screen.stale = true;
            }
        }
        if keys.command && keys.r {
            queue.push(Action::Rescan);
        }
        if keys.command && keys.o {
            queue.push(Action::PickFolder);
        }
        if keys.enter {
            if let Some(id) = self.screen.selected {
                queue.push(Action::Reveal(id));
            }
        }
        assert(queue@ == key_actions(before, *keys));
        queue
    }

    /// Takes what the pointer did over the map.
    pub fn map_events(&mut self, p: &CanvasOutput) -> (queue: Vec<Action>)
        requires
            old(self).wf(),
        ensures
            final(self).wf(),
            final(self).only_screen_differs(*old(self)),
            final(self).screen == (Screen {
                hovered: p.hovered,
                selected: if p.context_target is Some {
                    p.context_target
                } else {
                    old(self).screen.selected
                },
                ..old(self).screen
            }),
            queue@ == action_if(p.clicked is Some, Action::Select(p.clicked->0)) + action_if(
                p.double_clicked is Some,
                Action::Drill(p.double_clicked->0),
            ),
    {
        let mut queue: Vec<Action> = Vec::new();
        self.screen.hovered = p.hovered;
        if let Some(id) = p.clicked {
            queue.push(Action::Select(id));
        }
        if let Some(id) = p.double_clicked {
            queue.push(Action::Drill(id));
        }
        if p.context_target.is_some() {
            self.screen.selected = p.context_target;
        }
        assert(queue@ == action_if(p.clicked is Some, Action::Select(p.clicked->0)) + action_if(
            p.double_clicked is Some,
            Action::Drill(p.double_clicked->0),
        ));
        queue
    }

    /// Measures by blocks on disk instead of apparent size, or the other way
    /// round.
    pub fn toggle_metric(&mut self)
        requires
            old(self).wf(),
        ensures
            final(self).wf(),
            final(self).screen == (Screen {
                physical: !old(self).screen.physical,
                stale: true,
                ..old(self).screen
            }),
            final(self).tree == old(self).tree,
            final(self).last_root == old(self).last_root,
            final(self).expanded == old(self).expanded,
            final(self).kind_count == old(self).kind_count,
    {
        self.screen.physical = !self.screen.physical;
        self.screen.stale = true;
        self.recompute();
    }

    /// Draws bundles as one block, or stops doing so.
    pub fn toggle_bundles(&mut self)
        requires
            old(self).wf(),
        ensures
            final(self).wf(),
            final(self).only_screen_differs(*old(self)),
            final(self).screen == (Screen {
                collapse_packages: !old(self).screen.collapse_packages,
                stale: true,
                ..old(self).screen
            }),
    {
        self.screen.collapse_packages = !self.screen.collapse_packages;
        self.screen.stale = true;
    }

    /// Takes the outcome of a scan: a tree is shown, an error is not. Returns
    /// what there is to say of it.
    pub fn collect_finished_scan(
        &mut self,
        outcome: Result<Tree, String>,
        cancelled: bool,
        root: &str,
    ) -> (note: Option<String>)
        requires
            old(self).wf(),
            old(self).screen.generation < u64::MAX,
            outcome matches Ok(tree) ==> tree@.wf() && kinds_known(
                tree@.nodes,
                old(self).kind_count as int,
            ),
        ensures
            final(self).wf(),
            final(self).kind_count == old(self).kind_count,
            final(self).last_root == old(self).last_root,
            match outcome {
                Ok(tree) => {
                    &&& final(self).tree == Some(tree)
                    &&& final(self).expanded@ == Set::<NodeId>::empty()
                    &&& final(self).screen == (Screen {
                        generation: (old(self).screen.generation + 1) as u64,
                        view_root: ROOT,
                        selected: None,
                        hovered: None,
                        highlight: None,
                        stale: true,
                        ..old(self).screen
                    })
                    &&& match note {
                        Some(note) => scan_note_text(cancelled, tree@.stats.errors) == Some(
                            note@,
                        ),
                        None => scan_note_text(cancelled, tree@.stats.errors) is None,
                    }
                },
                Err(e) => {
                    &&& final(self).only_screen_differs(*old(self))
                    &&& final(self).screen == old(self).screen
                    &&& note is Some
                    &&& note->0@ == "Can't scan "@ + root@ + ": "@ + e@
                },
            },
    {
        match outcome {
            Ok(tree) => {
                let errors: u64 = tree.error_count();
                self.adopt(tree);
                scan_note(cancelled, errors)
            },
            Err(e) => Some(scan_failed(root, e.as_str())),
        }
    }

    /// Points the window at its own biggest find, so that a picture of it has
    /// something in the readout.
    pub fn select_largest(&mut self)
        requires
            old(self).wf(),
        ensures
            final(self).wf(),
            final(self).only_screen_differs(*old(self)),
            match old(self).nodes() {
                Some(nodes) => {
                    let top = best(nodes, visiting_order(nodes, 0), 1, old(self).screen.physical);
                    final(self).screen == (Screen {
                        selected: if top.len() > 0 {
                            Some(top[0].1)
                        } else {
                            None
                        },
                        ..old(self).screen
                    })
                },
                None => final(self).screen == old(self).screen,
            },
    {
        let physical = self.screen.physical;
        let mut found: Option<Option<NodeId>> = None;
        if let Some(tree) = &self.tree {
            let files = largest_files(tree, ROOT, 1, physical);
            let ghost top = best(
                tree@.nodes,
                visiting_order(tree@.nodes, 0),
                1,
                physical,
            );
            assert(files@.len() == top.len());
            found = Some(
                if files.len() > 0 {
                    assert(files@[0] == top[0].1);
                    Some(files[0])
                } else {
                    None
                },
            );
        }
        if let Some(selected) = found {
            self.screen.selected = selected;
        }
    }

    /// What the trash dialog asks, if it is open. Without a tree, or for a node
    /// the tree does not have, it closes.
    pub fn trash_prompt(&mut self) -> (prompt: Option<TrashPrompt>)
        requires
            old(self).wf(),
        ensures
            final(self).wf(),
            final(self).only_screen_differs(*old(self)),
            match (old(self).screen.pending_trash, old(self).tree) {
                (Some(id), Some(tree)) if tree@.has(id as int) => {
                    &&& final(self).screen == old(self).screen
                    &&& prompt matches Some(p) && p.path@ == tree@.path(id as int) && p.size
                        == tree@.nodes[id as int].spec_size(old(self).screen.physical) && p.inside
                        == if tree@.nodes[id as int].spec_is_dir() {
                        Some((subtree_sum(tree@.nodes, id as int, each()) - 1) as u64)
                    } else {
                        None
                    }
                },
                _ => {
                    &&& prompt is None
                    &&& final(self).screen == (Screen { pending_trash: None, ..old(self).screen })
                },
            },
    {
        let physical = self.screen.physical;
        let mut prompt: Option<TrashPrompt> = None;
        if let Some(id) = self.screen.pending_trash {
            if let Some(tree) = &self.tree {
                if (id as usize) < tree.len() {
                    let inside: Option<u64> = if tree.node(id).is_dir() {
                        let n: usize = subtree_len(tree, id);
                        proof {
                            crate::summary::subtree::lemma_subtree_counts_itself(
                                tree@.nodes,
                                id as int,
                            );
                        }
                        Some((n - 1) as u64)
                    } else {
                        None
                    };
                    prompt =
                    Some(
                        TrashPrompt { path: tree.path(id), size: tree.size(id, physical), inside },
                    );
                }
            }
        }
        if prompt.is_none() {
            self.screen.pending_trash = None;
        }
        prompt
    }

    /// Closes the trash dialog. Once the item has been moved, nothing is
    /// selected any more.
    pub fn trash_answered(&mut self, moved: bool)
        requires
            old(self).wf(),
        ensures
            final(self).wf(),
            final(self).only_screen_differs(*old(self)),
            final(self).screen == (Screen {
                pending_trash: None,
                selected: if moved {
                    None
                } else {
                    old(self).screen.selected
                },
                ..old(self).screen
            }),
    {
        if moved {
            self.screen.selected = None;
        }
        self.screen.pending_trash = None;
    }

    /// The way from the scan root to the folder in view.
    pub fn breadcrumb(&self) -> (crumbs: Vec<Crumb>)
        requires
            self.wf(),
        ensures
            match self.tree {
                None => crumbs@.len() == 0,
                Some(tree) => {
                    let line = tree@.ancestry(self.screen.view_root as int);
                    &&& crumbs@.len() == line.len()
                    &&& forall|i: int|
                        0 <= i < crumbs@.len() ==> is_crumb(
                            #[trigger] crumbs@[i],
                            tree@.nodes,
                            line,
                            i,
                            self.screen.physical,
                        ) && crumbs@[i].label@ == if i == 0 {
                            lossy_text(tree@.root_path)
                        } else {
                            lossy_text(tree@.name(line[i] as int))
                        }
                },
            },
    {
        let mut crumbs: Vec<Crumb> = Vec::new();
        if let Some(tree) = &self.tree {
            let physical = self.screen.physical;
            let line = tree.ancestry(self.screen.view_root);
            proof {
                crate::tree::lemma_ancestry(tree@, self.screen.view_root as int);
            }
            for i in 0..line.len()
                invariant
                    tree@.wf(),
                    physical == self.screen.physical,
                    line@ == tree@.ancestry(self.screen.view_root as int),
                    forall|k: int| 0 <= k < line@.len() ==> tree@.has(#[trigger] line@[k] as int),
                    crumbs@.len() == i,
                    forall|k: int|
                        0 <= k < i ==> is_crumb(
                            #[trigger] crumbs@[k],
                            tree@.nodes,
                            line@,
                            k,
                            physical,
                        ) && crumbs@[k].label@ == if k == 0 {
                            lossy_text(tree@.root_path)
                        } else {
                            lossy_text(tree@.name(line@[k] as int))
                        },
            {
                let id: NodeId = line[i];
                assert(tree@.has(line@[i as int] as int));
                let label = if i == 0 {
                    tree.root_text()
                } else {
                    tree.name(id)
                };
                let size: u64 = tree.size(id, physical);
                let whole: u64 = if i == 0 {
                    size
                } else {
                    assert(tree@.has(line@[i - 1] as int));
                    let above: u64 = tree.size(line[i - 1], physical);
                    if above == 0 {
                        1
                    } else {
                        above
                    }
                };
                crumbs.push(Crumb { id, label, size, whole });
            }
        }
        crumbs
    }
}

/// What a step of the way says besides its label.
pub open spec fn is_crumb(
    crumb: Crumb,
    nodes: Seq<Node>,
    line: Seq<NodeId>,
    i: int,
    physical: bool,
) -> bool {
    let above = nodes[line[i - 1] as int].spec_size(physical);
    &&& crumb.id == line[i]
    &&& crumb.size == nodes[line[i] as int].spec_size(physical)
    &&& crumb.whole == if i == 0 {
        crumb.size
    } else if above == 0 {
        1
    } else {
        above
    }
}

} // verus!
