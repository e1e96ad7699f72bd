//! The state of the window: what is shown, and what each action does to it.
//!
//! Nothing here draws. An action changes the state and may ask for something
//! the window has to do, an [`Effect`].

use std::collections::HashSet;

use vstd::prelude::*;

pub mod events;
pub mod notes;
pub mod readout;
pub mod screenshot;

use crate::canvas::{drill_target, drills_into};
use crate::paths::copied;
use crate::scan::assemble::kinds_known;
use crate::sidebar::Tab;
use crate::summary::largest::{best, ids_of};
use crate::summary::subtree::visiting_order;
use crate::summary::totals::{kinds_in_range, largest_first, lists_kinds};
use crate::summary::{kind_totals, largest_files, KindTotal};
use crate::text::lossy_text;
use crate::tree::{Node, NodeId, Tree, ROOT};

verus! {

/// How many files the Largest tab lists.
pub const LARGEST_COUNT: usize = 40;

#[derive(Debug)]
pub enum Action {
    Select(NodeId),
    Drill(NodeId),
    GoUp,
    Reveal(NodeId),
    Open(NodeId),
    CopyPath(NodeId),
    ConfirmTrash(NodeId),
    ToggleKind(u16),
    Rescan,
    PickFolder,
    ScanPath(Vec<u8>),
}

/// What the window has to do after an action.
#[derive(Debug)]
pub enum Effect {
    Nothing,
    /// Show this path in the file manager.
    Reveal(Vec<u8>),
    /// Open this path with whatever app owns it.
    Open(Vec<u8>),
    /// Put this text on the clipboard.
    Copy(String),
    /// Start a scan of this path.
    Scan(Vec<u8>),
    /// Let the user pick a folder, starting here.
    PickFolder(Option<Vec<u8>>),
}

/// What is shown, and how.
#[derive(Clone, Copy, Debug, PartialEq, Eq, Structural)]
pub struct Screen {
    /// The folder in view.
    pub view_root: NodeId,
    pub selected: Option<NodeId>,
    pub hovered: Option<NodeId>,
    /// The kind picked out of the map.
    pub highlight: Option<u16>,
    pub tab: Tab,
    /// Size by blocks on disk rather than apparent size.
    pub physical: bool,
    pub collapse_packages: bool,
    /// What the trash dialog asks about.
    pub pending_trash: Option<NodeId>,
    pub show_settings: bool,
    /// Goes up when a new tree is adopted, since node ids then mean something
    /// else.
    pub generation: u64,
    /// The map has to be drawn again.
    pub stale: bool,
}

pub struct App {
    pub tree: Option<Tree>,
    pub screen: Screen,
    pub last_root: Option<Vec<u8>>,
    /// Folders that are open in the folder pane.
    pub expanded: HashSet<NodeId>,
    pub totals: Vec<KindTotal>,
    pub largest: Vec<NodeId>,
    pub kind_count: usize,
}

/// Rollups of the subtree in view: the totals of its kinds and its largest
/// files.
pub open spec fn rolled_up(
    nodes: Seq<Node>,
    screen: Screen,
    kind_count: int,
    totals: Seq<KindTotal>,
    largest: Seq<NodeId>,
) -> bool {
    let root = screen.view_root as int;
    &&& lists_kinds(nodes, root, kind_count, totals)
    &&& largest_first(totals, screen.physical)
    &&& largest == ids_of(
        best(nodes, visiting_order(nodes, root), LARGEST_COUNT as int, screen.physical),
    )
}

/// The screen after an action; `nodes` is the tree, if there is one.
pub open spec fn acted(screen: Screen, nodes: Option<Seq<Node>>, action: Action) -> Screen {
    match action {
        Action::Select(id) => Screen { selected: Some(id), ..screen },
        Action::Drill(id) => match nodes {
            Some(nodes) if drills_into(nodes, id as int) != screen.view_root => Screen {
                view_root: drills_into(nodes, id as int),
                selected: None,
                stale: true,
                ..screen
            },
            _ => screen,
        },
        Action::GoUp => match nodes {
            Some(nodes) if screen.view_root != ROOT => Screen {
                view_root: nodes[screen.view_root as int].parent,
                stale: true,
                ..screen
            },
            _ => screen,
        },
        Action::ConfirmTrash(id) => Screen { pending_trash: Some(id), ..screen },
        Action::ToggleKind(kind) => Screen {
            highlight: if screen.highlight == Some(kind) {
                None
            } else {
                Some(kind)
            },
            stale: true,
            ..screen
        },
        _ => screen,
    }
}

impl App {
    /// The nodes of the tree, if there is one.
    pub open spec fn nodes(&self) -> Option<Seq<Node>> {
        match self.tree {
            Some(tree) => Some(tree@.nodes),
            None => None,
        }
    }

    /// The tree is sound, the view is part of it, and the rollups are those of
    /// the view.
    pub open spec fn wf(&self) -> bool {
        match self.tree {
            Some(tree) => {
                &&& tree@.wf()
                &&& kinds_known(tree@.nodes, self.kind_count as int)
                &&& tree@.has(self.screen.view_root as int)
                &&& rolled_up(
                    tree@.nodes,
                    self.screen,
                    self.kind_count as int,
                    self.totals@,
                    self.largest@,
                )
            },
            None => true,
        }
    }

    /// Whether the node an action speaks of is in the tree.
    pub open spec fn knows(&self, action: Action) -> bool {
        match (self.tree, action) {
            (Some(tree), Action::Drill(id)) => tree@.has(id as int),
            (Some(tree), Action::Reveal(id)) => tree@.has(id as int),
            (Some(tree), Action::Open(id)) => tree@.has(id as int),
            (Some(tree), Action::CopyPath(id)) => tree@.has(id as int),
            _ => true,
        }
    }

    /// What an action asks of the window.
    pub open spec fn asks(&self, action: Action, effect: Effect) -> bool {
        match (action, self.tree) {
            (Action::Reveal(id), Some(tree)) => effect matches Effect::Reveal(path) && path@
                == tree@.path(id as int),
            (Action::Open(id), Some(tree)) => effect matches Effect::Open(path) && path@
                == tree@.path(id as int),
            (Action::CopyPath(id), Some(tree)) => effect matches Effect::Copy(text) && text@
                == lossy_text(tree@.path(id as int)),
            (Action::Rescan, _) => match self.last_root {
                Some(root) => effect matches Effect::Scan(path) && path@ == root@,
                None => effect is Nothing,
            },
            (Action::PickFolder, _) => match self.last_root {
                Some(root) => effect matches Effect::PickFolder(Some(path)) && path@ == root@,
                None => effect == Effect::PickFolder(None),
            },
            (Action::ScanPath(wanted), _) => effect matches Effect::Scan(path) && path@ == wanted@,
            _ => effect is Nothing,
        }
    }

    /// An empty window for tables of `kind_count` kinds.
    pub fn new(kind_count: usize) -> (app: App)
        ensures
            app.wf(),
            app.tree is None,
            app.last_root is None,
            app.expanded@ == Set::<NodeId>::empty(),
            app.totals@.len() == 0,
            app.largest@.len() == 0,
            app.kind_count == kind_count,
            app.screen == (Screen {
                view_root: ROOT,
                selected: None,
                hovered: None,
                highlight: None,
                tab: Tab::Kinds,
                physical: true,
                collapse_packages: true,
                pending_trash: None,
                show_settings: false,
                generation: 0,
                stale: true,
            }),
    {
        App {
            tree: None,
            screen: Screen {
                view_root: ROOT,
                selected: None,
                hovered: None,
                highlight: None,
                tab: Tab::Kinds,
                physical: true,
                collapse_packages: true,
                pending_trash: None,
                show_settings: false,
                generation: 0,
                stale: true,
            },
            last_root: None,
            expanded: HashSet::new(),
            totals: Vec::new(),
            largest: Vec::new(),
            kind_count,
        }
    }

    /// Notes which root is being scanned.
    pub fn start_scan(&mut self, root: Vec<u8>) -> (effect: Effect)
        requires
            old(self).wf(),
        ensures
            final(self).wf(),
            final(self).last_root is Some && final(self).last_root->0@ == root@,
            effect matches Effect::Scan(path) && path@ == root@,
            final(self).tree == old(self).tree,
            final(self).screen == old(self).screen,
            final(self).expanded == old(self).expanded,
            final(self).totals == old(self).totals,
            final(self).largest == old(self).largest,
            final(self).kind_count == old(self).kind_count,
    {
        self.last_root = Some(copied(root.as_slice()));
        Effect::Scan(root)
    }

    /// Shows a new tree from its root.
    pub fn adopt(&mut self, tree: Tree)
        requires
            old(self).wf(),
            tree@.wf(),
            kinds_known(tree@.nodes, old(self).kind_count as int),
            old(self).screen.generation < u64::MAX,
        ensures
            final(self).wf(),
            final(self).tree == Some(tree),
            final(self).expanded@ == Set::<NodeId>::empty(),
            final(self).last_root == old(self).last_root,
            final(self).kind_count == old(self).kind_count,
            final(self).screen == (Screen {
                generation: (old(self).screen.generation + 1) as u64,
                view_root: ROOT,
                selected: None,
                hovered: None,
                highlight: None,
                stale: true,
                ..old(self).screen
            }),
    {
        self.screen.generation = self.screen.generation + 1;
        self.screen.view_root = ROOT;
        self.screen.selected = None;
        self.screen.hovered = None;
        self.screen.highlight = None;
        self.screen.stale = true;
        self.expanded.clear();
        self.tree = Some(tree);
        self.recompute();
    }

    /// Rollups for whatever subtree is in view. Cheap enough to redo on every
    /// change of view or metric, so nothing is cached per node.
    pub fn recompute(&mut self)
        requires
            old(self).tree matches Some(tree) ==> tree@.wf() && kinds_known(
                tree@.nodes,
                old(self).kind_count as int,
            ) && tree@.has(old(self).screen.view_root as int),
        ensures
            final(self).wf(),
            final(self).tree == old(self).tree,
            final(self).screen == old(self).screen,
            final(self).last_root == old(self).last_root,
            final(self).expanded == old(self).expanded,
            final(self).kind_count == old(self).kind_count,
            old(self).tree is None ==> final(self).totals == old(self).totals
                && final(self).largest == old(self).largest,
    {
        let root: NodeId = self.screen.view_root;
        let physical = self.screen.physical;
        if let Some(tree) = &self.tree {
            assert(kinds_in_range(tree@.nodes, root as int, self.kind_count as int));
            let totals = kind_totals(tree, root, self.kind_count, physical);
            let largest = largest_files(tree, root, LARGEST_COUNT, physical);
            self.totals = totals;
            self.largest = largest;
        }
    }

    /// Does what an action says.
    pub fn apply(&mut self, action: Action) -> (effect: Effect)
        requires
            old(self).wf(),
            old(self).knows(action),
        ensures
            final(self).wf(),
            final(self).tree == old(self).tree,
            final(self).expanded == old(self).expanded,
            final(self).kind_count == old(self).kind_count,
            final(self).screen == acted(old(self).screen, old(self).nodes(), action),
            final(self).screen.view_root == old(self).screen.view_root ==> final(self).totals
                == old(self).totals && final(self).largest == old(self).largest,
            match action {
                Action::ScanPath(path) => final(self).last_root is Some
                    && final(self).last_root->0@ == path@,
                _ => final(self).last_root == old(self).last_root,
            },
            old(self).asks(action, effect),
    {
        match action {
            Action::Select(id) => {
                self.screen.selected = Some(id);
                Effect::Nothing
            },
            Action::Drill(id) => {
                let mut target: NodeId = self.screen.view_root;
                if let Some(tree) = &self.tree {
                    target = drill_target(tree, id);
                    assert(id > 0 ==> tree@.nodes[id as int].parent < id);
                }
                if target != self.screen.view_root {
                    self.screen.view_root = target;
                    self.screen.selected = None;
                    self.screen.stale = true;
                    self.recompute();
                }
                Effect::Nothing
            },
            Action::GoUp => {
                if self.screen.view_root != ROOT {
                    let mut up: Option<NodeId> = None;
                    if let Some(tree) = &self.tree {
                        up = Some(tree.node(self.screen.view_root).parent);
                    }
                    if let Some(parent) = up {
                        self.screen.view_root = parent;
                        self.screen.stale = true;
                        self.recompute();
                    }
                }
                Effect::Nothing
            },
            Action::Reveal(id) => match &self.tree {
                Some(tree) => Effect::Reveal(tree.path(id)),
                None => Effect::Nothing,
            },
            Action::Open(id) => match &self.tree {
                Some(tree) => Effect::Open(tree.path(id)),
                None => Effect::Nothing,
            },
            Action::CopyPath(id) => match &self.tree {
                Some(tree) => Effect::Copy(tree.path_text(id)),
                None => Effect::Nothing,
            },
            Action::ConfirmTrash(id) => {
                self.screen.pending_trash = Some(id);
                Effect::Nothing
            },
            Action::ToggleKind(kind) => {
                self.screen.highlight = match self.screen.highlight {
                    Some(on) => if on == kind {
                        None
                    } else {
                        Some(kind)
                    },
                    None => Some(kind),
                };
                self.screen.stale = true;
                Effect::Nothing
            },
            Action::Rescan => match &self.last_root {
                Some(root) => Effect::Scan(copied(root.as_slice())),
                None => Effect::Nothing,
            },
            Action::PickFolder => match &self.last_root {
                Some(root) => Effect::PickFolder(Some(copied(root.as_slice()))),
                None => Effect::PickFolder(None),
            },
            Action::ScanPath(path) => self.start_scan(path),
        }
    }
}

/// Drilling into a folder and going up again shows the folder that holds it.
pub proof fn lemma_drill_and_back(screen: Screen, nodes: Seq<Node>, id: NodeId)
    requires
        id < nodes.len(),
        id != ROOT,
        id != screen.view_root,
        nodes[id as int].spec_is_dir(),
        nodes[id as int].child_len > 0,
    ensures
        ({
            let inside = acted(screen, Some(nodes), Action::Drill(id));
            let back = acted(inside, Some(nodes), Action::GoUp);
            &&& inside.view_root == id
            &&& back.view_root == nodes[id as int].parent
            &&& back.highlight == screen.highlight
            &&& back.physical == screen.physical
        }),
{
}

/// A block that is said to drill does: drilling into it changes the view, and
/// drilling into any other does not.
pub proof fn lemma_drills_as_said(screen: Screen, nodes: Seq<Node>, id: NodeId)
    requires
        id < nodes.len(),
    ensures
        acted(screen, Some(nodes), Action::Drill(id)).view_root != screen.view_root
            <==> drills_into(nodes, id as int) != screen.view_root,
{
}

/// Going up from the scan root changes nothing.
pub proof fn lemma_no_way_up(screen: Screen, nodes: Option<Seq<Node>>)
    requires
        screen.view_root == ROOT,
    ensures
        acted(screen, nodes, Action::GoUp) == screen,
{
}

/// Picking a kind out and putting it back leaves what was picked out before,
/// unless that was another kind.
pub proof fn lemma_toggle_twice(screen: Screen, nodes: Option<Seq<Node>>, kind: u16)
    requires
        screen.highlight is None || screen.highlight == Some(kind),
    ensures
        acted(
            acted(screen, nodes, Action::ToggleKind(kind)),
            nodes,
            Action::ToggleKind(kind),
        ).highlight == screen.highlight,
{
}

/// No action but drilling and going up changes what is in view, and none
/// changes how sizes are measured.
pub proof fn lemma_only_navigation_moves(
    screen: Screen,
    nodes: Option<Seq<Node>>,
    action: Action,
)
    ensures
        !(action is Drill) && !(action is GoUp) ==> acted(screen, nodes, action).view_root
            == screen.view_root,
        acted(screen, nodes, action).physical == screen.physical,
        acted(screen, nodes, action).collapse_packages == screen.collapse_packages,
        acted(screen, nodes, action).generation == screen.generation,
{
}

} // verus!
