//! What the readout band says of the item in focus.

use vstd::prelude::*;

use crate::app::notes::{flag_labels, flag_texts, focus_numbers, labels};
use crate::app::{App, Screen};
use crate::fmt::{bytes_text, percent_text};
use crate::kinds::KindTable;
use crate::text::lossy_text;
use crate::tree::NodeId;

verus! {

/// What the readout speaks of: the selection, or else what the pointer is over.
pub open spec fn in_focus(screen: Screen) -> Option<NodeId> {
    if screen.selected is Some {
        screen.selected
    } else {
        screen.hovered
    }
}

/// The readout of one item.
#[derive(Debug)]
pub struct Readout {
    pub id: NodeId,
    pub color: [u8; 3],
    pub path: String,
    /// Its kind, its size and its share of the view.
    pub numbers: String,
    /// What is out of the ordinary about it.
    pub remarks: Vec<&'static str>,
}

impl App {
    /// What the readout speaks of.
    pub fn focus(&self) -> (id: Option<NodeId>)
        ensures
            id == in_focus(self.screen),
    {
        match self.screen.selected {
            Some(id) => Some(id),
            None => self.screen.hovered,
        }
    }

    /// The readout of the item in focus; nothing without a tree or a focus.
    pub fn readout(&self, kinds: &KindTable) -> (readout: Option<Readout>)
        requires
            self.wf(),
            self.kind_count == kinds@.kinds.len(),
            self.tree matches Some(tree) ==> (in_focus(self.screen) matches Some(id) ==> tree@.has(
                id as int,
            )),
        ensures
            match (self.tree, in_focus(self.screen)) {
                (Some(tree), Some(id)) => {
                    let node = tree@.nodes[id as int];
                    let kind = kinds@.kinds[node.kind as int];
                    let size = node.spec_size(self.screen.physical);
                    let view = tree@.nodes[self.screen.view_root as int].spec_size(
                        self.screen.physical,
                    );
                    readout matches Some(r) && r.id == id && r.color == kind.color && r.path@
                        == lossy_text(tree@.path(id as int)) && r.numbers@ == kind.name@
                        + " \u{b7} "@ + bytes_text(size) + " \u{b7} "@ + percent_text(size, view)
                        + " of view"@ && labels(r.remarks@) == flag_texts(node)
                },
                _ => readout is None,
            },
    {
        let physical = self.screen.physical;
        match (&self.tree, self.focus()) {
            (Some(tree), Some(id)) => {
                let node = tree.node(id);
                assert(tree@.nodes[id as int].kind < self.kind_count);
                let kind = kinds.kind(node.kind);
                let numbers = focus_numbers(
                    kind.name.as_str(),
                    tree.size(id, physical),
                    tree.size(self.screen.view_root, physical),
                );
                Some(
                    Readout {
                        id,
                        color: kind.color,
                        path: tree.path_text(id),
                        numbers,
                        remarks: flag_labels(node),
                    },
                )
            },
            _ => None,
        }
    }
}

} // verus!
