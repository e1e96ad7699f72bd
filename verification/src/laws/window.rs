//! What the window does.

use vstd::prelude::*;

use crate::app::events::{is_crumb, key_actions, keyed, Crumb, Keys};
use crate::app::notes::{flag_texts, scan_note_text, trash_detail_text};
use crate::app::readout::in_focus;
use crate::app::{acted, rolled_up, Action, App, Effect, Screen};
use crate::app::screenshot::{shot_step, Screenshot, Shot};
use crate::canvas::{node_if, Canvas, CanvasOutput};
use crate::fmt::{bytes_text, count_text};
use crate::laws::drawing::measured;
use crate::laws::listing::{lemma_no_large_file_is_missing, lists_largest};
use crate::sidebar::{marker_text, FolderRow};
use crate::summary::largest::{best, ids_of};
use crate::summary::subtree::visiting_order;
use crate::summary::totals::KindTotal;
use crate::text::lossy_text;
use crate::tree::arena::shape_wf;
use crate::tree::flags;
use crate::tree::{Node, NodeId};

verus! {

/// Whether two screens show the same map: the same folder, measured and drawn
/// the same way, of the same tree, with the same kind picked out.
pub open spec fn same_map(a: Screen, b: Screen) -> bool {
    &&& a.view_root == b.view_root
    &&& a.highlight == b.highlight
    &&& a.physical == b.physical
    &&& a.collapse_packages == b.collapse_packages
    &&& a.generation == b.generation
}

/// Selecting, and asking about the trash, change what is selected or asked about
/// and leave the map as it is.
pub proof fn lemma_selecting(screen: Screen, nodes: Option<Seq<Node>>, id: NodeId)
    ensures
        ({
            let selected = acted(screen, nodes, Action::Select(id));
            let asked = acted(screen, nodes, Action::ConfirmTrash(id));
            &&& selected.selected == Some(id)
            &&& selected.pending_trash == screen.pending_trash
            &&& asked.pending_trash == Some(id)
            &&& asked.selected == screen.selected
            &&& same_map(selected, screen) && same_map(asked, screen)
            &&& selected.stale == screen.stale && asked.stale == screen.stale
            &&& selected.tab == screen.tab && selected.hovered == screen.hovered
        }),
{
}

/// Drilling shows the folder itself if it is one with something in it, and the
/// folder it stands in otherwise; a map of another folder has to be drawn again
/// and nothing in it is selected.
pub proof fn lemma_drilling(screen: Screen, nodes: Seq<Node>, id: NodeId)
    requires
        id < nodes.len(),
    ensures
        ({
            let after = acted(screen, Some(nodes), Action::Drill(id));
            let n = nodes[id as int];
            let to = if n.flags & flags::DIR != 0 && n.child_len > 0 {
                id
            } else {
                n.parent
            };
            &&& after.view_root == to
            &&& to != screen.view_root ==> after.stale && after.selected is None
            &&& to == screen.view_root ==> after == screen
            &&& after.highlight == screen.highlight
            &&& after.physical == screen.physical
            &&& after.hovered == screen.hovered
        }),
{
}

/// Going up shows the folder that holds the one in view, and does nothing at the
/// scan root or without a tree.
pub proof fn lemma_going_up(screen: Screen, nodes: Seq<Node>)
    ensures
        screen.view_root != 0 ==> acted(screen, Some(nodes), Action::GoUp).view_root
            == nodes[screen.view_root as int].parent && acted(
            screen,
            Some(nodes),
            Action::GoUp,
        ).stale,
        screen.view_root == 0 ==> acted(screen, Some(nodes), Action::GoUp) == screen,
        acted(screen, None, Action::GoUp) == screen,
        acted(screen, Some(nodes), Action::GoUp).selected == screen.selected,
{
}

/// Picking a kind picks that one out, or none if it was picked out already; the
/// map has to be drawn again.
pub proof fn lemma_picking_a_kind(screen: Screen, nodes: Option<Seq<Node>>, kind: u16)
    ensures
        ({
            let after = acted(screen, nodes, Action::ToggleKind(kind));
            &&& screen.highlight == Some(kind) ==> after.highlight is None
            &&& screen.highlight != Some(kind) ==> after.highlight == Some(kind)
            &&& after.stale
            &&& after.view_root == screen.view_root
            &&& after.selected == screen.selected
        }),
{
}

/// What only asks for something outside leaves the screen as it is.
pub proof fn lemma_asking_changes_nothing(
    screen: Screen,
    nodes: Option<Seq<Node>>,
    id: NodeId,
    path: Vec<u8>,
)
    ensures
        acted(screen, nodes, Action::Reveal(id)) == screen,
        acted(screen, nodes, Action::Open(id)) == screen,
        acted(screen, nodes, Action::CopyPath(id)) == screen,
        acted(screen, nodes, Action::Rescan) == screen,
        acted(screen, nodes, Action::PickFolder) == screen,
        acted(screen, nodes, Action::ScanPath(path)) == screen,
{
}

/// What an action asks for is about the node it names, by its path, or about the
/// root that was scanned last; navigation asks for nothing.
pub proof fn lemma_what_is_asked_for(app: App, action: Action, effect: Effect)
    requires
        app.asks(action, effect),
    ensures
        app.tree matches Some(tree) ==> {
            &&& action matches Action::Reveal(id) ==> (effect matches Effect::Reveal(path) && path@
                == tree@.path(id as int))
            &&& action matches Action::Open(id) ==> (effect matches Effect::Open(path) && path@
                == tree@.path(id as int))
            &&& action matches Action::CopyPath(id) ==> (effect matches Effect::Copy(text) && text@
                == lossy_text(tree@.path(id as int)))
        },
        app.tree is None && (action is Reveal || action is Open || action is CopyPath)
            ==> effect is Nothing,
        action is Rescan && app.last_root is Some ==> (effect matches Effect::Scan(path) && path@
            == app.last_root->0@),
        action is Rescan && app.last_root is None ==> effect is Nothing,
        action matches Action::ScanPath(wanted) ==> (effect matches Effect::Scan(path) && path@
            == wanted@),
        action is PickFolder ==> effect is PickFolder,
        action is Select || action is Drill || action is GoUp || action is ConfirmTrash || action
            is ToggleKind ==> effect is Nothing,
{
}

/// Escape clears the selection and what is picked out; no other key changes the
/// screen.
pub proof fn lemma_escape(screen: Screen, keys: Keys)
    ensures
        keys.escape ==> keyed(screen, keys).selected is None && keyed(screen, keys).highlight
            is None,
        keys.escape && screen.highlight is Some ==> keyed(screen, keys).stale,
        keys.escape ==> keyed(screen, keys).view_root == screen.view_root && keyed(
            screen,
            keys,
        ).pending_trash == screen.pending_trash,
        !keys.escape ==> keyed(screen, keys) == screen,
{
}

/// Each key asks for one thing. Backspace alone goes up; with the command key it
/// asks about the trash, and never without a selection.
pub proof fn lemma_keys(screen: Screen, keys: Keys)
    ensures
        ({
            let none = Keys {
                command: keys.command,
                backspace: false,
                escape: false,
                r: false,
                o: false,
                enter: false,
            };
            let back = Keys { backspace: true, ..none };
            let r = Keys { r: true, ..none };
            let o = Keys { o: true, ..none };
            let enter = Keys { enter: true, ..none };
            &&& key_actions(screen, none).len() == 0
            &&& !keys.command ==> key_actions(screen, back) == seq![Action::GoUp]
            &&& keys.command && screen.selected is None ==> key_actions(screen, back)
                == seq![Action::GoUp]
            &&& keys.command && screen.selected is Some ==> key_actions(screen, back)
                == seq![Action::ConfirmTrash(screen.selected->0)]
            &&& keys.command ==> key_actions(screen, r) == seq![Action::Rescan]
            &&& keys.command ==> key_actions(screen, o) == seq![Action::PickFolder]
            &&& !keys.command ==> key_actions(screen, r).len() == 0 && key_actions(
                screen,
                o,
            ).len() == 0
            &&& screen.selected is Some ==> key_actions(screen, enter)
                == seq![Action::Reveal(screen.selected->0)]
            &&& screen.selected is None ==> key_actions(screen, enter).len() == 0
        }),
{
}

/// Nothing goes to the trash but what is selected, and only where the command
/// key and backspace are pressed together.
pub proof fn lemma_trash_is_asked_for_by_two_keys(screen: Screen, keys: Keys, i: int)
    requires
        0 <= i < key_actions(screen, keys).len(),
        key_actions(screen, keys)[i] is ConfirmTrash,
    ensures
        keys.command,
        keys.backspace,
        screen.selected == Some(key_actions(screen, keys)[i]->ConfirmTrash_0),
{
}

/// A pointer that is over nothing clicks nothing, and one that does not click
/// clicks nothing either.
pub proof fn lemma_clicks(done: bool, node: Option<NodeId>)
    ensures
        done ==> node_if(done, node) == node,
        !done ==> node_if(done, node) is None,
{
}

/// The readout speaks of the selection, and of what the pointer is over if
/// nothing is selected.
pub proof fn lemma_focus(screen: Screen)
    ensures
        screen.selected is Some ==> in_focus(screen) == screen.selected,
        screen.selected is None ==> in_focus(screen) == screen.hovered,
{
}

/// The readout says what a node's marks mean, each mark once, in this order, and
/// nothing of a node without any.
pub proof fn lemma_marks_are_said(node: Node)
    ensures
        ({
            let t = flag_texts(node);
            let a = if node.flags & flags::UNREADABLE != 0 {
                1int
            } else {
                0
            };
            let b = if node.flags & flags::OTHER_FS != 0 {
                a + 1
            } else {
                a
            };
            let c = if node.flags & flags::PACKAGE != 0 {
                b + 1
            } else {
                b
            };
            let d = if node.flags & flags::HARDLINK_DUP != 0 {
                c + 1
            } else {
                c
            };
            let e = if node.flags & flags::SYMLINK != 0 {
                d + 1
            } else {
                d
            };
            &&& t.len() == e
            &&& a == 1 ==> t[0] == "couldn't be read"@
            &&& b > a ==> t[a] == "another volume, not scanned"@
            &&& c > b ==> t[b] == "bundle"@
            &&& d > c ==> t[c] == "extra hard link, not counted"@
            &&& e > d ==> t[d] == "symlink"@
        }),
{
}

/// A scan that was stopped is said to be partial, whatever else it met; errors
/// are said with their number; a scan without either needs no word.
pub proof fn lemma_what_is_said_of_a_scan(errors: u64)
    ensures
        scan_note_text(true, errors) is Some,
        scan_note_text(true, errors) == scan_note_text(true, 0),
        scan_note_text(false, 0) is None,
        errors > 0 ==> (scan_note_text(false, errors) matches Some(text) && count_text(
            errors,
        ).is_prefix_of(text)),
{
}

/// The trash dialog says how large a thing is, and of a folder how much is in
/// it.
pub proof fn lemma_trash_detail(size: u64, inside: u64)
    ensures
        trash_detail_text(size, None) == bytes_text(size),
        trash_detail_text(size, Some(inside)) == bytes_text(size) + " \u{b7} this folder and "@
            + count_text(inside) + " items inside it"@,
{
}

/// A step of the breadcrumb has the size of its folder, set against that of the
/// one above.
pub proof fn lemma_crumbs(crumb: Crumb, nodes: Seq<Node>, line: Seq<NodeId>, i: int, physical: bool)
    requires
        is_crumb(crumb, nodes, line, i, physical),
        0 <= i < line.len(),
    ensures
        crumb.id == line[i],
        crumb.size == measured(nodes[line[i] as int], physical),
        i > 0 && measured(nodes[line[i - 1] as int], physical) > 0 ==> crumb.whole == measured(
            nodes[line[i - 1] as int],
            physical,
        ),
        i == 0 ==> crumb.whole == crumb.size,
{
}

/// The mark before a folder tells what opens from what does not, and what is
/// open from what is closed.
pub proof fn lemma_markers(row: FolderRow)
    ensures
        !row.has_children ==> marker_text(row) == "\u{b7}"@,
        row.has_children && row.open ==> marker_text(row) == "\u{25be}"@,
        row.has_children && !row.open ==> marker_text(row) == "\u{25b8}"@,
{
}

/// What the window lists as the largest files are the forty largest of what is
/// in view, in the metric shown.
pub proof fn lemma_rollups_are_of_the_view(
    nodes: Seq<Node>,
    screen: Screen,
    kind_count: int,
    totals: Seq<KindTotal>,
    largest: Seq<NodeId>,
)
    requires
        shape_wf(nodes),
        screen.view_root < nodes.len(),
        rolled_up(nodes, screen, kind_count, totals, largest),
    ensures
        lists_largest(nodes, screen.view_root as int, 40, screen.physical, largest),
{
    lemma_no_large_file_is_missing(nodes, screen.view_root as int, 40, screen.physical);
}

/// An action does to the screen what it says, asks for what it says, and leaves
/// the tree alone.
pub proof fn lemma_apply()
    ensures
        forall|app: &mut App, action: Action, effect: Effect| #[trigger]
            call_ensures(App::apply, (app, action), effect) ==> {
                &&& final(app).wf()
                &&& final(app).tree == app.tree
                &&& final(app).screen == acted(app.screen, app.nodes(), action)
                &&& app.asks(action, effect)
                &&& !(action is ScanPath) ==> final(app).last_root == app.last_root
            },
{
}

/// The keyboard does to the screen what escape does, and queues what the keys
/// ask for.
pub proof fn lemma_keyboard()
    ensures
        forall|app: &mut App, keys: &Keys, queue: Vec<Action>| #[trigger]
            call_ensures(App::keyboard, (app, keys), queue) ==> {
                &&& !keys.escape ==> final(app).screen == app.screen
                &&& keys.escape ==> final(app).screen.selected is None
                &&& queue@ == key_actions(app.screen, *keys)
                &&& final(app).tree == app.tree
            },
{
}

/// The largest file of the whole tree is selected, and nothing if there is none.
pub proof fn lemma_select_largest()
    ensures
        forall|app: &mut App| #[trigger]
            call_ensures(App::select_largest, (app,), ()) && app.wf() && app.tree is Some ==> {
                let nodes = app.tree->0@.nodes;
                let picked = final(app).screen.selected;
                &&& picked matches Some(id) ==> lists_largest(
                    nodes,
                    0,
                    1,
                    app.screen.physical,
                    seq![id],
                )
                &&& picked is None ==> lists_largest(
                    nodes,
                    0,
                    1,
                    app.screen.physical,
                    Seq::<NodeId>::empty(),
                )
                &&& final(app).screen.view_root == app.screen.view_root
            },
{
    assert forall|app: &mut App| #[trigger]
        call_ensures(App::select_largest, (app,), ()) && app.wf() && app.tree is Some implies {
        let nodes = app.tree->0@.nodes;
        let picked = final(app).screen.selected;
        &&& picked matches Some(id) ==> lists_largest(nodes, 0, 1, app.screen.physical, seq![id])
        &&& picked is None ==> lists_largest(
            nodes,
            0,
            1,
            app.screen.physical,
            Seq::<NodeId>::empty(),
        )
        &&& final(app).screen.view_root == app.screen.view_root
    } by {
        let nodes = app.tree->0@.nodes;
        lemma_no_large_file_is_missing(nodes, 0, 1, app.screen.physical);
        let top = best(nodes, visiting_order(nodes, 0), 1, app.screen.physical);
        if top.len() > 0 {
            assert(ids_of(top) =~= seq![top[0].1]);
        } else {
            assert(ids_of(top) =~= Seq::<NodeId>::empty());
        }
    }
}

/// What the pointer does is about the node in the id buffer under it.
pub proof fn lemma_output<R: Copy, C: Copy>(
    canvas: &Canvas<R, C>,
    x: i32,
    y: i32,
    clicked: bool,
    double: bool,
    secondary: bool,
    out: CanvasOutput,
)
    requires
        canvas.raster is Some,
        0 <= x < canvas.raster->0.width,
        0 <= y < canvas.raster->0.height,
        call_ensures(Canvas::<R, C>::output, (canvas, Some((x, y)), clicked, double, secondary), out),
    ensures
        ({
            let id = canvas.raster->0.ids@[y * canvas.raster->0.width + x];
            &&& id != u32::MAX ==> out.hovered == Some(id)
            &&& id == u32::MAX ==> out.hovered is None
            &&& out.clicked == if clicked {
                out.hovered
            } else {
                None
            }
            &&& out.double_clicked == if double {
                out.hovered
            } else {
                None
            }
            &&& out.context_target == if secondary {
                out.hovered
            } else {
                None
            }
        }),
{
}

/// A picture is not taken while the scan runs or without a tree; once the map
/// has had its frames it is asked for, once, and saved when it comes. A scan
/// that never ends is given up.
pub proof fn lemma_screenshot(shot: Screenshot, scanning: bool, has_tree: bool)
    requires
        shot.waited < 2000,
    ensures
        shot_step(shot, true, scanning, has_tree).0 == Shot::Save,
        scanning || !has_tree ==> shot_step(shot, false, scanning, has_tree).0 == Shot::Wait,
        !scanning && has_tree && shot.warmup == 0 && !shot.requested ==> shot_step(
            shot,
            false,
            scanning,
            has_tree,
        ).0 == Shot::Capture && shot_step(shot, false, scanning, has_tree).1.requested,
        !scanning && has_tree && shot.warmup == 0 && shot.requested ==> shot_step(
            shot,
            false,
            scanning,
            has_tree,
        ).0 == Shot::Wait,
        !scanning && has_tree && shot.warmup == 1 ==> shot_step(
            shot,
            false,
            scanning,
            has_tree,
        ).0 == Shot::Select,
        !scanning && has_tree && shot.warmup > 0 ==> shot_step(
            shot,
            false,
            scanning,
            has_tree,
        ).1.warmup == shot.warmup - 1,
        shot_step(shot, false, scanning, has_tree).1.waited == shot.waited + 1,
        shot_step(Screenshot { waited: 2000, ..shot }, false, scanning, has_tree).0
            == Shot::GiveUp,
{
}

} // verus!
