//! What the calls of the window and the rollups give back.

use vstd::prelude::*;
use vstd::utf8::encode_utf8;

use crate::actions::{
    listed, mount_roots, open_path, reveal_in_file_manager, scan_targets, volumes, Launch,
    MountRoot, Target, TargetView,
};
use crate::app::events::{Crumb, TrashPrompt};
use crate::app::readout::Readout;
use crate::app::{Action, App, Effect};
use crate::canvas::{drill_target, is_clickable, CacheKey, Canvas, CanvasOutput};
use crate::fmt::{bytes_text, count_text, files_text, percent_text};
use crate::kinds::KindTable;
use crate::laws::drawing::measured;
use crate::laws::listing::{
    apparent, is_of_kind, lemma_folder_pane, lemma_no_large_file_is_missing,
    lemma_totals_are_of_their_files, lemma_totals_in_order, lists_largest, on_disk, one_each,
};
use crate::paths::{has_parent, joined, last_name, texts};
use crate::raster::Raster;
use crate::report::version;
use crate::sidebar::{metric, usage, FileRow, FolderRow, Headline, KindRow, Usage};
use crate::summary::subtree::{each, subtree_sum, under};
use crate::summary::totals::{lists_kinds, KindTotal};
use crate::summary::{children_by_size, kind_totals, largest_files, subtree_len};
use crate::sums::sum;
use crate::text::lossy_text;
use crate::tree::flags;
use crate::tree::{NodeId, Tree};
use crate::treemap::{plan, Plan};

verus! {

/// A volume holds what is not free: what is used and what is free make up the
/// whole. Nothing is said of a volume of no size.
pub proof fn lemma_usage(free: u64, total: u64, said: Option<Usage>)
    requires
        call_ensures(usage, (Some(free), Some(total)), said),
    ensures
        total > 0 && free <= total ==> said is Some && said->0.used + free == total,
        total > 0 && free > total ==> said is Some && said->0.used == 0,
        total > 0 ==> said->0.total == total && said->0.text@ == bytes_text(said->0.used)
            + " used of "@ + bytes_text(total) + " \u{b7} "@ + bytes_text(free) + " free"@,
        total == 0 ==> said is None,
{
}

/// Nothing is said of a volume of which either is not known.
pub proof fn lemma_usage_unknown(n: Option<u64>, a: Option<Usage>, b: Option<Usage>)
    requires
        call_ensures(usage, (None, n), a),
        call_ensures(usage, (n, None), b),
    ensures
        a is None,
        b is None,
{
}

/// A pixel of the map names the node in the id buffer there; outside the map and
/// on the background there is none.
pub proof fn lemma_node_at(raster: &Raster, x: i32, y: i32, node: Option<NodeId>)
    requires
        call_ensures(Raster::node_at, (raster, x, y), node),
    ensures
        0 <= x < raster.width && 0 <= y < raster.height && raster.ids@[y * raster.width + x]
            != u32::MAX ==> node == Some(raster.ids@[y * raster.width + x]),
        0 <= x < raster.width && 0 <= y < raster.height && raster.ids@[y * raster.width + x]
            == u32::MAX ==> node is None,
        x < 0 || y < 0 || x >= raster.width || y >= raster.height ==> node is None,
{
}

/// The map is drawn again exactly if it was drawn for something else, or not at
/// all.
pub proof fn lemma_needs_render<R: Copy, C: Copy>(canvas: &Canvas<R, C>, key: CacheKey, render: bool)
    requires
        call_ensures(Canvas::<R, C>::needs_render, (canvas, key), render),
    ensures
        render <==> canvas.key is None || canvas.key->0 != key,
{
}

/// The pointer is a hand where a click leads to another folder.
pub proof fn lemma_hand(tree: &Tree, view_root: NodeId, id: NodeId, to: NodeId, hand: bool)
    requires
        call_ensures(drill_target, (tree, id), to),
        call_ensures(is_clickable, (tree, view_root, Some(id)), hand),
    ensures
        hand <==> to != view_root,
        tree@.nodes[id as int].flags & flags::DIR != 0 && tree@.nodes[id as int].child_len > 0
            ==> to == id,
        tree@.nodes[id as int].flags & flags::DIR == 0 || tree@.nodes[id as int].child_len == 0
            ==> to == tree@.nodes[id as int].parent,
{
}

/// Room is used wherever there is something to show in it, however deep.
pub proof fn lemma_plan(
    tree: &Tree,
    node: NodeId,
    physical: bool,
    collapse_packages: bool,
    roomy: bool,
    planned: Option<Plan>,
)
    requires
        tree@.wf(),
        tree@.has(node as int),
        call_ensures(plan, (tree, node, physical, collapse_packages, roomy), planned),
    ensures
        ({
            let n = tree@.nodes[node as int];
            &&& roomy && n.child_len > 0 && !(collapse_packages && n.flags & flags::PACKAGE != 0)
                && measured(n, physical) > 0 ==> planned is Some
            &&& planned is Some ==> roomy && n.child_len > 0 && !(collapse_packages && n.flags
                & flags::PACKAGE != 0) && planned->0.total == measured(n, physical)
        }),
{
}

/// The list of the largest files is complete.
pub proof fn lemma_largest_files(
    tree: &Tree,
    root: NodeId,
    n: usize,
    physical: bool,
    files: Vec<NodeId>,
)
    requires
        call_ensures(largest_files, (tree, root, n, physical), files),
    ensures
        lists_largest(tree@.nodes, root as int, n as int, physical, files@),
{
}

/// The totals of a subtree are of the kinds that have files in it.
pub proof fn lemma_kind_totals(
    tree: &Tree,
    root: NodeId,
    kind_count: usize,
    physical: bool,
    totals: Vec<KindTotal>,
    j: int,
)
    requires
        call_ensures(kind_totals, (tree, root, kind_count, physical), totals),
        0 <= j < totals@.len(),
    ensures
        lists_kinds(tree@.nodes, root as int, kind_count as int, totals@),
        totals@[j].kind < kind_count,
        totals@[j].files > 0,
        j > 0 && physical ==> totals@[j - 1].physical >= totals@[j].physical,
        j > 0 && !physical ==> totals@[j - 1].logical >= totals@[j].logical,
{
    assert(totals@[j].kind < kind_count);
    if j > 0 {
        let a = totals@[j - 1];
        let b = totals@[j];
    }
}

/// The folder pane lists the directories right below a folder.
pub proof fn lemma_children_by_size(
    tree: &Tree,
    parent: NodeId,
    physical: bool,
    list: Vec<NodeId>,
    c: NodeId,
)
    requires
        tree@.wf(),
        tree@.has(parent as int),
        tree@.has(c as int),
        c > 0,
        call_ensures(children_by_size, (tree, parent, physical), list),
    ensures
        list@.contains(c) <==> tree@.nodes[c as int].parent == parent && tree@.nodes[c as int].flags
            & flags::DIR != 0,
        list@.no_duplicates(),
{
    lemma_folder_pane(tree@.nodes, parent as int, physical, list@);
    assert(crate::tree::arena::in_child_range(tree@.nodes, parent as int, c as int)
        <==> tree@.nodes[c as int].parent == parent);
    assert(crate::laws::drawing::is_child(tree@.nodes[parent as int], c as int)
        <==> crate::tree::arena::in_child_range(tree@.nodes, parent as int, c as int));
    let n = tree@.nodes[c as int];
    assert(n.flags & flags::DIR != 0 || n.flags & flags::DIR == 0);
}

/// The lists beside the map are of the folder in view and in the metric shown:
/// the forty largest files under it, and every kind that has a file under it,
/// the largest first.
pub proof fn lemma_lists_are_of_the_view(app: App)
    requires
        app.wf(),
        app.tree is Some,
    ensures
        ({
            let nodes = app.tree->0@.nodes;
            let root = app.screen.view_root as int;
            let n = nodes.len() as int;
            let totals = app.totals@;
            &&& lists_largest(nodes, root, 40, app.screen.physical, app.largest@)
            &&& forall|j: int|
                0 <= j < totals.len() ==> {
                    let t = #[trigger] totals[j];
                    &&& t.physical == sum(0, n, on_disk(nodes, root, t.kind))
                    &&& t.logical == sum(0, n, apparent(nodes, root, t.kind))
                    &&& t.files == sum(0, n, one_each(nodes, root, t.kind))
                    &&& t.files > 0
                }
            &&& forall|i: int|
                0 <= i < n && #[trigger] is_of_kind(nodes, root, nodes[i].kind, i)
                    ==> exists|j: int|
                    0 <= j < totals.len() && (#[trigger] totals[j]).kind == nodes[i].kind
            &&& forall|i: int, j: int|
                0 <= i < j < totals.len() ==> if app.screen.physical {
                    (#[trigger] totals[i]).physical >= (#[trigger] totals[j]).physical
                } else {
                    totals[i].logical >= totals[j].logical
                }
        }),
{
    let nodes = app.tree->0@.nodes;
    let root = app.screen.view_root as int;
    lemma_no_large_file_is_missing(nodes, root, 40, app.screen.physical);
    lemma_totals_are_of_their_files(nodes, root, app.kind_count as int, app.totals@);
    lemma_totals_in_order(app.totals@);
}

/// Working the lists out anew makes them those of the folder in view, and
/// changes neither the view nor the tree.
pub proof fn lemma_recompute()
    ensures
        forall|app: &mut App| #[trigger]
            call_ensures(App::recompute, (app,), ()) && app.tree is Some ==> {
                &&& final(app).tree == app.tree
                &&& final(app).screen == app.screen
                &&& lists_largest(
                    app.tree->0@.nodes,
                    app.screen.view_root as int,
                    40,
                    app.screen.physical,
                    final(app).largest@,
                )
                &&& forall|j: int|
                    0 <= j < final(app).totals@.len() ==> (
                    #[trigger] final(app).totals@[j]).physical == sum(
                        0,
                        app.tree->0@.nodes.len() as int,
                        on_disk(
                            app.tree->0@.nodes,
                            app.screen.view_root as int,
                            final(app).totals@[j].kind,
                        ),
                    )
            },
{
    assert forall|app: &mut App| #[trigger]
        call_ensures(App::recompute, (app,), ()) && app.tree is Some implies {
        &&& final(app).tree == app.tree
        &&& final(app).screen == app.screen
        &&& lists_largest(
            app.tree->0@.nodes,
            app.screen.view_root as int,
            40,
            app.screen.physical,
            final(app).largest@,
        )
        &&& forall|j: int|
            0 <= j < final(app).totals@.len() ==> (#[trigger] final(app).totals@[j]).physical
                == sum(
                0,
                app.tree->0@.nodes.len() as int,
                on_disk(
                    app.tree->0@.nodes,
                    app.screen.view_root as int,
                    final(app).totals@[j].kind,
                ),
            )
    } by {
        lemma_lists_are_of_the_view(*final(app));
    }
}

/// How many entries a subtree has: every node the root of it is on the way to.
pub proof fn lemma_subtree_len(tree: &Tree, root: NodeId, n: usize)
    requires
        call_ensures(subtree_len, (tree, root), n),
    ensures
        n == sum(
            0,
            tree@.nodes.len() as int,
            |i: int|
                if under(tree@.nodes, i, root as int) {
                    1int
                } else {
                    0
                },
        ),
{
    crate::laws::listing::lemma_entries_under(tree@.nodes, root as int);
}

/// What the sidebar adds up is what it lists, in the metric shown.
pub proof fn lemma_metric(total: &KindTotal, on_disk: u64, apparent: u64)
    requires
        call_ensures(metric, (total, true), on_disk),
        call_ensures(metric, (total, false), apparent),
    ensures
        on_disk == total.physical,
        apparent == total.logical,
{
}

/// Switching the metric switches it, and back; nothing else of the screen
/// changes but that the map has to be drawn again. Bundles likewise.
pub proof fn lemma_toggles()
    ensures
        forall|app: &mut App| #[trigger]
            call_ensures(App::toggle_metric, (app,), ()) ==> {
                let (a, b) = (app.screen, final(app).screen);
                &&& b.physical == !a.physical
                &&& b.stale
                &&& b.view_root == a.view_root
                &&& b.selected == a.selected
                &&& b.highlight == a.highlight
                &&& b.collapse_packages == a.collapse_packages
                &&& final(app).tree == app.tree
            },
        forall|app: &mut App| #[trigger]
            call_ensures(App::toggle_bundles, (app,), ()) ==> {
                let (a, b) = (app.screen, final(app).screen);
                &&& b.collapse_packages == !a.collapse_packages
                &&& b.stale
                &&& b.view_root == a.view_root
                &&& b.selected == a.selected
                &&& b.highlight == a.highlight
                &&& b.physical == a.physical
                &&& final(app).tree == app.tree
            },
{
}

/// A scan that worked is shown from its root with nothing selected or picked
/// out; one that failed leaves what was shown, and is spoken of.
pub proof fn lemma_finished_scan()
    ensures
        forall|app: &mut App, outcome: Result<Tree, String>, cancelled: bool, root: &str, note:
            Option<String>| #[trigger]
            call_ensures(App::collect_finished_scan, (app, outcome, cancelled, root), note) ==> {
                &&& outcome is Err ==> final(app).tree == app.tree && final(app).screen == app.screen
                    && note is Some
                &&& outcome matches Ok(tree) ==> final(app).tree == Some(tree)
                    && final(app).screen.view_root == 0 && final(app).screen.selected is None
                    && final(app).screen.hovered is None && final(app).screen.highlight is None
                    && final(app).screen.stale && final(app).screen.physical == app.screen.physical
                &&& outcome matches Ok(tree) ==> (note is None <==> !cancelled && tree@.stats.errors
                    == 0)
            },
{
}

/// A new tree is shown from its root, as another generation than the last.
pub proof fn lemma_adopt()
    ensures
        forall|app: &mut App, tree: Tree| #[trigger]
            call_ensures(App::adopt, (app, tree), ()) && app.screen.generation < u64::MAX ==> {
                &&& final(app).tree == Some(tree)
                &&& final(app).screen.view_root == 0
                &&& final(app).screen.generation == app.screen.generation + 1
                &&& final(app).expanded@ == Set::<NodeId>::empty()
                &&& final(app).screen.stale
            },
{
}

/// The trash dialog asks about the node it was opened for: its path, its size in
/// the metric shown, and of a folder how many entries are in it besides itself.
pub proof fn lemma_trash_prompt()
    ensures
        forall|app: &mut App, prompt: Option<TrashPrompt>| #[trigger]
            call_ensures(App::trash_prompt, (app,), prompt) ==> {
                &&& (app.screen.pending_trash is None || app.tree is None) ==> prompt is None
                    && final(app).screen.pending_trash is None
                &&& (app.tree is Some && app.screen.pending_trash is Some
                    && app.screen.pending_trash->0 < app.tree->0@.nodes.len()) ==> {
                    let tree = app.tree->0;
                    let id = app.screen.pending_trash->0 as int;
                    let n = tree@.nodes[id];
                    &&& prompt is Some
                    &&& prompt->0.path@ == tree@.path(id)
                    &&& prompt->0.size == measured(n, app.screen.physical)
                    &&& n.flags & flags::DIR == 0 ==> prompt->0.inside is None
                    &&& n.flags & flags::DIR != 0 ==> prompt->0.inside == Some(
                        (subtree_sum(tree@.nodes, id, each()) - 1) as u64,
                    )
                }
            },
{
}

/// The answer closes the dialog; what was moved is no longer selected.
pub proof fn lemma_trash_answered()
    ensures
        forall|app: &mut App, moved: bool| #[trigger]
            call_ensures(App::trash_answered, (app, moved), ()) ==> {
                &&& final(app).screen.pending_trash is None
                &&& moved ==> final(app).screen.selected is None
                &&& !moved ==> final(app).screen.selected == app.screen.selected
                &&& final(app).screen.view_root == app.screen.view_root
                &&& final(app).tree == app.tree
            },
{
}

/// The pointer hovers over what is under it, a click selects, a double click
/// drills, and a secondary click selects at once.
pub proof fn lemma_map_events()
    ensures
        forall|app: &mut App, p: &CanvasOutput, queue: Vec<Action>| #[trigger]
            call_ensures(App::map_events, (app, p), queue) ==> {
                &&& final(app).screen.hovered == p.hovered
                &&& p.context_target is Some ==> final(app).screen.selected == p.context_target
                &&& p.context_target is None ==> final(app).screen.selected == app.screen.selected
                &&& p.clicked is None && p.double_clicked is None ==> queue@.len() == 0
                &&& p.clicked is Some && p.double_clicked is None ==> queue@
                    == seq![Action::Select(p.clicked->0)]
                &&& p.clicked is None && p.double_clicked is Some ==> queue@
                    == seq![Action::Drill(p.double_clicked->0)]
                &&& p.clicked is Some && p.double_clicked is Some ==> queue@ == seq![
                    Action::Select(p.clicked->0),
                    Action::Drill(p.double_clicked->0),
                ]
            },
{
}

/// A scan that is started is remembered as the last.
pub proof fn lemma_start_scan()
    ensures
        forall|app: &mut App, root: Vec<u8>, effect: Effect| #[trigger]
            call_ensures(App::start_scan, (app, root), effect) ==> {
                &&& final(app).last_root is Some && final(app).last_root->0@ == root@
                &&& effect matches Effect::Scan(path) && path@ == root@
                &&& final(app).tree == app.tree
            },
{
}

/// The headline is of what is in view: its size in the metric shown, and how
/// much is in it.
pub proof fn lemma_headline(app: &App, headline: Option<Headline>)
    requires
        app.tree is Some,
        call_ensures(App::headline, (app,), headline),
    ensures
        ({
            let nodes = app.tree->0@.nodes;
            let root = app.screen.view_root as int;
            &&& headline is Some
            &&& headline->0.size@ == bytes_text(measured(nodes[root], app.screen.physical))
            &&& root == 0 ==> headline->0.title@ == "SCANNED"@
            &&& root != 0 ==> headline->0.title@ == "IN VIEW"@
            &&& (count_text(subtree_sum(nodes, root, each()) as u64) + " entries \u{b7} "@)
                .is_prefix_of(headline->0.counts@)
        }),
{
}

/// A row of the kinds table is of one kind: its size in the metric shown and its
/// share of what is in view.
pub proof fn lemma_kind_row(app: &App, kinds: &KindTable, i: usize, row: KindRow)
    requires
        call_ensures(App::kind_row, (app, kinds, i), row),
    ensures
        ({
            let t = app.totals@[i as int];
            let size = if app.screen.physical {
                t.physical
            } else {
                t.logical
            };
            let view = app.tree->0@.nodes[app.screen.view_root as int];
            &&& row.kind == t.kind
            &&& row.name@ == kinds@.kinds[t.kind as int].name@
            &&& row.color == kinds@.kinds[t.kind as int].color
            &&& row.size@ == bytes_text(size)
            &&& row.share@ == percent_text(size, measured(view, app.screen.physical))
            &&& row.files@ == files_text(t.files)
            &&& row.selected <==> app.screen.highlight == Some(t.kind)
        }),
{
}

/// A row of the folder pane says how large a folder is, whether it opens and
/// whether it is open.
pub proof fn lemma_folder_row(app: &App, child: NodeId, row: Option<FolderRow>)
    requires
        app.tree is Some,
        call_ensures(App::folder_row, (app, child), row),
    ensures
        ({
            let n = app.tree->0@.nodes[child as int];
            &&& row is Some
            &&& row->0.size == measured(n, app.screen.physical)
            &&& row->0.has_children <==> n.child_len > 0 && n.flags & flags::PACKAGE == 0
            &&& row->0.open <==> app.expanded@.contains(child)
            &&& row->0.selected <==> app.screen.selected == Some(child)
        }),
{
}

/// Clicking a folder opens what was closed and closes what was open, and touches
/// no other folder.
pub proof fn lemma_click_folder()
    ensures
        forall|app: &mut App, child: NodeId, clicked: bool, double: bool, queue: Vec<Action>| #[trigger]
            call_ensures(App::click_folder, (app, child, clicked, double), queue) && app.tree
                is Some ==> {
                let n = app.tree->0@.nodes[child as int];
                let opens = n.child_len > 0 && n.flags & flags::PACKAGE == 0;
                &&& clicked && opens ==> (final(app).expanded@.contains(child)
                    <==> !app.expanded@.contains(child))
                &&& !clicked || !opens ==> final(app).expanded@ == app.expanded@
                &&& forall|other: NodeId|
                    other != child ==> (#[trigger] final(app).expanded@.contains(other)
                        <==> app.expanded@.contains(other))
                &&& clicked && !double ==> queue@ == seq![Action::Select(child)]
                &&& !clicked && double ==> queue@ == seq![Action::Drill(child)]
                &&& !clicked && !double ==> queue@.len() == 0
            },
{
}

/// A row of the list of largest files is of one file, set against the largest.
pub proof fn lemma_file_row(app: &App, i: usize, row: FileRow)
    requires
        call_ensures(App::file_row, (app, i), row),
    ensures
        ({
            let nodes = app.tree->0@.nodes;
            let id = app.largest@[i as int];
            let first = measured(nodes[app.largest@[0] as int], app.screen.physical);
            &&& row.id == id
            &&& row.kind == nodes[id as int].kind
            &&& row.size == measured(nodes[id as int], app.screen.physical)
            &&& first > 0 ==> row.biggest == first
            &&& row.biggest > 0
            &&& row.selected <==> app.screen.selected == Some(id)
        }),
{
}

/// The readout is of the item in focus: its path, its kind, its size and its
/// share of what is in view.
pub proof fn lemma_readout(app: &App, kinds: &KindTable, id: NodeId, readout: Option<Readout>)
    requires
        app.tree is Some,
        app.screen.selected == Some(id) || (app.screen.selected is None && app.screen.hovered
            == Some(id)),
        call_ensures(App::readout, (app, kinds), readout),
    ensures
        ({
            let tree = app.tree->0;
            let n = tree@.nodes[id as int];
            let size = measured(n, app.screen.physical);
            let view = tree@.nodes[app.screen.view_root as int];
            &&& readout is Some
            &&& readout->0.id == id
            &&& readout->0.path@ == lossy_text(tree@.path(id as int))
            &&& readout->0.color == kinds@.kinds[n.kind as int].color
            &&& readout->0.numbers@ == kinds@.kinds[n.kind as int].name@ + " \u{b7} "@ + bytes_text(
                size,
            ) + " \u{b7} "@ + percent_text(size, measured(view, app.screen.physical)) + " of view"@
        }),
{
}

/// The breadcrumb leads from the scan root to the folder in view.
pub proof fn lemma_breadcrumb(app: &App, crumbs: Vec<Crumb>)
    requires
        app.wf(),
        app.tree is Some,
        call_ensures(App::breadcrumb, (app,), crumbs),
    ensures
        crumbs@.len() > 0,
        crumbs@[0].id == 0,
        crumbs@.last().id == app.screen.view_root,
        forall|i: int|
            0 < i < crumbs@.len() ==> app.tree->0@.nodes[(#[trigger] crumbs@[i]).id as int].parent
                == crumbs@[i - 1].id,
        forall|i: int|
            0 <= i < crumbs@.len() ==> (#[trigger] crumbs@[i]).size == measured(
                app.tree->0@.nodes[crumbs@[i].id as int],
                app.screen.physical,
            ),
{
    let tree = app.tree->0@;
    let line = tree.ancestry(app.screen.view_root as int);
    crate::tree::lemma_ancestry(tree, app.screen.view_root as int);
    assert(crumbs@[0].id == line[0]);
    assert(crumbs@[line.len() - 1].id == line[line.len() - 1]);
    assert forall|i: int| 0 < i < crumbs@.len() implies tree.nodes[(
    #[trigger] crumbs@[i]).id as int].parent == crumbs@[i - 1].id by {
        assert(tree.nodes[line[i] as int].parent == line[i - 1]);
    }
}

/// An item is shown by the desktop's own program: selected where that can be
/// done, and otherwise by opening the folder that holds it.
pub proof fn lemma_reveal(path: &[u8], is_dir: bool, mac: Launch, other: Launch)
    requires
        call_ensures(reveal_in_file_manager, (path, is_dir, true), mac),
        call_ensures(reveal_in_file_manager, (path, is_dir, false), other),
    ensures
        mac.program@ == "open"@,
        other.program@ == "xdg-open"@,
        mac.args@.len() == 2 && mac.args@[1]@ == path@,
        other.args@.len() == 1,
        is_dir ==> other.args@[0]@ == path@,
        !is_dir && has_parent(path@) ==> other.args@[0]@.is_prefix_of(path@),
{
    assert(texts(mac.args@).len() == 2);
    assert(texts(mac.args@)[1] == path@);
}

/// An item is opened by its path and nothing else.
pub proof fn lemma_open(path: &[u8], mac: Launch, other: Launch)
    requires
        call_ensures(open_path, (path, true), mac),
        call_ensures(open_path, (path, false), other),
    ensures
        mac.program@ == "open"@,
        other.program@ == "xdg-open"@,
        mac.args@.len() == 1 && mac.args@[0]@ == path@,
        other.args@.len() == 1 && other.args@[0]@ == path@,
{
    assert(texts(mac.args@)[0] == path@);
    assert(texts(other.args@)[0] == path@);
    assert(texts(mac.args@).len() == 1 && texts(other.args@).len() == 1);
}

/// Volumes are looked for where the desktop mounts them.
pub proof fn lemma_mount_roots(user: &[u8], mac: Vec<Vec<u8>>, other: Vec<Vec<u8>>)
    requires
        call_ensures(mount_roots, (Some(user), true), mac),
        call_ensures(mount_roots, (Some(user), false), other),
    ensures
        texts(mac@) == seq![encode_utf8("/Volumes"@)],
        texts(other@) == seq![
            encode_utf8("/media"@),
            encode_utf8("/mnt"@),
            joined(encode_utf8("/run/media"@), user@),
        ],
{
    assert(texts(other@) =~= seq![
        encode_utf8("/media"@),
        encode_utf8("/mnt"@),
        joined(encode_utf8("/run/media"@), user@),
    ]);
}

/// Whether an entry of a mount root is offered as a target.
pub open spec fn offers(targets: Seq<TargetView>, dir: Seq<u8>, name: Seq<u8>) -> bool {
    targets.contains(TargetView { label: lossy_text(name), path: joined(dir, name) })
}

/// Whether a target is one of the first `n` entries of a mount root, and a
/// directory.
pub open spec fn is_dir_of(root: MountRoot, n: int, target: TargetView) -> bool {
    exists|i: int|
        0 <= i < n && (#[trigger] root.entries@[i]).is_dir && target.path == joined(
            root.dir@,
            root.entries@[i].name@,
        )
}

/// Every directory in a mount root is a volume, and nothing else is.
pub proof fn lemma_volumes(root: MountRoot, n: int)
    requires
        0 <= n <= root.entries@.len(),
    ensures
        forall|i: int|
            0 <= i < n && (#[trigger] root.entries@[i]).is_dir ==> offers(
                volumes(root, n),
                root.dir@,
                root.entries@[i].name@,
            ),
        forall|j: int|
            0 <= j < volumes(root, n).len() ==> is_dir_of(root, n, #[trigger] volumes(root, n)[j]),
    decreases n,
{
    if n > 0 {
        lemma_volumes(root, n - 1);
        let less = volumes(root, n - 1);
        let all = volumes(root, n);
        assert forall|i: int| 0 <= i < n && (#[trigger] root.entries@[i]).is_dir implies offers(
            all,
            root.dir@,
            root.entries@[i].name@,
        ) by {
            let t = TargetView {
                label: lossy_text(root.entries@[i].name@),
                path: joined(root.dir@, root.entries@[i].name@),
            };
            if i < n - 1 {
                assert(offers(less, root.dir@, root.entries@[i].name@));
                let k = choose|k: int| 0 <= k < less.len() && less[k] == t;
                assert(all[k] == t);
            } else {
                assert(all[all.len() - 1] == t);
            }
        }
        assert forall|j: int| 0 <= j < all.len() implies is_dir_of(root, n, #[trigger] all[j]) by {
            if j < less.len() {
                assert(all[j] == less[j]);
                assert(is_dir_of(root, n - 1, less[j]));
                let i = choose|i: int|
                    0 <= i < n - 1 && (#[trigger] root.entries@[i]).is_dir && less[j].path == joined(
                        root.dir@,
                        root.entries@[i].name@,
                    );
                assert(root.entries@[i].is_dir);
            } else {
                assert(root.entries@[n - 1].is_dir);
            }
        }
    }
}

/// What can be scanned: the home directory first, then the whole file system,
/// then the volumes.
pub proof fn lemma_scan_targets(home: &[u8], macos: bool, mounts: &Vec<MountRoot>, out: Vec<Target>)
    requires
        call_ensures(scan_targets, (Some(home), macos, mounts), out),
    ensures
        out@.len() >= 2,
        out@[0].path@ == home@,
        last_name(home@) matches Some(name) ==> out@[0].label@ == lossy_text(name),
        last_name(home@) is None ==> out@[0].label@ == "Home"@,
        out@[1].path@ == encode_utf8("/"@),
        macos ==> out@[1].label@ == "Macintosh HD"@,
        !macos ==> out@[1].label@ == "Filesystem"@,
        mounts@.len() == 0 ==> out@.len() == 2,
{
    let all = listed(out@);
    assert(all.len() == out@.len());
    assert(all[0] == out@[0]@);
    assert(all[1] == out@[1]@);
}

/// The program says which version it is, and of which commit where that is
/// known.
pub proof fn lemma_version(number: &str, sha: &str, plain: String, known: String)
    requires
        call_ensures(version, (number, None), plain),
        call_ensures(version, (number, Some(sha)), known),
    ensures
        plain@ == "diskscope "@ + number@,
        known@ == plain@ + " ("@ + sha@ + ")"@,
{
}

} // verus!
