//! The window's state, driven without a window.

use std::collections::BTreeMap;

use diskscope::actions::{
    mount_roots, open_path, reveal_in_file_manager, scan_targets, MountEntry, MountRoot,
};
use diskscope::app::events::Keys;
use diskscope::app::notes::{
    copied_note, crumb_text, entry_rate, flag_labels, focus_numbers, idle_numbers, kinds_note,
    metric_hint, metric_label, open_failed, reveal_failed, scan_note, scanning_counts,
    scanning_numbers, scanning_title, settings_hint, shortcut, target_text, target_title, trash_detail,
    trash_failed, trashed_note,
};
use diskscope::app::screenshot::{Screenshot, Shot, SHOT_MAX_FRAMES};
use diskscope::app::{Action, App, Effect, LARGEST_COUNT};
use diskscope::canvas::{CacheKey, Canvas, CanvasOutput};
use diskscope::kinds::KindTable;
use diskscope::raster::{paint_ids, Bounds, Raster};
use diskscope::report::{print_report, version};
use diskscope::scan::assemble::{assemble, fits, Outcome};
use diskscope::scan::chunk::DirChunk;
use diskscope::scan::collect::{collect, Subdir};
use diskscope::scan::entry::Ent;
use diskscope::scan::options::{Progress, ScanOptions};
use diskscope::scan::walk::{root_task, Task, Walk};
use diskscope::sidebar::{marker, usage, whole_files, whole_size, FolderRow, Tab};
use diskscope::summary::{children_by_size, largest_files};
use diskscope::theme::spaced;
use diskscope::tree::{flags, make_node, NodeId, Tree, ROOT};
use diskscope::treemap::placer::{Placed, Placer};
use diskscope::treemap::{plan, Layout};

/// The entries of each directory: names with their sizes, `None` for folders.
type Disk = BTreeMap<String, Vec<(String, Option<u64>)>>;

fn fixture_disk() -> Disk {
    let mut disk: Disk = BTreeMap::new();
    let mut top = Vec::new();
    for (dir, count, size, ext) in
        [("media", 6, 80_000, "mp4"), ("code", 40, 2_000, "rs"), ("logs", 300, 400, "log")]
    {
        top.push((dir.to_string(), None));
        let entries = (0..count).map(|i| (format!("item{i:03}.{ext}"), Some(size))).collect();
        disk.insert(format!("/r/{dir}"), entries);
    }
    top.push(("Thing.app".to_string(), None));
    disk.insert("/r".to_string(), top);
    disk.insert("/r/Thing.app".to_string(), vec![("Contents".to_string(), None)]);
    disk.insert("/r/Thing.app/Contents".to_string(), vec![("binary".to_string(), Some(30_000))]);
    disk
}

fn scan(disk: &Disk, errors: u64) -> Tree {
    let kinds = KindTable::builtin();
    let opts = ScanOptions { include_free_space: false, ..Default::default() };
    let mut walk = Walk::new(opts.max_depth);
    let mut queue: Vec<(Task, String)> = vec![(root_task(b"/r".to_vec()), "/r".to_string())];
    while let Some((task, path)) = queue.pop() {
        let mut counts = Progress::default();
        let mut chunk = DirChunk { entries: Vec::new(), names: Vec::new(), unreadable: false };
        let mut subdirs: Vec<Subdir> = Vec::new();
        for (name, size) in &disk[&path] {
            let e = Ent {
                name: name.as_bytes(),
                is_dir: size.is_none(),
                is_symlink: false,
                is_regular: size.is_some(),
                dev: 1,
                ino: 1,
                nlink: 1,
                logical: size.unwrap_or(0),
                physical: (size.unwrap_or(0) + 4095) / 4096 * 4096,
                error: 0,
            };
            collect(&opts, &kinds, 1, &mut chunk, &mut subdirs, &mut counts, &e, task.depth, None);
        }
        for t in walk.publish(task.slot, chunk, subdirs, task.depth, None, &mut counts) {
            let below = format!("{path}/{}", String::from_utf8(t.name.clone()).unwrap());
            queue.push((t, below));
        }
    }
    for i in 0..errors {
        walk.record_error(b"/r/x".to_vec(), format!("error {i}"), &mut Progress::default());
    }
    let (chunks, samples, progress) = walk.into_parts();
    let root = b"/r".to_vec();
    let outcome = Outcome {
        progress,
        errors: samples,
        used_fallback: false,
        elapsed: 0,
        volume: None,
        at_volume_root: false,
    };
    assert!(fits(&root, &chunks, &opts, &outcome));
    assemble(root, chunks, &kinds, &opts, outcome)
}

fn fixture() -> App {
    let kinds = KindTable::builtin();
    let mut app = App::new(kinds.len());
    app.start_scan(b"/r".to_vec());
    let note = app.collect_finished_scan(Ok(scan(&fixture_disk(), 0)), false, "/r");
    assert!(note.is_none());
    app
}

fn child(app: &App, name: &str) -> NodeId {
    let tree = app.tree.as_ref().unwrap();
    tree.children(ROOT).find(|&c| tree.name(c) == name).expect("the folder is in the tree")
}

const NO_KEYS: Keys =
    Keys { command: false, backspace: false, escape: false, r: false, o: false, enter: false };

fn pointer(hovered: Option<NodeId>, clicked: bool, double: bool, secondary: bool) -> CanvasOutput {
    let when = |done: bool| if done { hovered } else { None };
    CanvasOutput {
        hovered,
        clicked: when(clicked),
        double_clicked: when(double),
        context_target: when(secondary),
    }
}

fn run(app: &mut App, queue: Vec<Action>) {
    for action in queue {
        app.apply(action);
    }
}

/// A rectangle in whole pixels: left, top, right, bottom.
type Area = [u32; 4];

/// Cuts an area into one slice per item, across its longer side.
fn slices(items: &[(NodeId, u64)], total: u64, area: Area) -> Vec<Placed<Area, ()>> {
    let [x0, y0, x1, y1] = area;
    let wide = x1 - x0 >= y1 - y0;
    let length = if wide { x1 - x0 } else { y1 - y0 } as u64;
    let mut from = 0u64;
    let mut out = Vec::new();
    for &(node, size) in items {
        let a = (from * length / total) as u32;
        from += size;
        let b = (from * length / total) as u32;
        let rect = if wide { [x0 + a, y0, x0 + b, y1] } else { [x0, y0 + a, x1, y0 + b] };
        out.push(Placed { node, rect, cushion: () });
    }
    out
}

/// Draws the subtree in view, one pixel of gutter round every folder.
fn draw(app: &App, width: u32, height: u32) -> (Layout<Area, ()>, Raster) {
    let screen = app.screen;
    let tree = app.tree.as_ref().unwrap();
    let view = [0, 0, width, height];
    let mut placer: Placer<Area, ()> = Placer::new(screen.view_root, view, ());
    while let Some(cell) = placer.next() {
        let [x0, y0, x1, y1] = cell.rect;
        let roomy = x1 - x0 > 3 && y1 - y0 > 3;
        match plan(tree, cell.node, screen.physical, screen.collapse_packages, roomy) {
            None => placer.settle(),
            Some(p) => {
                let inner = [x0 + 1, y0 + 1, x1 - 1, y1 - 1];
                placer.split(inner, &slices(&p.items, p.total, inner));
            }
        }
    }
    let layout = placer.finish(screen.view_root, view, screen.physical);
    let (mut bounds, mut nodes) = (Vec::new(), Vec::new());
    for cell in &layout.leaves {
        let [x0, y0, x1, y1] = cell.rect;
        bounds.push(Bounds { x0, y0, x1, y1 });
        nodes.push(cell.node);
    }
    let ids = paint_ids(&bounds, &nodes, width as usize, height as usize);
    let rgba = vec![0; ids.len() * 4];
    (layout, Raster { width, height, rgba, ids })
}

/// Draws the map of what is in view.
fn render(app: &App) -> Canvas<Area, ()> {
    let screen = app.screen;
    let (width, height) = (1000, 700);
    let key = CacheKey {
        root: screen.view_root,
        width,
        height,
        physical: screen.physical,
        collapse_packages: screen.collapse_packages,
        highlight: screen.highlight,
        generation: screen.generation,
    };
    let (layout, raster) = draw(app, width, height);
    let mut canvas = Canvas::new();
    canvas.render(key, layout, raster);
    canvas
}

#[test]
fn scans_draws_and_survives_being_poked() {
    let mut app = fixture();
    let tree = app.tree.as_ref().expect("a tree was adopted");
    assert!(tree.len() > 340, "only {} entries", tree.len());
    assert!(!app.totals.is_empty(), "the kinds table is populated");
    assert_eq!(app.largest.len(), LARGEST_COUNT.min(tree.stats.files as usize));

    let canvas = render(&app);
    assert!(canvas.block_count() > 100, "map drew {} blocks", canvas.block_count());

    // Pointing at the middle of the map must land on a real node.
    let queue = app.map_events(&canvas.output(Some((700, 420)), false, false, false));
    assert!(queue.is_empty());
    let hovered = app.screen.hovered.expect("the pointer is over a block");
    assert!((hovered as usize) < app.tree.as_ref().unwrap().len());

    // Clicking selects it, and the readout renders for the selection.
    let queue = app.map_events(&canvas.output(Some((700, 420)), true, false, false));
    run(&mut app, queue);
    assert_eq!(app.screen.selected, Some(hovered));
    assert!(app.readout(&KindTable::builtin()).is_some());

    // Escape clears, Backspace at the root is a no-op rather than a panic.
    let queue = app.keyboard(&Keys { escape: true, ..NO_KEYS });
    run(&mut app, queue);
    assert_eq!(app.screen.selected, None);
    let queue = app.keyboard(&Keys { backspace: true, ..NO_KEYS });
    run(&mut app, queue);
    assert_eq!(app.screen.view_root, ROOT);
}

#[test]
fn drilling_in_and_back_out_keeps_the_view_consistent() {
    let mut app = fixture();
    let kinds = KindTable::builtin();
    let media = child(&app, "media");

    app.apply(Action::Drill(media));
    assert_eq!(app.screen.view_root, media);
    // Rollups follow the view: inside media everything is one kind.
    assert_eq!(app.totals.len(), 1);
    assert_eq!(kinds.kind(app.totals[0].kind).name, "Video");

    let queue = app.keyboard(&Keys { backspace: true, ..NO_KEYS });
    run(&mut app, queue);
    assert_eq!(app.screen.view_root, ROOT);
    assert!(app.totals.len() > 1);
}

#[test]
fn highlighting_a_kind_and_switching_metric_redraw_without_complaint() {
    let mut app = fixture();
    let kind = app.totals[0].kind;
    app.screen.stale = false;
    app.apply(Action::ToggleKind(kind));
    assert_eq!(app.screen.highlight, Some(kind));
    assert!(app.screen.stale);
    app.apply(Action::ToggleKind(kind));
    assert_eq!(app.screen.highlight, None);

    app.screen.stale = false;
    let before = app.totals[0];
    app.toggle_metric();
    assert!(!app.screen.physical);
    assert!(app.screen.stale);
    assert!(app.totals.windows(2).all(|w| w[0].logical >= w[1].logical));
    assert!(render(&app).block_count() > 100);
    app.toggle_metric();
    assert_eq!(app.totals[0], before);
    app.toggle_bundles();
    assert!(!app.screen.collapse_packages);
}

#[test]
fn every_sidebar_tab_renders() {
    let mut app = fixture();
    let kinds = KindTable::builtin();
    assert_eq!(Tab::default(), Tab::Kinds);
    let labels: Vec<&str> =
        [Tab::Kinds, Tab::Folders, Tab::Largest].iter().map(|t| t.label()).collect();
    assert_eq!(labels, vec!["KINDS", "FOLDERS", "LARGEST"]);

    for i in 0..app.totals.len() {
        let row = app.kind_row(&kinds, i);
        assert_eq!(row.name, kinds.kind(row.kind).name);
    }
    let first = app.kind_row(&kinds, 0);
    assert_eq!(first.name, "Other");
    assert_eq!(first.size, "1.26 MB");
    assert_eq!(first.share, "66%");
    assert_eq!(first.files, "301 files");

    // Expanded folders render their children too.
    let media = child(&app, "media");
    let code = child(&app, "code");
    let thing = child(&app, "Thing.app");
    let tree = app.tree.as_ref().unwrap();
    let list = children_by_size(tree, ROOT, false);
    assert_eq!(list[0], media);
    assert_eq!(list.len(), 4);
    let row = app.folder_row(media).unwrap();
    assert!(row.has_children && !row.open && !row.selected);
    assert_eq!(marker(&row), "▸");
    assert!(!app.folder_row(thing).unwrap().has_children);
    assert_eq!(marker(&app.folder_row(thing).unwrap()), "·");

    let queue = app.click_folder(media, true, false);
    assert_eq!(queue.len(), 1);
    run(&mut app, queue);
    let row = app.folder_row(media).unwrap();
    assert!(row.open && row.selected);
    assert_eq!(marker(&row), "▾");
    app.click_folder(media, true, false);
    assert!(!app.folder_row(media).unwrap().open);
    // A package is not opened by a click, and a double click drills.
    app.click_folder(thing, true, false);
    assert!(!app.expanded.contains(&thing));
    let queue = app.click_folder(code, false, true);
    run(&mut app, queue);
    assert_eq!(app.screen.view_root, code);

    let row = app.file_row(1);
    assert_eq!(row.id, app.largest[1]);
    assert_eq!(row.size, 4096);
    assert_eq!(row.biggest, 4096);
}

#[test]
fn an_empty_window_and_a_failed_scan_both_render() {
    let kinds = KindTable::builtin();
    let mut app = App::new(kinds.len());
    assert!(app.tree.is_none());
    assert!(app.headline().is_none());
    assert!(app.breadcrumb().is_empty());
    assert!(app.readout(&kinds).is_none());

    let effect = app.start_scan(b"/definitely/not/a/path".to_vec());
    assert!(matches!(effect, Effect::Scan(path) if path == b"/definitely/not/a/path"));
    let note = app.collect_finished_scan(
        Err("No such file or directory".to_string()),
        false,
        "/definitely/not/a/path",
    );
    assert!(app.tree.is_none(), "a failed scan must not replace the tree");
    assert_eq!(
        note.as_deref(),
        Some("Can't scan /definitely/not/a/path: No such file or directory"),
        "and it must say why"
    );
}

#[test]
fn the_trash_dialog_opens_and_cancels_without_touching_the_file() {
    let mut app = fixture();
    let victim = largest_files(app.tree.as_ref().unwrap(), ROOT, 1, true)[0];
    app.screen.selected = Some(victim);
    let queue = app.keyboard(&Keys { command: true, backspace: true, ..NO_KEYS });
    run(&mut app, queue);
    assert_eq!(app.screen.pending_trash, Some(victim), "⌘⌫ asks first");
    let prompt = app.trash_prompt().unwrap();
    assert_eq!(prompt.path, app.tree.as_ref().unwrap().path(victim));
    assert_eq!(prompt.size, 81_920);
    assert_eq!(prompt.inside, None);

    app.trash_answered(false);
    assert_eq!(app.screen.pending_trash, None);
    assert_eq!(app.screen.selected, Some(victim));
    assert!(app.trash_prompt().is_none());
}

#[test]
fn moving_something_to_the_trash_clears_the_selection() {
    let mut app = fixture();
    let media = child(&app, "media");
    app.screen.selected = Some(media);
    app.apply(Action::ConfirmTrash(media));
    let prompt = app.trash_prompt().unwrap();
    assert_eq!(prompt.inside, Some(6));
    app.trash_answered(true);
    assert_eq!((app.screen.selected, app.screen.pending_trash), (None, None));
    app.apply(Action::ConfirmTrash(1_000_000));
    assert!(app.trash_prompt().is_none());
    assert_eq!(app.screen.pending_trash, None);
}

#[test]
fn keys_ask_for_actions() {
    let mut app = fixture();
    let all = Keys { command: true, backspace: true, escape: true, r: true, o: true, enter: true };
    app.screen.selected = Some(4);
    app.screen.highlight = Some(3);
    app.screen.stale = false;
    let queue = app.keyboard(&all);
    // Enter finds nothing selected after escape.
    assert!(matches!(queue[..], [Action::ConfirmTrash(4), Action::Rescan, Action::PickFolder]));
    assert_eq!((app.screen.selected, app.screen.highlight), (None, None));
    assert!(app.screen.stale);
    app.screen.selected = Some(2);
    let queue = app.keyboard(&Keys { enter: true, r: true, o: true, ..NO_KEYS });
    assert!(matches!(queue[..], [Action::Reveal(2)]));
    let queue = app.keyboard(&Keys { backspace: true, ..NO_KEYS });
    assert!(matches!(queue[..], [Action::GoUp]));
}

#[test]
fn the_pointer_selects_drills_and_marks() {
    let mut app = fixture();
    let queue = app.map_events(&pointer(Some(3), true, true, false));
    assert!(matches!(queue[..], [Action::Select(3), Action::Drill(3)]));
    app.map_events(&pointer(Some(5), false, false, true));
    assert_eq!(app.screen.selected, Some(5));
    app.map_events(&pointer(None, true, true, true));
    assert_eq!(app.screen.hovered, None);
    assert_eq!(app.screen.selected, Some(5));
}

#[test]
fn a_file_drills_into_its_folder() {
    let mut app = fixture();
    let media = child(&app, "media");
    let inside = app.tree.as_ref().unwrap().children(media).start;
    app.apply(Action::Drill(inside));
    assert_eq!(app.screen.view_root, media);
    // Drilling where one already is changes nothing.
    app.screen.stale = false;
    app.apply(Action::Drill(media));
    assert!(!app.screen.stale);
}

#[test]
fn actions_ask_the_window_for_what_it_has_to_do() {
    let mut app = fixture();
    let media = child(&app, "media");
    assert!(matches!(app.apply(Action::Reveal(media)), Effect::Reveal(p) if p == b"/r/media"));
    assert!(matches!(app.apply(Action::Open(media)), Effect::Open(p) if p == b"/r/media"));
    assert!(matches!(app.apply(Action::CopyPath(media)), Effect::Copy(p) if p == "/r/media"));
    assert!(matches!(app.apply(Action::Rescan), Effect::Scan(p) if p == b"/r"));
    assert!(matches!(app.apply(Action::PickFolder), Effect::PickFolder(Some(p)) if p == b"/r"));
    assert!(matches!(app.apply(Action::GoUp), Effect::Nothing));
    assert!(matches!(app.apply(Action::ScanPath(b"/x".to_vec())), Effect::Scan(p) if p == b"/x"));
    assert_eq!(app.last_root.as_deref(), Some(&b"/x"[..]));
    let mut empty = App::new(3);
    assert!(matches!(empty.apply(Action::Rescan), Effect::Nothing));
    assert!(matches!(empty.apply(Action::PickFolder), Effect::PickFolder(None)));
}

#[test]
fn a_new_tree_resets_the_view() {
    let mut app = fixture();
    let media = child(&app, "media");
    app.click_folder(media, true, false);
    app.apply(Action::Drill(media));
    app.apply(Action::ToggleKind(3));
    let generation = app.screen.generation;
    let note = app.collect_finished_scan(Ok(scan(&fixture_disk(), 0)), true, "/r");
    assert_eq!(
        note.as_deref(),
        Some("Scan stopped. Showing what was measured before you stopped it.")
    );
    assert_eq!(app.screen.view_root, ROOT);
    assert_eq!(app.screen.highlight, None);
    assert!(app.expanded.is_empty());
    assert_eq!(app.screen.generation, generation + 1);
}

#[test]
fn the_breadcrumb_leads_from_the_root() {
    let mut app = fixture();
    let thing = child(&app, "Thing.app");
    app.apply(Action::Drill(thing));
    let crumbs = app.breadcrumb();
    assert_eq!(crumbs.len(), 2);
    assert_eq!((crumbs[0].label.as_str(), crumbs[1].label.as_str()), ("/r", "Thing.app"));
    assert_eq!(crumbs[0].whole, crumbs[0].size);
    assert_eq!(crumbs[1].size, 32_768);
    assert_eq!(crumbs[1].whole, crumbs[0].size);
    assert_eq!(crumb_text(1500, "5.5%"), "1.50 KB — 5.5% of the level above");
}

#[test]
fn the_headline_counts_what_is_in_view() {
    let mut app = fixture();
    let h = app.headline().unwrap();
    assert_eq!(h.title, "SCANNED");
    assert_eq!(h.counts, "353 entries · 347 files");
    assert_eq!(whole_files(&app.totals), 347);
    assert_eq!(whole_size(&app.totals, true), app.tree.as_ref().unwrap().size(ROOT, true));
    let media = child(&app, "media");
    app.apply(Action::Drill(media));
    let h = app.headline().unwrap();
    assert_eq!((h.title, h.size.as_str()), ("IN VIEW", "492 KB"));
    assert_eq!(h.counts, "7 entries · 6 files");
}

#[test]
fn the_volume_is_shown_when_it_is_known() {
    let u = usage(Some(250), Some(1000)).unwrap();
    assert_eq!((u.used, u.total), (750, 1000));
    assert_eq!(u.text, "750 bytes used of 1.00 KB · 250 bytes free");
    assert_eq!(usage(Some(2000), Some(1000)).unwrap().used, 0);
    assert!(usage(None, Some(1)).is_none());
    assert!(usage(Some(1), None).is_none());
    assert!(usage(Some(1), Some(0)).is_none());
}

#[test]
fn markers_tell_folders_apart() {
    let row = FolderRow { size: 1, has_children: true, open: true, selected: false };
    assert_eq!(marker(&row), "▾");
    assert_eq!(marker(&FolderRow { open: false, ..row }), "▸");
    assert_eq!(marker(&FolderRow { has_children: false, ..row }), "·");
}

#[test]
fn the_readout_speaks_of_the_selection_first() {
    let mut app = fixture();
    let kinds = KindTable::builtin();
    let media = child(&app, "media");
    let thing = child(&app, "Thing.app");
    app.screen.hovered = Some(media);
    assert_eq!(app.focus(), Some(media));
    app.screen.selected = Some(thing);
    let r = app.readout(&kinds).unwrap();
    assert_eq!(r.path, "/r/Thing.app");
    assert_eq!(r.numbers, "Folder · 32.8 KB · 1.7% of view");
    assert_eq!(r.remarks, vec!["bundle"]);
    assert_eq!(r.color, kinds.kind(0).color);
}

#[test]
fn flags_are_told_in_order() {
    let n = make_node(
        ROOT,
        0,
        0,
        flags::SYMLINK | flags::HARDLINK_DUP | flags::PACKAGE | flags::OTHER_FS | flags::UNREADABLE,
        0,
        0,
        0,
    );
    assert_eq!(
        flag_labels(&n),
        vec![
            "couldn't be read",
            "another volume, not scanned",
            "bundle",
            "extra hard link, not counted",
            "symlink"
        ]
    );
}

#[test]
fn the_largest_file_can_be_selected() {
    let mut app = fixture();
    app.select_largest();
    let expected = largest_files(app.tree.as_ref().unwrap(), ROOT, 1, true)[0];
    assert_eq!(app.screen.selected, Some(expected));
    let mut empty = App::new(3);
    empty.select_largest();
    assert_eq!(empty.screen.selected, None);
}

#[test]
fn a_screenshot_is_asked_for_once() {
    let mut shot = Screenshot::new();
    assert_eq!(shot.drive_screenshot(false, true, false), Shot::Wait);
    let steps: Vec<Shot> = (0..8).map(|_| shot.drive_screenshot(false, false, true)).collect();
    assert_eq!(
        steps,
        vec![
            Shot::Wait,
            Shot::Wait,
            Shot::Wait,
            Shot::Select,
            Shot::Capture,
            Shot::Wait,
            Shot::Wait,
            Shot::Wait
        ]
    );
    assert_eq!(shot.drive_screenshot(true, false, true), Shot::Save);
    let mut stuck = Screenshot::new();
    for _ in 0..SHOT_MAX_FRAMES {
        assert_eq!(stuck.drive_screenshot(false, true, false), Shot::Wait);
    }
    assert_eq!(stuck.drive_screenshot(false, true, false), Shot::GiveUp);
}

#[test]
fn notes_say_what_happened() {
    assert_eq!(scan_note(false, 0), None);
    assert_eq!(
        scan_note(false, 12).as_deref(),
        Some("12 items couldn't be read. Grant Full Disk Access in System Settings ▸ Privacy & Security to include them.")
    );
    assert_eq!(reveal_failed("x"), "Can't show that in the Finder: x");
    assert_eq!(open_failed("x"), "Can't open that: x");
    assert_eq!(copied_note("/a"), "Copied /a");
    assert_eq!(trashed_note("/a"), "Moved /a to the Trash. Scan again to update the map.");
    assert_eq!(trash_failed("x"), "Couldn't move that to the Trash: x");
    assert_eq!(kinds_note("x"), "Using the built-in kinds: x");
    assert_eq!(trash_detail(1500, None), "1.50 KB");
    assert_eq!(trash_detail(1500, Some(3)), "1.50 KB · this folder and 3 items inside it");
    assert_eq!(focus_numbers("Video", 10, 20), "Video · 10 bytes · 50% of view");
    assert_eq!(
        idle_numbers(1234, "0.50", 10, "3", true),
        "1\u{202f}234 entries in 0.50s · 10 blocks drawn in 3 ms · portable walker"
    );
    assert_eq!(idle_numbers(1, "0.50", 1, "3", false), "1 entries in 0.50s · 1 blocks drawn in 3 ms");
    assert_eq!(scanning_numbers(1000, "5 entries/s", "/r"), "1.00 KB · 5 entries/s · /r");
    assert_eq!(scanning_counts(5, 0), "5 folders · 0 errors");
    assert_eq!(entry_rate(None), "—");
    assert_eq!(entry_rate(Some(999)), "999 entries/s");
    assert_eq!(entry_rate(Some(15_000)), "15.0 KB/s");
    assert_eq!((metric_label(true), metric_label(false)), ("ON DISK", "APPARENT"));
    assert!(metric_hint(true).starts_with("Showing blocks"));
    assert!(metric_hint(false).starts_with("Showing apparent"));
    assert_eq!((scanning_title(true), scanning_title(false)), ("STOPPING", "MEASURING"));
    assert_eq!(settings_hint(true), "Scan again to apply.");
    assert_eq!(settings_hint(false), "These take effect on the next scan.");
    assert_eq!((shortcut("R", true), shortcut("R", false)), ("⌘R".into(), "Ctrl+R".into()));
    assert_eq!(target_title(&None), "Choose a target");
    assert_eq!(target_title(&Some(b"/a".to_vec())), "/a");
    assert_eq!(target_text("Home", b"/home/u"), "Home  ·  /home/u");
}

#[test]
fn labels_are_spaced_letter_by_letter() {
    assert_eq!(spaced("AB C"), "A\u{2009}B\u{2009} \u{2009}C");
    assert_eq!(spaced("A"), "A");
    assert_eq!(spaced(""), "");
}

#[test]
fn the_file_manager_is_started_on_the_item_or_its_folder() {
    let mac = reveal_in_file_manager(b"/a/b.txt", false, true);
    assert_eq!(mac.program, "open");
    assert_eq!(mac.args, vec![b"-R".to_vec(), b"/a/b.txt".to_vec()]);
    let linux = reveal_in_file_manager(b"/a/b.txt", false, false);
    assert_eq!(linux.program, "xdg-open");
    assert_eq!(linux.args, vec![b"/a".to_vec()]);
    assert_eq!(reveal_in_file_manager(b"/a/b", true, false).args, vec![b"/a/b".to_vec()]);
    assert_eq!(reveal_in_file_manager(b"/", false, false).args, vec![b"/".to_vec()]);
    assert_eq!(open_path(b"/a", true).program, "open");
    assert_eq!(open_path(b"/a", false).program, "xdg-open");
    assert_eq!(open_path(b"/a", false).args, vec![b"/a".to_vec()]);
}

#[test]
fn volumes_are_looked_for_where_the_desktop_mounts_them() {
    assert_eq!(mount_roots(Some(b"u"), true), vec![b"/Volumes".to_vec()]);
    assert_eq!(mount_roots(None, false), vec![b"/media".to_vec(), b"/mnt".to_vec()]);
    assert_eq!(mount_roots(Some(b"u"), false)[2], b"/run/media/u".to_vec());
}

#[test]
fn targets_are_home_then_root_then_volumes_by_name() {
    let entry = |name: &str, is_dir: bool| MountEntry { name: name.as_bytes().to_vec(), is_dir };
    let mounts = vec![
        MountRoot {
            dir: b"/media".to_vec(),
            entries: vec![entry("zip", true), entry("Alpha", true), entry("link", false), entry("ab", true)],
        },
        MountRoot { dir: b"/mnt".to_vec(), entries: vec![entry("éa", true), entry("a", true)] },
    ];
    let out = scan_targets(Some(b"/home/me"), false, &mounts);
    let flat: Vec<(String, String)> = out
        .iter()
        .map(|t| (t.label.clone(), String::from_utf8(t.path.clone()).unwrap()))
        .collect();
    let expected: Vec<(String, String)> = [
        ("me", "/home/me"),
        ("Filesystem", "/"),
        ("Alpha", "/media/Alpha"),
        ("ab", "/media/ab"),
        ("zip", "/media/zip"),
        ("a", "/mnt/a"),
        ("éa", "/mnt/éa"),
    ]
    .iter()
    .map(|(a, b)| (a.to_string(), b.to_string()))
    .collect();
    assert_eq!(flat, expected);
    let mac = scan_targets(Some(b"/"), true, &Vec::new());
    assert_eq!(mac[0].label, "Home");
    assert_eq!(mac[1].label, "Macintosh HD");
    assert_eq!(scan_targets(None, true, &Vec::new()).len(), 1);
}

#[test]
fn the_report_lists_kinds_files_and_errors() {
    let mut disk: Disk = BTreeMap::new();
    disk.insert(
        "/r".to_string(),
        vec![("a.mp4".to_string(), Some(3000)), ("b.rs".to_string(), Some(1000))],
    );
    let kinds = KindTable::builtin();
    let mut tree = scan(&disk, 7);
    tree.stats.free_space = Some(5000);
    tree.stats.volume_total = Some(20_000);
    tree.stats.hardlink_dups = 2;
    tree.stats.used_fallback = true;
    let lines = print_report(&tree, &kinds, false, 1, "0.25");
    assert_eq!(
        lines,
        vec![
            "/r",
            "  4.00 KB  ·  3 entries (2 files, 1 folders)  ·  0.25s",
            "  volume: 5.00 KB of 20.0 KB free",
            "  2 extra hard links not counted",
            "  fell back to the portable walker on at least one directory",
            "",
            "BY KIND",
            "  Video               3.00 KB   75%          1 file",
            "  Source code         1.00 KB   25%          1 file",
            "",
            "LARGEST FILES",
            "     3.00 KB  /r/a.mp4",
            "",
            "7 items could not be read:",
            "  /r/x: error 0",
            "  /r/x: error 1",
            "  /r/x: error 2",
            "  /r/x: error 3",
            "  /r/x: error 4",
            "  …",
            "Grant Full Disk Access in System Settings > Privacy & Security to include them.",
        ]
    );
    let short = print_report(&scan(&disk, 0), &kinds, false, 0, "0.25");
    assert_eq!(short.len(), 6);
}

#[test]
fn the_version_names_the_commit_when_it_is_known() {
    assert_eq!(version("0.3.0", None), "diskscope 0.3.0");
    assert_eq!(version("0.3.0", Some("abc1234")), "diskscope 0.3.0 (abc1234)");
}
