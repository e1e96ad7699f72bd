//! End-to-end checks of the walk against a synthetic tree with known sizes.

use std::collections::BTreeMap;

use diskscope::kinds::{KindTable, KIND_FREE};
use diskscope::raster::{base_color, paint_ids, Bounds, Raster, NO_NODE};
use diskscope::scan::assemble::{
    assemble, enumerate, fits, is_volume_root, single_file_tree, volume_space, Above, BulkRead,
    NextRead, Outcome,
};
use diskscope::scan::bulk::{parse_batch, REQUESTED_COMMON, REQUESTED_FILE, VDIR, VLNK, VREG};
use diskscope::scan::chunk::{DirChunk, RawEntry, NO_CHUNK};
use diskscope::scan::collect::{collect, shard_to_ask, Subdir};
use diskscope::scan::entry::{entry_from_error, Ent};
use diskscope::scan::links::{shard_of, LinkSet, HARDLINK_SHARDS};
use diskscope::scan::options::{Progress, ScanOptions};
use diskscope::scan::posix::{
    ended_badly, entry_from_stat, is_dot_entry, Stat, S_IFDIR, S_IFLNK, S_IFREG,
};
use diskscope::scan::walk::{root_task, Task, Walk, MAX_ERROR_SAMPLES};
use diskscope::summary::{kind_totals, kind_totals_parallel, largest_files};
use diskscope::tree::{flags, NodeId, Tree, ROOT};
use diskscope::treemap::placer::{Placed, Placer};
use diskscope::treemap::strips::Strip;
use diskscope::treemap::{plan, Layout};

const ROOT_DEV: i64 = 7;

/// Accents, an em dash, a combining mark and an emoji.
const ODD_NAME: &[u8] = "ødd—na\u{0308}me \u{1F600}.txt".as_bytes();

/// What a directory entry is.
#[derive(Clone)]
enum Item {
    File { len: u64, ino: u64, nlink: u32 },
    Link { len: u64 },
    Dir { dev: i64 },
    Broken { code: i32 },
}

/// A file system held in memory: the entries of each directory by path.
struct Disk {
    dirs: BTreeMap<Vec<u8>, Vec<(Vec<u8>, Item)>>,
    /// Directories that cannot be opened.
    closed: Vec<Vec<u8>>,
    next_ino: u64,
}

fn under(dir: &[u8], name: &[u8]) -> Vec<u8> {
    let mut path = dir.to_vec();
    path.push(b'/');
    path.extend_from_slice(name);
    path
}

impl Disk {
    fn new() -> Disk {
        let mut dirs = BTreeMap::new();
        dirs.insert(b"/r".to_vec(), Vec::new());
        Disk { dirs, closed: Vec::new(), next_ino: 100 }
    }

    fn ensure(&mut self, dir: &[u8]) {
        if !self.dirs.contains_key(dir) {
            let cut = dir.iter().rposition(|&b| b == b'/').unwrap();
            self.ensure(&dir[..cut].to_vec());
            let name = dir[cut + 1..].to_vec();
            self.dirs.get_mut(&dir[..cut]).unwrap().push((name, Item::Dir { dev: ROOT_DEV }));
            self.dirs.insert(dir.to_vec(), Vec::new());
        }
    }

    fn put(&mut self, rel: &[u8], item: Item) {
        let path = under(b"/r", rel);
        let cut = path.iter().rposition(|&b| b == b'/').unwrap();
        self.ensure(&path[..cut].to_vec());
        let name = path[cut + 1..].to_vec();
        self.dirs.get_mut(&path[..cut]).unwrap().push((name, item));
    }

    fn file(&mut self, rel: &str, len: u64) {
        self.next_ino += 1;
        let ino = self.next_ino;
        self.put(rel.as_bytes(), Item::File { len, ino, nlink: 1 });
    }
}

/// Whole blocks of 4096 bytes.
fn allocated(len: u64) -> u64 {
    (len + 4095) / 4096 * 4096
}

/// Builds the fixture and returns the total bytes of file content.
fn fixture() -> (Disk, u64) {
    let mut disk = Disk::new();
    let mut written = 0u64;
    for (path, len) in [
        ("top.txt", 1000),
        ("empty.bin", 0),
        ("media/clip.mp4", 40_000),
        ("media/raw/shot.dng", 70_000),
        ("code/main.rs", 3_000),
        ("code/deep/deeper/deepest/note.md", 500),
        ("Thing.app/Contents/MacOS/thing", 12_000),
        ("Thing.app/Contents/Info.plist", 800),
    ] {
        disk.file(path, len);
        written += len;
    }
    for i in 0..400 {
        disk.file(&format!("wide/f{i:04}.dat"), 64);
        written += 64;
    }
    disk.put(ODD_NAME, Item::File { len: 128, ino: 50, nlink: 1 });
    written += 128;
    // Two names, one inode, one allocation.
    disk.put(b"links/original.bin", Item::File { len: 20_000, ino: 60, nlink: 2 });
    written += 20_000;
    disk.put(b"links/second.bin", Item::File { len: 20_000, ino: 60, nlink: 2 });
    disk.put(b"links/alias", Item::Link { len: 12 });
    disk.put(b"loop", Item::Link { len: 2 });
    disk.ensure(b"/r/empty-dir");
    (disk, written)
}

fn opts() -> ScanOptions {
    ScanOptions { include_free_space: false, ..Default::default() }
}

/// The `stat` of an entry.
fn stat(item: &Item) -> Stat {
    match item {
        Item::File { len, ino, nlink } => Stat {
            mode: S_IFREG | 0o644,
            dev: ROOT_DEV,
            ino: *ino,
            nlink: *nlink as u64,
            size: *len as i64,
            blocks: (allocated(*len) / 512) as i64,
        },
        Item::Link { len } => Stat {
            mode: S_IFLNK | 0o777,
            dev: ROOT_DEV,
            ino: 5,
            nlink: 1,
            size: *len as i64,
            blocks: 0,
        },
        Item::Dir { dev } => {
            Stat { mode: S_IFDIR | 0o755, dev: *dev, ino: 4, nlink: 3, size: 96, blocks: 0 }
        }
        Item::Broken { .. } => panic!("there is nothing to tell"),
    }
}

/// The entry reported for a name and its `stat`.
fn stat_entry<'a>(name: &'a [u8], item: &Item) -> Ent<'a> {
    match item {
        Item::Broken { code } => entry_from_error(name, 9, *code),
        _ => entry_from_stat(name, &stat(item)),
    }
}

/// The record of an entry in a bulk reply.
fn record(name: &[u8], item: &Item) -> Vec<u8> {
    let (objtype, error) = match item {
        Item::File { .. } => (VREG, 0),
        Item::Link { .. } => (VLNK, 0),
        Item::Dir { .. } => (VDIR, 0),
        Item::Broken { code } => (0, *code),
    };
    let file = if objtype == VDIR || error != 0 { 0 } else { REQUESTED_FILE };
    let mut rec = vec![0u8; 4]; // length, filled in at the end
    for word in [REQUESTED_COMMON, 0, 0, file, 0, error as u32] {
        rec.extend_from_slice(&word.to_le_bytes());
    }
    let reference = rec.len();
    rec.extend_from_slice(&0i32.to_le_bytes()); // where the name is, filled in below
    rec.extend_from_slice(&(name.len() as u32 + 1).to_le_bytes());
    if error == 0 {
        let st = stat(item);
        rec.extend_from_slice(&(st.dev as i32).to_le_bytes());
        rec.extend_from_slice(&objtype.to_le_bytes());
        rec.extend_from_slice(&st.ino.to_le_bytes());
        if objtype != VDIR {
            rec.extend_from_slice(&(st.nlink as u32).to_le_bytes());
            rec.extend_from_slice(&st.size.to_le_bytes());
            rec.extend_from_slice(&(st.blocks * 512).to_le_bytes());
        }
    }
    let offset = (rec.len() - reference) as i32;
    rec[reference..reference + 4].copy_from_slice(&offset.to_le_bytes());
    rec.extend_from_slice(name);
    rec.push(0);
    while rec.len() % 4 != 0 {
        rec.push(0);
    }
    let length = rec.len() as u32;
    rec[0..4].copy_from_slice(&length.to_le_bytes());
    rec
}

/// The reply to a bulk read of a directory: its records one after another.
fn bulk_reply(entries: &[(Vec<u8>, Item)]) -> Vec<u8> {
    entries.iter().flat_map(|(name, item)| record(name, item)).collect()
}

fn empty_chunk() -> DirChunk {
    DirChunk { entries: Vec::new(), names: Vec::new(), unreadable: false }
}

struct Scan {
    tree: Tree,
    progress: Progress,
}

/// How a scan is run.
#[derive(Clone, Copy)]
struct Run {
    opts: ScanOptions,
    cancelled: bool,
    volume: Option<(u64, u64)>,
    at_volume_root: bool,
    /// Whether the directory queued last is read first.
    newest_first: bool,
    /// Whether the file system has no bulk read.
    no_bulk: bool,
}

fn plain(opts: ScanOptions) -> Run {
    Run {
        opts,
        cancelled: false,
        volume: None,
        at_volume_root: false,
        newest_first: true,
        no_bulk: false,
    }
}

fn run(disk: &Disk, how: Run) -> Scan {
    let opts = &how.opts;
    let kinds = KindTable::builtin();
    let mut live = Progress::default();
    if how.cancelled {
        live.cancel();
    }
    let mut used_fallback = false;
    let mut links: Vec<LinkSet> = (0..HARDLINK_SHARDS).map(|_| LinkSet::new()).collect();
    let mut walk = Walk::new(opts.max_depth);
    let mut queue: Vec<(Task, Vec<u8>)> = vec![(root_task(b"/r".to_vec()), b"/r".to_vec())];
    while !queue.is_empty() {
        let next = if how.newest_first { queue.len() - 1 } else { 0 };
        let (task, path) = queue.remove(next);
        if live.is_cancelled() || !walk.reads(&task) {
            walk.skip(task.slot);
            continue;
        }
        let mut counts = Progress::default();
        if disk.closed.contains(&path) {
            walk.refuse(task.slot, path, "Permission denied".to_string(), &mut counts);
            continue;
        }
        let entries = &disk.dirs[&path];
        let bytes = bulk_reply(entries);
        let mut ents: Vec<Ent<'_>> = Vec::new();
        let outcome = if !opts.prefer_bulk {
            BulkRead::NotTried
        } else if how.no_bulk {
            BulkRead::Failed { unsupported: true }
        } else {
            parse_batch(&bytes, entries.len(), &mut ents).unwrap();
            BulkRead::Done
        };
        let next = enumerate(outcome, ents.len());
        if next == NextRead::Fallback {
            used_fallback = true;
        }
        if next != NextRead::Finish {
            ents.extend(entries.iter().map(|(name, item)| stat_entry(name, item)));
        }
        let mut chunk = empty_chunk();
        let mut subdirs: Vec<Subdir> = Vec::new();
        for e in &ents {
            let claimed = shard_to_ask(opts, e).and_then(|shard| links[shard].claim(opts, e));
            collect(
                opts, &kinds, ROOT_DEV, &mut chunk, &mut subdirs, &mut counts, e, task.depth,
                claimed,
            );
        }
        for t in walk.publish(task.slot, chunk, subdirs, task.depth, None, &mut counts) {
            let below = under(&path, &t.name);
            queue.push((t, below));
        }
    }
    let (chunks, errors, counts) = walk.into_parts();
    let progress = Progress { cancel: live.cancel, ..counts };
    let root = b"/r".to_vec();
    let outcome = Outcome {
        progress,
        errors,
        used_fallback,
        elapsed: 5_000_000,
        volume: how.volume,
        at_volume_root: how.at_volume_root,
    };
    assert!(fits(&root, &chunks, opts, &outcome));
    let tree = assemble(root, chunks, &kinds, opts, outcome);
    Scan { tree, progress }
}

fn scan_with(disk: &Disk, opts: &ScanOptions) -> Tree {
    run(disk, plain(*opts)).tree
}

fn find(tree: &Tree, name: &str) -> Option<NodeId> {
    (0..tree.len() as NodeId).find(|&id| tree.name(id) == name)
}

/// Path -> (flags, logical, physical), for comparison.
fn snapshot(tree: &Tree) -> BTreeMap<String, (u8, u64, u64)> {
    let mut out = BTreeMap::new();
    let mut stack = vec![ROOT];
    while let Some(id) = stack.pop() {
        if id != ROOT {
            let n = tree.node(id);
            out.insert(tree.path_text(id), (n.flags, n.logical, n.physical));
        }
        stack.extend(tree.children(id));
    }
    out
}

/// A rectangle: left, top, width, height.
type Area = [f32; 4];

/// Lays items out in strips across the shorter side, each strip as long as the
/// worst aspect ratio improves.
fn squarify(items: &Vec<(NodeId, u64)>, total: u64, area: Area) -> Vec<Placed<Area, ()>> {
    let [mut x, mut y, mut w, mut h] = area;
    let mut out = Vec::new();
    let mut strip = Strip::new(items, total);
    while strip.start < items.len() && w > 0.0 && h > 0.0 && strip.remaining > 0 {
        let side = w.min(h) as f64;
        let unit = w as f64 * h as f64 / strip.remaining as f64;
        let largest = items[strip.start].1 as f64 * unit;
        let mut best = f64::INFINITY;
        while let Some((item, candidate)) = strip.offer(items) {
            let thick = candidate as f64 * unit / side;
            let t2 = (thick * thick).max(f64::MIN_POSITIVE);
            let worst = (t2 / (item as f64 * unit).max(f64::MIN_POSITIVE)).max(largest / t2);
            if !strip.takes(worst <= best) {
                break;
            }
            best = worst;
            strip.take(items);
        }
        let vertical = w >= h;
        let thick = ((strip.size as f64 * unit / side) as f32).min(w.max(h));
        let (mut cursor, end) = if vertical { (y, y + h) } else { (x, x + w) };
        for (k, item) in items[strip.start..strip.start + strip.count].iter().enumerate() {
            let extent = if k + 1 == strip.count {
                end - cursor
            } else {
                (item.1 as f64 * unit / thick as f64) as f32
            };
            let rect = if vertical {
                [x, cursor, thick, extent]
            } else {
                [cursor, y, extent, thick]
            };
            out.push(Placed { node: item.0, rect, cushion: () });
            cursor += extent;
        }
        if vertical {
            x += thick;
            w -= thick;
        } else {
            y += thick;
            h -= thick;
        }
        strip.close(items);
    }
    out
}

/// Draws the subtree of `root` into a picture of `width` by `height` pixels.
fn draw(tree: &Tree, root: NodeId, physical: bool, width: u32, height: u32) -> (Layout<Area, ()>, Raster) {
    let view = [0.0, 0.0, width as f32, height as f32];
    let mut placer: Placer<Area, ()> = Placer::new(root, view, ());
    while let Some(cell) = placer.next() {
        let [x, y, w, h] = cell.rect;
        let roomy = w * h >= 8.0 && w > 3.0 && h > 3.0;
        match plan(tree, cell.node, physical, true, roomy) {
            None => placer.settle(),
            Some(p) => {
                let inner = [x + 1.0, y + 1.0, w - 2.0, h - 2.0];
                let placed = squarify(&p.items, p.total, inner);
                placer.split(inner, &placed);
            }
        }
    }
    let layout = placer.finish(root, view, physical);
    let snap = |v: f32, most: u32| v.round().clamp(0.0, most as f32) as u32;
    let bounds: Vec<Bounds> = layout
        .leaves
        .iter()
        .map(|c| Bounds {
            x0: snap(c.rect[0], width),
            y0: snap(c.rect[1], height),
            x1: snap(c.rect[0] + c.rect[2], width),
            y1: snap(c.rect[1] + c.rect[3], height),
        })
        .collect();
    let nodes: Vec<NodeId> = layout.leaves.iter().map(|c| c.node).collect();
    let ids = paint_ids(&bounds, &nodes, width as usize, height as usize);
    let kinds = KindTable::builtin();
    let rgba = ids
        .iter()
        .flat_map(|&id| {
            let [r, g, b] =
                if id == NO_NODE { [0; 3] } else { base_color(tree.node(id), &kinds) };
            [r, g, b, 255]
        })
        .collect();
    (layout, Raster { width, height, rgba, ids })
}

#[test]
fn bulk_and_posix_walkers_agree_exactly() {
    let (disk, _) = fixture();
    let bulk = scan_with(&disk, &ScanOptions { prefer_bulk: true, ..opts() });
    let posix = scan_with(&disk, &ScanOptions { prefer_bulk: false, ..opts() });
    assert!(!bulk.stats.used_fallback);
    let a = snapshot(&bulk);
    let b = snapshot(&posix);
    assert_eq!(a.len(), b.len());
    for (path, left) in &a {
        let right = b.get(path).unwrap_or_else(|| panic!("{path} missing from the POSIX walk"));
        assert_eq!(left, right, "{path} differs: bulk {left:?} vs posix {right:?}");
    }
    assert_eq!(bulk.stats.files, posix.stats.files);
    assert_eq!(bulk.stats.dirs, posix.stats.dirs);
    assert_eq!(bulk.node(ROOT).physical, posix.node(ROOT).physical);
}

#[test]
fn logical_total_matches_what_we_wrote() {
    let (disk, written) = fixture();
    let tree = scan_with(&disk, &opts());
    let symlink_bytes: u64 = (0..tree.len() as NodeId)
        .filter(|&id| tree.node(id).has(flags::SYMLINK))
        .map(|id| tree.node(id).logical)
        .sum();
    let expected = written + symlink_bytes;
    assert_eq!(
        tree.node(ROOT).logical,
        expected,
        "logical total {} vs expected {expected}",
        tree.node(ROOT).logical
    );
}

#[test]
fn physical_total_matches_stat() {
    let (disk, _) = fixture();
    let tree = scan_with(&disk, &ScanOptions { dedupe_hardlinks: false, ..opts() });
    let mut by_stat = 0u64;
    for entries in disk.dirs.values() {
        for (_, item) in entries {
            if let Item::File { len, .. } = item {
                by_stat += allocated(*len);
            }
        }
    }
    assert_eq!(tree.node(ROOT).physical, by_stat);
}

#[test]
fn hard_links_are_counted_once() {
    let (disk, _) = fixture();
    let deduped = scan_with(&disk, &opts());
    let raw = scan_with(&disk, &ScanOptions { dedupe_hardlinks: false, ..opts() });

    assert_eq!(deduped.stats.hardlink_dups, 1);
    assert_eq!(raw.stats.hardlink_dups, 0);
    assert!(
        raw.node(ROOT).physical - deduped.node(ROOT).physical >= 20_000,
        "dedup should drop about 20 KB"
    );
    let zeroed = (0..deduped.len() as NodeId)
        .filter(|&id| deduped.node(id).has(flags::HARDLINK_DUP))
        .count();
    assert_eq!(zeroed, 1);
}

#[test]
fn symlinks_are_not_followed() {
    let (disk, _) = fixture();
    let tree = scan_with(&disk, &opts());
    let loop_node = find(&tree, "loop").expect("the self-referential symlink is in the tree");
    let node = tree.node(loop_node);
    assert!(node.has(flags::SYMLINK));
    assert!(!node.is_dir());
    assert_eq!(node.child_len, 0);
}

#[test]
fn multibyte_names_survive() {
    let (disk, _) = fixture();
    let tree = scan_with(&disk, &opts());
    let found = (0..tree.len() as NodeId)
        .find(|&id| tree.name_bytes(id) == ODD_NAME)
        .expect("the multi-byte name is preserved byte for byte");
    assert_eq!(tree.node(found).logical, 128);
    assert_eq!(tree.path(found), under(b"/r", ODD_NAME));
}

#[test]
fn packages_are_flagged_but_still_measured() {
    let (disk, _) = fixture();
    let tree = scan_with(&disk, &opts());
    let app = find(&tree, "Thing.app").expect("the bundle is in the tree");
    assert!(tree.node(app).has(flags::PACKAGE));
    assert!(tree.node(app).is_dir());
    assert!(tree.node(app).child_len > 0, "contents are still scanned");
    assert!(tree.node(app).logical >= 12_800, "and still counted");
}

#[test]
fn max_depth_stops_descending_but_keeps_the_stub() {
    let (disk, _) = fixture();
    let tree = scan_with(&disk, &ScanOptions { max_depth: 1, ..opts() });
    let media = find(&tree, "media").expect("depth-1 entries are present");
    assert!(tree.node(media).is_dir());
    assert_eq!(tree.node(media).child_len, 0, "but not descended into");
    for id in 0..tree.len() as NodeId {
        assert!(tree.node(id).depth <= 1);
    }
}

#[test]
fn a_depth_of_zero_keeps_the_root_alone() {
    let (disk, _) = fixture();
    let tree = scan_with(&disk, &ScanOptions { max_depth: 0, ..opts() });
    assert_eq!(tree.len(), 1);
    assert!(tree.node(ROOT).is_dir());
    assert_eq!(tree.node(ROOT).child_len, 0);
    assert!(!tree.node(ROOT).has(flags::UNREADABLE));
    assert_eq!(tree.node(ROOT).logical, 0);
}

#[test]
fn no_depth_goes_deeper_than_asked() {
    let (disk, _) = fixture();
    for max_depth in 0..7 {
        let tree = scan_with(&disk, &ScanOptions { max_depth, ..opts() });
        for id in 0..tree.len() as NodeId {
            let n = tree.node(id);
            assert!(n.depth <= max_depth);
            assert!(n.depth < max_depth || n.child_len == 0);
        }
        // The deepest file of the fixture lies five levels down.
        assert_eq!(find(&tree, "note.md").is_some(), max_depth >= 5);
    }
}

#[test]
fn the_order_of_reading_does_not_show() {
    let (disk, _) = fixture();
    let one = run(&disk, plain(opts()));
    let other = run(&disk, Run { newest_first: false, ..plain(opts()) });
    assert_eq!(snapshot(&one.tree), snapshot(&other.tree));
    assert_eq!(one.tree.node(ROOT).logical, other.tree.node(ROOT).logical);
    assert_eq!(one.progress, other.progress);
}

#[test]
fn a_file_system_without_bulk_reads_falls_back() {
    let (disk, _) = fixture();
    let bulk = scan_with(&disk, &opts());
    let fallen = run(&disk, Run { no_bulk: true, ..plain(opts()) }).tree;
    assert!(fallen.stats.used_fallback);
    assert_eq!(snapshot(&bulk), snapshot(&fallen));
}

#[test]
fn every_link_but_the_first_weighs_nothing() {
    let mut disk = Disk::new();
    for name in ["a", "b", "c"] {
        disk.put(name.as_bytes(), Item::File { len: 10, ino: 8, nlink: 3 });
    }
    // The same inode number on its own, and one link of another inode.
    disk.put(b"d", Item::File { len: 10, ino: 8, nlink: 1 });
    disk.put(b"e", Item::File { len: 10, ino: 8 + 64, nlink: 2 });
    let tree = scan_with(&disk, &opts());
    let of = |name: &str| {
        let n = tree.node(find(&tree, name).unwrap());
        (n.logical, n.has(flags::HARDLINK_DUP))
    };
    assert_eq!(of("a"), (10, false));
    assert_eq!(of("b"), (0, true));
    assert_eq!(of("c"), (0, true));
    assert_eq!(of("d"), (10, false));
    assert_eq!(of("e"), (10, false));
    assert_eq!(tree.stats.hardlink_dups, 2);
}

#[test]
fn only_shared_inodes_are_claimed() {
    let with = opts();
    let without = ScanOptions { dedupe_hardlinks: false, ..opts() };
    let shared = stat_entry(b"f", &Item::File { len: 1, ino: 130, nlink: 2 });
    let single = stat_entry(b"g", &Item::File { len: 1, ino: 130, nlink: 1 });
    let dir = stat_entry(b"h", &Item::Dir { dev: ROOT_DEV });
    assert_eq!(shard_to_ask(&with, &shared), Some(2));
    assert_eq!(shard_to_ask(&with, &single), None);
    assert_eq!(shard_to_ask(&with, &dir), None);
    assert_eq!(shard_to_ask(&without, &shared), None);
    let mut links = LinkSet::new();
    assert_eq!(links.claim(&with, &single), None);
    assert_eq!(links.claim(&with, &shared), Some(true));
    assert_eq!(links.claim(&with, &shared), Some(false));
    assert_eq!(links.claim(&without, &shared), None);
}

#[test]
fn names_stand_side_by_side_in_the_buffer() {
    let (disk, _) = fixture();
    let tree = scan_with(&disk, &opts());
    let names: usize = (0..tree.len() as NodeId).map(|id| tree.name_bytes(id).len()).sum();
    assert!(tree.memory_bytes() >= 40 * tree.len() + names);
}

#[test]
fn cancelling_returns_a_partial_tree_not_an_error() {
    let (disk, _) = fixture();
    let tree = run(&disk, Run { cancelled: true, ..plain(opts()) }).tree;
    assert_eq!(tree.len(), 1, "only the root survives an immediate cancel");
}

#[test]
fn a_single_file_root_is_a_one_node_tree() {
    let kinds = KindTable::builtin();
    let tree = single_file_tree(b"/tmp/solo.mp4".to_vec(), false, 4096, 8, &kinds, 1);
    assert_eq!(tree.len(), 1);
    assert_eq!(tree.node(ROOT).logical, 4096);
    assert_eq!(tree.node(ROOT).physical, 8 * 512);
    assert_eq!(tree.name(ROOT), "solo.mp4");
    assert_eq!(kinds.kind(tree.node(ROOT).kind).name, "Video");
    assert_eq!(tree.stats.files, 1);
}

#[test]
fn every_node_path_resolves_back_to_a_real_entry() {
    let (disk, _) = fixture();
    let tree = scan_with(&disk, &opts());
    for id in 0..tree.len() as NodeId {
        let path = tree.path(id);
        if id == ROOT {
            assert!(disk.dirs.contains_key(&path));
            continue;
        }
        let cut = path.iter().rposition(|&b| b == b'/').unwrap();
        let entries = &disk.dirs[&path[..cut]];
        assert!(
            entries.iter().any(|(name, _)| name[..] == path[cut + 1..]),
            "node {id} ({}) does not resolve to {}",
            tree.name(id),
            tree.path_text(id)
        );
    }
}

#[test]
fn layout_and_raster_cover_the_view() {
    let (disk, _) = fixture();
    let tree = scan_with(&disk, &opts());
    let (lay, img) = draw(&tree, ROOT, true, 600, 400);
    assert!(lay.block_count() > 50, "only {} blocks", lay.block_count());
    assert_eq!(img.rgba.len(), 600 * 400 * 4);

    // Most of the canvas is covered; what is left is the padding gutters
    // between directories.
    let background = img.ids.iter().filter(|&&id| id == NO_NODE).count();
    let coverage = 1.0 - background as f64 / img.ids.len() as f64;
    assert!(coverage > 0.75, "only {:.0}% of the view was painted", coverage * 100.0);

    // Every painted pixel names a node that exists, and hit-testing agrees
    // with the buffer.
    for (i, &id) in img.ids.iter().enumerate() {
        if id != NO_NODE {
            assert!((id as usize) < tree.len(), "pixel {i} names node {id}");
        }
    }
    let (x, y) = (300, 200);
    assert_eq!(img.node_at(x, y), {
        let id = img.ids[y as usize * 600 + x as usize];
        (id != NO_NODE).then_some(id)
    });
    assert_eq!(img.node_at(-1, 0), None);
    assert_eq!(img.node_at(600, 0), None);

    // No node is drawn twice, as a block or as a folder.
    let mut drawn: Vec<NodeId> = lay.leaves.iter().chain(&lay.dirs).map(|c| c.node).collect();
    let total = drawn.len();
    drawn.sort();
    drawn.dedup();
    assert_eq!(drawn.len(), total);

    // Every file that weighs something is in exactly one block.
    for id in 0..tree.len() as NodeId {
        if !tree.node(id).is_dir() && tree.size(id, true) > 0 {
            let line = tree.ancestry(id);
            let blocks = lay.leaves.iter().filter(|c| line.contains(&c.node)).count();
            assert_eq!(blocks, 1, "node {id}");
        }
    }
}

#[test]
fn kind_totals_add_up_to_the_tree() {
    let (disk, _) = fixture();
    let tree = scan_with(&disk, &opts());
    let kinds = KindTable::builtin();

    let totals = kind_totals(&tree, ROOT, kinds.len(), true);
    let summed: u64 = totals.iter().map(|t| t.physical).sum();
    assert_eq!(summed, tree.node(ROOT).physical);

    let files: u64 = totals.iter().map(|t| t.files).sum();
    assert_eq!(files, tree.stats.files);

    // The parallel whole-tree variant must match the sequential one.
    let mut par = kind_totals_parallel(&tree, kinds.len());
    par.sort_by_key(|t| t.kind);
    let mut seq = kind_totals(&tree, ROOT, kinds.len(), true);
    seq.sort_by_key(|t| t.kind);
    assert_eq!(par.len(), seq.len());
    for (a, b) in par.iter().zip(&seq) {
        assert_eq!((a.kind, a.physical, a.files), (b.kind, b.physical, b.files));
    }

    // Largest file is the 70 KB raw photo.
    let top = largest_files(&tree, ROOT, 3, false);
    assert_eq!(tree.name(top[0]), "shot.dng");
    assert!(tree.node(top[1]).logical <= tree.node(top[0]).logical);
}

#[test]
fn kinds_are_given_by_extension() {
    let (disk, _) = fixture();
    let kinds = KindTable::builtin();
    let tree = scan_with(&disk, &opts());
    let clip = find(&tree, "clip.mp4").unwrap();
    assert_eq!(kinds.kind(tree.node(clip).kind).name, "Video");
    let code = find(&tree, "code").unwrap();
    assert_eq!(kinds.kind(tree.node(code).kind).name, "Folder");
    let top = find(&tree, "top.txt").unwrap();
    assert_eq!(kinds.kind(tree.node(top).kind).name, "Other");
}

#[test]
fn free_space_is_added_at_a_volume_root_only() {
    let (disk, _) = fixture();
    let with = ScanOptions::default();
    let bare = scan_with(&disk, &with);
    let volume = Some((5_000, 9_000_000));
    let root = run(&disk, Run { volume, at_volume_root: true, ..plain(with) }).tree;
    let inside = run(&disk, Run { volume, ..plain(with) }).tree;
    assert_eq!(root.len(), bare.len() + 1);
    assert_eq!(inside.len(), bare.len());
    assert_eq!(root.stats.free_space, Some(5_000));
    assert_eq!(inside.stats.volume_total, Some(9_000_000));
    assert_eq!(root.node(ROOT).physical, bare.node(ROOT).physical + 5_000);
    let free = (0..root.len() as NodeId)
        .find(|&id| root.node(id).has(flags::FREE_SPACE))
        .unwrap();
    assert_eq!(root.node(free).parent, ROOT);
    assert_eq!(root.node(free).kind, KIND_FREE);
    assert!(root.children(ROOT).any(|c| c == free));
    // Everything else is where it was, by path.
    let before = snapshot(&bare);
    let after = snapshot(&root);
    for (path, entry) in &before {
        assert_eq!(after.get(path), Some(entry));
    }
}

#[test]
fn a_directory_that_cannot_be_read_is_marked_and_counted() {
    let (mut disk, _) = fixture();
    disk.closed.push(b"/r/media".to_vec());
    let scan = run(&disk, plain(opts()));
    let media = find(&scan.tree, "media").unwrap();
    assert!(scan.tree.node(media).has(flags::UNREADABLE));
    assert_eq!(scan.tree.node(media).child_len, 0);
    assert_eq!(scan.tree.stats.errors, 1);
    assert_eq!(
        scan.tree.stats.error_samples,
        vec![(b"/r/media".to_vec(), "Permission denied".to_string())]
    );
    assert_eq!(scan.progress.errors, 1);
}

#[test]
fn a_broken_entry_keeps_its_name_and_weighs_nothing() {
    let mut disk = Disk::new();
    disk.put(b"gone", Item::Broken { code: 5 });
    disk.file("here", 10);
    let tree = scan_with(&disk, &opts());
    let gone = find(&tree, "gone").unwrap();
    assert!(tree.node(gone).has(flags::UNREADABLE));
    assert_eq!(tree.node(gone).logical, 0);
    assert_eq!(tree.stats.files, 1);
}

#[test]
fn other_volumes_are_noted_and_entered_only_when_asked() {
    let mut disk = Disk::new();
    disk.put(b"mnt", Item::Dir { dev: 99 });
    disk.dirs.insert(
        b"/r/mnt".to_vec(),
        vec![(b"inside".to_vec(), Item::File { len: 5, ino: 3, nlink: 1 })],
    );
    let stay = scan_with(&disk, &opts());
    let mnt = find(&stay, "mnt").unwrap();
    assert!(stay.node(mnt).has(flags::OTHER_FS));
    assert!(find(&stay, "inside").is_none());
    let cross = scan_with(&disk, &ScanOptions { cross_mounts: true, ..opts() });
    let mnt = find(&cross, "mnt").unwrap();
    assert!(!cross.node(mnt).has(flags::OTHER_FS));
    assert!(find(&cross, "inside").is_some());
}

#[test]
fn packages_are_left_alone_when_not_asked_for() {
    let (disk, _) = fixture();
    let tree = scan_with(&disk, &ScanOptions { detect_packages: false, ..opts() });
    let app = find(&tree, "Thing.app").unwrap();
    assert!(!tree.node(app).has(flags::PACKAGE));
}

#[test]
fn the_counters_say_what_the_walk_saw() {
    let (disk, _) = fixture();
    let scan = run(&disk, plain(opts()));
    // The link's second name and the two symlinks are files like the others.
    assert_eq!(scan.progress.files, 413);
    assert_eq!(scan.progress.dirs, 13);
    assert_eq!(scan.progress.symlinks, 2);
    assert_eq!(scan.progress.entries(), 426);
    assert_eq!(scan.progress.bytes, scan.tree.node(ROOT).physical);
    // The root is counted as a directory and as a node.
    assert_eq!(scan.tree.len() as u64, scan.progress.entries());
    assert_eq!(scan.tree.stats.elapsed, 5_000_000);
}

/// How many nodes a tree has of files, symlinks, further links and directories.
fn numbers(tree: &Tree) -> (u64, u64, u64, u64) {
    let count = |test: &dyn Fn(u8) -> bool| {
        (0..tree.len() as NodeId).filter(|&id| test(tree.node(id).flags)).count() as u64
    };
    let no_file = flags::DIR | flags::UNREADABLE | flags::FREE_SPACE;
    (
        count(&|f| f & no_file == 0),
        count(&|f| f & flags::SYMLINK != 0),
        count(&|f| f & flags::HARDLINK_DUP != 0),
        count(&|f| f & flags::DIR != 0),
    )
}

fn counted(tree: &Tree) -> (u64, u64, u64, u64) {
    let s = &tree.stats;
    (s.files, s.symlinks, s.hardlink_dups, s.dirs)
}

#[test]
fn the_stats_are_the_numbers_of_nodes() {
    let (mut disk, _) = fixture();
    disk.put(b"gone", Item::Broken { code: 5 });
    let whole = scan_with(&disk, &opts());
    assert_eq!(counted(&whole), (413, 2, 1, 13));
    assert_eq!(counted(&whole), numbers(&whole));

    // Free space is no file.
    let with = ScanOptions::default();
    let volume = Some((5_000, 9_000_000));
    let root = run(&disk, Run { volume, at_volume_root: true, ..plain(with) }).tree;
    assert_eq!(root.len(), whole.len() + 1);
    assert_eq!(counted(&root), numbers(&root));
}

#[test]
fn directories_that_were_not_read_are_not_counted() {
    let (mut disk, _) = fixture();
    disk.closed.push(b"/r/links".to_vec());
    disk.put(b"mnt", Item::Dir { dev: 99 });
    let tree = scan_with(&disk, &ScanOptions { max_depth: 2, ..opts() });
    let (files, symlinks, dups, dirs) = numbers(&tree);
    // One that is refused, one on another volume and those at the depth limit:
    // `media/raw`, `code/deep` and `Thing.app/Contents`.
    assert_eq!(counted(&tree), (files, symlinks, dups, dirs - 5));
    // Nothing is read after a cancel, not even the root.
    let none = run(&disk, Run { cancelled: true, ..plain(opts()) }).tree;
    assert_eq!(counted(&none), (0, 0, 0, 0));
    assert_eq!(numbers(&none), (0, 0, 0, 1));
}

#[test]
fn both_readers_count_alike() {
    let (mut disk, _) = fixture();
    disk.put(b"gone", Item::Broken { code: 5 });
    let bulk = scan_with(&disk, &ScanOptions { prefer_bulk: true, ..opts() });
    let posix = scan_with(&disk, &ScanOptions { prefer_bulk: false, ..opts() });
    assert_eq!(counted(&bulk), counted(&posix));
    assert_eq!(bulk.len(), posix.len());
}

#[test]
fn both_readers_agree_on_a_volume_with_closed_directories() {
    let (mut disk, _) = fixture();
    disk.closed.push(b"/r/media/raw".to_vec());
    let volume = Some((5_000, 9_000_000));
    let scan = |prefer_bulk: bool| {
        let with = ScanOptions { prefer_bulk, ..ScanOptions::default() };
        run(&disk, Run { volume, at_volume_root: true, ..plain(with) }).tree
    };
    let (bulk, posix) = (scan(true), scan(false));
    assert_eq!(snapshot(&bulk), snapshot(&posix));
    assert_eq!(snapshot(&bulk).get("/r/(free space)"), Some(&(flags::FREE_SPACE, 5_000, 5_000)));
    assert_eq!(bulk.node(ROOT).physical, posix.node(ROOT).physical);
    assert_eq!(counted(&bulk), counted(&posix));
    assert_eq!(counted(&bulk).3, numbers(&bulk).3 - 1);
}

#[test]
fn links_in_different_directories_are_counted_once() {
    let mut disk = Disk::new();
    for name in ["a/x", "b/x", "c/d/x"] {
        disk.put(name.as_bytes(), Item::File { len: 5_000, ino: 8, nlink: 3 });
    }
    let volume = Some((7, 9_000_000));
    for newest_first in [true, false] {
        let how = Run { newest_first, volume, at_volume_root: true, ..plain(opts()) };
        let with_free = ScanOptions { include_free_space: true, ..opts() };
        for opts in [opts(), with_free] {
            let tree = run(&disk, Run { opts, ..how.clone() }).tree;
            let links: Vec<NodeId> =
                (0..tree.len() as NodeId).filter(|&id| tree.name(id) == "x").collect();
            assert_eq!(links.len(), 3);
            let full = |id: &&NodeId| tree.node(**id).logical == 5_000;
            let dup = |id: &&NodeId| tree.node(**id).has(flags::HARDLINK_DUP);
            assert_eq!(links.iter().filter(full).count(), 1);
            assert_eq!(links.iter().filter(dup).count(), 2);
            assert_eq!(tree.stats.hardlink_dups, 2);
        }
    }
}

#[test]
fn both_kind_totals_list_the_same() {
    let (disk, _) = fixture();
    let tree = scan_with(&disk, &opts());
    let kinds = KindTable::builtin();
    // Asking for more kinds than there can be changes nothing.
    for count in [kinds.len(), 65_536, 70_000] {
        let by_kind = kind_totals_parallel(&tree, count);
        for physical in [true, false] {
            let mut by_size = kind_totals(&tree, ROOT, count, physical);
            by_size.sort_by_key(|t| t.kind);
            assert_eq!(by_size.len(), by_kind.len());
            for (a, b) in by_size.iter().zip(&by_kind) {
                assert_eq!(
                    (a.kind, a.files, a.logical, a.physical),
                    (b.kind, b.files, b.logical, b.physical)
                );
            }
        }
        assert!(by_kind.windows(2).all(|w| w[0].kind < w[1].kind));
        assert_eq!(by_kind.len(), 3);
    }
}

#[test]
fn an_inode_is_claimed_once_per_device() {
    let mut links = LinkSet::new();
    assert!(links.claim_inode(1, 42));
    assert!(!links.claim_inode(1, 42));
    assert!(links.claim_inode(2, 42));
    assert!(links.claim_inode(-1, 42));
    assert!(!links.claim_inode(-1, 42));
    assert_eq!(shard_of(130), 2);
}

#[test]
fn only_some_errors_are_kept_in_full() {
    let mut walk = Walk::new(u8::MAX);
    let mut progress = Progress::default();
    for i in 0..100 {
        walk.record_error(vec![b'a'], format!("{i}"), &mut progress);
    }
    assert_eq!(progress.errors, 100);
    let (_, errors, counts) = walk.into_parts();
    assert_eq!(counts.errors, 100);
    assert_eq!(errors.len(), MAX_ERROR_SAMPLES);
    assert_eq!(errors[63].1, "63");
}

#[test]
fn a_failure_half_way_keeps_what_was_read() {
    let kinds = KindTable::builtin();
    let mut progress = Progress::default();
    let mut walk = Walk::new(u8::MAX);
    let mut chunk = empty_chunk();
    let mut subdirs: Vec<Subdir> = Vec::new();
    let e = stat_entry(b"kept.rs", &Item::File { len: 9, ino: 1, nlink: 1 });
    collect(&opts(), &kinds, ROOT_DEV, &mut chunk, &mut subdirs, &mut progress, &e, 0, None);
    let task = root_task(b"/r".to_vec());
    let failure = Some((b"/r".to_vec(), "Input/output error".to_string()));
    let tasks = walk.publish(task.slot, chunk, subdirs, task.depth, failure, &mut progress);
    assert!(tasks.is_empty());
    assert_eq!(progress.errors, 1);
    assert_eq!(progress.dirs, 1);
    let (chunks, errors, counts) = walk.into_parts();
    assert_eq!((counts.files, counts.dirs, counts.bytes, counts.errors), (1, 1, 4096, 1));
    assert_eq!(errors.len(), 1);
    let chunk = chunks[0].as_ref().unwrap();
    assert!(chunk.unreadable);
    assert_eq!(chunk.entries.len(), 1);
}

#[test]
fn long_names_are_cut() {
    let kinds = KindTable::builtin();
    let mut progress = Progress::default();
    let mut chunk = empty_chunk();
    let mut subdirs: Vec<Subdir> = Vec::new();
    let name = vec![b'n'; 70_000];
    let e = stat_entry(&name, &Item::Dir { dev: ROOT_DEV });
    collect(&opts(), &kinds, ROOT_DEV, &mut chunk, &mut subdirs, &mut progress, &e, 0, None);
    assert_eq!(chunk.entries[0].name_len, u16::MAX);
    assert_eq!(chunk.names.len(), 65_535);
    assert_eq!(subdirs[0].name.len(), 65_535);
    assert_eq!(chunk.entries[0].chunk, NO_CHUNK);
}

#[test]
fn chunks_that_are_never_claimed_leave_no_trace() {
    let kinds = KindTable::builtin();
    let entry = RawEntry {
        name_off: 0,
        name_len: 1,
        flags: flags::DIR,
        chunk: NO_CHUNK,
        logical: 0,
        physical: 0,
    };
    let chunks = vec![Some(DirChunk {
        entries: vec![entry],
        names: b"d".to_vec(),
        unreadable: false,
    })];
    let outcome = Outcome {
        progress: Progress::default(),
        errors: Vec::new(),
        used_fallback: true,
        elapsed: 0,
        volume: None,
        at_volume_root: false,
    };
    let root = b"/r".to_vec();
    assert!(fits(&root, &chunks, &opts(), &outcome));
    let tree = assemble(root, chunks, &kinds, &opts(), outcome);
    assert_eq!(tree.len(), 2);
    assert!(tree.stats.used_fallback);
    assert_eq!(tree.name(1), "d");
}

#[test]
fn sizes_that_overflow_are_refused() {
    let entry = RawEntry {
        name_off: 0,
        name_len: 0,
        flags: 0,
        chunk: NO_CHUNK,
        logical: u64::MAX,
        physical: 0,
    };
    let chunks = vec![Some(DirChunk {
        entries: vec![entry, entry],
        names: Vec::new(),
        unreadable: false,
    })];
    let outcome = Outcome {
        progress: Progress::default(),
        errors: Vec::new(),
        used_fallback: false,
        elapsed: 0,
        volume: None,
        at_volume_root: false,
    };
    assert!(!fits(&b"/r".to_vec(), &chunks, &opts(), &outcome));
}

#[test]
fn a_stat_becomes_an_entry() {
    let st = Stat { mode: S_IFREG | 0o600, dev: 3, ino: 11, nlink: 2, size: 700, blocks: 8 };
    let e = entry_from_stat(b"f", &st);
    assert!(e.is_regular && !e.is_dir && !e.is_symlink);
    assert_eq!((e.dev, e.ino, e.nlink, e.logical, e.physical, e.error), (3, 11, 2, 700, 4096, 0));
    let odd = Stat { mode: S_IFLNK, dev: -1, ino: 1, nlink: 1, size: -5, blocks: -8 };
    let e = entry_from_stat(b"l", &odd);
    assert!(e.is_symlink);
    assert_eq!((e.logical, e.physical), (0, 0));
    let e = entry_from_error(b"x", 17, 13);
    assert_eq!((e.ino, e.nlink, e.error, e.logical), (17, 1, 13, 0));
}

#[test]
fn the_two_dot_entries_are_skipped() {
    assert!(is_dot_entry(b"."));
    assert!(is_dot_entry(b".."));
    assert!(!is_dot_entry(b"..."));
    assert!(!is_dot_entry(b".x"));
    assert!(!is_dot_entry(b""));
}

#[test]
fn the_end_of_a_directory_is_no_error() {
    assert!(!ended_badly(None));
    assert!(!ended_badly(Some(0)));
    assert!(ended_badly(Some(5)));
}

#[test]
fn only_an_untouched_directory_is_read_again() {
    assert!(matches!(enumerate(BulkRead::NotTried, 0), NextRead::Posix));
    assert!(matches!(enumerate(BulkRead::Done, 3), NextRead::Finish));
    assert!(matches!(enumerate(BulkRead::Failed { unsupported: true }, 0), NextRead::Fallback));
    assert!(matches!(enumerate(BulkRead::Failed { unsupported: true }, 1), NextRead::Fail));
    assert!(matches!(enumerate(BulkRead::Failed { unsupported: false }, 0), NextRead::Fail));
}

#[test]
fn volumes_are_measured_in_blocks() {
    assert_eq!(volume_space(4096, 10, 100), (40_960, 409_600));
    assert!(is_volume_root(Some(1), Above::Nothing));
    assert!(is_volume_root(Some(1), Above::Device(2)));
    assert!(!is_volume_root(Some(1), Above::Device(1)));
    assert!(!is_volume_root(Some(1), Above::Unreadable));
    assert!(!is_volume_root(None, Above::Nothing));
}

#[test]
fn hit_testing_agrees_with_the_id_buffer() {
    let img = Raster { width: 3, height: 2, rgba: vec![0; 24], ids: vec![1, NO_NODE, 2, 3, 4, 5] };
    assert_eq!(img.node_at(0, 0), Some(1));
    assert_eq!(img.node_at(1, 0), None);
    assert_eq!(img.node_at(2, 1), Some(5));
    assert_eq!(img.node_at(-1, 0), None);
    assert_eq!(img.node_at(3, 0), None);
    assert_eq!(img.node_at(0, 2), None);
}
