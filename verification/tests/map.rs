//! What the map draws, and in which pixels.

use diskscope::canvas::{drill_target, find_rect, is_clickable, CacheKey, Canvas, CanvasOutput};
use diskscope::kinds::KindTable;
use diskscope::raster::{
    band_count, base_color, clip_to_band, fill_buckets, is_dimmed, paint_ids, rows_per_band, Bounds,
    Raster, NO_NODE,
};
use diskscope::tree::{flags, make_node, Node, ScanStats, Tree, ROOT};
use diskscope::treemap::placer::{Placed, Placer};
use diskscope::treemap::strips::Strip;
use diskscope::treemap::{plan, Cell, Layout};

fn bounds(x0: u32, y0: u32, x1: u32, y1: u32) -> Bounds {
    Bounds { x0, y0, x1, y1 }
}

#[test]
fn rows_are_grouped_into_bands() {
    assert_eq!(rows_per_band(0), 1);
    assert_eq!(rows_per_band(10), 10);
    assert_eq!(rows_per_band(400), 24);
    assert_eq!(band_count(400, 24), 17);
    assert_eq!(band_count(48, 24), 2);
    assert_eq!(band_count(0, 1), 0);
}

#[test]
fn a_block_is_in_every_band_it_touches() {
    let blocks = vec![bounds(0, 0, 5, 10), bounds(0, 20, 5, 30), bounds(3, 3, 3, 9)];
    let buckets = fill_buckets(&blocks, 24, 2);
    assert_eq!(buckets, vec![vec![0, 1], vec![1]]);
    assert_eq!(clip_to_band(&blocks[1], 0, 24), (20, 24));
    assert_eq!(clip_to_band(&blocks[1], 24, 24), (24, 30));
}

#[test]
fn every_pixel_names_the_block_that_covers_it() {
    let (w, h) = (37usize, 61usize);
    let blocks = vec![bounds(0, 0, 20, 61), bounds(20, 0, 37, 30), bounds(21, 31, 37, 61)];
    let nodes = vec![5, 6, 7];
    let ids = paint_ids(&blocks, &nodes, w, h);
    assert_eq!(ids.len(), w * h);
    for y in 0..h {
        for x in 0..w {
            let mut expected = NO_NODE;
            for (b, &n) in blocks.iter().zip(&nodes) {
                if (b.x0 as usize) <= x && x < b.x1 as usize && (b.y0 as usize) <= y && y < b.y1 as usize {
                    expected = n;
                }
            }
            assert_eq!(ids[y * w + x], expected, "{x},{y}");
        }
    }
}

#[test]
fn a_later_block_paints_over_an_earlier_one() {
    let blocks = vec![bounds(0, 0, 4, 4), bounds(1, 1, 3, 3)];
    let ids = paint_ids(&blocks, &vec![1, 2], 4, 4);
    assert_eq!(ids[0], 1);
    assert_eq!(ids[5], 2);
}

#[test]
fn blocks_are_coloured_by_kind_unless_something_is_wrong() {
    let kinds = KindTable::builtin();
    let mut n = make_node(ROOT, 0, 0, 0, 0, 1, 1);
    n.kind = 3;
    assert_eq!(base_color(&n, &kinds), kinds.kind(3).color);
    n.flags = flags::OTHER_FS;
    assert_eq!(base_color(&n, &kinds), [70, 78, 92]);
    n.flags = flags::OTHER_FS | flags::UNREADABLE;
    assert_eq!(base_color(&n, &kinds), [92, 64, 64]);
    assert!(!is_dimmed(&n, None));
    assert!(!is_dimmed(&n, Some(3)));
    assert!(is_dimmed(&n, Some(4)));
}

fn dir(parent: u32, kids: (u32, u32), depth: u8, size: u64) -> Node {
    let mut n = make_node(parent, 0, 0, flags::DIR, depth, size, size);
    n.child_start = kids.0;
    n.child_len = kids.1;
    n
}

/// A root of three children: 10, a folder of 30 with two files, and an empty
/// file.
fn sample() -> Tree {
    let nodes = vec![
        dir(0, (1, 3), 0, 40),
        make_node(0, 0, 0, 0, 1, 10, 10),
        dir(0, (4, 2), 1, 30),
        make_node(0, 0, 0, 0, 1, 0, 0),
        make_node(2, 0, 0, 0, 2, 5, 5),
        make_node(2, 0, 0, 0, 2, 25, 25),
    ];
    Tree::new(b"/r".to_vec(), nodes, Vec::new(), ScanStats::default())
}

#[test]
fn a_folder_is_planned_largest_first_without_empty_entries() {
    let tree = sample();
    let p = plan(&tree, ROOT, true, true, true).unwrap();
    assert_eq!(p.items, vec![(2, 30), (1, 10)]);
    assert_eq!(p.total, 40);
    assert!(plan(&tree, ROOT, true, true, false).is_none());
    assert!(plan(&tree, 1, true, true, true).is_none());
}

#[test]
fn strips_use_up_every_item() {
    let items = vec![(2u32, 50u64), (1, 30), (4, 12), (3, 8)];
    let mut strip = Strip::new(&items, 100);
    let mut cut = Vec::new();
    while strip.start < items.len() {
        let mut n = 0;
        while let Some((item, candidate)) = strip.offer(&items) {
            assert_eq!(candidate, strip.size + item);
            // Two items to a strip.
            if !strip.takes(n < 2) {
                break;
            }
            strip.take(&items);
            n += 1;
        }
        cut.push((strip.start, strip.count, strip.size, strip.remaining));
        strip.close(&items);
    }
    assert_eq!(cut, vec![(0, 2, 80, 100), (2, 2, 20, 20)]);
    assert_eq!(strip.remaining, 0);
    assert_eq!(strip.count, 0);
}

#[test]
fn the_picture_is_drawn_in_order() {
    let tree = sample();
    let mut placer: Placer<(i32, i32), ()> = Placer::new(ROOT, (0, 0), ());
    while let Some(cell) = placer.next() {
        match plan(&tree, cell.node, true, true, true) {
            Some(p) => {
                let placed: Vec<Placed<(i32, i32), ()>> = p
                    .items
                    .iter()
                    .map(|&(node, size)| Placed { node, rect: (node as i32, size as i32), cushion: () })
                    .collect();
                placer.split((-1, cell.node as i32), &placed);
            }
            None => placer.settle(),
        }
    }
    let layout = placer.finish(ROOT, (9, 9), true);
    let leaves: Vec<u32> = layout.leaves.iter().map(|c| c.node).collect();
    let dirs: Vec<u32> = layout.dirs.iter().map(|c| c.node).collect();
    assert_eq!(leaves, vec![5, 4, 1]);
    assert_eq!(dirs, vec![0, 2]);
    assert_eq!(layout.block_count(), 3);
    assert_eq!(layout.leaves[0].depth, 2);
    assert_eq!(layout.dir_rect(2), Some((-1, 2)));
    assert_eq!(layout.dir_rect(5), None);
    assert_eq!(layout.rect_of(5), Some((5, 25)));
    assert_eq!(layout.rect_of(2), Some((-1, 2)));
    assert_eq!(layout.rect_of(3), None);
    assert_eq!(find_rect(&layout, 4), Some((4, 5)));
    assert_eq!(find_rect(&layout, 0), Some((-1, 0)));
    assert_eq!(find_rect(&layout, 3), None);
}

#[test]
fn a_block_goes_before_a_folder_when_marking() {
    let cell = |node: u32, rect: i32| Cell { node, rect, cushion: (), depth: 0 };
    let layout = Layout::new(ROOT, 0, vec![cell(1, 10)], vec![cell(1, 20), cell(1, 30)], false);
    assert_eq!(find_rect(&layout, 1), Some(10));
    assert_eq!(layout.rect_of(1), Some(30));
    assert_eq!(layout.dir_rect(1), Some(30));
}

#[test]
fn the_map_is_drawn_once_per_key() {
    let key = CacheKey {
        root: ROOT,
        width: 10,
        height: 10,
        physical: true,
        collapse_packages: true,
        highlight: None,
        generation: 1,
    };
    let cell = |node: u32, rect: i32| Cell { node, rect, cushion: (), depth: 0 };
    let mut canvas: Canvas<i32, ()> = Canvas::new();
    assert!(canvas.needs_render(key));
    assert_eq!(canvas.block_count(), 0);
    assert!(canvas.marks(&sample(), Some(4), None).is_none());
    let layout = Layout::new(ROOT, 0, vec![cell(4, 10), cell(1, 11)], vec![cell(2, 20)], true);
    let raster = Raster { width: 2, height: 1, rgba: vec![0; 8], ids: vec![4, NO_NODE] };
    canvas.render(key, layout, raster);
    assert!(!canvas.needs_render(key));
    assert!(canvas.needs_render(CacheKey { highlight: Some(3), ..key }));
    assert!(canvas.needs_render(CacheKey { generation: 2, ..key }));
    assert_eq!(canvas.block_count(), 2);

    let out = canvas.output(Some((0, 0)), true, false, true);
    assert_eq!(
        out,
        CanvasOutput {
            hovered: Some(4),
            clicked: Some(4),
            double_clicked: None,
            context_target: Some(4)
        }
    );
    assert_eq!(canvas.output(Some((1, 0)), true, true, true).clicked, None);
    assert_eq!(canvas.output(None, true, true, true).hovered, None);

    let marks = canvas.marks(&sample(), Some(4), Some(1)).unwrap();
    assert_eq!((marks.folder, marks.hovered, marks.selected), (Some(20), Some(10), Some(11)));
    let marks = canvas.marks(&sample(), None, Some(2)).unwrap();
    assert_eq!((marks.folder, marks.hovered, marks.selected), (None, None, Some(20)));

    canvas.invalidate();
    assert!(canvas.needs_render(key));
    assert_eq!(canvas.block_count(), 2);
}

#[test]
fn a_block_is_clickable_where_it_drills() {
    let tree = sample();
    assert_eq!(drill_target(&tree, 2), 2);
    assert_eq!(drill_target(&tree, 4), 2);
    assert_eq!(drill_target(&tree, 1), ROOT);
    assert!(is_clickable(&tree, ROOT, Some(4)));
    assert!(!is_clickable(&tree, ROOT, Some(1)));
    assert!(!is_clickable(&tree, 2, Some(2)));
    assert!(!is_clickable(&tree, ROOT, None));
}
