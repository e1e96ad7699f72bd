//! The pixel bookkeeping of the map.
//!
//! Besides the image there is a parallel **id buffer**, one `NodeId` per pixel,
//! which turns hit-testing into an array index instead of a spatial query.
//!
//! Parallelism is by horizontal band, with block indices pre-bucketed per band.
//! The output does not depend on the number of threads.

use rayon::iter::{IndexedParallelIterator, IntoParallelRefIterator, ParallelIterator};
use rayon::slice::ParallelSliceMut;
use vstd::arithmetic::div_mod::{lemma_fundamental_div_mod, lemma_fundamental_div_mod_converse};
use vstd::prelude::*;

use crate::kinds::{Kind, KindTable};
use crate::tree::flags;
use crate::tree::{has_flag, Node, NodeId};

verus! {

/// Value in the id buffer meaning "background".
pub const NO_NODE: NodeId = u32::MAX;

pub struct Raster {
    pub width: u32,
    pub height: u32,
    /// Straight (non-premultiplied) RGBA, ready for texture upload.
    pub rgba: Vec<u8>,
    /// One node per pixel; `NO_NODE` for background.
    pub ids: Vec<NodeId>,
}

impl Raster {
    /// One id per pixel.
    pub open spec fn wf(&self) -> bool {
        self.ids@.len() == self.width * self.height
    }

    /// Which node covers a pixel. `None` for background or out of bounds.
    pub fn node_at(&self, x: i32, y: i32) -> (node: Option<NodeId>)
        requires
            self.wf(),
        ensures
            node == if 0 <= x < self.width && 0 <= y < self.height && self.ids@[y * self.width + x]
                != NO_NODE {
                Some(self.ids@[y * self.width + x])
            } else {
                None
            },
    {
        if x < 0 || y < 0 || x as u32 >= self.width || y as u32 >= self.height {
            return None;
        }
        proof {
            lemma_pixel(x as int, y as int, self.width as int, self.height as int);
            assert(self.ids@.len() == self.ids.len());
        }
        let id: NodeId = self.ids[y as usize * self.width as usize + x as usize];
        if id != NO_NODE {
            Some(id)
        } else {
            None
        }
    }
}

/// A pixel's place in the buffer.
proof fn lemma_pixel(x: int, y: int, width: int, height: int)
    requires
        0 <= x < width,
        0 <= y < height,
    ensures
        0 <= y * width,
        0 <= y * width + x < width * height,
        y * width + width <= width * height,
{
    assert(0 <= y * width && y * width + width <= width * height) by (nonlinear_arith)
        requires
            0 <= y,
            y + 1 <= height,
            0 <= width,
    ;
}

/// A block snapped to pixels: columns `x0..x1`, rows `y0..y1`.
#[derive(Clone, Copy, Debug, PartialEq, Eq, Structural)]
pub struct Bounds {
    pub x0: u32,
    pub y0: u32,
    pub x1: u32,
    pub y1: u32,
}

impl Bounds {
    pub open spec fn covers(&self, x: int, y: int) -> bool {
        self.x0 <= x < self.x1 && self.y0 <= y < self.y1
    }

    /// Whether the block covers no pixel.
    pub open spec fn is_void(&self) -> bool {
        self.x1 <= self.x0 || self.y1 <= self.y0
    }

    pub open spec fn inside(&self, width: int, height: int) -> bool {
        self.x1 <= width && self.y1 <= height
    }
}

/// How many rows a band has. Bands of ~24 rows keep every core busy on a small
/// window without making the per-band bookkeeping dominate on a large one.
pub fn rows_per_band(height: usize) -> (rows: usize)
    ensures
        rows == if height < 1 {
            1
        } else if height < 24 {
            height
        } else {
            24
        },
        rows >= 1,
{
    if height < 1 {
        1
    } else if height < 24 {
        height
    } else {
        24
    }
}

/// How many bands of `rows` rows an image has.
pub fn band_count(height: usize, rows: usize) -> (bands: usize)
    requires
        rows >= 1,
    ensures
        bands == if height % rows == 0 {
            (height / rows) as int
        } else {
            height / rows + 1
        },
{
    let whole: usize = height / rows;
    if height % rows == 0 {
        whole
    } else {
        assert(whole < usize::MAX) by (nonlinear_arith)
            requires
                rows >= 1,
                height % rows != 0,
                whole == height / rows,
        ;
        whole + 1
    }
}

/// Whether a block has pixels in a band.
pub open spec fn touches(b: Bounds, band: int, rows: int) -> bool {
    !b.is_void() && b.y0 as int / rows <= band <= (b.y1 - 1) / rows
}

/// The blocks among the first `n` that touch a band, in order.
pub open spec fn bucket(bounds: Seq<Bounds>, n: int, band: int, rows: int) -> Seq<u32>
    decreases n,
{
    if n <= 0 {
        Seq::empty()
    } else if touches(bounds[n - 1], band, rows) {
        bucket(bounds, n - 1, band, rows).push((n - 1) as u32)
    } else {
        bucket(bounds, n - 1, band, rows)
    }
}

/// Buckets the blocks by band: each bucket lists the blocks that touch the band,
/// in order.
pub fn fill_buckets(bounds: &Vec<Bounds>, rows: usize, bands: usize) -> (buckets: Vec<Vec<u32>>)
    requires
        1 <= rows <= u32::MAX,
        bounds@.len() <= u32::MAX,
        forall|i: int|
            0 <= i < bounds@.len() && !(#[trigger] bounds@[i]).is_void() ==> bands
                > (bounds@[i].y1 - 1) / rows as int,
    ensures
        buckets@.len() == bands,
        forall|b: int|
            0 <= b < bands ==> (#[trigger] buckets@[b])@ == bucket(
                bounds@,
                bounds@.len() as int,
                b,
                rows as int,
            ),
{
    let mut buckets: Vec<Vec<u32>> = Vec::new();
    let mut b: usize = 0;
    while b < bands
        invariant
            b <= bands,
            buckets@.len() == b,
            forall|c: int| 0 <= c < b ==> (#[trigger] buckets@[c])@ == Seq::<u32>::empty(),
        decreases bands - b,
    {
        buckets.push(Vec::new());
        b += 1;
    }
    for i in 0..bounds.len()
        invariant
            1 <= rows <= u32::MAX,
            bounds@.len() <= u32::MAX,
            forall|i: int|
                0 <= i < bounds@.len() && !(#[trigger] bounds@[i]).is_void() ==> bands
                    > (bounds@[i].y1 - 1) / rows as int,
            buckets@.len() == bands,
            forall|c: int|
                0 <= c < bands ==> (#[trigger] buckets@[c])@ == bucket(
                    bounds@,
                    i as int,
                    c,
                    rows as int,
                ),
    {
        let it = bounds[i];
        if it.x1 > it.x0 && it.y1 > it.y0 {
            assert(!bounds@[i as int].is_void());
            let first: usize = (it.y0 / rows as u32) as usize;
            let last: usize = ((it.y1 - 1) / rows as u32) as usize;
            proof {
                let (a, b, r) = (it.y0 as int, it.y1 - 1, rows as int);
                assert(a / r <= b / r) by (nonlinear_arith)
                    requires
                        a <= b,
                        r >= 1,
                ;
            }
            let mut c: usize = first;
            while c <= last
                invariant
                    first <= c <= last + 1,
                    last < bands,
                    i < bounds@.len() <= u32::MAX,
                    it == bounds@[i as int],
                    !it.is_void(),
                    first == it.y0 as int / rows as int,
                    last == (it.y1 - 1) / rows as int,
                    buckets@.len() == bands,
                    forall|d: int|
                        0 <= d < bands ==> (#[trigger] buckets@[d])@ == bucket(
                            bounds@,
                            if first <= d < c {
                                i + 1
                            } else {
                                i as int
                            },
                            d,
                            rows as int,
                        ),
                decreases last + 1 - c,
            {
                buckets[c].push(i as u32);
                c += 1;
            }
        }
    }
    buckets
}

/// The block that shows at a pixel: the last of the first `n` that covers it.
pub open spec fn owner(
    bounds: Seq<Bounds>,
    nodes: Seq<NodeId>,
    n: int,
    x: int,
    y: int,
) -> NodeId
    decreases n,
{
    if n <= 0 {
        NO_NODE
    } else if bounds[n - 1].covers(x, y) {
        nodes[n - 1]
    } else {
        owner(bounds, nodes, n - 1, x, y)
    }
}

/// The block that shows at a pixel, among those a bucket lists.
pub open spec fn owner_in(
    bounds: Seq<Bounds>,
    nodes: Seq<NodeId>,
    list: Seq<u32>,
    n: int,
    x: int,
    y: int,
) -> NodeId
    decreases n,
{
    if n <= 0 {
        NO_NODE
    } else if bounds[list[n - 1] as int].covers(x, y) {
        nodes[list[n - 1] as int]
    } else {
        owner_in(bounds, nodes, list, n - 1, x, y)
    }
}

/// A band's bucket leaves out nothing that shows in the band.
proof fn lemma_bucket_suffices(
    bounds: Seq<Bounds>,
    nodes: Seq<NodeId>,
    n: int,
    band: int,
    rows: int,
    x: int,
    y: int,
)
    requires
        0 <= n <= bounds.len() <= u32::MAX,
        1 <= rows,
        band * rows <= y < band * rows + rows,
        0 <= band,
    ensures
        ({
            let list = bucket(bounds, n, band, rows);
            &&& owner_in(bounds, nodes, list, list.len() as int, x, y) == owner(
                bounds,
                nodes,
                n,
                x,
                y,
            )
            &&& forall|k: int| 0 <= k < list.len() ==> (#[trigger] list[k]) < n
        }),
    decreases n,
{
    if n > 0 {
        lemma_bucket_suffices(bounds, nodes, n - 1, band, rows, x, y);
        let less = bucket(bounds, n - 1, band, rows);
        let list = bucket(bounds, n, band, rows);
        let b = bounds[n - 1];
        if touches(b, band, rows) {
            assert(list.drop_last() == less);
            lemma_owner_in_prefix(bounds, nodes, list, less, less.len() as int, x, y);
        } else if b.covers(x, y) {
            let (lo, hi) = (b.y0 as int, b.y1 - 1);
            assert(lo / rows <= band && band <= hi / rows) by (nonlinear_arith)
                requires
                    lo <= y,
                    y <= hi,
                    1 <= rows,
                    band * rows <= y,
                    y < band * rows + rows,
            ;
        }
    }
}

proof fn lemma_owner_in_prefix(
    bounds: Seq<Bounds>,
    nodes: Seq<NodeId>,
    a: Seq<u32>,
    b: Seq<u32>,
    n: int,
    x: int,
    y: int,
)
    requires
        n <= a.len(),
        n <= b.len(),
        forall|k: int| 0 <= k < n ==> a[k] == b[k],
    ensures
        owner_in(bounds, nodes, a, n, x, y) == owner_in(bounds, nodes, b, n, x, y),
    decreases n,
{
    if n > 0 {
        lemma_owner_in_prefix(bounds, nodes, a, b, n - 1, x, y);
    }
}

/// The rows of a block that lie in a band: `start..end`, both within the image.
pub fn clip_to_band(b: &Bounds, y0: usize, rows: usize) -> (clip: (usize, usize))
    requires
        y0 + rows <= usize::MAX,
    ensures
        clip.0 == if b.y0 > y0 {
            b.y0 as int
        } else {
            y0 as int
        },
        clip.1 == if b.y1 < y0 + rows {
            b.y1 as int
        } else {
            y0 + rows
        },
{
    let start: usize = if b.y0 as usize > y0 {
        b.y0 as usize
    } else {
        y0
    };
    let end: usize = if (b.y1 as usize) < y0 + rows {
        b.y1 as usize
    } else {
        y0 + rows
    };
    (start, end)
}

/// What the pixels of a band that starts at row `y0` show once the first `n`
/// blocks of its bucket have been painted.
pub open spec fn band_shows(
    ids: Seq<NodeId>,
    bounds: Seq<Bounds>,
    nodes: Seq<NodeId>,
    list: Seq<u32>,
    n: int,
    width: int,
    y0: int,
) -> bool {
    forall|p: int|
        0 <= p < ids.len() ==> #[trigger] ids[p] == owner_in(
            bounds,
            nodes,
            list,
            n,
            p % width,
            y0 + p / width,
        )
}

/// A pixel of a row, by row and column.
proof fn lemma_row_and_column(p: int, row: int, width: int)
    requires
        0 < width,
        0 <= p,
        0 <= row,
    ensures
        row * width <= p < row * width + width <==> p / width == row,
        p / width == row ==> p % width == p - row * width,
        0 <= p % width < width,
        p / width < row <==> p < row * width,
{
    lemma_fundamental_div_mod(p, width);
    assert(width * (p / width) == (p / width) * width) by (nonlinear_arith);
    if row * width <= p < row * width + width {
        lemma_fundamental_div_mod_converse(p, width, row, p - row * width);
    }
    if p / width < row {
        assert((p / width) * width + width <= row * width) by (nonlinear_arith)
            requires
                p / width + 1 <= row,
                0 < width,
        ;
    } else {
        assert(row * width <= (p / width) * width) by (nonlinear_arith)
            requires
                row <= p / width,
                0 < width,
        ;
    }
}

/// Paints pixels `from..to`.
fn paint_run(ids: &mut [NodeId], from: usize, to: usize, node: NodeId)
    requires
        from <= to <= old(ids)@.len(),
    ensures
        final(ids)@.len() == old(ids)@.len(),
        forall|p: int|
            0 <= p < old(ids)@.len() ==> #[trigger] final(ids)@[p] == if from <= p < to {
                node
            } else {
                old(ids)@[p]
            },
{
    let mut at: usize = from;
    while at < to
        invariant
            from <= at <= to <= ids@.len(),
            ids@.len() == old(ids)@.len(),
            forall|p: int|
                0 <= p < ids@.len() ==> #[trigger] ids@[p] == if from <= p < at {
                    node
                } else {
                    old(ids)@[p]
                },
        decreases to - at,
    {
        ids[at] = node;
        at += 1;
    }
}

/// Paints one block into a band that starts at row `y0`.
fn paint_block(ids: &mut [NodeId], width: usize, y0: usize, b: &Bounds, node: NodeId)
    requires
        0 < width,
        b.x1 <= width,
        y0 + old(ids)@.len() <= usize::MAX,
    ensures
        final(ids)@.len() == old(ids)@.len(),
        forall|p: int|
            0 <= p < (old(ids)@.len() / width as nat) * width ==> #[trigger] final(ids)@[p]
                == if b.covers(p % width as int, y0 + p / width as int) {
                node
            } else {
                old(ids)@[p]
            },
{
    let ghost before = ids@;
    let rows: usize = ids.len() / width;
    proof {
        assert(ids@.len() == ids.len());
        assert(rows <= ids@.len() && rows * width <= ids@.len()) by (nonlinear_arith)
            requires
                rows == ids@.len() / width as nat,
                0 < width,
        ;
    }
    let (start, end) = clip_to_band(b, y0, rows);
    if b.x1 <= b.x0 || end <= start {
        proof {
            assert forall|p: int| 0 <= p < rows * width implies #[trigger] ids@[p] == if b.covers(
                p % width as int,
                y0 + p / width as int,
            ) {
                node
            } else {
                before[p]
            } by {
                lemma_row_and_column(p, rows as int, width as int);
            }
        }
        return;
    }
    let mut y: usize = start;
    while y < end
        invariant
            0 < width,
            rows * width <= ids@.len(),
            ids@.len() == before.len(),
            b.x0 < b.x1 <= width,
            y0 <= start <= y <= end <= y0 + rows,
            start == if b.y0 > y0 {
                b.y0 as int
            } else {
                y0 as int
            },
            end == if b.y1 < y0 + rows {
                b.y1 as int
            } else {
                y0 + rows
            },
            y0 + ids@.len() <= usize::MAX,
            forall|p: int|
                0 <= p < rows * width ==> #[trigger] ids@[p] == if b.covers(
                    p % width as int,
                    y0 + p / width as int,
                ) && y > y0 + p / width as int {
                    node
                } else {
                    before[p]
                },
        decreases end - y,
    {
        let ghost row = (y - y0) as int;
        proof {
            assert(row * width + width <= rows * width) by (nonlinear_arith)
                requires
                    row + 1 <= rows,
                    0 < width,
            ;
            assert(0 <= row * width) by (nonlinear_arith)
                requires
                    0 <= row,
                    0 < width,
            ;
        }
        let base: usize = (y - y0) * width;
        let ghost was = ids@;
        paint_run(ids, base + b.x0 as usize, base + b.x1 as usize, node);
        proof {
            assert forall|p: int| 0 <= p < rows * width implies #[trigger] ids@[p] == if b.covers(
                p % width as int,
                y0 + p / width as int,
            ) && y + 1 > y0 + p / width as int {
                node
            } else {
                before[p]
            } by {
                lemma_row_and_column(p, row, width as int);
                assert(was[p] == if b.covers(p % width as int, y0 + p / width as int) && y > y0 + p
                    / width as int {
                    node
                } else {
                    before[p]
                });
            }
        }
        y += 1;
    }
    proof {
        assert forall|p: int| 0 <= p < rows * width implies #[trigger] ids@[p] == if b.covers(
            p % width as int,
            y0 + p / width as int,
        ) {
            node
        } else {
            before[p]
        } by {
            lemma_row_and_column(p, rows as int, width as int);
        }
    }
}

/// Paints the blocks a bucket lists into band number `band` of `rows` rows, the
/// later over the earlier.
fn paint_band(
    ids: &mut [NodeId],
    width: usize,
    rows: usize,
    band: usize,
    list: &Vec<u32>,
    bounds: &Vec<Bounds>,
    nodes: &Vec<NodeId>,
)
    requires
        0 < width,
        old(ids)@.len() % width as nat == 0,
        band * rows + old(ids)@.len() <= usize::MAX,
        nodes@.len() == bounds@.len(),
        forall|k: int| 0 <= k < list@.len() ==> (#[trigger] list@[k]) < bounds@.len(),
        forall|i: int| 0 <= i < bounds@.len() ==> (#[trigger] bounds@[i]).x1 <= width,
        forall|p: int| 0 <= p < old(ids)@.len() ==> #[trigger] old(ids)@[p] == NO_NODE,
    ensures
        final(ids)@.len() == old(ids)@.len(),
        band_shows(
            final(ids)@,
            bounds@,
            nodes@,
            list@,
            list@.len() as int,
            width as int,
            band * rows,
        ),
{
    let y0: usize = band * rows;
    for k in 0..list.len()
        invariant
            0 < width,
            y0 == band * rows,
            ids@.len() == old(ids)@.len(),
            ids@.len() % width as nat == 0,
            y0 + ids@.len() <= usize::MAX,
            nodes@.len() == bounds@.len(),
            forall|k: int| 0 <= k < list@.len() ==> (#[trigger] list@[k]) < bounds@.len(),
            forall|i: int| 0 <= i < bounds@.len() ==> (#[trigger] bounds@[i]).x1 <= width,
            band_shows(ids@, bounds@, nodes@, list@, k as int, width as int, y0 as int),
    {
        let ghost was = ids@;
        let i: usize = list[k] as usize;
        assert(list@[k as int] < bounds@.len());
        proof {
            lemma_fundamental_div_mod(ids@.len() as int, width as int);
            let (n, w) = (ids@.len() as int, width as int);
            assert(w * (n / w) == (n / w) * w) by (nonlinear_arith);
        }
        paint_block(ids, width, y0, &bounds[i], nodes[i]);
        assert forall|p: int| 0 <= p < ids@.len() implies #[trigger] ids@[p] == owner_in(
            bounds@,
            nodes@,
            list@,
            k + 1,
            p % width as int,
            y0 + p / width as int,
        ) by {
            assert(was[p] == owner_in(
                bounds@,
                nodes@,
                list@,
                k as int,
                p % width as int,
                y0 + p / width as int,
            ));
        }
    }
}

/// What every pixel shows, band by band: the last block of its band's bucket
/// that covers it.
pub open spec fn bands_show(
    ids: Seq<NodeId>,
    bounds: Seq<Bounds>,
    nodes: Seq<NodeId>,
    buckets: Seq<Vec<u32>>,
    width: int,
    rows: int,
) -> bool {
    forall|p: int|
        0 <= p < ids.len() ==> #[trigger] ids[p] == owner_in(
            bounds,
            nodes,
            buckets[p / width / rows]@,
            buckets[p / width / rows]@.len() as int,
            p % width,
            p / width,
        )
}

/// Paints all bands.
///
/// Calls rayon's `par_chunks_mut`, which cuts the buffer into stretches of
/// `rows * width` pixels (the last may be shorter), `zip` with the buckets,
/// `enumerate` and `for_each`, which runs [`paint_band`] once on each stretch
/// with its number and its bucket. The contract says that every pixel comes out
/// as its band leaves it.
#[verifier::external_body]
fn paint_bands(
    ids: &mut Vec<NodeId>,
    width: usize,
    rows: usize,
    buckets: &Vec<Vec<u32>>,
    bounds: &Vec<Bounds>,
    nodes: &Vec<NodeId>,
)
    requires
        0 < width,
        0 < rows,
        rows * width <= usize::MAX,
        2 * old(ids)@.len() <= usize::MAX,
        old(ids)@.len() % width as nat == 0,
        old(ids)@.len() <= buckets@.len() * (rows * width),
        forall|p: int| 0 <= p < old(ids)@.len() ==> #[trigger] old(ids)@[p] == NO_NODE,
        nodes@.len() == bounds@.len(),
        forall|b: int, k: int|
            0 <= b < buckets@.len() && 0 <= k < buckets@[b]@.len() ==> (#[trigger] buckets@[b]@[k])
                < bounds@.len(),
        forall|i: int| 0 <= i < bounds@.len() ==> (#[trigger] bounds@[i]).x1 <= width,
    ensures
        final(ids)@.len() == old(ids)@.len(),
        bands_show(final(ids)@, bounds@, nodes@, buckets@, width as int, rows as int),
{
    ids.par_chunks_mut(rows * width).zip(buckets.par_iter()).enumerate().for_each(
        |(band, (ids, list))| paint_band(ids, width, rows, band, list, bounds, nodes),
    );
}

/// The id buffer of an image: every pixel names the last block that covers it,
/// or no node where none does.
pub fn paint_ids(bounds: &Vec<Bounds>, nodes: &Vec<NodeId>, width: usize, height: usize) -> (ids:
    Vec<NodeId>)
    requires
        0 < width,
        0 < height <= u32::MAX,
        2 * (width * height) <= usize::MAX,
        24 * width <= usize::MAX,
        nodes@.len() == bounds@.len(),
        bounds@.len() <= u32::MAX,
        forall|i: int|
            0 <= i < bounds@.len() ==> (#[trigger] bounds@[i]).inside(width as int, height as int),
    ensures
        ids@.len() == width * height,
        forall|p: int|
            0 <= p < ids@.len() ==> #[trigger] ids@[p] == owner(
                bounds@,
                nodes@,
                bounds@.len() as int,
                p % width as int,
                p / width as int,
            ),
{
    let rows: usize = rows_per_band(height);
    let bands: usize = band_count(height, rows);
    let ghost w = width as int;
    let ghost h = height as int;
    let ghost r = rows as int;
    proof {
        assert forall|y: int| 0 <= y < h implies bands > #[trigger] (y / r) by {
            assert(y / r <= (h - 1) / r) by (nonlinear_arith)
                requires
                    y <= h - 1,
                    r >= 1,
            ;
            lemma_last_band(h, r);
        }
        assert(r * w <= 24 * w) by (nonlinear_arith)
            requires
                1 <= r <= 24,
                0 < w,
        ;
        assert(w * h >= h) by (nonlinear_arith)
            requires
                w >= 1,
                h >= 1,
        ;
    }
    let buckets = fill_buckets(bounds, rows, bands);
    let mut ids: Vec<NodeId> = vec![NO_NODE; width * height];
    proof {
        assert((w * h) % w == 0) by {
            vstd::arithmetic::div_mod::lemma_mod_multiples_basic(h, w);
            assert(w * h == h * w) by (nonlinear_arith);
        }
        lemma_fundamental_div_mod(h, r);
        assert(h <= bands * r) by (nonlinear_arith)
            requires
                h == r * (h / r) + h % r,
                0 <= h % r < r,
                bands == if h % r == 0 {
                    h / r
                } else {
                    h / r + 1
                },
        ;
        assert(w * h <= bands * (r * w)) by (nonlinear_arith)
            requires
                h <= bands * r,
                w >= 0,
        ;
        assert forall|b: int, k: int|
            0 <= b < buckets@.len() && 0 <= k < buckets@[b]@.len() implies (
        #[trigger] buckets@[b]@[k]) < bounds@.len() by {
            lemma_bucket_suffices(
                bounds@,
                nodes@,
                bounds@.len() as int,
                b,
                r,
                0,
                b * r,
            );
        }
    }
    paint_bands(&mut ids, width, rows, &buckets, bounds, nodes);
    proof {
        assert forall|p: int| 0 <= p < ids@.len() implies #[trigger] ids@[p] == owner(
            bounds@,
            nodes@,
            bounds@.len() as int,
            p % w,
            p / w,
        ) by {
            assert(w * h == h * w) by (nonlinear_arith);
            lemma_row_and_column(p, h, w);
            let y = p / w;
            lemma_fundamental_div_mod(y, r);
            assert(r * (y / r) == (y / r) * r) by (nonlinear_arith);
            assert(y / r < bands);
            lemma_bucket_suffices(bounds@, nodes@, bounds@.len() as int, y / r, r, p % w, y);
        }
    }
    ids
}

/// The last row lies in the last band.
proof fn lemma_last_band(height: int, rows: int)
    requires
        height >= 1,
        rows >= 1,
    ensures
        (height - 1) / rows < if height % rows == 0 {
            height / rows
        } else {
            height / rows + 1
        },
{
    lemma_fundamental_div_mod(height, rows);
    lemma_fundamental_div_mod(height - 1, rows);
    let q = height / rows;
    let s = (height - 1) / rows;
    assert(s <= q) by (nonlinear_arith)
        requires
            s == (height - 1) / rows,
            q == height / rows,
            rows >= 1,
    ;
    if height % rows == 0 && s == q {
        assert(false) by (nonlinear_arith)
            requires
                height == rows * q,
                height - 1 == rows * q + (height - 1) % rows,
                (height - 1) % rows >= 0,
        ;
    }
}

/// Where blocks do not overlap, each pixel names the one block that covers it.
pub proof fn lemma_disjoint_blocks(
    bounds: Seq<Bounds>,
    nodes: Seq<NodeId>,
    n: int,
    i: int,
    x: int,
    y: int,
)
    requires
        0 <= i < n <= bounds.len(),
        bounds[i].covers(x, y),
        forall|j: int| 0 <= j < n && j != i ==> !(#[trigger] bounds[j]).covers(x, y),
    ensures
        owner(bounds, nodes, n, x, y) == nodes[i],
    decreases n,
{
    if i < n - 1 {
        lemma_disjoint_blocks(bounds, nodes, n - 1, i, x, y);
    }
}

/// The background shows exactly where no block is.
pub proof fn lemma_background(bounds: Seq<Bounds>, nodes: Seq<NodeId>, n: int, x: int, y: int)
    requires
        0 <= n <= bounds.len(),
        n <= nodes.len(),
        forall|j: int| 0 <= j < n ==> #[trigger] nodes[j] != NO_NODE,
    ensures
        owner(bounds, nodes, n, x, y) == NO_NODE <==> forall|j: int|
            0 <= j < n ==> !(#[trigger] bounds[j]).covers(x, y),
    decreases n,
{
    if n > 0 {
        lemma_background(bounds, nodes, n - 1, x, y);
        assert(nodes[n - 1] != NO_NODE);
    }
}

/// The colour a block starts from.
pub open spec fn color_of(node: Node, kinds: Seq<Kind>) -> Seq<u8> {
    if has_flag(node.flags, flags::UNREADABLE) {
        seq![92u8, 64u8, 64u8]
    } else if has_flag(node.flags, flags::OTHER_FS) {
        seq![70u8, 78u8, 92u8]
    } else {
        kinds[node.kind as int].color@
    }
}

/// Whether a block is greyed back.
pub open spec fn dims(node: Node, highlight_kind: Option<u16>) -> bool {
    highlight_kind is Some && highlight_kind->0 != node.kind
}

/// The colour a block starts from, before shading. Unreadable and skipped
/// entries are structural information, not a file kind, so they get their own
/// flat greys.
pub fn base_color(node: &Node, kinds: &KindTable) -> (color: [u8; 3])
    requires
        node.kind < kinds@.kinds.len(),
    ensures
        color@ == color_of(*node, kinds@.kinds),
{
    if node.has(flags::UNREADABLE) {
        let c: [u8; 3] = [92, 64, 64];
        assert(c@ == seq![92u8, 64u8, 64u8]);
        c
    } else if node.has(flags::OTHER_FS) {
        let c: [u8; 3] = [70, 78, 92];
        assert(c@ == seq![70u8, 78u8, 92u8]);
        c
    } else {
        kinds.kind(node.kind).color
    }
}

/// Whether a block is greyed back: another kind is highlighted.
pub fn is_dimmed(node: &Node, highlight_kind: Option<u16>) -> (dim: bool)
    ensures
        dim == dims(*node, highlight_kind),
{
    match highlight_kind {
        Some(k) => k != node.kind,
        None => false,
    }
}

} // verus!
