//! What the text breakdown says.

use vstd::prelude::*;

use crate::fmt::{bytes_text, count_text, files_text, percent_text};
use crate::kinds::{Kind, KindTable};
use crate::report::{
    blanks, file_lines, headline, kind_line, kind_lines, left, lines, print_report, remarks,
    report_lines, right, troubles,
};
use crate::summary::largest::{best, ids_of};
use crate::summary::listed::{lemma_listed_totals, listed_files, listed_size};
use crate::summary::subtree::{lemma_under_root, visiting_order};
use crate::summary::totals::{kinds_in_range, largest_first, lists_kinds, KindTotal};
use crate::sums::sum;
use crate::text::lossy_text;
use crate::tree::arena::{shape_wf, sizes_wf};
use crate::tree::{Node, NodeId, ScanStats, Tree, TreeView};

verus! {

proof fn lemma_blanks(n: int)
    ensures
        blanks(n).len() == if n <= 0 {
            0
        } else {
            n
        },
        forall|i: int| 0 <= i < blanks(n).len() ==> #[trigger] blanks(n)[i] == ' ',
    decreases n,
{
    if n > 0 {
        lemma_blanks(n - 1);
    }
}

/// A column is as wide as it is asked to be, or as its text: the text stands at
/// one end of it, whole, and the rest is blank.
pub proof fn lemma_columns(text: Seq<char>, width: int)
    requires
        0 <= width,
    ensures
        ({
            let w = if text.len() < width {
                width
            } else {
                text.len() as int
            };
            let l = left(text, width);
            let r = right(text, width);
            &&& l.len() == w
            &&& r.len() == w
            &&& l.take(text.len() as int) == text
            &&& r.skip(w - text.len()) == text
            &&& forall|i: int| text.len() <= i < w ==> #[trigger] l[i] == ' '
            &&& forall|i: int| 0 <= i < w - text.len() ==> #[trigger] r[i] == ' '
        }),
{
    lemma_blanks(width - text.len());
    assert(left(text, width).take(text.len() as int) == text);
    let w = if text.len() < width {
        width
    } else {
        text.len() as int
    };
    assert(right(text, width).skip(w - text.len()) == text);
}

/// In a report by blocks on disk the line of a kind shows what its files take up
/// there, and their share of it.
pub proof fn lemma_kind_on_disk(kinds: Seq<Kind>, t: KindTotal, total: u64)
    ensures
        kind_line(kinds, t, true, total) == "  "@ + left(kinds[t.kind as int].name@, 16) + " "@
            + right(bytes_text(t.physical), 10) + " "@ + right(percent_text(t.physical, total), 5)
            + "  "@ + right(files_text(t.files), 14),
{
}

/// In a report of apparent sizes it shows how long its files are, and their
/// share of that.
pub proof fn lemma_kind_apparent(kinds: Seq<Kind>, t: KindTotal, total: u64)
    ensures
        kind_line(kinds, t, false, total) == "  "@ + left(kinds[t.kind as int].name@, 16) + " "@
            + right(bytes_text(t.logical), 10) + " "@ + right(percent_text(t.logical, total), 5)
            + "  "@ + right(files_text(t.files), 14),
{
}

/// The lines of a kind by blocks and by length differ in nothing but the sizes:
/// where these agree, so do the lines.
pub proof fn lemma_metrics_differ_in_size_alone(kinds: Seq<Kind>, t: KindTotal, total: u64)
    requires
        t.physical == t.logical,
    ensures
        kind_line(kinds, t, true, total) == kind_line(kinds, t, false, total),
{
}

/// The sizes behind the lines of the kinds add up to the total in the headline,
/// and the files behind them to the files under the root, in either metric.
pub proof fn lemma_lines_add_up(
    nodes: Seq<Node>,
    kind_count: int,
    totals: Seq<KindTotal>,
)
    requires
        shape_wf(nodes),
        sizes_wf(nodes),
        0 <= kind_count,
        kinds_in_range(nodes, 0, kind_count),
        lists_kinds(nodes, 0, kind_count, totals),
    ensures
        sum(0, totals.len() as int, |i: int| totals[i].physical as int) == nodes[0].physical,
        sum(0, totals.len() as int, |i: int| totals[i].logical as int) == nodes[0].logical,
        sum(0, totals.len() as int, |i: int| totals[i].files as int) == sum(
            0,
            nodes.len() as int,
            |i: int|
                if nodes[i].flags & 1 == 0 {
                    1int
                } else {
                    0
                },
        ),
{
    lemma_listed_totals(nodes, 0, kind_count, totals, true);
    lemma_listed_totals(nodes, 0, kind_count, totals, false);
    lemma_added_up(totals);
    let each = crate::summary::listed::each_file(nodes);
    let g = |i: int|
        if nodes[i].flags & 1 == 0 {
            1int
        } else {
            0
        };
    let f = crate::summary::subtree::only_under(nodes, 0, each);
    assert forall|i: int| 0 <= i < nodes.len() implies #[trigger] f(i) == g(i) by {
        lemma_under_root(nodes, i);
    }
    crate::sums::lemma_sum_same(0, nodes.len() as int, f, g);
}

/// What the sizes and files of a list of totals add up to.
pub proof fn lemma_added_up(totals: Seq<KindTotal>)
    ensures
        listed_size(totals, true) == sum(
            0,
            totals.len() as int,
            |i: int| totals[i].physical as int,
        ),
        listed_size(totals, false) == sum(
            0,
            totals.len() as int,
            |i: int| totals[i].logical as int,
        ),
        listed_files(totals) == sum(0, totals.len() as int, |i: int| totals[i].files as int),
    decreases totals.len(),
{
    if totals.len() > 0 {
        let less = totals.drop_last();
        let n = less.len() as int;
        lemma_added_up(less);
        crate::sums::lemma_sum_same(
            0,
            n,
            |i: int| totals[i].physical as int,
            |i: int| less[i].physical as int,
        );
        crate::sums::lemma_sum_same(
            0,
            n,
            |i: int| totals[i].logical as int,
            |i: int| less[i].logical as int,
        );
        crate::sums::lemma_sum_same(
            0,
            n,
            |i: int| totals[i].files as int,
            |i: int| less[i].files as int,
        );
    }
}

/// The total a report is headed by: what the whole tree weighs in its metric.
pub open spec fn headed_by(tree: TreeView, physical: bool) -> u64 {
    if physical {
        tree.nodes[0].physical
    } else {
        tree.nodes[0].logical
    }
}

/// The lines of a report, one by one: the root, the headline, the remarks, a
/// line for each kind in the order given, a line for each of the largest files
/// in the order given if any were asked for, and the errors.
pub proof fn lemma_report_line_by_line(
    tree: TreeView,
    kinds: Seq<Kind>,
    totals: Seq<KindTotal>,
    largest: Seq<NodeId>,
    physical: bool,
    top: int,
    secs: Seq<char>,
)
    ensures
        ({
            let out = report_lines(tree, kinds, totals, largest, physical, top, secs);
            let total = headed_by(tree, physical);
            let said = remarks(tree.stats).len() as int;
            let first = said + 4;
            let after = first + totals.len();
            let end = if top > 0 {
                after + 2 + largest.len()
            } else {
                after
            };
            &&& out[0] == lossy_text(tree.root_path)
            &&& out[1] == "  "@ + bytes_text(total) + "  \u{b7}  "@ + count_text(
                tree.nodes.len() as u64,
            ) + " entries ("@ + count_text(tree.stats.files) + " files, "@ + count_text(
                tree.stats.dirs,
            ) + " folders)  \u{b7}  "@ + secs + "s"@
            &&& forall|i: int|
                0 <= i < said ==> out[2 + i] == #[trigger] remarks(tree.stats)[i]
            &&& out[said + 2].len() == 0
            &&& out[said + 3] == "BY KIND"@
            &&& forall|i: int|
                0 <= i < totals.len() ==> out[first + i] == kind_line(
                    kinds,
                    #[trigger] totals[i],
                    physical,
                    total,
                )
            &&& top > 0 ==> out[after].len() == 0 && out[after + 1] == "LARGEST FILES"@
            &&& top > 0 ==> forall|j: int|
                0 <= j < largest.len() ==> out[after + 2 + j] == "  "@ + right(
                    bytes_text(
                        if physical {
                            tree.nodes[#[trigger] largest[j] as int].physical
                        } else {
                            tree.nodes[largest[j] as int].logical
                        },
                    ),
                    10,
                ) + "  "@ + lossy_text(tree.path(largest[j] as int))
            &&& out.len() == end + troubles(tree.stats).len()
            &&& forall|i: int|
                0 <= i < troubles(tree.stats).len() ==> out[end + i] == #[trigger] troubles(
                    tree.stats,
                )[i]
        }),
{
    let out = report_lines(tree, kinds, totals, largest, physical, top, secs);
    let total = headed_by(tree, physical);
    let said = remarks(tree.stats).len() as int;
    let first = said + 4;
    let after = first + totals.len();
    assert(out[1] == headline(
        total,
        tree.nodes.len() as u64,
        tree.stats.files,
        tree.stats.dirs,
        secs,
    ));
    assert forall|i: int| 0 <= i < totals.len() implies out[first + i] == kind_line(
        kinds,
        #[trigger] totals[i],
        physical,
        total,
    ) by {
        assert(out[first + i] == kind_lines(kinds, totals, physical, total)[i]);
    }
    if top > 0 {
        assert forall|j: int| 0 <= j < largest.len() implies out[after + 2 + j] == "  "@ + right(
            bytes_text(
                if physical {
                    tree.nodes[#[trigger] largest[j] as int].physical
                } else {
                    tree.nodes[largest[j] as int].logical
                },
            ),
            10,
        ) + "  "@ + lossy_text(tree.path(largest[j] as int)) by {
            assert(out[after + 2 + j] == file_lines(tree, largest, physical)[j]);
        }
    }
}

/// What is remarked: how full the volume is where that is known, how many
/// further links were met if any, and that the fallback was used if it was.
pub proof fn lemma_remarks(stats: ScanStats)
    ensures
        ({
            let volume = stats.free_space is Some && stats.volume_total is Some;
            let links = stats.hardlink_dups > 0;
            let a = if volume {
                1int
            } else {
                0
            };
            let b = if links {
                a + 1
            } else {
                a
            };
            &&& remarks(stats).len() == if stats.used_fallback {
                b + 1
            } else {
                b
            }
            &&& volume ==> remarks(stats)[0] == "  volume: "@ + bytes_text(stats.free_space->0)
                + " of "@ + bytes_text(stats.volume_total->0) + " free"@
            &&& links ==> remarks(stats)[a] == "  "@ + count_text(stats.hardlink_dups)
                + " extra hard links not counted"@
            &&& stats.used_fallback ==> remarks(stats)[b]
                == "  fell back to the portable walker on at least one directory"@
        }),
{
}

/// What is said of errors: nothing if there were none; otherwise how many, the
/// first five that were kept, a mark if there were more than five, and what
/// helps.
pub proof fn lemma_troubles(stats: ScanStats)
    ensures
        ({
            let t = troubles(stats);
            let kept = stats.error_samples@.len();
            let shown = if kept < 5 {
                kept as int
            } else {
                5
            };
            &&& stats.errors == 0 ==> t.len() == 0
            &&& stats.errors > 0 ==> {
                &&& t.len() == shown + if stats.errors > 5 {
                    4int
                } else {
                    3
                }
                &&& t[0].len() == 0
                &&& t[1] == count_text(stats.errors) + " items could not be read:"@
                &&& forall|i: int|
                    0 <= i < shown ==> #[trigger] t[2 + i] == "  "@ + lossy_text(
                        stats.error_samples@[i].0@,
                    ) + ": "@ + stats.error_samples@[i].1@
                &&& stats.errors > 5 ==> t[2 + shown] == "  \u{2026}"@
                &&& t.last()
                    == "Grant Full Disk Access in System Settings > Privacy & Security to include them."@
            }
        }),
{
}

/// A report of a whole tree has a line for each kind that has files: what they
/// take up on disk in a report of that, how long they are in one of that, and
/// the share of the total that heads the report.
pub proof fn lemma_print_report(
    tree: &Tree,
    table: &KindTable,
    physical: bool,
    top: usize,
    secs: &str,
    out: Vec<String>,
)
    requires
        call_ensures(print_report, (tree, table, physical, top, secs), out),
    ensures
        exists|totals: Seq<KindTotal>| #[trigger]
            reports_kinds(tree@, table@.kinds, totals, physical, secs@, lines(out@)),
{
    let totals = choose|totals: Seq<KindTotal>|
        {
            &&& lists_kinds(tree@.nodes, 0, table@.kinds.len() as int, totals)
            &&& largest_first(totals, physical)
            &&& lines(out@) == #[trigger] report_lines(
                tree@,
                table@.kinds,
                totals,
                ids_of(best(tree@.nodes, visiting_order(tree@.nodes, 0), top as int, physical)),
                physical,
                top as int,
                secs@,
            )
        };
    lemma_report_line_by_line(
        tree@,
        table@.kinds,
        totals,
        ids_of(best(tree@.nodes, visiting_order(tree@.nodes, 0), top as int, physical)),
        physical,
        top as int,
        secs@,
    );
    assert(reports_kinds(tree@, table@.kinds, totals, physical, secs@, lines(out@)));
}

/// Whether the lines of a report are headed by the size of the tree in its
/// metric, and have a line for each kind by the totals in that metric.
pub open spec fn reports_kinds(
    tree: TreeView,
    kinds: Seq<Kind>,
    totals: Seq<KindTotal>,
    physical: bool,
    secs: Seq<char>,
    out: Seq<Seq<char>>,
) -> bool {
    let total = headed_by(tree, physical);
    let first = remarks(tree.stats).len() + 4;
    &&& lists_kinds(tree.nodes, 0, kinds.len() as int, totals)
    &&& out.len() >= first + totals.len()
    &&& out[1] == "  "@ + bytes_text(total) + "  \u{b7}  "@ + count_text(tree.nodes.len() as u64)
        + " entries ("@ + count_text(tree.stats.files) + " files, "@ + count_text(tree.stats.dirs)
        + " folders)  \u{b7}  "@ + secs + "s"@
    &&& forall|i: int|
        0 <= i < totals.len() ==> #[trigger] out[first + i] == "  "@ + left(
            kinds[totals[i].kind as int].name@,
            16,
        ) + " "@ + right(
            bytes_text(
                if physical {
                    totals[i].physical
                } else {
                    totals[i].logical
                },
            ),
            10,
        ) + " "@ + right(
            percent_text(
                if physical {
                    totals[i].physical
                } else {
                    totals[i].logical
                },
                total,
            ),
            5,
        ) + "  "@ + right(files_text(totals[i].files), 14)
}

} // verus!
