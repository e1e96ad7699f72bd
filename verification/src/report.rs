//! The breakdown as text, for the terminal.

use vstd::prelude::*;

use crate::fmt::{bytes, bytes_text, count, count_text, files, files_text, percent, percent_text};
use crate::kinds::{Kind, KindTable};
use crate::scan::assemble::kinds_known;
use crate::summary::largest::{best, ids_of};
use crate::summary::subtree::visiting_order;
use crate::summary::totals::{kinds_in_range, largest_first, lists_kinds};
use crate::summary::{kind_totals, largest_files, KindTotal};
use crate::text::{lossy, lossy_text, owned};
use crate::tree::{NodeId, ScanStats, Tree, TreeView, ROOT};

verus! {

/// `n` spaces.
pub open spec fn blanks(n: int) -> Seq<char>
    decreases n,
{
    if n <= 0 {
        Seq::empty()
    } else {
        blanks(n - 1).push(' ')
    }
}

/// `text` with spaces behind it, up to `width` characters.
pub open spec fn left(text: Seq<char>, width: int) -> Seq<char> {
    text + blanks(width - text.len())
}

/// `text` with spaces before it, up to `width` characters.
pub open spec fn right(text: Seq<char>, width: int) -> Seq<char> {
    blanks(width - text.len()) + text
}

fn push_blanks(out: &mut String, width: usize, used: usize)
    ensures
        final(out)@ == old(out)@ + blanks(width - used),
{
    let ghost start = out@;
    let n: usize = if used < width {
        width - used
    } else {
        0
    };
    assert(start + blanks(0) == start);
    for i in 0..n
        invariant
            out@ == start + blanks(i as int),
    {
        out.push(' ');
        assert(start + blanks(i + 1) == (start + blanks(i as int)).push(' '));
    }
    assert(blanks(width - used) == blanks(n as int));
}

fn push_left(out: &mut String, text: &str, width: usize)
    ensures
        final(out)@ == old(out)@ + left(text@, width as int),
{
    let ghost start = out@;
    out.append(text);
    push_blanks(out, width, text.unicode_len());
    assert(out@ == start + left(text@, width as int));
}

fn push_right(out: &mut String, text: &str, width: usize)
    ensures
        final(out)@ == old(out)@ + right(text@, width as int),
{
    let ghost start = out@;
    push_blanks(out, width, text.unicode_len());
    out.append(text);
    assert(out@ == start + right(text@, width as int));
}

/// The lines of a list.
pub open spec fn lines(list: Seq<String>) -> Seq<Seq<char>> {
    list.map(|i: int, line: String| line@)
}

fn push_line(out: &mut Vec<String>, line: String)
    ensures
        lines(final(out)@) == lines(old(out)@).push(line@),
{
    out.push(line);
    assert(lines(out@) == lines(old(out)@).push(line@));
}

/// `line` if `said`.
pub open spec fn line_if(said: bool, line: Seq<char>) -> Seq<Seq<char>> {
    if said {
        seq![line]
    } else {
        Seq::empty()
    }
}

/// The headline: total, entries and time.
pub open spec fn headline(
    total: u64,
    entries: u64,
    file_count: u64,
    dir_count: u64,
    secs: Seq<char>,
) -> Seq<char> {
    "  "@ + bytes_text(total) + "  \u{b7}  "@ + count_text(entries) + " entries ("@ + count_text(
        file_count,
    ) + " files, "@ + count_text(dir_count) + " folders)  \u{b7}  "@ + secs + "s"@
}

fn headline_text(total: u64, entries: u64, file_count: u64, dir_count: u64, secs: &str) -> (line:
    String)
    ensures
        line@ == headline(total, entries, file_count, dir_count, secs@),
{
    let mut line = owned("  ");
    line.append(bytes(total).as_str());
    line.append("  \u{b7}  ");
    line.append(count(entries).as_str());
    line.append(" entries (");
    line.append(count(file_count).as_str());
    line.append(" files, ");
    line.append(count(dir_count).as_str());
    line.append(" folders)  \u{b7}  ");
    line.append(secs);
    line.append("s");
    line
}

/// What is said of the volume, the extra links and the way it was read.
pub open spec fn remarks(stats: ScanStats) -> Seq<Seq<char>> {
    (match (stats.free_space, stats.volume_total) {
        (Some(free), Some(volume)) => seq![
            "  volume: "@ + bytes_text(free) + " of "@ + bytes_text(volume) + " free"@,
        ],
        _ => Seq::empty(),
    }) + line_if(
        stats.hardlink_dups > 0,
        "  "@ + count_text(stats.hardlink_dups) + " extra hard links not counted"@,
    ) + line_if(
        stats.used_fallback,
        "  fell back to the portable walker on at least one directory"@,
    )
}

fn push_remarks(out: &mut Vec<String>, stats: &ScanStats)
    ensures
        lines(final(out)@) == lines(old(out)@) + remarks(*stats),
{
    let ghost start = lines(out@);
    if let (Some(free), Some(volume)) = (stats.free_space, stats.volume_total) {
        let mut line = owned("  volume: ");
        line.append(bytes(free).as_str());
        line.append(" of ");
        line.append(bytes(volume).as_str());
        line.append(" free");
        push_line(out, line);
    }
    if stats.hardlink_dups > 0 {
        let mut line = owned("  ");
        line.append(count(stats.hardlink_dups).as_str());
        line.append(" extra hard links not counted");
        push_line(out, line);
    }
    if stats.used_fallback {
        push_line(out, owned("  fell back to the portable walker on at least one directory"));
    }
    assert(lines(out@) == start + remarks(*stats));
}

/// The line of a kind.
pub open spec fn kind_line(
    kinds: Seq<Kind>,
    t: KindTotal,
    physical: bool,
    total: u64,
) -> Seq<char> {
    let size = t.spec_size(physical);
    "  "@ + left(kinds[t.kind as int].name@, 16) + " "@ + right(bytes_text(size), 10) + " "@ + right(
        percent_text(size, total),
        5,
    ) + "  "@ + right(files_text(t.files), 14)
}

fn kind_text(kinds: &KindTable, t: &KindTotal, physical: bool, total: u64) -> (line: String)
    requires
        t.kind < kinds@.kinds.len(),
    ensures
        line@ == kind_line(kinds@.kinds, *t, physical, total),
{
    let size: u64 = if physical {
        t.physical
    } else {
        t.logical
    };
    let mut line = owned("  ");
    push_left(&mut line, kinds.kind(t.kind).name.as_str(), 16);
    line.append(" ");
    push_right(&mut line, bytes(size).as_str(), 10);
    line.append(" ");
    push_right(&mut line, percent(size, total).as_str(), 5);
    line.append("  ");
    push_right(&mut line, files(t.files).as_str(), 14);
    line
}

/// The line of a file among the largest.
pub open spec fn file_line(tree: TreeView, id: NodeId, physical: bool) -> Seq<char> {
    "  "@ + right(bytes_text(tree.nodes[id as int].spec_size(physical)), 10) + "  "@ + lossy_text(
        tree.path(id as int),
    )
}

fn file_text(tree: &Tree, id: NodeId, physical: bool) -> (line: String)
    requires
        tree@.wf(),
        tree@.has(id as int),
    ensures
        line@ == file_line(tree@, id, physical),
{
    let mut line = owned("  ");
    push_right(&mut line, bytes(tree.size(id, physical)).as_str(), 10);
    line.append("  ");
    line.append(tree.path_text(id).as_str());
    line
}

/// How many errors are shown in full.
pub const SHOWN_ERRORS: usize = 5;

/// The line of an error.
pub open spec fn error_line(sample: (Vec<u8>, String)) -> Seq<char> {
    "  "@ + lossy_text(sample.0@) + ": "@ + sample.1@
}

/// The lines of the errors that are shown in full.
pub open spec fn error_lines(samples: Seq<(Vec<u8>, String)>) -> Seq<Seq<char>> {
    Seq::new(
        if samples.len() < SHOWN_ERRORS {
            samples.len()
        } else {
            SHOWN_ERRORS as nat
        },
        |i: int| error_line(samples[i]),
    )
}

/// What is said of what could not be read.
pub open spec fn troubles(stats: ScanStats) -> Seq<Seq<char>> {
    if stats.errors > 0 {
        seq![Seq::empty(), count_text(stats.errors) + " items could not be read:"@] + error_lines(
            stats.error_samples@,
        ) + line_if(stats.errors > SHOWN_ERRORS, "  \u{2026}"@)
            + seq![
            "Grant Full Disk Access in System Settings > Privacy & Security to include them."@,
        ]
    } else {
        Seq::empty()
    }
}

fn push_troubles(out: &mut Vec<String>, stats: &ScanStats)
    ensures
        lines(final(out)@) == lines(old(out)@) + troubles(*stats),
{
    let ghost start = lines(out@);
    if stats.errors == 0 {
        assert(start + troubles(*stats) == start);
        return;
    }
    push_line(out, String::new());
    let mut line = count(stats.errors);
    line.append(" items could not be read:");
    push_line(out, line);
    let ghost head = lines(out@);
    let n: usize = if stats.error_samples.len() < SHOWN_ERRORS {
        stats.error_samples.len()
    } else {
        SHOWN_ERRORS
    };
    let ghost shown = error_lines(stats.error_samples@);
    assert(head + shown.take(0) == head);
    for i in 0..n
        invariant
            n <= stats.error_samples@.len(),
            n == shown.len(),
            shown == error_lines(stats.error_samples@),
            lines(out@) == head + shown.take(i as int),
    {
        let sample = &stats.error_samples[i];
        let mut line = owned("  ");
        line.append(lossy(sample.0.as_slice()).as_str());
        line.append(": ");
        line.append(sample.1.as_str());
        assert(line@ == shown[i as int]);
        push_line(out, line);
        assert(head + shown.take(i + 1) == (head + shown.take(i as int)).push(shown[i as int]));
    }
    assert(shown.take(n as int) == shown);
    if stats.errors > SHOWN_ERRORS as u64 {
        push_line(out, owned("  \u{2026}"));
    }
    push_line(
        out,
        owned("Grant Full Disk Access in System Settings > Privacy & Security to include them."),
    );
    assert(lines(out@) == start + troubles(*stats));
}

/// The lines of the kinds.
pub open spec fn kind_lines(
    kinds: Seq<Kind>,
    totals: Seq<KindTotal>,
    physical: bool,
    total: u64,
) -> Seq<Seq<char>> {
    totals.map(|i: int, t: KindTotal| kind_line(kinds, t, physical, total))
}

/// The lines of the largest files.
pub open spec fn file_lines(tree: TreeView, ids: Seq<NodeId>, physical: bool) -> Seq<Seq<char>> {
    ids.map(|i: int, id: NodeId| file_line(tree, id, physical))
}

/// The whole report, for totals and largest files that are at hand. `top` is
/// how many files were asked for and `secs` how long the scan took.
pub open spec fn report_lines(
    tree: TreeView,
    kinds: Seq<Kind>,
    totals: Seq<KindTotal>,
    largest: Seq<NodeId>,
    physical: bool,
    top: int,
    secs: Seq<char>,
) -> Seq<Seq<char>> {
    let total = tree.nodes[0].spec_size(physical);
    seq![
        lossy_text(tree.root_path),
        headline(total, tree.nodes.len() as u64, tree.stats.files, tree.stats.dirs, secs),
    ] + remarks(tree.stats) + seq![Seq::empty(), "BY KIND"@] + kind_lines(
        kinds,
        totals,
        physical,
        total,
    ) + (if top > 0 {
        seq![Seq::empty(), "LARGEST FILES"@] + file_lines(tree, largest, physical)
    } else {
        Seq::empty()
    }) + troubles(tree.stats)
}

fn push_kinds(
    out: &mut Vec<String>,
    kinds: &KindTable,
    totals: &Vec<KindTotal>,
    physical: bool,
    total: u64,
)
    requires
        forall|i: int|
            0 <= i < totals@.len() ==> (#[trigger] totals@[i]).kind < kinds@.kinds.len(),
    ensures
        lines(final(out)@) == lines(old(out)@) + kind_lines(
            kinds@.kinds,
            totals@,
            physical,
            total,
        ),
{
    let ghost start = lines(out@);
    let ghost all = kind_lines(kinds@.kinds, totals@, physical, total);
    assert(start + all.take(0) == start);
    for i in 0..totals.len()
        invariant
            forall|i: int|
                0 <= i < totals@.len() ==> (#[trigger] totals@[i]).kind < kinds@.kinds.len(),
            all == kind_lines(kinds@.kinds, totals@, physical, total),
            lines(out@) == start + all.take(i as int),
    {
        let line = kind_text(kinds, &totals[i], physical, total);
        assert(line@ == all[i as int]);
        push_line(out, line);
        assert(start + all.take(i + 1) == (start + all.take(i as int)).push(all[i as int]));
    }
    assert(all.take(totals@.len() as int) == all);
}

fn push_files(out: &mut Vec<String>, tree: &Tree, ids: &Vec<NodeId>, physical: bool)
    requires
        tree@.wf(),
        forall|i: int| 0 <= i < ids@.len() ==> tree@.has(#[trigger] ids@[i] as int),
    ensures
        lines(final(out)@) == lines(old(out)@) + file_lines(tree@, ids@, physical),
{
    let ghost start = lines(out@);
    let ghost all = file_lines(tree@, ids@, physical);
    assert(start + all.take(0) == start);
    for i in 0..ids.len()
        invariant
            tree@.wf(),
            forall|i: int| 0 <= i < ids@.len() ==> tree@.has(#[trigger] ids@[i] as int),
            all == file_lines(tree@, ids@, physical),
            lines(out@) == start + all.take(i as int),
    {
        let line = file_text(tree, ids[i], physical);
        assert(line@ == all[i as int]);
        push_line(out, line);
        assert(start + all.take(i + 1) == (start + all.take(i as int)).push(all[i as int]));
    }
    assert(all.take(ids@.len() as int) == all);
}

/// The report of totals and largest files that are at hand.
pub fn report(
    tree: &Tree,
    kinds: &KindTable,
    totals: &Vec<KindTotal>,
    largest: &Vec<NodeId>,
    physical: bool,
    top: usize,
    secs: &str,
) -> (out: Vec<String>)
    requires
        tree@.wf(),
        forall|i: int|
            0 <= i < totals@.len() ==> (#[trigger] totals@[i]).kind < kinds@.kinds.len(),
        forall|i: int| 0 <= i < largest@.len() ==> tree@.has(#[trigger] largest@[i] as int),
    ensures
        lines(out@) == report_lines(
            tree@,
            kinds@.kinds,
            totals@,
            largest@,
            physical,
            top as int,
            secs@,
        ),
{
    let stats = tree.stats_of();
    let total: u64 = tree.size(ROOT, physical);
    let mut out: Vec<String> = Vec::new();
    assert(lines(out@) == Seq::<Seq<char>>::empty());
    push_line(&mut out, tree.root_text());
    push_line(
        &mut out,
        headline_text(total, tree.len() as u64, stats.files, stats.dirs, secs),
    );
    push_remarks(&mut out, stats);
    push_line(&mut out, String::new());
    push_line(&mut out, owned("BY KIND"));
    push_kinds(&mut out, kinds, totals, physical, total);
    if top > 0 {
        push_line(&mut out, String::new());
        push_line(&mut out, owned("LARGEST FILES"));
        push_files(&mut out, tree, largest, physical);
    }
    push_troubles(&mut out, stats);
    assert(lines(out@) == report_lines(
        tree@,
        kinds@.kinds,
        totals@,
        largest@,
        physical,
        top as int,
        secs@,
    ));
    out
}

/// The breakdown of a whole tree: its kinds and its `top` largest files.
pub fn print_report(tree: &Tree, kinds: &KindTable, physical: bool, top: usize, secs: &str) -> (out:
    Vec<String>)
    requires
        tree@.wf(),
        kinds_known(tree@.nodes, kinds@.kinds.len() as int),
    ensures
        exists|totals: Seq<KindTotal>|
            {
                &&& lists_kinds(tree@.nodes, 0, kinds@.kinds.len() as int, totals)
                &&& largest_first(totals, physical)
                &&& lines(out@) == #[trigger] report_lines(
                    tree@,
                    kinds@.kinds,
                    totals,
                    ids_of(best(tree@.nodes, visiting_order(tree@.nodes, 0), top as int, physical)),
                    physical,
                    top as int,
                    secs@,
                )
            },
{
    assert(kinds_in_range(tree@.nodes, 0, kinds@.kinds.len() as int));
    let totals = kind_totals(tree, ROOT, kinds.len(), physical);
    let largest = largest_files(tree, ROOT, top, physical);
    proof {
        let nodes = tree@.nodes;
        let ids = visiting_order(nodes, 0);
        crate::summary::subtree::lemma_visiting_order(nodes, 0);
        if top > 0 {
            crate::summary::largest::lemma_best(nodes, ids, top as int, physical);
        }
        assert forall|i: int| 0 <= i < largest@.len() implies tree@.has(
            #[trigger] largest@[i] as int,
        ) by {
            let chosen = best(nodes, ids, top as int, physical);
            assert(largest@[i] == chosen[i].1);
            assert(ids.contains(chosen[i].1));
        }
    }
    let out = report(tree, kinds, &totals, &largest, physical, top, secs);
    assert(lists_kinds(tree@.nodes, 0, kinds@.kinds.len() as int, totals@));
    assert(lines(out@) == report_lines(
        tree@,
        kinds@.kinds,
        totals@,
        ids_of(best(tree@.nodes, visiting_order(tree@.nodes, 0), top as int, physical)),
        physical,
        top as int,
        secs@,
    ));
    out
}

/// What the program calls itself: its version, and the commit it was built from
/// when that is known.
pub fn version(number: &str, commit: Option<&str>) -> (text: String)
    ensures
        text@ == match commit {
            Some(sha) => "diskscope "@ + number@ + " ("@ + sha@ + ")"@,
            None => "diskscope "@ + number@,
        },
{
    let mut text = owned("diskscope ");
    text.append(number);
    if let Some(sha) = commit {
        text.append(" (");
        text.append(sha);
        text.append(")");
    }
    text
}

} // verus!
