//! What the window says.

use vstd::prelude::*;

use crate::fmt::{bytes, bytes_text, count, count_text, percent, percent_text};
use crate::text::{lossy, lossy_text, owned};
use crate::tree::flags;
use crate::tree::{has_flag, Node};

verus! {

/// What is said of a scan that finished, if anything.
pub open spec fn scan_note_text(cancelled: bool, errors: u64) -> Option<Seq<char>> {
    if cancelled {
        Some("Scan stopped. Showing what was measured before you stopped it."@)
    } else if errors > 0 {
        Some(
            count_text(errors)
                + " items couldn't be read. Grant Full Disk Access in System Settings \u{25b8} Privacy & Security to include them."@,
        )
    } else {
        None
    }
}

/// What is said of a scan that finished, if anything.
pub fn scan_note(cancelled: bool, errors: u64) -> (note: Option<String>)
    ensures
        match note {
            Some(note) => scan_note_text(cancelled, errors) == Some(note@),
            None => scan_note_text(cancelled, errors) is None,
        },
{
    if cancelled {
        Some(owned("Scan stopped. Showing what was measured before you stopped it."))
    } else if errors > 0 {
        let mut note = count(errors);
        note.append(
            " items couldn't be read. Grant Full Disk Access in System Settings \u{25b8} Privacy & Security to include them.",
        );
        Some(note)
    } else {
        None
    }
}

/// "Can't scan ROOT: ERROR".
pub fn scan_failed(root: &str, error: &str) -> (note: String)
    ensures
        note@ == "Can't scan "@ + root@ + ": "@ + error@,
{
    let mut note = owned("Can't scan ");
    note.append(root);
    note.append(": ");
    note.append(error);
    note
}

/// What is said when the file manager cannot show an item.
pub fn reveal_failed(error: &str) -> (note: String)
    ensures
        note@ == "Can't show that in the Finder: "@ + error@,
{
    let mut note = owned("Can't show that in the Finder: ");
    note.append(error);
    note
}

/// What is said when an item cannot be opened.
pub fn open_failed(error: &str) -> (note: String)
    ensures
        note@ == "Can't open that: "@ + error@,
{
    let mut note = owned("Can't open that: ");
    note.append(error);
    note
}

/// What is said once a path has been copied.
pub fn copied_note(path: &str) -> (note: String)
    ensures
        note@ == "Copied "@ + path@,
{
    let mut note = owned("Copied ");
    note.append(path);
    note
}

/// What is said once an item has been moved to the trash.
pub fn trashed_note(path: &str) -> (note: String)
    ensures
        note@ == "Moved "@ + path@ + " to the Trash. Scan again to update the map."@,
{
    let mut note = owned("Moved ");
    note.append(path);
    note.append(" to the Trash. Scan again to update the map.");
    note
}

/// What is said when an item could not be moved to the trash.
pub fn trash_failed(error: &str) -> (note: String)
    ensures
        note@ == "Couldn't move that to the Trash: "@ + error@,
{
    let mut note = owned("Couldn't move that to the Trash: ");
    note.append(error);
    note
}

/// What is said when the user's own kinds could not be used.
pub fn kinds_note(warning: &str) -> (note: String)
    ensures
        note@ == "Using the built-in kinds: "@ + warning@,
{
    let mut note = owned("Using the built-in kinds: ");
    note.append(warning);
    note
}

/// The size of what goes to the trash, and of a folder how much is inside it.
pub open spec fn trash_detail_text(size: u64, inside: Option<u64>) -> Seq<char> {
    match inside {
        Some(n) => bytes_text(size) + " \u{b7} this folder and "@ + count_text(n)
            + " items inside it"@,
        None => bytes_text(size),
    }
}

/// The detail line of the trash dialog.
pub fn trash_detail(size: u64, inside: Option<u64>) -> (text: String)
    ensures
        text@ == trash_detail_text(size, inside),
{
    let mut text = bytes(size);
    if let Some(n) = inside {
        text.append(" \u{b7} this folder and ");
        text.append(count(n).as_str());
        text.append(" items inside it");
    }
    text
}

/// The numbers of the item the readout speaks of: its kind, its size and its
/// share of the view.
pub fn focus_numbers(kind: &str, size: u64, view_total: u64) -> (text: String)
    ensures
        text@ == kind@ + " \u{b7} "@ + bytes_text(size) + " \u{b7} "@ + percent_text(
            size,
            view_total,
        ) + " of view"@,
{
    let mut text = owned(kind);
    text.append(" \u{b7} ");
    text.append(bytes(size).as_str());
    text.append(" \u{b7} ");
    text.append(percent(size, view_total).as_str());
    text.append(" of view");
    text
}

/// The readout when nothing is in focus. `secs` and `millis` are how long the
/// scan and the drawing took.
pub fn idle_numbers(entries: u64, secs: &str, blocks: u64, millis: &str, used_fallback: bool) -> (
    text: String)
    ensures
        text@ == count_text(entries) + " entries in "@ + secs@ + "s \u{b7} "@ + count_text(blocks)
            + " blocks drawn in "@ + millis@ + " ms"@ + if used_fallback {
            " \u{b7} portable walker"@
        } else {
            Seq::empty()
        },
{
    let mut text = count(entries);
    text.append(" entries in ");
    text.append(secs);
    text.append("s \u{b7} ");
    text.append(count(blocks).as_str());
    text.append(" blocks drawn in ");
    text.append(millis);
    text.append(" ms");
    if used_fallback {
        text.append(" \u{b7} portable walker");
    } else {
        assert(text@ + Seq::<char>::empty() == text@);
    }
    text
}

/// The line below the live counter: bytes, rate and root of a running scan.
pub fn scanning_numbers(done: u64, rate: &str, root: &str) -> (text: String)
    ensures
        text@ == bytes_text(done) + " \u{b7} "@ + rate@ + " \u{b7} "@ + root@,
{
    let mut text = bytes(done);
    text.append(" \u{b7} ");
    text.append(rate);
    text.append(" \u{b7} ");
    text.append(root);
    text
}

/// The last line of a running scan's readout.
pub fn scanning_counts(dirs: u64, errors: u64) -> (text: String)
    ensures
        text@ == count_text(dirs) + " folders \u{b7} "@ + count_text(errors) + " errors"@,
{
    let mut text = count(dirs);
    text.append(" folders \u{b7} ");
    text.append(count(errors).as_str());
    text.append(" errors");
    text
}

/// How many entries a scan has seen per second, as text; a dash while no time
/// has passed. A rate below a thousand is counted in entries, a larger one in
/// the decimal units of sizes.
pub fn entry_rate(per_second: Option<u64>) -> (text: String)
    ensures
        match per_second {
            None => text@ == "\u{2014}"@,
            Some(n) => text@ == if n < 1000 {
                crate::fmt::decimal(n as nat) + " entries/s"@
            } else {
                bytes_text(n) + "/s"@
            },
        },
{
    match per_second {
        None => owned("\u{2014}"),
        Some(n) => {
            if n < 1000 {
                let mut text = crate::fmt::to_decimal(n as u128);
                text.append(" entries/s");
                text
            } else {
                crate::fmt::rate(Some(n))
            }
        },
    }
}

/// What the readout says of a node's flags, in this order.
pub open spec fn flag_texts(node: Node) -> Seq<Seq<char>> {
    said(node, flags::UNREADABLE, "couldn't be read"@) + said(
        node,
        flags::OTHER_FS,
        "another volume, not scanned"@,
    ) + said(node, flags::PACKAGE, "bundle"@) + said(
        node,
        flags::HARDLINK_DUP,
        "extra hard link, not counted"@,
    ) + said(node, flags::SYMLINK, "symlink"@)
}

/// `label` if the node has the flag.
pub open spec fn said(node: Node, flag: u8, label: Seq<char>) -> Seq<Seq<char>> {
    if has_flag(node.flags, flag) {
        seq![label]
    } else {
        Seq::empty()
    }
}

/// The views of a list of labels.
pub open spec fn labels(list: Seq<&'static str>) -> Seq<Seq<char>> {
    list.map(|i: int, s: &'static str| s@)
}

fn say(out: &mut Vec<&'static str>, node: &Node, flag: u8, label: &'static str)
    ensures
        labels(final(out)@) == labels(old(out)@) + said(*node, flag, label@),
{
    if node.has(flag) {
        out.push(label);
    }
    assert(labels(out@) == labels(old(out)@) + said(*node, flag, label@));
}

/// What the readout says of a node's flags.
pub fn flag_labels(node: &Node) -> (list: Vec<&'static str>)
    ensures
        labels(list@) == flag_texts(*node),
{
    let mut out: Vec<&'static str> = Vec::new();
    assert(labels(out@) == Seq::<Seq<char>>::empty());
    say(&mut out, node, flags::UNREADABLE, "couldn't be read");
    say(&mut out, node, flags::OTHER_FS, "another volume, not scanned");
    say(&mut out, node, flags::PACKAGE, "bundle");
    say(&mut out, node, flags::HARDLINK_DUP, "extra hard link, not counted");
    say(&mut out, node, flags::SYMLINK, "symlink");
    assert(labels(out@) == flag_texts(*node));
    out
}

/// What the metric button says.
pub fn metric_label(physical: bool) -> (label: &'static str)
    ensures
        label@ == if physical {
            "ON DISK"@
        } else {
            "APPARENT"@
        },
{
    if physical {
        "ON DISK"
    } else {
        "APPARENT"
    }
}

/// What the metric button explains.
pub fn metric_hint(physical: bool) -> (hint: &'static str)
    ensures
        hint@ == if physical {
            "Showing blocks actually allocated. Click for apparent size."@
        } else {
            "Showing apparent size, which ignores compression and sparse files. Click for size on disk."@
        },
{
    if physical {
        "Showing blocks actually allocated. Click for apparent size."
    } else {
        "Showing apparent size, which ignores compression and sparse files. Click for size on disk."
    }
}

/// What the settings window says of when they take effect.
pub fn settings_hint(changed: bool) -> (hint: &'static str)
    ensures
        hint@ == if changed {
            "Scan again to apply."@
        } else {
            "These take effect on the next scan."@
        },
{
    if changed {
        "Scan again to apply."
    } else {
        "These take effect on the next scan."
    }
}

/// The heading over the live counter.
pub fn scanning_title(cancelled: bool) -> (title: &'static str)
    ensures
        title@ == if cancelled {
            "STOPPING"@
        } else {
            "MEASURING"@
        },
{
    if cancelled {
        "STOPPING"
    } else {
        "MEASURING"
    }
}

/// What the target box shows: the last root, or an invitation.
pub fn target_title(last_root: &Option<Vec<u8>>) -> (title: String)
    ensures
        title@ == match last_root {
            Some(root) => lossy_text(root@),
            None => "Choose a target"@,
        },
{
    match last_root {
        Some(root) => lossy(root.as_slice()),
        None => owned("Choose a target"),
    }
}

/// How a target is listed: its label and where it is.
pub fn target_text(label: &str, path: &[u8]) -> (text: String)
    ensures
        text@ == label@ + "  \u{b7}  "@ + lossy_text(path@),
{
    let mut text = owned(label);
    text.append("  \u{b7}  ");
    text.append(lossy(path).as_str());
    text
}

/// What a step of the breadcrumb says: its size, and its share of the level
/// above.
pub fn crumb_text(size: u64, share: &str) -> (text: String)
    ensures
        text@ == bytes_text(size) + " \u{2014} "@ + share@ + " of the level above"@,
{
    let mut text = bytes(size);
    text.append(" \u{2014} ");
    text.append(share);
    text.append(" of the level above");
    text
}

/// How a shortcut is written on this kind of desktop.
pub fn shortcut(key: &str, macos: bool) -> (text: String)
    ensures
        text@ == if macos {
            "\u{2318}"@ + key@
        } else {
            "Ctrl+"@ + key@
        },
{
    let mut text = owned(
        if macos {
            "\u{2318}"
        } else {
            "Ctrl+"
        },
    );
    text.append(key);
    text
}

} // verus!
