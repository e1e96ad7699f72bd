//! What the window says, call by call.

use vstd::prelude::*;

use crate::app::notes::{
    copied_note, crumb_text, entry_rate, focus_numbers, idle_numbers, kinds_note, metric_hint,
    metric_label, open_failed, reveal_failed, scan_failed, scanning_counts, scanning_numbers,
    scanning_title, settings_hint, shortcut, target_text, target_title, trash_failed,
    trashed_note,
};
use crate::fmt::{bytes_text, count_text, decimal, percent_text, to_decimal};
use crate::sidebar::Tab;
use crate::text::lossy_text;
use crate::theme::spaced;

verus! {

/// A failure is said with its reason, and of a scan with the root.
pub proof fn lemma_failures(root: &str, e: &str, a: String, b: String, c: String, d: String)
    requires
        call_ensures(scan_failed, (root, e), a),
        call_ensures(reveal_failed, (e,), b),
        call_ensures(open_failed, (e,), c),
        call_ensures(trash_failed, (e,), d),
    ensures
        a@ == "Can't scan "@ + root@ + ": "@ + e@,
        b@ == "Can't show that in the Finder: "@ + e@,
        c@ == "Can't open that: "@ + e@,
        d@ == "Couldn't move that to the Trash: "@ + e@,
{
}

/// What was done is said of the path it was done to.
pub proof fn lemma_done(path: &str, a: String, b: String, c: String)
    requires
        call_ensures(copied_note, (path,), a),
        call_ensures(trashed_note, (path,), b),
        call_ensures(kinds_note, (path,), c),
    ensures
        a@ == "Copied "@ + path@,
        b@ == "Moved "@ + path@ + " to the Trash. Scan again to update the map."@,
        c@ == "Using the built-in kinds: "@ + path@,
{
}

/// The readout gives the kind, the size and the share of the view, in this
/// order.
pub proof fn lemma_focus_numbers(kind: &str, size: u64, view: u64, text: String)
    requires
        call_ensures(focus_numbers, (kind, size, view), text),
    ensures
        text@ == kind@ + " \u{b7} "@ + bytes_text(size) + " \u{b7} "@ + percent_text(size, view)
            + " of view"@,
{
}

/// With nothing in focus the readout says how much was scanned and drawn, and
/// whether the portable walker was used.
pub proof fn lemma_idle_numbers(
    entries: u64,
    secs: &str,
    blocks: u64,
    millis: &str,
    plain: String,
    fallback: String,
)
    requires
        call_ensures(idle_numbers, (entries, secs, blocks, millis, false), plain),
        call_ensures(idle_numbers, (entries, secs, blocks, millis, true), fallback),
    ensures
        plain@ == count_text(entries) + " entries in "@ + secs@ + "s \u{b7} "@ + count_text(blocks)
            + " blocks drawn in "@ + millis@ + " ms"@,
        fallback@ == plain@ + " \u{b7} portable walker"@,
{
    assert(plain@ =~= count_text(entries) + " entries in "@ + secs@ + "s \u{b7} "@ + count_text(
        blocks,
    ) + " blocks drawn in "@ + millis@ + " ms"@);
}

/// A running scan says how far it has got.
pub proof fn lemma_scanning(done: u64, rate: &str, root: &str, dirs: u64, errors: u64, a: String, b: String)
    requires
        call_ensures(scanning_numbers, (done, rate, root), a),
        call_ensures(scanning_counts, (dirs, errors), b),
    ensures
        a@ == bytes_text(done) + " \u{b7} "@ + rate@ + " \u{b7} "@ + root@,
        b@ == count_text(dirs) + " folders \u{b7} "@ + count_text(errors) + " errors"@,
{
}

/// A rate below a thousand is counted, a larger one shown like a size; without
/// any time passed there is none.
pub proof fn lemma_entry_rate(n: u64, some: String, none: String)
    requires
        call_ensures(entry_rate, (Some(n),), some),
        call_ensures(entry_rate, (None,), none),
    ensures
        n < 1000 ==> some@ == decimal(n as nat) + " entries/s"@,
        n >= 1000 ==> some@ == bytes_text(n) + "/s"@,
        none@ == "\u{2014}"@,
{
}

/// The buttons say what is shown, not what it would change to.
pub proof fn lemma_buttons(
    on: &'static str,
    off: &'static str,
    hint_on: &'static str,
    hint_off: &'static str,
)
    requires
        call_ensures(metric_label, (true,), on),
        call_ensures(metric_label, (false,), off),
        call_ensures(metric_hint, (true,), hint_on),
        call_ensures(metric_hint, (false,), hint_off),
    ensures
        on@ == "ON DISK"@,
        off@ == "APPARENT"@,
        hint_on@ == "Showing blocks actually allocated. Click for apparent size."@,
        hint_off@
            == "Showing apparent size, which ignores compression and sparse files. Click for size on disk."@,
{
}

/// Settings that have changed ask for a scan; a scan that is being stopped says
/// so.
pub proof fn lemma_titles(
    changed: &'static str,
    same: &'static str,
    stopping: &'static str,
    running: &'static str,
)
    requires
        call_ensures(settings_hint, (true,), changed),
        call_ensures(settings_hint, (false,), same),
        call_ensures(scanning_title, (true,), stopping),
        call_ensures(scanning_title, (false,), running),
    ensures
        changed@ == "Scan again to apply."@,
        same@ == "These take effect on the next scan."@,
        stopping@ == "STOPPING"@,
        running@ == "MEASURING"@,
{
}

/// A target is listed by its label and where it is.
pub proof fn lemma_targets(
    root: Vec<u8>,
    label: &str,
    path: &[u8],
    some: String,
    none: String,
    text: String,
)
    requires
        call_ensures(target_title, (&Some(root),), some),
        call_ensures(target_title, (&None,), none),
        call_ensures(target_text, (label, path), text),
    ensures
        some@ == lossy_text(root@),
        none@ == "Choose a target"@,
        text@ == label@ + "  \u{b7}  "@ + lossy_text(path@),
{
}

/// A step of the breadcrumb gives its size and its share; shortcuts are written
/// the way the desktop does.
pub proof fn lemma_crumbs_and_keys(
    size: u64,
    share: &str,
    key: &str,
    crumb: String,
    mac: String,
    other: String,
)
    requires
        call_ensures(crumb_text, (size, share), crumb),
        call_ensures(shortcut, (key, true), mac),
        call_ensures(shortcut, (key, false), other),
    ensures
        crumb@ == bytes_text(size) + " \u{2014} "@ + share@ + " of the level above"@,
        mac@ == "\u{2318}"@ + key@,
        other@ == "Ctrl+"@ + key@,
{
}

/// The tabs are labelled by what they list, letter by letter.
pub proof fn lemma_tabs(a: &'static str, b: &'static str, c: &'static str, label: &str, out: String)
    requires
        call_ensures(Tab::label, (Tab::Kinds,), a),
        call_ensures(Tab::label, (Tab::Folders,), b),
        call_ensures(Tab::label, (Tab::Largest,), c),
        call_ensures(spaced, (label,), out),
    ensures
        a@ == "KINDS"@,
        b@ == "FOLDERS"@,
        c@ == "LARGEST"@,
        forall|i: int| 0 <= i < label@.len() ==> out@[2 * i] == #[trigger] label@[i],
        label@.len() > 0 ==> out@.len() == 2 * label@.len() - 1,
{
    crate::theme::lemma_spaced(label@);
}

/// A number is written in decimal.
pub proof fn lemma_to_decimal(n: u128, text: String)
    requires
        call_ensures(to_decimal, (n,), text),
    ensures
        crate::laws::measuring::number(text@) == n,
{
    crate::laws::measuring::lemma_decimal_is_read_back(n as nat);
}

} // verus!
