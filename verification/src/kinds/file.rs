//! The kind table as it is written down, and what can be wrong with it.

use vstd::prelude::*;
use vstd::utf8::encode_utf8;

use crate::kinds::color::{color_fault, ColorFault};
use crate::kinds::ext::{spec_ext_key, MAX_EXT};
use crate::text::{debug_text, owned, quoted};

verus! {

/// A kind that has a name and a colour but no extensions of its own.
#[derive(Clone, Debug)]
pub struct NamedColor {
    pub name: String,
    pub color: String,
}

/// A kind and the extensions it claims.
#[derive(Clone, Debug)]
pub struct KindEntry {
    pub name: String,
    pub color: String,
    pub extensions: Vec<String>,
}

/// The whole file: three kinds every table has, the directory extensions that
/// make a package, and the file kinds in order of priority.
#[derive(Clone, Debug)]
pub struct KindsFile {
    pub folder: NamedColor,
    pub other: NamedColor,
    pub free_space: NamedColor,
    pub package_extensions: Vec<String>,
    pub kinds: Vec<KindEntry>,
}

/// Why a file makes no table.
#[derive(Clone, Debug)]
pub enum KindsError {
    Color { text: String, fault: ColorFault },
    TooMany,
    Extension { ext: String, kind: String },
}

/// [`KindsError`] with its texts as character sequences.
pub enum KindsErrorView {
    Color { text: Seq<char>, fault: ColorFault },
    TooMany,
    Extension { ext: Seq<char>, kind: Seq<char> },
}

impl View for KindsError {
    type V = KindsErrorView;

    open spec fn view(&self) -> KindsErrorView {
        match *self {
            KindsError::Color { text, fault } => KindsErrorView::Color { text: text@, fault },
            KindsError::TooMany => KindsErrorView::TooMany,
            KindsError::Extension { ext, kind } => KindsErrorView::Extension {
                ext: ext@,
                kind: kind@,
            },
        }
    }
}

impl KindsErrorView {
    /// What the user is told.
    pub open spec fn text(&self) -> Seq<char> {
        match *self {
            KindsErrorView::Color { text, fault: ColorFault::Shape } => "colour "@ + debug_text(
                text,
            ) + " must be #rrggbb"@,
            KindsErrorView::Color { text, fault: ColorFault::Hex } => "colour "@ + debug_text(
                text,
            ) + " is not hex"@,
            KindsErrorView::TooMany => "too many kinds (max 65534)"@,
            KindsErrorView::Extension { ext, kind } => "extension "@ + debug_text(ext) + " in "@
                + debug_text(kind) + " is longer than 16 bytes"@,
        }
    }
}

impl KindsError {
    /// What the user is told.
    pub fn message(&self) -> (message: String)
        ensures
            message@ == self@.text(),
    {
        match self {
            KindsError::Color { text, fault } => {
                let mut out = owned("colour ");
                out.append(quoted(text).as_str());
                match fault {
                    ColorFault::Shape => out.append(" must be #rrggbb"),
                    ColorFault::Hex => out.append(" is not hex"),
                }
                out
            },
            KindsError::TooMany => owned("too many kinds (max 65534)"),
            KindsError::Extension { ext, kind } => {
                let mut out = owned("extension ");
                out.append(quoted(ext).as_str());
                out.append(" in ");
                out.append(quoted(kind).as_str());
                out.append(" is longer than 16 bytes");
                out
            },
        }
    }
}

/// The lookup key of an extension written as text.
pub open spec fn text_key(ext: Seq<char>) -> Option<u128> {
    spec_ext_key(encode_utf8(ext))
}

/// The fault in a colour, as an error.
pub open spec fn bad_color(text: Seq<char>) -> Option<KindsErrorView> {
    match color_fault(text) {
        Some(fault) => Some(KindsErrorView::Color { text, fault }),
        None => None,
    }
}

/// The first of the extensions `from..` that has no key.
pub open spec fn bad_extension(entry: KindEntry, from: int) -> Option<KindsErrorView>
    decreases entry.extensions@.len() - from,
{
    if from < 0 || from >= entry.extensions@.len() {
        None
    } else if text_key(entry.extensions@[from]@) is None {
        Some(
            KindsErrorView::Extension { ext: entry.extensions@[from]@, kind: entry.name@ },
        )
    } else {
        bad_extension(entry, from + 1)
    }
}

/// The first error among the kinds `from..`: too many of them, then a colour,
/// then an extension.
pub open spec fn bad_entry(kinds: Seq<KindEntry>, from: int) -> Option<KindsErrorView>
    decreases kinds.len() - from,
{
    if from < 0 || from >= kinds.len() {
        None
    } else if 3 + from == u16::MAX {
        Some(KindsErrorView::TooMany)
    } else if bad_color(kinds[from].color@) is Some {
        bad_color(kinds[from].color@)
    } else if bad_extension(kinds[from], 0) is Some {
        bad_extension(kinds[from], 0)
    } else {
        bad_entry(kinds, from + 1)
    }
}

/// The first of the package extensions `from..` that is longer than a key
/// holds. An empty one is no error: nothing ever matches it.
pub open spec fn bad_package(exts: Seq<String>, from: int) -> Option<KindsErrorView>
    decreases exts.len() - from,
{
    if from < 0 || from >= exts.len() {
        None
    } else if encode_utf8(exts[from]@).len() > MAX_EXT {
        Some(KindsErrorView::Extension { ext: exts[from]@, kind: "package_extensions"@ })
    } else {
        bad_package(exts, from + 1)
    }
}

/// The first error in the file: the fixed colours, then the kinds, then the
/// package extensions.
pub open spec fn bad_file(file: KindsFile) -> Option<KindsErrorView> {
    if bad_color(file.folder.color@) is Some {
        bad_color(file.folder.color@)
    } else if bad_color(file.other.color@) is Some {
        bad_color(file.other.color@)
    } else if bad_color(file.free_space.color@) is Some {
        bad_color(file.free_space.color@)
    } else if bad_entry(file.kinds@, 0) is Some {
        bad_entry(file.kinds@, 0)
    } else {
        bad_package(file.package_extensions@, 0)
    }
}

/// Whether some extension of `exts` has the key `key`.
pub open spec fn lists(exts: Seq<String>, key: u128) -> bool {
    exists|j: int| 0 <= j < exts.len() && text_key((#[trigger] exts[j])@) == Some(key)
}

/// Whether entry `i` is the first that claims `key`.
pub open spec fn claims(kinds: Seq<KindEntry>, i: int, key: u128) -> bool {
    &&& 0 <= i < kinds.len()
    &&& lists(kinds[i].extensions@, key)
    &&& forall|h: int| 0 <= h < i ==> !lists((#[trigger] kinds[h]).extensions@, key)
}

} // verus!
