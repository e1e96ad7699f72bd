//! The table every installation starts with.

use vstd::prelude::*;
use vstd::utf8::{encode_utf8, is_ascii_chars, is_ascii_chars_encode_utf8};

use crate::kinds::ext::{lemma_key_first, lower, spec_ext_key, spec_extension};
use crate::kinds::file::{
    bad_color, bad_entry, bad_extension, bad_file, bad_package, claims, lists, text_key,
    KindEntry, KindsFile, NamedColor,
};
use crate::kinds::{owns, KindTableView, FIRST_USER_KIND};
use crate::text::owned;

verus! {

impl NamedColor {
    /// Whether this pairs `name` with `color`.
    pub open spec fn says(&self, name: Seq<char>, color: Seq<char>) -> bool {
        self.name@ == name && self.color@ == color
    }
}

impl KindEntry {
    /// Whether this gives `name` and `color` to the extensions `exts`.
    pub open spec fn says(&self, name: Seq<char>, color: Seq<char>, exts: Seq<Seq<char>>) -> bool {
        self.name@ == name && self.color@ == color && spelled(self.extensions@) == exts
    }
}

/// The texts of a list of strings.
pub open spec fn spelled(list: Seq<String>) -> Seq<Seq<char>> {
    list.map(|i: int, s: String| s@)
}

/// Whether an entry is the kind of this name and has the extension of this key.
pub open spec fn is_kind_with(entry: KindEntry, kind: Seq<char>, key: u128) -> bool {
    entry.name@ == kind && lists(entry.extensions@, key)
}

/// Whether a file gives an extension to the kind of this name, and to no
/// package.
pub open spec fn gives(file: KindsFile, kind: Seq<char>, ext: Seq<char>) -> bool {
    text_key(ext) matches Some(key) && !lists(file.package_extensions@, key) && exists|i: int|
        0 <= i < file.kinds@.len() && #[trigger] is_kind_with(file.kinds@[i], kind, key)
}

/// Whether a file lists an extension of packages.
pub open spec fn packs(file: KindsFile, ext: Seq<char>) -> bool {
    text_key(ext) matches Some(key) && lists(file.package_extensions@, key)
}

/// Whether a file has a kind of this name.
pub open spec fn has_kind(file: KindsFile, kind: Seq<char>) -> bool {
    exists|i: int| 0 <= i < file.kinds@.len() && (#[trigger] file.kinds@[i]).name@ == kind
}

/// No extension belongs to two kinds.
pub open spec fn no_extension_twice(kinds: Seq<KindEntry>) -> bool {
    forall|i: int, h: int, key: u128|
        0 <= i < kinds.len() && 0 <= h < kinds.len() && #[trigger] lists(kinds[i].extensions@, key)
            && #[trigger] lists(kinds[h].extensions@, key) ==> i == h
}

/// What the default table is known to say. The kinds, extensions and colours
/// that a full table has besides are left open.
pub open spec fn is_builtin(file: KindsFile) -> bool {
    &&& file.folder.says("Folder"@, "#2b3038"@)
    &&& file.other.says("Other"@, "#6e7683"@)
    &&& file.free_space.says("Free space"@, "#14171c"@)
    &&& packs(file, "app"@)
    &&& packs(file, "framework"@)
    &&& gives(file, "Video"@, "mp4"@)
    &&& gives(file, "Video"@, "mov"@)
    &&& gives(file, "Source code"@, "rs"@)
    &&& gives(file, "Web"@, "ts"@)
    &&& has_kind(file, "Library"@)
    &&& has_kind(file, "Executable"@)
    &&& forall|i: int|
        0 <= i < file.kinds@.len() && (#[trigger] file.kinds@[i]).name@ == "Video"@
            ==> file.kinds@[i].color@ == "#d2691e"@
    &&& no_extension_twice(file.kinds@)
}

/// The file that [`builtin_file`] makes.
spec fn is_small(file: KindsFile) -> bool {
    &&& file.folder.says("Folder"@, "#2b3038"@)
    &&& file.other.says("Other"@, "#6e7683"@)
    &&& file.free_space.says("Free space"@, "#14171c"@)
    &&& spelled(file.package_extensions@) == seq!["app"@, "framework"@]
    &&& file.kinds@.len() == 5
    &&& file.kinds@[0].says("Video"@, "#d2691e"@, seq!["mp4"@, "mov"@])
    &&& file.kinds@[1].says("Source code"@, "#7fb069"@, seq!["rs"@])
    &&& file.kinds@[2].says("Web"@, "#5f9bc8"@, seq!["ts"@])
    &&& file.kinds@[3].says("Library"@, "#8f7ab8"@, seq!["dylib"@, "so"@])
    &&& file.kinds@[4].says("Executable"@, "#b86a6a"@, seq!["exe"@])
}

fn named_color(name: &str, color: &str) -> (kind: NamedColor)
    ensures
        kind.says(name@, color@),
{
    NamedColor { name: owned(name), color: owned(color) }
}

fn kind_entry(name: &str, color: &str, extensions: Vec<String>) -> (kind: KindEntry)
    ensures
        kind.says(name@, color@, spelled(extensions@)),
{
    KindEntry { name: owned(name), color: owned(color), extensions }
}

fn one(a: &str) -> (list: Vec<String>)
    ensures
        spelled(list@) == seq![a@],
{
    let mut list: Vec<String> = Vec::new();
    list.push(owned(a));
    assert(spelled(list@) == seq![a@]);
    list
}

fn two(a: &str, b: &str) -> (list: Vec<String>)
    ensures
        spelled(list@) == seq![a@, b@],
{
    let mut list: Vec<String> = Vec::new();
    list.push(owned(a));
    list.push(owned(b));
    assert(spelled(list@) == seq![a@, b@]);
    list
}

/// The file behind the default table. It is a small stand-in for a full
/// `kinds.json`: it has the kinds and extensions that [`is_builtin`] asks for
/// and a few that go with them.
pub fn builtin_file() -> (file: KindsFile)
    ensures
        is_builtin(file),
        bad_file(file) is None,
{
    let mut kinds: Vec<KindEntry> = Vec::new();
    kinds.push(kind_entry("Video", "#d2691e", two("mp4", "mov")));
    kinds.push(kind_entry("Source code", "#7fb069", one("rs")));
    kinds.push(kind_entry("Web", "#5f9bc8", one("ts")));
    kinds.push(kind_entry("Library", "#8f7ab8", two("dylib", "so")));
    kinds.push(kind_entry("Executable", "#b86a6a", one("exe")));
    let file = KindsFile {
        folder: named_color("Folder", "#2b3038"),
        other: named_color("Other", "#6e7683"),
        free_space: named_color("Free space", "#14171c"),
        package_extensions: two("app", "framework"),
        kinds,
    };
    proof {
        lemma_small_is_builtin(file);
        lemma_small_is_sound(file);
    }
    file
}

/// An ASCII extension of one to sixteen characters has a key, which begins with
/// its first character.
proof fn lemma_ascii_key(ext: Seq<char>)
    requires
        is_ascii_chars(ext),
        0 < ext.len() <= 16,
    ensures
        text_key(ext) matches Some(key) && key % 256 == lower(ext[0] as u8),
        encode_utf8(ext).len() == ext.len(),
{
    is_ascii_chars_encode_utf8(ext);
    lemma_key_first(encode_utf8(ext));
}

/// What the keys of the extensions begin with.
proof fn lemma_small_keys()
    ensures
        text_key("app"@) matches Some(key) && key % 256 == 0x61,
        text_key("framework"@) matches Some(key) && key % 256 == 0x66,
        text_key("mp4"@) matches Some(key) && key % 256 == 0x6d,
        text_key("mov"@) matches Some(key) && key % 256 == 0x6d,
        text_key("rs"@) matches Some(key) && key % 256 == 0x72,
        text_key("ts"@) matches Some(key) && key % 256 == 0x74,
        text_key("dylib"@) matches Some(key) && key % 256 == 0x64,
        text_key("so"@) matches Some(key) && key % 256 == 0x73,
        text_key("exe"@) matches Some(key) && key % 256 == 0x65,
        encode_utf8("app"@).len() <= 16,
        encode_utf8("framework"@).len() <= 16,
{
    reveal_strlit("app");
    reveal_strlit("framework");
    reveal_strlit("mp4");
    reveal_strlit("mov");
    reveal_strlit("rs");
    reveal_strlit("ts");
    reveal_strlit("dylib");
    reveal_strlit("so");
    reveal_strlit("exe");
    lemma_ascii_key("app"@);
    lemma_ascii_key("framework"@);
    lemma_ascii_key("mp4"@);
    lemma_ascii_key("mov"@);
    lemma_ascii_key("rs"@);
    lemma_ascii_key("ts"@);
    lemma_ascii_key("dylib"@);
    lemma_ascii_key("so"@);
    lemma_ascii_key("exe"@);
}

/// The texts of a list of one.
proof fn lemma_one(list: Seq<String>, a: Seq<char>)
    requires
        spelled(list) == seq![a],
    ensures
        list.len() == 1,
        list[0]@ == a,
        forall|key: u128| #[trigger] lists(list, key) <==> text_key(a) == Some(key),
{
    assert(spelled(list).len() == list.len());
    assert(spelled(list)[0] == a);
    assert forall|key: u128| #[trigger] lists(list, key) <==> text_key(a) == Some(key) by {
        assert(text_key(list[0]@) == text_key(a));
    }
}

/// The texts of a list of two.
proof fn lemma_two(list: Seq<String>, a: Seq<char>, b: Seq<char>)
    requires
        spelled(list) == seq![a, b],
    ensures
        list.len() == 2,
        list[0]@ == a,
        list[1]@ == b,
        forall|key: u128| #[trigger]
            lists(list, key) <==> text_key(a) == Some(key) || text_key(b) == Some(key),
{
    assert(spelled(list).len() == list.len());
    assert(spelled(list)[0] == a);
    assert(spelled(list)[1] == b);
    assert forall|key: u128| #[trigger]
        lists(list, key) <==> text_key(a) == Some(key) || text_key(b) == Some(key) by {
        assert(text_key(list[0]@) == text_key(a));
        assert(text_key(list[1]@) == text_key(b));
    }
}

/// What the lists of the file hold.
proof fn lemma_small_lists(file: KindsFile)
    requires
        is_small(file),
    ensures
        ({
            let kinds = file.kinds@;
            &&& forall|key: u128| #[trigger]
                lists(file.package_extensions@, key) ==> key % 256 == 0x61 || key % 256 == 0x66
            &&& forall|key: u128| #[trigger] lists(kinds[0].extensions@, key) ==> key % 256 == 0x6d
            &&& forall|key: u128| #[trigger] lists(kinds[1].extensions@, key) ==> key % 256 == 0x72
            &&& forall|key: u128| #[trigger] lists(kinds[2].extensions@, key) ==> key % 256 == 0x74
            &&& forall|key: u128| #[trigger]
                lists(kinds[3].extensions@, key) ==> key % 256 == 0x64 || key % 256 == 0x73
            &&& forall|key: u128| #[trigger] lists(kinds[4].extensions@, key) ==> key % 256 == 0x65
        }),
        text_key("app"@) is Some && lists(file.package_extensions@, text_key("app"@)->0),
        text_key("framework"@) is Some && lists(file.package_extensions@, text_key("framework"@)->0),
        text_key("mp4"@) is Some && lists(file.kinds@[0].extensions@, text_key("mp4"@)->0),
        text_key("mov"@) is Some && lists(file.kinds@[0].extensions@, text_key("mov"@)->0),
        text_key("rs"@) is Some && lists(file.kinds@[1].extensions@, text_key("rs"@)->0),
        text_key("ts"@) is Some && lists(file.kinds@[2].extensions@, text_key("ts"@)->0),
{
    lemma_small_keys();
    let kinds = file.kinds@;
    lemma_two(file.package_extensions@, "app"@, "framework"@);
    lemma_two(kinds[0].extensions@, "mp4"@, "mov"@);
    lemma_one(kinds[1].extensions@, "rs"@);
    lemma_one(kinds[2].extensions@, "ts"@);
    lemma_two(kinds[3].extensions@, "dylib"@, "so"@);
    lemma_one(kinds[4].extensions@, "exe"@);
}

proof fn lemma_small_is_builtin(file: KindsFile)
    requires
        is_small(file),
    ensures
        is_builtin(file),
{
    lemma_small_lists(file);
    lemma_names_differ();
    let kinds = file.kinds@;
    assert(is_kind_with(kinds[0], "Video"@, text_key("mp4"@)->0));
    assert(is_kind_with(kinds[0], "Video"@, text_key("mov"@)->0));
    assert(is_kind_with(kinds[1], "Source code"@, text_key("rs"@)->0));
    assert(is_kind_with(kinds[2], "Web"@, text_key("ts"@)->0));
    assert(kinds[3].name@ == "Library"@);
    assert(kinds[4].name@ == "Executable"@);
}

proof fn lemma_names_differ()
    ensures
        "Source code"@ != "Video"@,
        "Web"@ != "Video"@,
        "Library"@ != "Video"@,
        "Executable"@ != "Video"@,
{
    reveal_strlit("Video");
    reveal_strlit("Source code");
    reveal_strlit("Web");
    reveal_strlit("Library");
    reveal_strlit("Executable");
    assert("Video"@[0] == 'V');
    assert("Source code"@[0] == 'S');
    assert("Web"@[0] == 'W');
    assert("Library"@[0] == 'L');
    assert("Executable"@[0] == 'E');
}

proof fn lemma_small_packages(file: KindsFile)
    requires
        is_small(file),
    ensures
        bad_package(file.package_extensions@, 0) is None,
{
    lemma_small_keys();
    lemma_two(file.package_extensions@, "app"@, "framework"@);
    reveal_with_fuel(bad_package, 3);
}

proof fn lemma_small_extensions(file: KindsFile)
    requires
        is_small(file),
    ensures
        forall|i: int|
            0 <= i < file.kinds@.len() ==> bad_extension(#[trigger] file.kinds@[i], 0) is None,
{
    lemma_small_keys();
    let kinds = file.kinds@;
    lemma_two(kinds[0].extensions@, "mp4"@, "mov"@);
    lemma_one(kinds[1].extensions@, "rs"@);
    lemma_one(kinds[2].extensions@, "ts"@);
    lemma_two(kinds[3].extensions@, "dylib"@, "so"@);
    lemma_one(kinds[4].extensions@, "exe"@);
    reveal_with_fuel(bad_extension, 3);
}

proof fn lemma_small_colors(file: KindsFile)
    requires
        is_small(file),
    ensures
        bad_color(file.folder.color@) is None,
        bad_color(file.other.color@) is None,
        bad_color(file.free_space.color@) is None,
        forall|i: int|
            0 <= i < file.kinds@.len() ==> bad_color((#[trigger] file.kinds@[i]).color@) is None,
{
    reveal_strlit("#2b3038");
    reveal_strlit("#6e7683");
    reveal_strlit("#14171c");
    reveal_strlit("#d2691e");
    reveal_strlit("#7fb069");
    reveal_strlit("#5f9bc8");
    reveal_strlit("#8f7ab8");
    reveal_strlit("#b86a6a");
}

proof fn lemma_small_is_sound(file: KindsFile)
    requires
        is_small(file),
    ensures
        bad_file(file) is None,
{
    lemma_small_colors(file);
    lemma_small_extensions(file);
    lemma_small_packages(file);
    lemma_good_entries(file.kinds@, 0);
}

/// Where no kind is at fault, neither is the list.
proof fn lemma_good_entries(kinds: Seq<KindEntry>, from: int)
    requires
        0 <= from <= kinds.len() <= 100,
        forall|i: int| 0 <= i < kinds.len() ==> bad_extension(#[trigger] kinds[i], 0) is None,
        forall|i: int| 0 <= i < kinds.len() ==> bad_color((#[trigger] kinds[i]).color@) is None,
    ensures
        bad_entry(kinds, from) is None,
    decreases kinds.len() - from,
{
    if from < kinds.len() {
        lemma_good_entries(kinds, from + 1);
        assert(bad_extension(kinds[from], 0) is None && bad_color(kinds[from].color@) is None);
    }
}

/// In a table whose file gives no extension to two kinds, a file name with an
/// extension that the file gives to a kind is of that kind.
pub proof fn lemma_gives(
    table: KindTableView,
    file: KindsFile,
    name: Seq<u8>,
    kind: Seq<char>,
    ext: Seq<char>,
)
    requires
        table.wf(),
        table.describes(file),
        no_extension_twice(file.kinds@),
        gives(file, kind, ext),
        spec_ext_key(spec_extension(name)) == text_key(ext),
    ensures
        table.kinds[table.kind_of(name) as int].name@ == kind,
{
    let key = text_key(ext)->0;
    let kinds = file.kinds@;
    let i = choose|i: int|
        0 <= i < kinds.len() && #[trigger] is_kind_with(kinds[i], kind, key);
    let id = (FIRST_USER_KIND + i) as u16;
    assert(claims(kinds, i, key)) by {
        assert(lists(kinds[i].extensions@, key));
        assert forall|h: int| 0 <= h < i implies !lists((#[trigger] kinds[h]).extensions@, key) by {
            if lists(kinds[h].extensions@, key) {
                assert(i == h);
            }
        }
    }
    assert(owns(kinds, id, key));
    assert(table.by_ext.contains_key(key) && table.by_ext[key] == id);
    assert(table.packages.contains(key) <==> lists(file.package_extensions@, key));
    assert(table.kinds[FIRST_USER_KIND + i].is(kinds[i].name@, kinds[i].color@));
}

} // verus!
