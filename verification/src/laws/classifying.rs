//! Which kind a file is of.

use vstd::prelude::*;
use vstd::utf8::{encode_utf8, is_ascii_chars, is_ascii_chars_encode_utf8};

use crate::kinds::builtin::{is_builtin, lemma_gives};
use crate::kinds::color::{channel, color_fault, hex_value, parse_color, ColorFault};
use crate::kinds::ext::{is_last_dot, lower, packed, spec_ext_key, spec_extension};
use crate::kinds::file::{
    bad_entry, bad_extension, bad_file, bad_package, claims, lists, text_key, KindEntry,
    KindsFile,
};
use crate::kinds::fnv::fnv1a;
use crate::kinds::{owns, KindTable, KindTableView, KindsError, UserFile, FIRST_USER_KIND};

verus! {

/// An ASCII capital as a small letter; any other byte as it is.
pub open spec fn small(b: u8) -> int {
    if 65 <= b <= 90 {
        b + 32
    } else {
        b as int
    }
}

/// Whether two extensions are the same but for capitals.
pub open spec fn same_ext(a: Seq<u8>, b: Seq<u8>) -> bool {
    a.len() == b.len() && forall|i: int| 0 <= i < a.len() ==> small(#[trigger] a[i]) == small(b[i])
}

/// A file name of a stem and an extension.
pub open spec fn dotted(stem: Seq<u8>, ext: Seq<u8>) -> Seq<u8> {
    stem + seq![0x2eu8] + ext
}

/// The extension is what follows the last dot, however many dots come before
/// it, unless that dot is where the name starts.
pub proof fn lemma_extension_follows_the_last_dot(stem: Seq<u8>, ext: Seq<u8>)
    requires
        stem.len() > 0,
        forall|i: int| 0 <= i < ext.len() ==> #[trigger] ext[i] != 0x2e,
    ensures
        spec_extension(dotted(stem, ext)) == ext,
{
    let name = dotted(stem, ext);
    let at = stem.len() as int;
    assert(name[at] == 0x2e);
    assert forall|i: int| at < i < name.len() implies #[trigger] name[i] != 0x2e by {
        assert(name[i] == ext[i - at - 1]);
    }
    assert(is_last_dot(name, at));
    let found = choose|p: int| 0 < p && #[trigger] is_last_dot(name, p);
    if found < at {
        assert(name[at] != 0x2e);
    }
    if at < found {
        assert(name[found] != 0x2e);
    }
    assert(name.subrange(at + 1, name.len() as int) == ext);
}

/// A name without a dot behind its first byte has no extension.
pub proof fn lemma_no_dot_no_extension(name: Seq<u8>)
    requires
        forall|i: int| 1 <= i < name.len() ==> #[trigger] name[i] != 0x2e,
    ensures
        spec_extension(name).len() == 0,
{
}

/// Extensions without NULs have one key exactly if they are the same but for
/// capitals: `mp4` and `MP4` do, `mp4` and `mp3`, or `ts` and `tsx`, do not.
pub proof fn lemma_keys_tell_extensions_apart(a: Seq<u8>, b: Seq<u8>)
    requires
        0 < a.len() <= 16,
        0 < b.len() <= 16,
        forall|i: int| 0 <= i < a.len() ==> #[trigger] a[i] != 0,
        forall|i: int| 0 <= i < b.len() ==> #[trigger] b[i] != 0,
    ensures
        spec_ext_key(a) is Some,
        spec_ext_key(a) == spec_ext_key(b) <==> same_ext(a, b),
{
    lemma_packed_tells_apart(a, b);
    lemma_packed_small(a);
    lemma_packed_small(b);
}

/// A packed extension fits its key.
proof fn lemma_packed_small(a: Seq<u8>)
    requires
        a.len() <= 16,
    ensures
        packed(a) <= u128::MAX,
{
    lemma_packed_bound(a);
    reveal_with_fuel(hundreds, 17);
    lemma_hundreds_grow(a.len(), 16);
}

spec fn hundreds(n: nat) -> nat
    decreases n,
{
    if n == 0 {
        1
    } else {
        0x100 * hundreds((n - 1) as nat)
    }
}

proof fn lemma_hundreds_grow(a: nat, b: nat)
    requires
        a <= b,
    ensures
        hundreds(a) <= hundreds(b),
    decreases b - a,
{
    if a < b {
        lemma_hundreds_grow(a, (b - 1) as nat);
    }
}

proof fn lemma_packed_bound(a: Seq<u8>)
    ensures
        packed(a) < hundreds(a.len()),
    decreases a.len(),
{
    if a.len() > 0 {
        lemma_packed_bound(a.drop_first());
    }
}

proof fn lemma_packed_tells_apart(a: Seq<u8>, b: Seq<u8>)
    requires
        forall|i: int| 0 <= i < a.len() ==> #[trigger] a[i] != 0,
        forall|i: int| 0 <= i < b.len() ==> #[trigger] b[i] != 0,
    ensures
        packed(a) == packed(b) <==> same_ext(a, b),
    decreases a.len() + b.len(),
{
    if a.len() > 0 && b.len() > 0 {
        let x = a.drop_first();
        let y = b.drop_first();
        lemma_packed_tells_apart(x, y);
        assert(lower(a[0]) == small(a[0]) && lower(b[0]) == small(b[0]));
        if same_ext(a, b) {
            assert(small(a[0]) == small(b[0]));
            assert forall|i: int| 0 <= i < x.len() implies small(#[trigger] x[i]) == small(y[i]) by {
                assert(small(a[i + 1]) == small(b[i + 1]));
            }
        }
        if packed(a) == packed(b) {
            assert(same_ext(x, y));
            assert forall|i: int| 0 <= i < a.len() implies small(#[trigger] a[i]) == small(b[i]) by {
                if i > 0 {
                    assert(small(x[i - 1]) == small(y[i - 1]));
                }
            }
        }
    } else if a.len() > 0 {
        assert(a[0] != 0);
    } else if b.len() > 0 {
        assert(b[0] != 0);
    }
}

/// Whether some text of a list is this extension but for capitals.
pub open spec fn names_ext(list: Seq<String>, ext: Seq<u8>) -> bool {
    exists|j: int| 0 <= j < list.len() && same_ext(encode_utf8((#[trigger] list[j])@), ext)
}

/// Whether no text of a list holds a NUL.
pub open spec fn no_nuls(list: Seq<String>) -> bool {
    forall|j: int, i: int|
        0 <= j < list.len() && 0 <= i < encode_utf8(list[j]@).len() ==> #[trigger] encode_utf8(
            list[j]@,
        )[i] != 0
}

/// Whether the extensions of a file are such as file names can have.
pub open spec fn plain_file(file: KindsFile) -> bool {
    &&& no_nuls(file.package_extensions@)
    &&& forall|i: int| 0 <= i < file.kinds@.len() ==> no_nuls((#[trigger] file.kinds@[i]).extensions@)
}

/// Whether an extension is such as a file name can have, and short enough to be
/// looked up.
pub open spec fn plain_ext(ext: Seq<u8>) -> bool {
    &&& 0 < ext.len() <= 16
    &&& forall|i: int| 0 <= i < ext.len() ==> #[trigger] ext[i] != 0x2e && ext[i] != 0
}

/// A list has the key of an extension exactly if it names the extension.
proof fn lemma_lists_what_it_names(list: Seq<String>, ext: Seq<u8>)
    requires
        plain_ext(ext),
        no_nuls(list),
    ensures
        spec_ext_key(ext) is Some,
        lists(list, spec_ext_key(ext)->0) <==> names_ext(list, ext),
{
    let key = spec_ext_key(ext)->0;
    if lists(list, key) {
        let j = choose|j: int| 0 <= j < list.len() && text_key((#[trigger] list[j])@) == Some(key);
        let text = encode_utf8(list[j]@);
        assert forall|i: int| 0 <= i < text.len() implies #[trigger] text[i] != 0 by {}
        lemma_keys_tell_extensions_apart(text, ext);
        assert(same_ext(encode_utf8(list[j]@), ext));
    }
    if names_ext(list, ext) {
        let j = choose|j: int|
            0 <= j < list.len() && same_ext(encode_utf8((#[trigger] list[j])@), ext);
        let text = encode_utf8(list[j]@);
        assert forall|i: int| 0 <= i < text.len() implies #[trigger] text[i] != 0 by {}
        lemma_keys_tell_extensions_apart(text, ext);
        assert(text_key(list[j]@) == Some(key));
    }
}

/// A file is of the first kind that names its extension, capitals or not,
/// unless the extension makes a package; what no kind names is of the kind for
/// all others.
pub proof fn lemma_kind_is_the_first_that_names_it(
    table: KindTableView,
    file: KindsFile,
    stem: Seq<u8>,
    ext: Seq<u8>,
)
    requires
        table.wf(),
        table.describes(file),
        plain_file(file),
        plain_ext(ext),
        stem.len() > 0,
    ensures
        table.is_package(dotted(stem, ext)) <==> names_ext(file.package_extensions@, ext),
        names_ext(file.package_extensions@, ext) ==> table.kind_of(dotted(stem, ext)) == 1,
        forall|i: int|
            !names_ext(file.package_extensions@, ext) && 0 <= i < file.kinds@.len() && names_ext(
                (#[trigger] file.kinds@[i]).extensions@,
                ext,
            ) && (forall|h: int|
                0 <= h < i ==> !names_ext((#[trigger] file.kinds@[h]).extensions@, ext))
                ==> table.kind_of(dotted(stem, ext)) == 3 + i
                && table.kinds[table.kind_of(dotted(stem, ext)) as int].name@
                == file.kinds@[i].name@,
        (forall|i: int|
            0 <= i < file.kinds@.len() ==> !names_ext((#[trigger] file.kinds@[i]).extensions@, ext))
            ==> table.kind_of(dotted(stem, ext)) == 1,
{
    let name = dotted(stem, ext);
    let kinds = file.kinds@;
    lemma_extension_follows_the_last_dot(stem, ext);
    lemma_lists_what_it_names(file.package_extensions@, ext);
    let key = spec_ext_key(ext)->0;
    assert(table.packages.contains(key) <==> lists(file.package_extensions@, key));
    assert forall|i: int| 0 <= i < kinds.len() implies (lists(
        (#[trigger] kinds[i]).extensions@,
        key,
    ) <==> names_ext(kinds[i].extensions@, ext)) by {
        lemma_lists_what_it_names(kinds[i].extensions@, ext);
    }
    assert forall|i: int|
        !names_ext(file.package_extensions@, ext) && 0 <= i < kinds.len() && names_ext(
            (#[trigger] kinds[i]).extensions@,
            ext,
        ) && (forall|h: int|
            0 <= h < i ==> !names_ext((#[trigger] kinds[h]).extensions@, ext)) implies table.kind_of(
        name,
    ) == 3 + i && table.kinds[table.kind_of(name) as int].name@ == kinds[i].name@ by {
        assert(claims(kinds, i, key));
        let id = (FIRST_USER_KIND + i) as u16;
        assert(owns(kinds, id, key));
        assert(table.kinds[FIRST_USER_KIND + i].is(kinds[i].name@, kinds[i].color@));
    }
    if forall|i: int|
        0 <= i < kinds.len() ==> !names_ext((#[trigger] kinds[i]).extensions@, ext) {
        if table.by_ext.contains_key(key) {
            assert(owns(kinds, table.by_ext[key], key));
            let i = table.by_ext[key] - FIRST_USER_KIND;
            assert(lists(kinds[i].extensions@, key));
            assert(false);
        }
    }
}

/// An extension of more than sixteen bytes is of the kind for all others and
/// makes no package, whatever is listed.
pub proof fn lemma_long_extensions_are_other(table: KindTableView, stem: Seq<u8>, ext: Seq<u8>)
    requires
        stem.len() > 0,
        ext.len() > 16,
        forall|i: int| 0 <= i < ext.len() ==> #[trigger] ext[i] != 0x2e,
    ensures
        table.kind_of(dotted(stem, ext)) == 1,
        !table.is_package(dotted(stem, ext)),
{
    lemma_extension_follows_the_last_dot(stem, ext);
}

/// The kinds of a table are called and coloured as the file says, in its order,
/// behind the three that every table has.
pub proof fn lemma_kinds_are_those_of_the_file(table: KindTableView, file: KindsFile)
    requires
        table.describes(file),
    ensures
        table.kinds.len() == 3 + file.kinds@.len(),
        table.kinds[0].name@ == file.folder.name@,
        table.kinds[1].name@ == file.other.name@,
        table.kinds[2].name@ == file.free_space.name@,
        forall|i: int|
            0 <= i < file.kinds@.len() ==> table.kinds[3 + i].name@ == (
            #[trigger] file.kinds@[i]).name@,
        forall|c: int|
            0 <= c < 3 ==> {
                &&& #[trigger] table.kinds[0].color@[c] == channel(file.folder.color@, c)
                &&& table.kinds[1].color@[c] == channel(file.other.color@, c)
                &&& table.kinds[2].color@[c] == channel(file.free_space.color@, c)
            },
        forall|i: int, c: int|
            0 <= i < file.kinds@.len() && 0 <= c < 3 ==> #[trigger] table.kinds[3 + i].color@[c]
                == channel(file.kinds@[i].color@, c),
{
    assert forall|i: int| 0 <= i < file.kinds@.len() implies table.kinds[3 + i].name@ == (
    #[trigger] file.kinds@[i]).name@ by {
        assert(table.kinds[FIRST_USER_KIND + i].is(file.kinds@[i].name@, file.kinds@[i].color@));
    }
    assert forall|c: int| 0 <= c < 3 implies {
        &&& #[trigger] table.kinds[0].color@[c] == channel(file.folder.color@, c)
        &&& table.kinds[1].color@[c] == channel(file.other.color@, c)
        &&& table.kinds[2].color@[c] == channel(file.free_space.color@, c)
    } by {
        assert(table.kinds[1].color@[c] == channel(file.other.color@, c));
        assert(table.kinds[2].color@[c] == channel(file.free_space.color@, c));
    }
    assert forall|i: int, c: int|
        0 <= i < file.kinds@.len() && 0 <= c < 3 implies #[trigger] table.kinds[3 + i].color@[c]
        == channel(file.kinds@[i].color@, c) by {
        assert(table.kinds[FIRST_USER_KIND + i].is(file.kinds@[i].name@, file.kinds@[i].color@));
    }
}

/// The hexadecimal digit of a number below sixteen.
pub open spec fn hex_of(v: int, capital: bool) -> char {
    if v < 10 {
        (48 + v) as char
    } else if capital {
        (55 + v) as char
    } else {
        (87 + v) as char
    }
}

/// A colour as it is written down.
pub open spec fn written(r: u8, g: u8, b: u8, capital: bool) -> Seq<char> {
    seq![
        '#',
        hex_of(r as int / 16, capital),
        hex_of(r as int % 16, capital),
        hex_of(g as int / 16, capital),
        hex_of(g as int % 16, capital),
        hex_of(b as int / 16, capital),
        hex_of(b as int % 16, capital),
    ]
}

/// A colour that is written down is read back, in small letters or capitals.
pub proof fn lemma_colors_are_read_back(r: u8, g: u8, b: u8, capital: bool)
    ensures
        color_fault(written(r, g, b, capital)) is None,
        channel(written(r, g, b, capital), 0) == r,
        channel(written(r, g, b, capital), 1) == g,
        channel(written(r, g, b, capital), 2) == b,
{
    let text = written(r, g, b, capital);
    assert forall|v: int, c: bool| 0 <= v < 16 implies hex_value(#[trigger] hex_of(v, c)) == Some(
        v,
    ) by {}
    assert(0 <= r as int / 16 < 16 && 0 <= g as int / 16 < 16 && 0 <= b as int / 16 < 16);
    assert(hex_value(text[1]) is Some && hex_value(text[2]) is Some);
    assert(hex_value(text[3]) is Some && hex_value(text[4]) is Some);
    assert(hex_value(text[5]) is Some && hex_value(text[6]) is Some);
}

/// Whether a character is a hexadecimal digit.
pub open spec fn is_hex(c: char) -> bool {
    48 <= c as int <= 57 || 65 <= c as int <= 70 || 97 <= c as int <= 102
}

/// Nothing else is a colour.
pub proof fn lemma_only_colors_are_read(text: Seq<char>)
    ensures
        color_fault(text) is None <==> text.len() == 7 && text[0] == '#' && forall|i: int|
            1 <= i < 7 ==> is_hex(#[trigger] text[i]),
        color_fault(text) == Some(ColorFault::Hex) <==> text.len() == 7 && text[0] == '#' && exists|
            i: int,
        | 1 <= i < 7 && !is_hex(#[trigger] text[i]),
{
    if text.len() == 7 && text[0] == '#' {
        if forall|i: int| 1 <= i < 7 ==> is_hex(#[trigger] text[i]) {
            assert forall|i: int| 1 <= i < 7 implies hex_value(text[i]) is Some by {
                assert(is_hex(text[i]));
            }
        } else {
            let i = choose|i: int| 1 <= i < 7 && !is_hex(#[trigger] text[i]);
            assert(hex_value(text[i]) is None);
        }
    }
}

/// Whether a list of extensions can be looked up: none is empty or longer than
/// sixteen bytes.
pub open spec fn usable(list: Seq<String>) -> bool {
    forall|j: int| 0 <= j < list.len() ==> 1 <= encode_utf8((#[trigger] list[j])@).len() <= 16
}

/// A file makes a table exactly if its colours are colours, its kinds can be
/// numbered, no extension is empty or too long, and no package extension is too
/// long.
pub proof fn lemma_when_a_file_makes_a_table(file: KindsFile)
    ensures
        bad_file(file) is None <==> {
            &&& color_fault(file.folder.color@) is None
            &&& color_fault(file.other.color@) is None
            &&& color_fault(file.free_space.color@) is None
            &&& file.kinds@.len() <= 65532
            &&& forall|i: int|
                0 <= i < file.kinds@.len() ==> color_fault((#[trigger] file.kinds@[i]).color@)
                    is None && usable(file.kinds@[i].extensions@)
            &&& forall|j: int|
                0 <= j < file.package_extensions@.len() ==> encode_utf8(
                    (#[trigger] file.package_extensions@[j])@,
                ).len() <= 16
        },
{
    lemma_sound_entries(file.kinds@, 0);
    lemma_sound_packages(file.package_extensions@, 0);
}

/// A sound file is taken and its kinds are those of the table; any other is
/// refused.
pub proof fn lemma_from_json(file: &KindsFile, table: Result<KindTable, KindsError>)
    requires
        call_ensures(KindTable::from_json, (file,), table),
    ensures
        table is Ok ==> table->Ok_0@.kinds.len() == 3 + file.kinds@.len(),
        table is Ok ==> file.kinds@.len() <= 65532 && color_fault(file.folder.color@) is None,
        (exists|i: int|
            0 <= i < file.kinds@.len() && !usable((#[trigger] file.kinds@[i]).extensions@))
            ==> table is Err,
        file.kinds@.len() > 65532 ==> table is Err,
        table is Err ==> color_fault(file.folder.color@) is Some || color_fault(file.other.color@)
            is Some || color_fault(file.free_space.color@) is Some || file.kinds@.len() > 65532 || (
        exists|i: int|
            0 <= i < file.kinds@.len() && (color_fault((#[trigger] file.kinds@[i]).color@) is Some
                || !usable(file.kinds@[i].extensions@))) || (exists|j: int|
            0 <= j < file.package_extensions@.len() && encode_utf8(
                (#[trigger] file.package_extensions@[j])@,
            ).len() > 16),
{
    lemma_when_a_file_makes_a_table(*file);
    if exists|i: int|
        0 <= i < file.kinds@.len() && !usable((#[trigger] file.kinds@[i]).extensions@) {
        let i = choose|i: int|
            0 <= i < file.kinds@.len() && !usable((#[trigger] file.kinds@[i]).extensions@);
        assert(!usable(file.kinds@[i].extensions@));
    }
}

/// A user's own table is used where it is sound, and nothing is said of it; a
/// broken one is spoken of, by its path, and the default is used.
pub proof fn lemma_load_or_builtin(found: UserFile, loaded: (KindTable, Option<String>))
    requires
        call_ensures(KindTable::load_or_builtin, (found,), loaded),
    ensures
        found is Missing ==> loaded.1 is None && loaded.0@.is_default(),
        found is Unreadable ==> loaded.1 is Some && loaded.0@.is_default(),
        found is Parsed && bad_file(found->file) is None ==> loaded.1 is None
            && loaded.0@.describes(found->file),
        found is Parsed && bad_file(found->file) is Some ==> loaded.1 is Some
            && loaded.0@.is_default(),
        found is Unreadable ==> found->Unreadable_path@.is_prefix_of(loaded.1->0@),
{
}

/// An ASCII text in bytes: one for each character.
proof fn lemma_ascii(text: Seq<char>)
    requires
        is_ascii_chars(text),
    ensures
        encode_utf8(text).len() == text.len(),
        forall|i: int| 0 <= i < text.len() ==> #[trigger] encode_utf8(text)[i] == text[i] as u8,
{
    is_ascii_chars_encode_utf8(text);
    assert forall|i: int| 0 <= i < text.len() implies #[trigger] encode_utf8(text)[i]
        == text[i] as u8 by {
        assert(text[i] as u8 == encode_utf8(text)[i]);
    }
}

/// The bytes of a few extensions.
proof fn lemma_known_extensions()
    ensures
        encode_utf8("mp4"@) == seq![0x6du8, 0x70u8, 0x34u8],
        encode_utf8("rs"@) == seq![0x72u8, 0x73u8],
        encode_utf8("ts"@) == seq![0x74u8, 0x73u8],
        encode_utf8("app"@) == seq![0x61u8, 0x70u8, 0x70u8],
{
    reveal_strlit("mp4");
    reveal_strlit("rs");
    reveal_strlit("ts");
    reveal_strlit("app");
    lemma_ascii("mp4"@);
    lemma_ascii("rs"@);
    lemma_ascii("ts"@);
    lemma_ascii("app"@);
    assert(encode_utf8("mp4"@) =~= seq![0x6du8, 0x70u8, 0x34u8]);
    assert(encode_utf8("rs"@) =~= seq![0x72u8, 0x73u8]);
    assert(encode_utf8("ts"@) =~= seq![0x74u8, 0x73u8]);
    assert(encode_utf8("app"@) =~= seq![0x61u8, 0x70u8, 0x70u8]);
}

/// Whatever they are called, films are films, sources are sources, pages are
/// pages and apps are packages in the default table.
pub proof fn lemma_default_table(table: KindTableView, stem: Seq<u8>)
    requires
        table.wf(),
        table.is_default(),
        stem.len() > 0,
    ensures
        table.kinds[table.kind_of(
            dotted(stem, seq![0x6du8, 0x70u8, 0x34u8]),
        ) as int].name@ == "Video"@,
        table.kinds[table.kind_of(dotted(stem, seq![0x72u8, 0x73u8])) as int].name@
            == "Source code"@,
        table.kinds[table.kind_of(dotted(stem, seq![0x74u8, 0x73u8])) as int].name@ == "Web"@,
        table.is_package(dotted(stem, seq![0x61u8, 0x70u8, 0x70u8])),
        table.kinds[0].name@ == "Folder"@,
        table.kinds[1].name@ == "Other"@,
        table.kinds[2].name@ == "Free space"@,
{
    let file = choose|file: KindsFile| #[trigger] is_builtin(file) && table.describes(file);
    lemma_known_extensions();
    let mp4 = encode_utf8("mp4"@);
    let rs = encode_utf8("rs"@);
    let ts = encode_utf8("ts"@);
    let app = encode_utf8("app"@);
    lemma_extension_follows_the_last_dot(stem, mp4);
    lemma_extension_follows_the_last_dot(stem, rs);
    lemma_extension_follows_the_last_dot(stem, ts);
    lemma_extension_follows_the_last_dot(stem, app);
    lemma_gives(table, file, dotted(stem, mp4), "Video"@, "mp4"@);
    lemma_gives(table, file, dotted(stem, rs), "Source code"@, "rs"@);
    lemma_gives(table, file, dotted(stem, ts), "Web"@, "ts"@);
    let key = text_key("app"@)->0;
    assert(table.packages.contains(key) <==> lists(file.package_extensions@, key));
}

/// Reading a colour gives its three channels, and refuses what is none.
pub proof fn lemma_parse_color(text: &str, r: u8, g: u8, b: u8, color: Result<[u8; 3], ColorFault>)
    requires
        call_ensures(parse_color, (text,), color),
    ensures
        text@ == written(r, g, b, false) || text@ == written(r, g, b, true) ==> color is Ok
            && color->Ok_0@[0] == r && color->Ok_0@[1] == g && color->Ok_0@[2] == b,
        text@.len() != 7 || text@[0] != '#' ==> color == Err::<[u8; 3], ColorFault>(
            ColorFault::Shape,
        ),
        color is Ok ==> text@.len() == 7,
{
    lemma_colors_are_read_back(r, g, b, false);
    lemma_colors_are_read_back(r, g, b, true);
    lemma_only_colors_are_read(text@);
    if color is Ok {
        assert(color->Ok_0@[0] == channel(text@, 0));
        assert(color->Ok_0@[1] == channel(text@, 1));
        assert(color->Ok_0@[2] == channel(text@, 2));
    }
}

/// One byte more multiplies by the prime what the byte was mixed into; no bytes
/// change nothing.
pub proof fn lemma_fnv(state: u64, bytes: Seq<u8>, b: u8)
    ensures
        fnv1a(state, Seq::empty()) == state,
        fnv1a(state, bytes.push(b)) == ((fnv1a(state, bytes) ^ (b as u64)).wrapping_mul(
            0x100_0000_01b3,
        )),
{
    assert(bytes.push(b).drop_last() == bytes);
}

proof fn lemma_sound_extensions(entry: KindEntry, from: int)
    requires
        0 <= from,
    ensures
        bad_extension(entry, from) is None <==> forall|j: int|
            from <= j < entry.extensions@.len() ==> 1 <= encode_utf8(
                (#[trigger] entry.extensions@[j])@,
            ).len() <= 16,
    decreases entry.extensions@.len() - from,
{
    if from < entry.extensions@.len() {
        lemma_sound_extensions(entry, from + 1);
        let first = encode_utf8(entry.extensions@[from]@);
        assert(text_key(entry.extensions@[from]@) is None <==> first.len() == 0 || first.len() > 16);
    }
}

proof fn lemma_sound_packages(list: Seq<String>, from: int)
    requires
        0 <= from,
    ensures
        bad_package(list, from) is None <==> forall|j: int|
            from <= j < list.len() ==> encode_utf8((#[trigger] list[j])@).len() <= 16,
    decreases list.len() - from,
{
    if from < list.len() {
        lemma_sound_packages(list, from + 1);
        assert(encode_utf8(list[from]@).len() <= 16 || encode_utf8(list[from]@).len() > 16);
    }
}

proof fn lemma_sound_entries(kinds: Seq<KindEntry>, from: int)
    requires
        0 <= from <= 65532,
    ensures
        bad_entry(kinds, from) is None <==> kinds.len() <= 65532 && forall|i: int|
            from <= i < kinds.len() ==> color_fault((#[trigger] kinds[i]).color@) is None && usable(
                kinds[i].extensions@,
            ),
    decreases kinds.len() - from,
{
    if from < kinds.len() {
        let first = kinds[from];
        lemma_sound_extensions(first, 0);
        if from < 65532 {
            lemma_sound_entries(kinds, from + 1);
        }
    }
}

} // verus!
