//! File-kind classification and the colour palette, both data-driven.
//!
//! Lookup is on the hot path (once per file, millions of times), so an
//! extension is packed into a `u128` of lowercased bytes rather than being
//! allocated as a string: no `String`, no UTF-8 validation, one hash.

use std::collections::HashMap;

use vstd::prelude::*;
use vstd::utf8::encode_utf8;

use crate::paths::{copied, join, joined};
use crate::text::owned;

pub mod builtin;
pub mod color;
pub mod ext;
pub mod file;
pub mod fnv;

pub use color::parse_color;
pub use ext::{ext_key, extension, MAX_EXT};
pub use file::{KindEntry, KindsError, KindsFile, NamedColor};
pub use fnv::{BuildFnv, Fnv};

use builtin::{builtin_file, is_builtin};
use color::channel;
use ext::{is_last_dot, lower, lowered, lemma_key_ignores_case, spec_ext_key, spec_extension};
use file::{
    bad_color, bad_entry, bad_extension, bad_file, bad_package, claims, lists, text_key,
};

verus! {

pub const KIND_FOLDER: u16 = 0;

pub const KIND_OTHER: u16 = 1;

pub const KIND_FREE: u16 = 2;

/// First index available to kinds defined in the file.
pub const FIRST_USER_KIND: u16 = 3;

#[derive(Clone, Debug)]
pub struct Kind {
    pub name: String,
    pub color: [u8; 3],
}

impl Kind {
    /// Whether this is the kind a name and a `#rrggbb` describe.
    pub open spec fn is(&self, name: Seq<char>, color: Seq<char>) -> bool {
        &&& self.name@ == name
        &&& forall|i: int| 0 <= i < 3 ==> #[trigger] self.color@[i] == channel(color, i)
    }
}

pub struct KindTable {
    kinds: Vec<Kind>,
    by_ext: HashMap<u128, u16>,
    package_exts: Vec<u128>,
}

/// A kind table as mathematics: the kinds by index, the kind each key belongs
/// to, and the keys of packages.
pub struct KindTableView {
    pub kinds: Seq<Kind>,
    pub by_ext: Map<u128, u16>,
    pub packages: Set<u128>,
}

impl View for KindTable {
    type V = KindTableView;

    closed spec fn view(&self) -> KindTableView {
        KindTableView {
            kinds: self.kinds@,
            by_ext: self.by_ext@,
            packages: self.package_exts@.to_set(),
        }
    }
}

impl KindTableView {
    /// The three fixed kinds are there and every key leads to a kind.
    pub open spec fn wf(&self) -> bool {
        &&& FIRST_USER_KIND <= self.kinds.len() <= u16::MAX
        &&& forall|key: u128| #[trigger]
            self.by_ext.contains_key(key) ==> self.by_ext[key] < self.kinds.len()
    }

    /// The kind of a file with this name. A package extension is checked first
    /// and never names a file kind.
    pub open spec fn kind_of(&self, name: Seq<u8>) -> u16 {
        match spec_ext_key(spec_extension(name)) {
            Some(key) => if !self.packages.contains(key) && self.by_ext.contains_key(key) {
                self.by_ext[key]
            } else {
                KIND_OTHER
            },
            None => KIND_OTHER,
        }
    }

    /// Whether a directory with this name is a package.
    pub open spec fn is_package(&self, name: Seq<u8>) -> bool {
        match spec_ext_key(spec_extension(name)) {
            Some(key) => self.packages.contains(key),
            None => false,
        }
    }

    /// Whether this is the default table.
    pub open spec fn is_default(&self) -> bool {
        exists|file: KindsFile| #[trigger] is_builtin(file) && self.describes(file)
    }

    /// Whether this is the table `file` describes.
    pub open spec fn describes(&self, file: KindsFile) -> bool {
        &&& self.kinds.len() == FIRST_USER_KIND + file.kinds@.len()
        &&& self.kinds[KIND_FOLDER as int].is(file.folder.name@, file.folder.color@)
        &&& self.kinds[KIND_OTHER as int].is(file.other.name@, file.other.color@)
        &&& self.kinds[KIND_FREE as int].is(file.free_space.name@, file.free_space.color@)
        &&& forall|i: int|
            0 <= i < file.kinds@.len() ==> self.kinds[FIRST_USER_KIND + i].is(
                (#[trigger] file.kinds@[i]).name@,
                file.kinds@[i].color@,
            )
        &&& owned_by(self.by_ext, file.kinds@, file.kinds@.len() as int)
        &&& forall|key: u128|
            #[trigger] self.packages.contains(key) <==> lists(file.package_extensions@, key)
    }
}

/// Whether kind `id` is the first that claims `key`.
pub open spec fn owns(kinds: Seq<KindEntry>, id: u16, key: u128) -> bool {
    claims(kinds, id - FIRST_USER_KIND, key)
}

/// Each key belongs to the first of the first `n` kinds that claims it.
pub open spec fn owned_by(by_ext: Map<u128, u16>, kinds: Seq<KindEntry>, n: int) -> bool {
    &&& forall|key: u128| #[trigger]
        by_ext.contains_key(key) ==> by_ext[key] < FIRST_USER_KIND + n && owns(
            kinds,
            by_ext[key],
            key,
        )
    &&& forall|key: u128, id: u16| #[trigger]
        owns(kinds, id, key) && id < FIRST_USER_KIND + n ==> by_ext.contains_key(key)
            && by_ext[key] == id
}

/// A kind from its name and colour, or the error in the colour.
fn make_kind(name: &String, color: &String) -> (kind: Result<Kind, KindsError>)
    ensures
        match kind {
            Ok(kind) => bad_color(color@) is None && kind.is(name@, color@),
            Err(e) => bad_color(color@) == Some(e@),
        },
{
    match parse_color(color.as_str()) {
        Ok(rgb) => Ok(Kind { name: name.clone(), color: rgb }),
        Err(fault) => Err(KindsError::Color { text: color.clone(), fault }),
    }
}

/// Gives every extension of `entry` that no earlier kind claimed to kind `id`.
fn claim_extensions(
    by_ext: &mut HashMap<u128, u16>,
    entry: &KindEntry,
    id: u16,
) -> (done: Result<(), KindsError>)
    ensures
        match done {
            Ok(()) => bad_extension(*entry, 0) is None && forall|key: u128|
                {
                    &&& #[trigger] final(by_ext)@.contains_key(key) <==> (old(by_ext)@.contains_key(
                        key,
                    ) || lists(entry.extensions@, key))
                    &&& old(by_ext)@.contains_key(key) ==> final(by_ext)@[key] == old(by_ext)@[key]
                    &&& !old(by_ext)@.contains_key(key) && lists(entry.extensions@, key)
                        ==> final(by_ext)@[key] == id
                },
            Err(e) => bad_extension(*entry, 0) == Some(e@),
        },
{
    broadcast use vstd::std_specs::hash::group_hash_axioms;

    let ghost before = by_ext@;
    let ghost exts = entry.extensions@;
    for j in 0..entry.extensions.len()
        invariant
            exts == entry.extensions@,
            before == old(by_ext)@,
            bad_extension(*entry, 0) == bad_extension(*entry, j as int),
            forall|key: u128|
                {
                    &&& #[trigger] by_ext@.contains_key(key) <==> (before.contains_key(key)
                        || lists(exts.take(j as int), key))
                    &&& before.contains_key(key) ==> by_ext@[key] == before[key]
                    &&& !before.contains_key(key) && lists(exts.take(j as int), key)
                        ==> by_ext@[key] == id
                },
    {
        let ext = &entry.extensions[j];
        let ghost prior = by_ext@;
        match ext_key(ext.as_str().as_bytes()) {
            None => {
                return Err(
                    KindsError::Extension { ext: ext.clone(), kind: entry.name.clone() },
                );
            },
            Some(found) => {
                // First definition wins, so the file reads top-to-bottom in
                // priority order and a later kind cannot silently steal an
                // extension from an earlier one.
                if !by_ext.contains_key(&found) {
                    by_ext.insert(found, id);
                }
                proof {
                    assert forall|key: u128|
                        {
                            &&& #[trigger] by_ext@.contains_key(key) <==> (before.contains_key(key)
                                || lists(exts.take(j + 1), key))
                            &&& before.contains_key(key) ==> by_ext@[key] == before[key]
                            &&& !before.contains_key(key) && lists(exts.take(j + 1), key)
                                ==> by_ext@[key] == id
                        } by {
                        lemma_lists_grow(exts, j as int, found, key);
                        assert(prior.contains_key(key) || !prior.contains_key(key));
                    }
                }
            },
        }
    }
    assert(exts.take(exts.len() as int) == exts);
    Ok(())
}

/// One more extension lists one more key.
proof fn lemma_lists_grow(exts: Seq<String>, j: int, found: u128, key: u128)
    requires
        0 <= j < exts.len(),
        text_key(exts[j]@) == Some(found),
    ensures
        lists(exts.take(j + 1), key) <==> lists(exts.take(j), key) || key == found,
{
    let less = exts.take(j);
    let more = exts.take(j + 1);
    assert(more[j] == exts[j]);
    if lists(less, key) {
        let k = choose|k: int| 0 <= k < less.len() && text_key((#[trigger] less[k])@) == Some(key);
        assert(more[k] == less[k]);
    }
    if lists(more, key) {
        let k = choose|k: int| 0 <= k < more.len() && text_key((#[trigger] more[k])@) == Some(key);
        if k < j {
            assert(less[k] == more[k]);
        }
    }
}

/// The keys of the package extensions, or the error in the first that is too
/// long for one.
fn package_keys(exts: &Vec<String>) -> (keys: Result<Vec<u128>, KindsError>)
    ensures
        match keys {
            Ok(keys) => bad_package(exts@, 0) is None && forall|key: u128| #[trigger]
                keys@.contains(key) <==> lists(exts@, key),
            Err(e) => bad_package(exts@, 0) == Some(e@),
        },
{
    let mut keys: Vec<u128> = Vec::new();
    for j in 0..exts.len()
        invariant
            bad_package(exts@, 0) == bad_package(exts@, j as int),
            forall|key: u128|
                #[trigger] keys@.contains(key) <==> lists(exts@.take(j as int), key),
    {
        let ghost prior = keys@;
        let bytes = exts[j].as_str().as_bytes();
        if bytes.len() > MAX_EXT {
            return Err(
                KindsError::Extension { ext: exts[j].clone(), kind: owned("package_extensions") },
            );
        }
        let key = ext_key(bytes);
        if let Some(found) = key {
            keys.push(found);
        }
        proof {
            lemma_packages_grow(exts@, j as int, prior, keys@);
        }
    }
    assert(exts@.take(exts@.len() as int) == exts@);
    Ok(keys)
}

/// One more package extension adds its key, where it has one.
proof fn lemma_packages_grow(exts: Seq<String>, j: int, prior: Seq<u128>, keys: Seq<u128>)
    requires
        0 <= j < exts.len(),
        forall|key: u128| #[trigger] prior.contains(key) <==> lists(exts.take(j), key),
        match text_key(exts[j]@) {
            Some(found) => keys == prior.push(found),
            None => keys == prior,
        },
    ensures
        forall|key: u128| #[trigger] keys.contains(key) <==> lists(exts.take(j + 1), key),
{
    assert forall|key: u128| #[trigger] keys.contains(key) <==> lists(exts.take(j + 1), key) by {
        assert(prior.contains(key) <==> lists(exts.take(j), key));
        match text_key(exts[j]@) {
            Some(found) => {
                lemma_lists_grow(exts, j, found, key);
                if prior.contains(key) {
                    let i = choose|i: int| 0 <= i < prior.len() && prior[i] == key;
                    assert(keys[i] == key);
                }
                if key == found {
                    assert(keys[prior.len() as int] == key);
                }
                if keys.contains(key) && key != found {
                    let i = choose|i: int| 0 <= i < keys.len() && keys[i] == key;
                    assert(prior[i] == key);
                }
            },
            None => {
                let less = exts.take(j);
                let more = exts.take(j + 1);
                if lists(less, key) {
                    let k = choose|k: int|
                        0 <= k < less.len() && text_key((#[trigger] less[k])@) == Some(key);
                    assert(more[k] == less[k]);
                }
                if lists(more, key) {
                    let k = choose|k: int|
                        0 <= k < more.len() && text_key((#[trigger] more[k])@) == Some(key);
                    assert(more[k] == exts[k]);
                    assert(less[k] == more[k]);
                }
            },
        }
    }
}

impl KindTable {
    /// The table a file describes, or the first error in it.
    pub fn from_json(file: &KindsFile) -> (table: Result<KindTable, KindsError>)
        ensures
            match table {
                Ok(table) => bad_file(*file) is None && table@.wf() && table@.describes(*file),
                Err(e) => bad_file(*file) == Some(e@),
            },
    {
        broadcast use vstd::std_specs::hash::group_hash_axioms;

        let folder = match make_kind(&file.folder.name, &file.folder.color) {
            Ok(kind) => kind,
            Err(e) => return Err(e),
        };
        let other = match make_kind(&file.other.name, &file.other.color) {
            Ok(kind) => kind,
            Err(e) => return Err(e),
        };
        let free = match make_kind(&file.free_space.name, &file.free_space.color) {
            Ok(kind) => kind,
            Err(e) => return Err(e),
        };
        let mut kinds: Vec<Kind> = Vec::new();
        kinds.push(folder);
        kinds.push(other);
        kinds.push(free);

        let mut by_ext: HashMap<u128, u16> = HashMap::new();
        let ghost entries = file.kinds@;
        for i in 0..file.kinds.len()
            invariant
                entries == file.kinds@,
                bad_file(*file) == (if bad_entry(entries, i as int) is Some {
                    bad_entry(entries, i as int)
                } else {
                    bad_package(file.package_extensions@, 0)
                }),
                i + 3 <= u16::MAX,
                kinds@.len() == i + 3,
                kinds@[0].is(file.folder.name@, file.folder.color@),
                kinds@[1].is(file.other.name@, file.other.color@),
                kinds@[2].is(file.free_space.name@, file.free_space.color@),
                forall|h: int|
                    0 <= h < i ==> kinds@[3 + h].is((#[trigger] entries[h]).name@, entries[h].color@),
                owned_by(by_ext@, entries, i as int),
        {
            let id = kinds.len();
            if id == u16::MAX as usize {
                return Err(KindsError::TooMany);
            }
            let entry = &file.kinds[i];
            assert(*entry == entries[i as int]);
            let kind = match make_kind(&entry.name, &entry.color) {
                Ok(kind) => kind,
                Err(e) => return Err(e),
            };
            kinds.push(kind);
            let ghost before = by_ext@;
            match claim_extensions(&mut by_ext, entry, id as u16) {
                Ok(()) => {},
                Err(e) => return Err(e),
            }
            proof {
                assert forall|key: u128| #[trigger] by_ext@.contains_key(key) implies by_ext@[key]
                    < 3 + i + 1 && owns(entries, by_ext@[key], key) by {
                    lemma_claimed(entries, before, i as int, key);
                    if before.contains_key(key) {
                        assert(owns(entries, before[key], key));
                    }
                }
                assert forall|key: u128, id: u16| #[trigger]
                    owns(entries, id, key) && id < 3 + i + 1 implies by_ext@.contains_key(key)
                    && by_ext@[key] == id by {
                    lemma_claimed(entries, before, i as int, key);
                    if id == 3 + i {
                        assert(claims(entries, i as int, key));
                        assert(!before.contains_key(key));
                    } else {
                        assert(before.contains_key(key));
                    }
                    assert(by_ext@.contains_key(key));
                }
            }
        }

        let package_exts = match package_keys(&file.package_extensions) {
            Ok(keys) => keys,
            Err(e) => return Err(e),
        };
        let table = KindTable { kinds, by_ext, package_exts };
        Ok(table)
    }

    /// The default table.
    pub fn builtin() -> (table: KindTable)
        ensures
            table@.wf(),
            table@.is_default(),
    {
        let file = builtin_file();
        match KindTable::from_json(&file) {
            Ok(table) => table,
            Err(_) => {
                assert(false);
                KindTable { kinds: Vec::new(), by_ext: HashMap::new(), package_exts: Vec::new() }
            },
        }
    }

    /// The table of the user's own file if there is a sound one, otherwise the
    /// default. A broken file must not stop the app from starting, so the error
    /// is returned alongside a working table rather than propagated.
    pub fn load_or_builtin(found: UserFile) -> (loaded: (KindTable, Option<String>))
        ensures
            loaded.0@.wf(),
            match found {
                UserFile::Missing => loaded.1 is None && loaded.0@.is_default(),
                UserFile::Unreadable { path, reason } => loaded.0@.is_default() && loaded.1 is Some
                    && loaded.1->0@ == path@ + ": "@ + reason@,
                UserFile::Parsed { path, file } => match bad_file(file) {
                    None => loaded.1 is None && loaded.0@.describes(file),
                    Some(e) => loaded.0@.is_default() && loaded.1 is Some && loaded.1->0@ == path@
                        + ": "@ + e.text(),
                },
            },
    {
        match found {
            UserFile::Missing => (KindTable::builtin(), None),
            UserFile::Unreadable { path, reason } => {
                let mut note = path;
                note.append(": ");
                note.append(reason.as_str());
                (KindTable::builtin(), Some(note))
            },
            UserFile::Parsed { path, file } => match KindTable::from_json(&file) {
                Ok(table) => (table, None),
                Err(e) => {
                    let mut note = path;
                    note.append(": ");
                    note.append(e.message().as_str());
                    (KindTable::builtin(), Some(note))
                },
            },
        }
    }

    /// Where the user's own file is looked for.
    pub fn user_path(home: Option<&[u8]>) -> (path: Option<Vec<u8>>)
        ensures
            match home {
                None => path is None,
                Some(home) => path is Some && path->0@ == joined(
                    home@,
                    encode_utf8(".config/diskscope/kinds.json"@),
                ),
            },
    {
        match home {
            None => None,
            Some(home) => {
                let mut path = copied(home);
                join(&mut path, ".config/diskscope/kinds.json".as_bytes());
                Some(path)
            },
        }
    }

    pub fn len(&self) -> (n: usize)
        ensures
            n == self@.kinds.len(),
    {
        self.kinds.len()
    }

    pub fn is_empty(&self) -> (empty: bool)
        ensures
            empty == (self@.kinds.len() == 0),
    {
        self.kinds.len() == 0
    }

    pub fn kind(&self, id: u16) -> (kind: &Kind)
        requires
            id < self@.kinds.len(),
        ensures
            *kind == self@.kinds[id as int],
    {
        &self.kinds[id as usize]
    }

    pub fn all(&self) -> (kinds: &[Kind])
        ensures
            kinds@ == self@.kinds,
    {
        self.kinds.as_slice()
    }

    /// Classifies a filename by extension.
    pub fn classify(&self, name: &[u8]) -> (kind: u16)
        ensures
            kind == self@.kind_of(name@),
            self@.wf() ==> kind < self@.kinds.len(),
    {
        broadcast use vstd::std_specs::hash::group_hash_axioms;

        match ext_key(extension(name)) {
            Some(key) => {
                if self.is_package_key(key) {
                    return KIND_OTHER;
                }
                match self.by_ext.get(&key) {
                    Some(id) => *id,
                    None => KIND_OTHER,
                }
            },
            None => KIND_OTHER,
        }
    }

    /// True for `.app`, `.framework` and friends: directories that should be
    /// presented as a single object.
    pub fn is_package(&self, name: &[u8]) -> (package: bool)
        ensures
            package == self@.is_package(name@),
    {
        match ext_key(extension(name)) {
            Some(key) => self.is_package_key(key),
            None => false,
        }
    }

    // A handful of entries, so a linear scan beats hashing.
    fn is_package_key(&self, key: u128) -> (package: bool)
        ensures
            package == self@.packages.contains(key),
    {
        for i in 0..self.package_exts.len()
            invariant
                forall|j: int| 0 <= j < i ==> self.package_exts@[j] != key,
        {
            if self.package_exts[i] == key {
                assert(self.package_exts@.contains(key));
                return true;
            }
        }
        false
    }
}

/// What was found where the user's own table is looked for.
#[derive(Clone, Debug)]
pub enum UserFile {
    /// Nothing, or nowhere to look.
    Missing,
    /// A file that could not be read or is not in the format.
    Unreadable { path: String, reason: String },
    Parsed { path: String, file: KindsFile },
}

/// Names that differ only in case are of one kind, and packages alike.
pub proof fn lemma_kind_ignores_case(table: KindTableView, a: Seq<u8>, b: Seq<u8>)
    requires
        lowered(a) == lowered(b),
    ensures
        table.kind_of(a) == table.kind_of(b),
        table.is_package(a) == table.is_package(b),
{
    assert(lowered(a).len() == a.len() && lowered(b).len() == b.len());
    assert forall|i: int| 0 <= i < a.len() implies lower(#[trigger] a[i]) == lower(b[i]) by {
        assert(lowered(a)[i] == lower(a[i]));
        assert(lowered(b)[i] == lower(b[i]));
    }
    assert forall|at: int| is_last_dot(a, at) == #[trigger] is_last_dot(b, at) by {
        if is_last_dot(a, at) {
            assert(lower(a[at]) == lower(b[at]));
            assert forall|i: int| at < i < b.len() implies #[trigger] b[i] != ext::DOT by {
                assert(a[i] != ext::DOT);
                assert(lower(a[i]) == lower(b[i]));
            }
        }
        if is_last_dot(b, at) {
            assert(lower(a[at]) == lower(b[at]));
            assert forall|i: int| at < i < a.len() implies #[trigger] a[i] != ext::DOT by {
                assert(b[i] != ext::DOT);
                assert(lower(a[i]) == lower(b[i]));
            }
        }
    }
    if exists|at: int| 0 < at && #[trigger] is_last_dot(a, at) {
        let at = choose|at: int| 0 < at && #[trigger] is_last_dot(a, at);
        assert(is_last_dot(b, at));
        lemma_last_dot_is_one(a, at);
        lemma_last_dot_is_one(b, at);
        let x = spec_extension(a);
        let y = spec_extension(b);
        assert(x == a.subrange(at + 1, a.len() as int));
        assert(y == b.subrange(at + 1, b.len() as int));
        assert(lowered(x) == lowered(y));
        lemma_key_ignores_case(x, y);
    } else {
        assert(!exists|at: int| 0 < at && #[trigger] is_last_dot(b, at));
    }
}

proof fn lemma_last_dot_is_one(name: Seq<u8>, at: int)
    requires
        0 < at,
        is_last_dot(name, at),
    ensures
        spec_extension(name) == name.subrange(at + 1, name.len() as int),
{
    let other = choose|at: int| 0 < at && #[trigger] is_last_dot(name, at);
    assert(is_last_dot(name, other));
    if other < at {
        assert(name[at] != ext::DOT);
    }
    if at < other {
        assert(name[other] != ext::DOT);
    }
}

/// A name whose only dot is the one it starts with has no extension: it is of
/// no listed kind and no package.
pub proof fn lemma_dotfile_is_other(table: KindTableView, name: Seq<u8>)
    requires
        is_last_dot(name, 0),
    ensures
        spec_extension(name) == Seq::<u8>::empty(),
        table.kind_of(name) == KIND_OTHER,
        !table.is_package(name),
{
    assert(!exists|at: int| 0 < at && #[trigger] is_last_dot(name, at));
}

/// An extension that makes a package is of no file kind, whatever the kinds
/// list.
pub proof fn lemma_package_is_no_kind(table: KindTableView, name: Seq<u8>)
    requires
        table.is_package(name),
    ensures
        table.kind_of(name) == KIND_OTHER,
{
}

/// First match wins: a name whose extension two kinds list belongs to the one
/// that comes first.
pub proof fn lemma_first_match_wins(
    table: KindTableView,
    file: KindsFile,
    name: Seq<u8>,
    first: int,
)
    requires
        table.describes(file),
        table.wf(),
        spec_ext_key(spec_extension(name)) is Some,
        claims(file.kinds@, first, spec_ext_key(spec_extension(name))->0),
        !table.is_package(name),
    ensures
        table.kind_of(name) == FIRST_USER_KIND + first,
{
    let key = spec_ext_key(spec_extension(name))->0;
    assert(owns(file.kinds@, (FIRST_USER_KIND + first) as u16, key));
}

/// While the first `n` entries have been read, a key is taken exactly if one of
/// them lists it.
proof fn lemma_claimed(entries: Seq<KindEntry>, by_ext: Map<u128, u16>, n: int, key: u128)
    requires
        0 <= n <= entries.len(),
        n + 3 <= u16::MAX,
        owned_by(by_ext, entries, n),
    ensures
        by_ext.contains_key(key) <==> exists|h: int|
            0 <= h < n && lists((#[trigger] entries[h]).extensions@, key),
    decreases n,
{
    if by_ext.contains_key(key) {
        let id = by_ext[key];
        assert(owns(entries, id, key));
        assert(lists(entries[id - 3].extensions@, key));
    }
    if exists|h: int| 0 <= h < n && lists((#[trigger] entries[h]).extensions@, key) {
        let h = choose|h: int| 0 <= h < n && lists((#[trigger] entries[h]).extensions@, key);
        let first = lemma_first_claim(entries, h, key);
        let id = (first + 3) as u16;
        assert(owns(entries, id, key));
    }
}

/// If entry `h` lists a key, some entry up to `h` is the first to.
proof fn lemma_first_claim(entries: Seq<KindEntry>, h: int, key: u128) -> (first: int)
    requires
        0 <= h < entries.len(),
        lists(entries[h].extensions@, key),
    ensures
        0 <= first <= h,
        claims(entries, first, key),
    decreases h,
{
    if exists|g: int| 0 <= g < h && lists((#[trigger] entries[g]).extensions@, key) {
        let g = choose|g: int| 0 <= g < h && lists((#[trigger] entries[g]).extensions@, key);
        lemma_first_claim(entries, g, key)
    } else {
        h
    }
}

} // verus!
