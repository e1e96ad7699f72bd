//! Which programs show and open files, and what can be scanned.

use vstd::prelude::*;
use vstd::utf8::encode_utf8;

use crate::paths::{copied, file_name, has_parent, is_parent, join, joined, last_name, parent, texts};
use crate::text::{lossy, lossy_text, owned};

verus! {

/// A program to start, and what to hand it.
#[derive(Debug)]
pub struct Launch {
    pub program: &'static str,
    pub args: Vec<Vec<u8>>,
}

/// Whether `folder` is what a file manager opens for `path`: the folder itself,
/// or the one that holds the file.
pub open spec fn is_folder_of(path: Seq<u8>, is_dir: bool, folder: Seq<u8>) -> bool {
    if is_dir || !has_parent(path) {
        folder == path
    } else {
        is_parent(path, folder)
    }
}

/// The program that opens things on this kind of desktop.
pub open spec fn opener(macos: bool) -> Seq<char> {
    if macos {
        "open"@
    } else {
        "xdg-open"@
    }
}

fn opener_name(macos: bool) -> (name: &'static str)
    ensures
        name@ == opener(macos),
{
    if macos {
        "open"
    } else {
        "xdg-open"
    }
}

/// How to show an item in the desktop's file manager.
///
/// macOS can select the item itself. Elsewhere there is no portable equivalent,
/// so the containing folder is opened and nothing is selected in it.
pub fn reveal_in_file_manager(path: &[u8], is_dir: bool, macos: bool) -> (launch: Launch)
    ensures
        launch.program@ == opener(macos),
        macos ==> texts(launch.args@) == seq![encode_utf8("-R"@), path@],
        !macos ==> launch.args@.len() == 1 && is_folder_of(path@, is_dir, launch.args@[0]@),
{
    let program = opener_name(macos);
    let mut args: Vec<Vec<u8>> = Vec::new();
    if macos {
        args.push(copied("-R".as_bytes()));
        args.push(copied(path));
        assert(texts(args@) == seq![encode_utf8("-R"@), path@]);
    } else if is_dir {
        args.push(copied(path));
    } else {
        match parent(path) {
            Some(folder) => args.push(folder),
            None => args.push(copied(path)),
        }
    }
    Launch { program, args }
}

/// How to open an item with whatever app owns it.
pub fn open_path(path: &[u8], macos: bool) -> (launch: Launch)
    ensures
        launch.program@ == opener(macos),
        texts(launch.args@) == seq![path@],
{
    let mut args: Vec<Vec<u8>> = Vec::new();
    args.push(copied(path));
    assert(texts(args@) == seq![path@]);
    Launch { program: opener_name(macos), args }
}

/// The directories the desktop mounts volumes into.
pub open spec fn mount_dirs(user: Option<Seq<u8>>, macos: bool) -> Seq<Seq<u8>> {
    if macos {
        seq![encode_utf8("/Volumes"@)]
    } else {
        let fixed = seq![encode_utf8("/media"@), encode_utf8("/mnt"@)];
        match user {
            Some(user) => fixed.push(joined(encode_utf8("/run/media"@), user)),
            None => fixed,
        }
    }
}

/// Directories the desktop mounts volumes into. macOS gathers them all under
/// `/Volumes`; Linux spreads them across a few conventional roots, one of them
/// per user.
pub fn mount_roots(user: Option<&[u8]>, macos: bool) -> (roots: Vec<Vec<u8>>)
    ensures
        texts(roots@) == mount_dirs(
            match user {
                Some(user) => Some(user@),
                None => None,
            },
            macos,
        ),
{
    let mut roots: Vec<Vec<u8>> = Vec::new();
    if macos {
        roots.push(copied("/Volumes".as_bytes()));
        assert(texts(roots@) == seq![encode_utf8("/Volumes"@)]);
        return roots;
    }
    roots.push(copied("/media".as_bytes()));
    roots.push(copied("/mnt".as_bytes()));
    assert(texts(roots@) == seq![encode_utf8("/media"@), encode_utf8("/mnt"@)]);
    if let Some(user) = user {
        let ghost fixed = texts(roots@);
        let mut own = copied("/run/media".as_bytes());
        join(&mut own, user);
        let ghost added = own@;
        roots.push(own);
        assert(texts(roots@) == fixed.push(added));
    }
    roots
}

/// Whether `a` comes before `b`, letter by letter.
pub open spec fn before(a: Seq<char>, b: Seq<char>) -> bool
    decreases a.len(),
{
    if b.len() == 0 {
        false
    } else if a.len() == 0 {
        true
    } else if a[0] != b[0] {
        a[0] < b[0]
    } else {
        before(a.drop_first(), b.drop_first())
    }
}

fn comes_before(a: &str, b: &str) -> (yes: bool)
    ensures
        yes == before(a@, b@),
{
    let m: usize = a.unicode_len();
    let n: usize = b.unicode_len();
    let mut i: usize = 0;
    assert(a@.skip(0) == a@ && b@.skip(0) == b@);
    while i < m && i < n
        invariant
            0 <= i <= m,
            i <= n,
            m == a@.len(),
            n == b@.len(),
            before(a@, b@) == before(a@.skip(i as int), b@.skip(i as int)),
        decreases m - i,
    {
        let x = a.get_char(i);
        let y = b.get_char(i);
        if x != y {
            return x < y;
        }
        assert(a@.skip(i as int).drop_first() == a@.skip(i + 1));
        assert(b@.skip(i as int).drop_first() == b@.skip(i + 1));
        i = i + 1;
    }
    i < n
}

/// No text comes before itself, and of two texts at most one comes before the
/// other.
proof fn lemma_one_way(a: Seq<char>, b: Seq<char>)
    ensures
        before(a, b) ==> !before(b, a),
    decreases a.len(),
{
    if a.len() > 0 && b.len() > 0 && a[0] == b[0] {
        lemma_one_way(a.drop_first(), b.drop_first());
    }
}

/// Not coming after is handed on.
proof fn lemma_chain(a: Seq<char>, b: Seq<char>, c: Seq<char>)
    requires
        !before(b, a),
        !before(c, b),
    ensures
        !before(c, a),
    decreases a.len(),
{
    if a.len() > 0 && b.len() > 0 && c.len() > 0 && a[0] == b[0] && b[0] == c[0] {
        lemma_chain(a.drop_first(), b.drop_first(), c.drop_first());
    }
}

/// Something that can be scanned: what it is called and where it is.
#[derive(Debug)]
pub struct Target {
    pub label: String,
    pub path: Vec<u8>,
}

/// A target as mathematics.
pub struct TargetView {
    pub label: Seq<char>,
    pub path: Seq<u8>,
}

impl View for Target {
    type V = TargetView;

    open spec fn view(&self) -> TargetView {
        TargetView { label: self.label@, path: self.path@ }
    }
}

/// The targets of a list.
pub open spec fn listed(list: Seq<Target>) -> Seq<TargetView> {
    list.map(|i: int, t: Target| t@)
}

/// Where a target belongs in a list: behind everything it does not come before.
pub open spec fn slot(list: Seq<TargetView>, label: Seq<char>) -> int
    decreases list.len(),
{
    if list.len() > 0 && before(label, list.last().label) {
        slot(list.drop_last(), label)
    } else {
        list.len() as int
    }
}

/// A list in the order of its labels; what is called alike stays in its order.
pub open spec fn arranged(list: Seq<TargetView>) -> Seq<TargetView>
    decreases list.len(),
{
    if list.len() == 0 {
        list
    } else {
        let rest = arranged(list.drop_last());
        rest.insert(slot(rest, list.last().label), list.last())
    }
}

proof fn lemma_slot(list: Seq<TargetView>, label: Seq<char>)
    ensures
        0 <= slot(list, label) <= list.len(),
        slot(list, label) > 0 ==> !before(label, list[slot(list, label) - 1].label),
        forall|i: int|
            slot(list, label) <= i < list.len() ==> before(label, (#[trigger] list[i]).label),
    decreases list.len(),
{
    if list.len() > 0 && before(label, list.last().label) {
        lemma_slot(list.drop_last(), label);
        assert forall|i: int| slot(list, label) <= i < list.len() implies before(
            label,
            (#[trigger] list[i]).label,
        ) by {
            if i < list.len() - 1 {
                assert(list.drop_last()[i] == list[i]);
            }
        }
    }
}

/// Whether no label of a list comes before an earlier one.
pub open spec fn in_order(list: Seq<TargetView>) -> bool {
    forall|i: int, j: int|
        0 <= i < j < list.len() ==> !before((#[trigger] list[j]).label, (#[trigger] list[i]).label)
}

/// Arranging a list loses nothing, adds nothing, and leaves it in order.
pub proof fn lemma_arranged(list: Seq<TargetView>)
    ensures
        in_order(arranged(list)),
        arranged(list).to_multiset() == list.to_multiset(),
        arranged(list).len() == list.len(),
    decreases list.len(),
{
    broadcast use vstd::seq_lib::group_to_multiset_ensures;

    if list.len() > 0 {
        let rest = arranged(list.drop_last());
        let new = list.last();
        let at = slot(rest, new.label);
        let all = arranged(list);
        lemma_arranged(list.drop_last());
        lemma_slot(rest, new.label);
        assert(list.drop_last().push(new) == list);
        assert forall|i: int, j: int| 0 <= i < j < all.len() implies !before(
            (#[trigger] all[j]).label,
            (#[trigger] all[i]).label,
        ) by {
            let x = if i < at {
                i
            } else {
                i - 1
            };
            let y = if j < at {
                j
            } else {
                j - 1
            };
            if j == at {
                if i < at - 1 {
                    lemma_chain(rest[i].label, rest[at - 1].label, new.label);
                }
            } else if i == at {
                lemma_one_way(new.label, rest[y].label);
            } else {
                assert(all[i] == rest[x] && all[j] == rest[y]);
            }
        }
    }
}

/// Puts a list in the order of its labels.
fn arrange(list: Vec<Target>) -> (out: Vec<Target>)
    ensures
        listed(out@) == arranged(listed(list@)),
{
    let ghost all = listed(list@);
    let mut rest = list;
    let mut taken: Vec<Target> = Vec::new();
    while rest.len() > 0
        invariant
            rest@.len() + taken@.len() == all.len(),
            listed(rest@) == all.take(rest@.len() as int),
            forall|i: int|
                0 <= i < taken@.len() ==> (#[trigger] taken@[i])@ == all[all.len() - 1 - i],
        decreases rest@.len(),
    {
        let ghost before_pop = rest@;
        if let Some(t) = rest.pop() {
            assert(listed(before_pop)[before_pop.len() - 1] == t@);
            assert(listed(rest@) == listed(before_pop).drop_last());
            assert(all.take(before_pop.len() as int).drop_last() == all.take(rest@.len() as int));
            taken.push(t);
        }
    }
    let mut out: Vec<Target> = Vec::new();
    assert(listed(out@) == all.take(0));
    while taken.len() > 0
        invariant
            taken@.len() <= all.len(),
            forall|i: int|
                0 <= i < taken@.len() ==> (#[trigger] taken@[i])@ == all[all.len() - 1 - i],
            listed(out@) == arranged(all.take(all.len() - taken@.len())),
        decreases taken@.len(),
    {
        let ghost was = listed(out@);
        let ghost done = all.len() - taken@.len();
        if let Some(t) = taken.pop() {
            let mut at: usize = out.len();
            assert(was.take(was.len() as int) == was);
            while at > 0 && comes_before(t.label.as_str(), out[at - 1].label.as_str())
                invariant
                    0 <= at <= out@.len(),
                    was == listed(out@),
                    slot(was, t@.label) == slot(was.take(at as int), t@.label),
                decreases at,
            {
                assert(was.take(at as int).last() == out@[at - 1]@);
                assert(was.take(at as int).drop_last() == was.take(at - 1));
                at = at - 1;
            }
            proof {
                if at > 0 {
                    assert(was.take(at as int).last() == out@[at - 1]@);
                }
            }
            let ghost held = t@;
            out.insert(at, t);
            assert(listed(out@) == was.insert(at as int, held));
            assert(all.take(done + 1).drop_last() == all.take(done));
            assert(all.take(done + 1).last() == held);
        }
    }
    assert(all.take(all.len() as int) == all);
    out
}

/// An entry of a directory that volumes are mounted into.
#[derive(Debug)]
pub struct MountEntry {
    pub name: Vec<u8>,
    /// Whether it is a directory, and no link to one.
    pub is_dir: bool,
}

/// A directory that volumes are mounted into, and what is in it.
#[derive(Debug)]
pub struct MountRoot {
    pub dir: Vec<u8>,
    pub entries: Vec<MountEntry>,
}

/// The volumes among the first `n` entries of a mount root.
pub open spec fn volumes(root: MountRoot, n: int) -> Seq<TargetView>
    decreases n,
{
    if n <= 0 {
        Seq::empty()
    } else {
        let entry = root.entries@[n - 1];
        if entry.is_dir {
            volumes(root, n - 1).push(
                TargetView {
                    label: lossy_text(entry.name@),
                    path: joined(root.dir@, entry.name@),
                },
            )
        } else {
            volumes(root, n - 1)
        }
    }
}

/// The volumes of a mount root, by label.
pub open spec fn mounted(root: MountRoot) -> Seq<TargetView> {
    arranged(volumes(root, root.entries@.len() as int))
}

/// The volumes of the first `n` mount roots, root by root.
pub open spec fn all_mounted(roots: Seq<MountRoot>, n: int) -> Seq<TargetView>
    decreases n,
{
    if n <= 0 {
        Seq::empty()
    } else {
        all_mounted(roots, n - 1) + mounted(roots[n - 1])
    }
}

/// The user's own directory as a target.
pub open spec fn home_target(home: Option<Seq<u8>>) -> Seq<TargetView> {
    match home {
        Some(home) => seq![
            TargetView {
                label: match last_name(home) {
                    Some(name) => lossy_text(name),
                    None => "Home"@,
                },
                path: home,
            },
        ],
        None => Seq::empty(),
    }
}

/// The whole file system as a target.
pub open spec fn root_target(macos: bool) -> TargetView {
    TargetView {
        label: if macos {
            "Macintosh HD"@
        } else {
            "Filesystem"@
        },
        path: encode_utf8("/"@),
    }
}

/// The volumes of one mount root.
fn mounted_at(root: &MountRoot) -> (out: Vec<Target>)
    ensures
        listed(out@) == mounted(*root),
{
    let mut out: Vec<Target> = Vec::new();
    assert(listed(out@) == Seq::<TargetView>::empty());
    for i in 0..root.entries.len()
        invariant
            listed(out@) == volumes(*root, i as int),
    {
        let entry = &root.entries[i];
        if entry.is_dir {
            let ghost was = listed(out@);
            let mut path = copied(root.dir.as_slice());
            join(&mut path, entry.name.as_slice());
            let target = Target { label: lossy(entry.name.as_slice()), path };
            let ghost added = target@;
            out.push(target);
            assert(listed(out@) == was.push(added));
        }
    }
    arrange(out)
}

/// The user's own directory, the whole file system, then the volumes that are
/// mounted: in the order a person would look for them.
pub fn scan_targets(home: Option<&[u8]>, macos: bool, mounts: &Vec<MountRoot>) -> (out: Vec<Target>)
    ensures
        listed(out@) == home_target(
            match home {
                Some(home) => Some(home@),
                None => None,
            },
        ).push(root_target(macos)) + all_mounted(mounts@, mounts@.len() as int),
{
    let mut out: Vec<Target> = Vec::new();
    assert(listed(out@) == Seq::<TargetView>::empty());
    if let Some(home) = home {
        let label = match file_name(home) {
            Some(name) => lossy(name.as_slice()),
            None => owned("Home"),
        };
        out.push(Target { label, path: copied(home) });
        assert(listed(out@) == home_target(Some(home@)));
    }
    let ghost first = listed(out@);
    let label = owned(
        if macos {
            "Macintosh HD"
        } else {
            "Filesystem"
        },
    );
    out.push(Target { label, path: copied("/".as_bytes()) });
    assert(listed(out@) == first.push(root_target(macos)));
    let ghost fixed = listed(out@);
    assert(fixed + all_mounted(mounts@, 0) == fixed);
    for i in 0..mounts.len()
        invariant
            listed(out@) == fixed + all_mounted(mounts@, i as int),
    {
        let ghost was = out@;
        let mut more = mounted_at(&mounts[i]);
        let ghost added = more@;
        out.append(&mut more);
        assert(listed(was + added) == listed(was) + listed(added));
        assert(fixed + all_mounted(mounts@, i as int) + mounted(mounts@[i as int]) == fixed + (
        all_mounted(mounts@, i as int) + mounted(mounts@[i as int])));
    }
    out
}

} // verus!
