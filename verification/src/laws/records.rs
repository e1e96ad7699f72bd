//! What a directory record says, byte by byte.

use vstd::prelude::*;

use crate::scan::bulk::{
    batch, long, parse_batch, parse_record, parsed, views, word, Malformed, ATTR_CMN_DEVID, ATTR_CMN_ERROR, ATTR_CMN_FILEID,
    ATTR_CMN_NAME, ATTR_CMN_OBJTYPE, ATTR_FILE_ALLOCSIZE, ATTR_FILE_LINKCOUNT,
    ATTR_FILE_TOTALSIZE,
};
use crate::scan::entry::Ent;
use crate::scan::posix::{described, Stat};

verus! {

/// The number that `n` bytes from `at` on spell, the least significant first.
pub open spec fn spelled(bytes: Seq<u8>, at: int, n: nat) -> int
    decreases n,
{
    if n == 0 {
        0
    } else {
        bytes[at] + 256 * spelled(bytes, at + 1, (n - 1) as nat)
    }
}

/// A number of 32 bits with its top bit as a sign.
pub open spec fn with_sign(n: int) -> int {
    if n >= 0x8000_0000 {
        n - 0x1_0000_0000
    } else {
        n
    }
}

/// A size: a number of 63 bits stands for itself, a negative one for nothing.
pub open spec fn as_size(n: int) -> int {
    if n >= 0x8000_0000_0000_0000 {
        0
    } else {
        n
    }
}

/// Where the next attribute stands: behind this one, if it is there.
pub open spec fn behind(at: int, set: u32, bit: u32, size: int) -> int {
    at + if set & bit != 0 {
        size
    } else {
        0
    }
}

/// Where the attributes of a record stand, by the two sets it says it carries.
pub struct Places {
    pub common: u32,
    pub file: u32,
    pub name: int,
    pub dev: int,
    pub objtype: int,
    pub ino: int,
    pub nlink: int,
    pub logical: int,
    pub physical: int,
    pub end: int,
}

pub open spec fn places(rec: Seq<u8>) -> Places {
    let common = spelled(rec, 4, 4) as u32;
    let file = spelled(rec, 16, 4) as u32;
    let name = behind(24, common, ATTR_CMN_ERROR, 4);
    let dev = name + 8;
    let objtype = behind(dev, common, ATTR_CMN_DEVID, 4);
    let ino = behind(objtype, common, ATTR_CMN_OBJTYPE, 4);
    let nlink = behind(ino, common, ATTR_CMN_FILEID, 8);
    let logical = behind(nlink, file, ATTR_FILE_LINKCOUNT, 4);
    let physical = behind(logical, file, ATTR_FILE_TOTALSIZE, 8);
    let end = behind(physical, file, ATTR_FILE_ALLOCSIZE, 8);
    Places { common, file, name, dev, objtype, ino, nlink, logical, physical, end }
}

/// Where the name of a record starts: so far from its reference.
pub open spec fn name_from(rec: Seq<u8>) -> int {
    places(rec).name + with_sign(spelled(rec, places(rec).name, 4))
}

/// Where the name of a record ends: the length counts a NUL that is not part of
/// it.
pub open spec fn name_to(rec: Seq<u8>) -> int {
    let length = spelled(rec, places(rec).name + 4, 4);
    name_from(rec) + if length == 0 {
        0
    } else {
        length - 1
    }
}

/// The error that a record reports; zero if none.
pub open spec fn reported_error(rec: Seq<u8>) -> int {
    if places(rec).common & ATTR_CMN_ERROR != 0 {
        with_sign(spelled(rec, 24, 4))
    } else {
        0
    }
}

/// Whether a record has a name that lies inside it.
pub open spec fn has_name(rec: Seq<u8>) -> bool {
    &&& places(rec).common & ATTR_CMN_NAME != 0
    &&& places(rec).dev <= rec.len()
    &&& 0 <= name_from(rec)
    &&& name_to(rec) <= rec.len()
}

/// Four bytes make a number of 32 bits, eight one of 64.
proof fn lemma_spelled(rec: Seq<u8>, at: int)
    ensures
        spelled(rec, at, 4) == word(rec, at),
        spelled(rec, at, 8) == long(rec, at),
{
    reveal_with_fuel(spelled, 9);
}

proof fn lemma_places(rec: Seq<u8>)
    ensures
        forall|at: int| #[trigger] spelled(rec, at, 4) == word(rec, at),
        forall|at: int| #[trigger] spelled(rec, at, 8) == long(rec, at),
        places(rec).common == word(rec, 4),
        places(rec).file == word(rec, 16),
{
    assert forall|at: int| #[trigger] spelled(rec, at, 4) == word(rec, at) by {
        lemma_spelled(rec, at);
    }
    assert forall|at: int| #[trigger] spelled(rec, at, 8) == long(rec, at) by {
        lemma_spelled(rec, at);
    }
}

/// A record of an entry that the file system could describe says of it what its
/// bytes spell, for any set of attributes that it carries: the sizes in full,
/// all of the name, the device, the inode, the links and the type.
pub proof fn lemma_record_says_what_it_spells(rec: Seq<u8>)
    requires
        has_name(rec),
        reported_error(rec) == 0,
        places(rec).end <= rec.len(),
    ensures
        parsed(rec) is Ok,
        ({
            let p = places(rec);
            let ent = parsed(rec)->Ok_0;
            let size = spelled(rec, p.logical, 8);
            let space = spelled(rec, p.physical, 8);
            let objtype = spelled(rec, p.objtype, 4);
            let typed = p.common & ATTR_CMN_OBJTYPE != 0;
            &&& ent.error == 0
            &&& ent.name == rec.subrange(name_from(rec), name_to(rec))
            &&& ent.logical == if p.file & ATTR_FILE_TOTALSIZE != 0 {
                as_size(size)
            } else {
                0
            }
            &&& ent.physical == if p.file & ATTR_FILE_ALLOCSIZE != 0 {
                as_size(space)
            } else {
                ent.logical as int
            }
            &&& ent.nlink == if p.file & ATTR_FILE_LINKCOUNT != 0 {
                spelled(rec, p.nlink, 4)
            } else {
                1
            }
            &&& ent.ino == if p.common & ATTR_CMN_FILEID != 0 {
                spelled(rec, p.ino, 8)
            } else {
                0
            }
            &&& ent.dev == if p.common & ATTR_CMN_DEVID != 0 {
                with_sign(spelled(rec, p.dev, 4))
            } else {
                0
            }
            &&& ent.is_regular <==> typed && objtype == 1
            &&& ent.is_dir <==> typed && objtype == 2
            &&& ent.is_symlink <==> typed && objtype == 5
        }),
{
    lemma_places(rec);
}

/// A size below two to the power of 63 is read as it is, at whatever place it
/// stands: none of its eight bytes is left out.
pub proof fn lemma_sizes_are_read_in_full(rec: Seq<u8>)
    requires
        has_name(rec),
        reported_error(rec) == 0,
        places(rec).end <= rec.len(),
    ensures
        parsed(rec) matches Ok(ent) && {
            let p = places(rec);
            &&& p.file & ATTR_FILE_TOTALSIZE != 0 && rec[p.logical + 7] < 128 ==> ent.logical
                == rec[p.logical] + 0x100 * rec[p.logical + 1] + 0x1_0000 * rec[p.logical + 2]
                + 0x100_0000 * rec[p.logical + 3] + 0x1_0000_0000 * rec[p.logical + 4]
                + 0x100_0000_0000 * rec[p.logical + 5] + 0x1_0000_0000_0000 * rec[p.logical + 6]
                + 0x100_0000_0000_0000 * rec[p.logical + 7]
            &&& p.file & ATTR_FILE_ALLOCSIZE != 0 && rec[p.physical + 7] < 128 ==> ent.physical
                == rec[p.physical] + 0x100 * rec[p.physical + 1] + 0x1_0000 * rec[p.physical + 2]
                + 0x100_0000 * rec[p.physical + 3] + 0x1_0000_0000 * rec[p.physical + 4]
                + 0x100_0000_0000 * rec[p.physical + 5] + 0x1_0000_0000_0000 * rec[p.physical + 6]
                + 0x100_0000_0000_0000 * rec[p.physical + 7]
        },
{
    lemma_record_says_what_it_spells(rec);
    reveal_with_fuel(spelled, 9);
}

/// A record of an entry that the file system could not describe gives its name
/// and the error, and nothing else.
pub proof fn lemma_errored_record_gives_the_error(rec: Seq<u8>)
    requires
        has_name(rec),
        reported_error(rec) != 0,
    ensures
        parsed(rec) matches Ok(ent) && {
            &&& ent.name == rec.subrange(name_from(rec), name_to(rec))
            &&& ent.error == reported_error(rec)
            &&& !ent.is_dir && !ent.is_symlink && !ent.is_regular
            &&& ent.logical == 0 && ent.physical == 0
            &&& ent.dev == 0 && ent.ino == 0 && ent.nlink == 1
        },
{
    lemma_places(rec);
}

/// No entry is made up: a record without a name inside it, or one that ends
/// before its attributes do, gives none.
pub proof fn lemma_unsound_record_gives_nothing(rec: Seq<u8>)
    requires
        rec.len() < 20 || !has_name(rec) || (reported_error(rec) == 0 && places(rec).end
            > rec.len()),
    ensures
        parsed(rec) is Err,
{
    lemma_places(rec);
}

/// Reading a record gives what its bytes spell.
pub proof fn lemma_parse_record(rec: &[u8], said: Result<Ent<'_>, Malformed>)
    requires
        call_ensures(parse_record, (rec,), said),
    ensures
        has_name(rec@) && reported_error(rec@) == 0 && places(rec@).end <= rec@.len() ==> {
            let p = places(rec@);
            &&& said is Ok
            &&& said->Ok_0.name@ == rec@.subrange(name_from(rec@), name_to(rec@))
            &&& p.file & ATTR_FILE_TOTALSIZE != 0 ==> said->Ok_0.logical == as_size(
                spelled(rec@, p.logical, 8),
            )
            &&& p.file & ATTR_FILE_ALLOCSIZE != 0 ==> said->Ok_0.physical == as_size(
                spelled(rec@, p.physical, 8),
            )
            &&& p.file & ATTR_FILE_LINKCOUNT != 0 ==> said->Ok_0.nlink == spelled(rec@, p.nlink, 4)
            &&& p.common & ATTR_CMN_FILEID != 0 ==> said->Ok_0.ino == spelled(rec@, p.ino, 8)
            &&& p.common & ATTR_CMN_OBJTYPE != 0 ==> (said->Ok_0.is_dir <==> spelled(
                rec@,
                p.objtype,
                4,
            ) == 2)
        },
        has_name(rec@) && reported_error(rec@) != 0 ==> said is Ok && said->Ok_0.error
            == reported_error(rec@),
        rec@.len() < 20 || !has_name(rec@) ==> said is Err,
{
    if rec@.len() < 20 || !has_name(rec@) {
        lemma_unsound_record_gives_nothing(rec@);
    } else if reported_error(rec@) != 0 {
        lemma_errored_record_gives_the_error(rec@);
        assert(said->Ok_0@.error == said->Ok_0.error);
    } else if places(rec@).end <= rec@.len() {
        lemma_record_says_what_it_spells(rec@);
        assert(said->Ok_0@.name == said->Ok_0.name@);
    }
}

/// Reading a reply keeps what was read before and adds one entry for each
/// record, if nothing is wrong with any.
pub proof fn lemma_parse_batch()
    ensures
        forall|buf: &[u8], count: usize, out: &mut Vec<Ent<'_>>, done: Result<(), Malformed>| #[trigger]
            call_ensures(parse_batch, (buf, count, out), done) ==> {
                &&& done is Ok ==> final(out)@.len() == out@.len() + count
                &&& final(out)@.len() <= out@.len() + count
                &&& forall|i: int| 0 <= i < out@.len() ==> #[trigger] final(out)@[i] == out@[i]
            },
{
    assert forall|buf: &[u8], count: usize, out: &mut Vec<Ent<'_>>, done: Result<(), Malformed>| #[trigger]
        call_ensures(parse_batch, (buf, count, out), done) implies {
        &&& done is Ok ==> final(out)@.len() == out@.len() + count
        &&& final(out)@.len() <= out@.len() + count
        &&& forall|i: int| 0 <= i < out@.len() ==> #[trigger] final(out)@[i] == out@[i]
    } by {
        lemma_one_entry_per_record(buf@, 0, count as nat);
        assert(views(final(out)@).len() == final(out)@.len());
        assert(views(out@).len() == out@.len());
        assert forall|i: int| 0 <= i < out@.len() implies #[trigger] final(out)@[i] == out@[i] by {
            assert(final(out)@.take(out@.len() as int)[i] == out@[i]);
        }
    }
}

/// A reply without a fault gives as many entries as it has records, and never
/// more; with a fault, those before it.
pub proof fn lemma_one_entry_per_record(buf: Seq<u8>, at: int, count: nat)
    requires
        0 <= at,
    ensures
        batch(buf, at, count).0.len() <= count,
        batch(buf, at, count).1 is None <==> batch(buf, at, count).0.len() == count,
    decreases count,
{
    if count > 0 {
        lemma_one_entry_per_record(buf, at + word(buf, at), (count - 1) as nat);
    }
}

/// The records of a reply stand one behind the other, each as long as its first
/// four bytes say; the first gives the first entry and the rest the others.
pub proof fn lemma_records_follow_each_other(buf: Seq<u8>, at: int, count: nat)
    requires
        0 <= at,
        count > 0,
        at + 24 <= buf.len(),
        24 <= spelled(buf, at, 4),
        at + spelled(buf, at, 4) <= buf.len(),
    ensures
        ({
            let len = spelled(buf, at, 4);
            let rest = batch(buf, at + len, (count - 1) as nat);
            match parsed(buf.subrange(at, at + len)) {
                Ok(ent) => batch(buf, at, count).0 == seq![ent] + rest.0 && batch(buf, at, count).1
                    == rest.1,
                Err(fault) => batch(buf, at, count).0.len() == 0 && batch(buf, at, count).1 == Some(
                    fault,
                ),
            }
        }),
{
    lemma_places(buf);
}

/// What a `stat` says of an entry is what it becomes: the length if it is not
/// negative, 512 bytes for each block, and the type by the mode.
pub proof fn lemma_stat_is_taken_at_its_word(name: Seq<u8>, st: Stat)
    requires
        st.blocks * 512 <= u64::MAX,
    ensures
        ({
            let ent = described(name, st);
            &&& ent.name == name
            &&& ent.error == 0
            &&& st.size >= 0 ==> ent.logical == st.size
            &&& st.size < 0 ==> ent.logical == 0
            &&& st.blocks >= 0 ==> ent.physical == st.blocks * 512
            &&& st.blocks < 0 ==> ent.physical == 0
            &&& ent.dev == st.dev
            &&& ent.ino == st.ino
            &&& st.nlink < 0x1_0000_0000 ==> ent.nlink == st.nlink
            &&& ent.is_dir <==> st.mode & 0o170000 == 0o040000
            &&& ent.is_symlink <==> st.mode & 0o170000 == 0o120000
            &&& ent.is_regular <==> st.mode & 0o170000 == 0o100000
        }),
{
}

} // verus!
