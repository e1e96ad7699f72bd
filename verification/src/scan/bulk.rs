//! Replies of a bulk directory read.
//!
//! `getattrlistbulk` returns a whole batch of entries *with their metadata
//! already attached*. Records are **variable length** and have to be parsed
//! against the set of attributes each says it carries. Two details are easy to
//! get wrong:
//!
//! * the error attribute is returned **immediately after** the
//!   returned-attribute set, not in bit order with the rest;
//! * the file attributes are simply **absent for directories**, so a fixed
//!   offset for the size fields reads the filename as a size.
//!
//! Numbers stand in the byte order of the machines that have this call, which
//! is least significant byte first.

use vstd::prelude::*;
use vstd::slice::slice_subrange;

use crate::scan::entry::{entry_from_error, undescribed, Ent, EntView};
use crate::text::owned;

verus! {

pub const ATTR_BIT_MAP_COUNT: u16 = 5;

pub const ATTR_CMN_NAME: u32 = 0x0000_0001;

pub const ATTR_CMN_DEVID: u32 = 0x0000_0002;

pub const ATTR_CMN_OBJTYPE: u32 = 0x0000_0008;

pub const ATTR_CMN_FILEID: u32 = 0x0200_0000;

pub const ATTR_CMN_ERROR: u32 = 0x2000_0000;

pub const ATTR_CMN_RETURNED_ATTRS: u32 = 0x8000_0000;

pub const ATTR_FILE_LINKCOUNT: u32 = 0x0000_0001;

pub const ATTR_FILE_TOTALSIZE: u32 = 0x0000_0002;

pub const ATTR_FILE_ALLOCSIZE: u32 = 0x0000_0004;

/// The common attributes that are asked for.
pub const REQUESTED_COMMON: u32 = ATTR_CMN_RETURNED_ATTRS | ATTR_CMN_NAME | ATTR_CMN_DEVID
    | ATTR_CMN_OBJTYPE | ATTR_CMN_FILEID | ATTR_CMN_ERROR;

/// The file attributes that are asked for.
pub const REQUESTED_FILE: u32 = ATTR_FILE_LINKCOUNT | ATTR_FILE_TOTALSIZE | ATTR_FILE_ALLOCSIZE;

/// Object types.
pub const VREG: u32 = 1;

pub const VDIR: u32 = 2;

pub const VLNK: u32 = 5;

/// 256 KiB holds ~3,000 records, which keeps the number of calls at one or two
/// for all but the most absurd directories.
pub const BUF_BYTES: usize = 0x4_0000;

/// Bytes the set of returned attributes occupies in a record (five bitmaps).
pub const RETURNED_ATTRS_BYTES: usize = 20;

/// Smallest record that is accepted: length word plus the returned set.
pub const MIN_RECORD: usize = 24;

/// A reusable reply buffer. One per worker thread; allocating 256 KiB per
/// directory would cost more than the calls it saves.
pub struct Buffer(pub Vec<u8>);

impl Buffer {
    pub fn new() -> (buf: Buffer)
        ensures
            buf.0@ == Seq::new(BUF_BYTES as nat, |i: int| 0u8),
    {
        let buf = Buffer(vec![0; BUF_BYTES]);
        assert(buf.0@ == Seq::new(BUF_BYTES as nat, |i: int| 0u8));
        buf
    }
}

impl Default for Buffer {
    fn default() -> (buf: Buffer)
        ensures
            buf.0@ == Seq::new(BUF_BYTES as nat, |i: int| 0u8),
    {
        Buffer::new()
    }
}

/// What is wrong with a reply.
#[derive(Clone, Copy, Debug, PartialEq, Eq, Structural)]
pub enum Malformed {
    RecordPastBuffer,
    LengthOutsideBuffer,
    NoName,
    NameOutsideRecord,
    AttributePastRecord,
}

impl Malformed {
    pub open spec fn text(&self) -> Seq<char> {
        match *self {
            Malformed::RecordPastBuffer => {
                "getattrlistbulk: record extends past the reply buffer"@
            },
            Malformed::LengthOutsideBuffer => {
                "getattrlistbulk: record length outside the reply buffer"@
            },
            Malformed::NoName => "getattrlistbulk: reply is missing ATTR_CMN_NAME"@,
            Malformed::NameOutsideRecord => {
                "getattrlistbulk: name reference outside the record"@
            },
            Malformed::AttributePastRecord => {
                "getattrlistbulk: attribute runs past the end of its record"@
            },
        }
    }

    /// What the user is told.
    pub fn message(&self) -> (message: String)
        ensures
            message@ == self.text(),
    {
        match self {
            Malformed::RecordPastBuffer => owned(
                "getattrlistbulk: record extends past the reply buffer",
            ),
            Malformed::LengthOutsideBuffer => owned(
                "getattrlistbulk: record length outside the reply buffer",
            ),
            Malformed::NoName => owned("getattrlistbulk: reply is missing ATTR_CMN_NAME"),
            Malformed::NameOutsideRecord => owned(
                "getattrlistbulk: name reference outside the record",
            ),
            Malformed::AttributePastRecord => owned(
                "getattrlistbulk: attribute runs past the end of its record",
            ),
        }
    }
}

/// Why a bulk read failed: the system's error code, or the reply.
#[derive(Clone, Copy, Debug, PartialEq, Eq, Structural)]
pub enum BulkError {
    Os(i32),
    Reply(Malformed),
}

/// The error codes by which a system says that it cannot do bulk reads.
#[derive(Clone, Copy, Debug, PartialEq, Eq, Structural)]
pub struct NotSupported {
    pub einval: i32,
    pub enotsup: i32,
    pub eopnotsupp: i32,
    pub enosys: i32,
}

/// True when the error means "this filesystem cannot do bulk attributes", as
/// opposed to a real failure worth reporting.
pub fn is_unsupported(e: &BulkError, codes: &NotSupported) -> (unsupported: bool)
    ensures
        unsupported == match *e {
            BulkError::Reply(_) => true,
            BulkError::Os(code) => code == codes.einval || code == codes.enotsup || code
                == codes.eopnotsupp || code == codes.enosys,
        },
{
    match e {
        BulkError::Reply(_) => true,
        BulkError::Os(code) => *code == codes.einval || *code == codes.enotsup || *code
            == codes.eopnotsupp || *code == codes.enosys,
    }
}

/// What a call's return value means.
#[derive(Clone, Copy, Debug, PartialEq, Eq, Structural)]
pub enum Reply {
    Failed,
    /// The directory has been read to its end.
    End,
    /// This many records are in the buffer.
    Records(usize),
}

pub fn reply(count: i32) -> (reply: Reply)
    ensures
        reply == if count < 0 {
            Reply::Failed
        } else if count == 0 {
            Reply::End
        } else {
            Reply::Records(count as usize)
        },
{
    if count < 0 {
        Reply::Failed
    } else if count == 0 {
        Reply::End
    } else {
        Reply::Records(count as usize)
    }
}

/// The 32-bit number at `at`.
pub open spec fn word(rec: Seq<u8>, at: int) -> u32 {
    (rec[at] + 0x100 * rec[at + 1] + 0x1_0000 * rec[at + 2] + 0x100_0000 * rec[at + 3]) as u32
}

/// The 64-bit number at `at`.
pub open spec fn long(rec: Seq<u8>, at: int) -> u64 {
    (word(rec, at) + 0x1_0000_0000 * word(rec, at + 4)) as u64
}

/// A 32-bit number read as a signed one.
pub open spec fn signed(v: u32) -> int {
    if v < 0x8000_0000 {
        v as int
    } else {
        v - 0x1_0000_0000
    }
}

/// A 64-bit number read as a signed one, or zero if that is negative.
pub open spec fn size_of_signed(v: u64) -> u64 {
    if v < 0x8000_0000_0000_0000 {
        v
    } else {
        0
    }
}

/// Whether `set` has the attribute `bit`.
pub open spec fn carries(set: u32, bit: u32) -> bool {
    set & bit != 0
}

/// How many bytes an attribute of `size` bytes takes: none when it is absent.
pub open spec fn space(set: u32, bit: u32, size: int) -> int {
    if carries(set, bit) {
        size
    } else {
        0
    }
}

/// Where the attributes of a record stand. Presence is driven entirely by the
/// returned-attribute bitmaps: an attribute whose bit is clear occupies no
/// bytes. Order is bit order within each group, common before file, with the
/// error hoisted to the front.
pub struct Layout {
    pub name: int,
    pub dev: int,
    pub objtype: int,
    pub ino: int,
    pub nlink: int,
    pub logical: int,
    pub physical: int,
    pub end: int,
}

pub open spec fn layout(common: u32, file: u32) -> Layout {
    let name = MIN_RECORD + space(common, ATTR_CMN_ERROR, 4);
    let dev = name + 8;
    let objtype = dev + space(common, ATTR_CMN_DEVID, 4);
    let ino = objtype + space(common, ATTR_CMN_OBJTYPE, 4);
    let nlink = ino + space(common, ATTR_CMN_FILEID, 8);
    let logical = nlink + space(file, ATTR_FILE_LINKCOUNT, 4);
    let physical = logical + space(file, ATTR_FILE_TOTALSIZE, 8);
    let end = physical + space(file, ATTR_FILE_ALLOCSIZE, 8);
    Layout { name, dev, objtype, ino, nlink, logical, physical, end }
}

/// Where a name starts: the offset is relative to the reference's own position.
pub open spec fn name_start(rec: Seq<u8>, at: int) -> int {
    at + signed(word(rec, at))
}

/// How long a name is, without the trailing NUL.
pub open spec fn name_len(rec: Seq<u8>, at: int) -> int {
    if word(rec, at + 4) == 0 {
        0
    } else {
        word(rec, at + 4) - 1
    }
}

/// Whether the name referred to at `at` lies inside the record.
pub open spec fn name_inside(rec: Seq<u8>, at: int) -> bool {
    0 <= name_start(rec, at) && name_start(rec, at) + name_len(rec, at) <= rec.len()
}

/// The name referred to at `at`.
pub open spec fn name_at(rec: Seq<u8>, at: int) -> Seq<u8> {
    rec.subrange(name_start(rec, at), name_start(rec, at) + name_len(rec, at))
}

/// The error a record reports of its entry; zero when it reports none.
pub open spec fn entry_error(rec: Seq<u8>, common: u32) -> int {
    if carries(common, ATTR_CMN_ERROR) {
        signed(word(rec, MIN_RECORD as int))
    } else {
        0
    }
}

/// The entry described by a record whose attributes all lie inside it.
pub open spec fn described(rec: Seq<u8>, common: u32, file: u32) -> EntView {
    let l = layout(common, file);
    let objtype = if carries(common, ATTR_CMN_OBJTYPE) {
        word(rec, l.objtype)
    } else {
        0
    };
    let logical = if carries(file, ATTR_FILE_TOTALSIZE) {
        size_of_signed(long(rec, l.logical))
    } else {
        0
    };
    EntView {
        name: name_at(rec, l.name),
        is_dir: objtype == VDIR,
        is_symlink: objtype == VLNK,
        is_regular: objtype == VREG,
        dev: if carries(common, ATTR_CMN_DEVID) {
            signed(word(rec, l.dev)) as i64
        } else {
            0
        },
        ino: if carries(common, ATTR_CMN_FILEID) {
            long(rec, l.ino)
        } else {
            0
        },
        nlink: if carries(file, ATTR_FILE_LINKCOUNT) {
            word(rec, l.nlink)
        } else {
            1
        },
        logical,
        // A filesystem that reports a length but no allocation is better
        // approximated by the length than by zero.
        physical: if carries(file, ATTR_FILE_ALLOCSIZE) {
            size_of_signed(long(rec, l.physical))
        } else {
            logical
        },
        error: 0,
    }
}

/// What a record says.
pub open spec fn parsed(rec: Seq<u8>) -> Result<EntView, Malformed> {
    let common = word(rec, 4);
    let file = word(rec, 16);
    let l = layout(common, file);
    if rec.len() < 20 || (carries(common, ATTR_CMN_ERROR) && l.name > rec.len()) {
        Err(Malformed::AttributePastRecord)
    } else if !carries(common, ATTR_CMN_NAME) {
        Err(Malformed::NoName)
    } else if l.dev > rec.len() {
        Err(Malformed::AttributePastRecord)
    } else if !name_inside(rec, l.name) {
        Err(Malformed::NameOutsideRecord)
    } else if entry_error(rec, common) != 0 {
        // An entry the filesystem could not describe carries nothing but its
        // name and the error.
        Ok(undescribed(name_at(rec, l.name), 0, entry_error(rec, common) as i32))
    } else if l.end > rec.len() {
        Err(Malformed::AttributePastRecord)
    } else {
        Ok(described(rec, common, file))
    }
}

/// The record that starts at `at`, or what is wrong with its length.
pub open spec fn record_at(buf: Seq<u8>, at: int) -> Result<Seq<u8>, Malformed> {
    if at + MIN_RECORD > buf.len() {
        Err(Malformed::RecordPastBuffer)
    } else if word(buf, at) < MIN_RECORD || at + word(buf, at) > buf.len() {
        Err(Malformed::LengthOutsideBuffer)
    } else {
        Ok(buf.subrange(at, at + word(buf, at)))
    }
}

/// What `count` records from `at` on say: the entries up to the first fault,
/// and the fault.
pub open spec fn batch(buf: Seq<u8>, at: int, count: nat) -> (Seq<EntView>, Option<Malformed>)
    decreases count,
{
    if count == 0 {
        (Seq::empty(), None)
    } else {
        match record_at(buf, at) {
            Err(fault) => (Seq::empty(), Some(fault)),
            Ok(rec) => match parsed(rec) {
                Err(fault) => (Seq::empty(), Some(fault)),
                Ok(ent) => {
                    let rest = batch(buf, at + rec.len(), (count - 1) as nat);
                    (seq![ent] + rest.0, rest.1)
                },
            },
        }
    }
}

/// Reads the 32-bit number at `at`.
fn read_u32(rec: &[u8], at: usize) -> (v: Result<u32, Malformed>)
    ensures
        match v {
            Ok(v) => at + 4 <= rec@.len() && v == word(rec@, at as int),
            Err(e) => at + 4 > rec@.len() && e == Malformed::AttributePastRecord,
        },
{
    if rec.len() < 4 || at > rec.len() - 4 {
        return Err(Malformed::AttributePastRecord);
    }
    let a: u32 = rec[at] as u32;
    let b: u32 = rec[at + 1] as u32;
    let c: u32 = rec[at + 2] as u32;
    let d: u32 = rec[at + 3] as u32;
    Ok(a + 0x100 * b + 0x1_0000 * c + 0x100_0000 * d)
}

/// Reads the 32-bit number at `at` and moves past it.
fn take_u32(rec: &[u8], at: &mut usize) -> (v: Result<u32, Malformed>)
    ensures
        match v {
            Ok(v) => *old(at) + 4 <= rec@.len() && v == word(rec@, *old(at) as int) && *final(at)
                == *old(at) + 4,
            Err(e) => *old(at) + 4 > rec@.len() && e == Malformed::AttributePastRecord
                && *final(at) == *old(at),
        },
{
    match read_u32(rec, *at) {
        Err(e) => Err(e),
        Ok(v) => {
            assert(rec@.len() == rec.len());
            *at = *at + 4;
            Ok(v)
        },
    }
}

/// Reads a signed 32-bit number and moves past it.
fn take_i32(rec: &[u8], at: &mut usize) -> (v: Result<i32, Malformed>)
    ensures
        match v {
            Ok(v) => *old(at) + 4 <= rec@.len() && v == signed(word(rec@, *old(at) as int))
                && *final(at) == *old(at) + 4,
            Err(e) => *old(at) + 4 > rec@.len() && e == Malformed::AttributePastRecord
                && *final(at) == *old(at),
        },
{
    match take_u32(rec, at) {
        Err(e) => Err(e),
        Ok(v) => {
            if v < 0x8000_0000 {
                Ok(v as i32)
            } else {
                Ok((v as i64 - 0x1_0000_0000) as i32)
            }
        },
    }
}

/// Attributes are packed on 4-byte boundaries, so 8-byte values are read as two
/// words.
fn take_u64(rec: &[u8], at: &mut usize) -> (v: Result<u64, Malformed>)
    ensures
        match v {
            Ok(v) => *old(at) + 8 <= rec@.len() && v == long(rec@, *old(at) as int) && *final(at)
                == *old(at) + 8,
            Err(e) => *old(at) + 8 > rec@.len() && e == Malformed::AttributePastRecord
                && *final(at) == *old(at),
        },
{
    if rec.len() < 8 || *at > rec.len() - 8 {
        return Err(Malformed::AttributePastRecord);
    }
    match (read_u32(rec, *at), read_u32(rec, *at + 4)) {
        (Ok(low), Ok(high)) => {
            *at = *at + 8;
            Ok(low as u64 + 0x1_0000_0000 * high as u64)
        },
        _ => Err(Malformed::AttributePastRecord),
    }
}

/// Reads a signed 64-bit size, taking a negative one for zero.
fn take_size(rec: &[u8], at: &mut usize) -> (v: Result<u64, Malformed>)
    ensures
        match v {
            Ok(v) => *old(at) + 8 <= rec@.len() && v == size_of_signed(long(rec@, *old(at) as int))
                && *final(at) == *old(at) + 8,
            Err(e) => *old(at) + 8 > rec@.len() && e == Malformed::AttributePastRecord
                && *final(at) == *old(at),
        },
{
    match take_u64(rec, at) {
        Err(e) => Err(e),
        Ok(v) => {
            if v < 0x8000_0000_0000_0000 {
                Ok(v)
            } else {
                Ok(0)
            }
        },
    }
}

/// Reads a name reference and returns the bytes it points at, minus the
/// trailing NUL.
fn take_name<'a>(rec: &'a [u8], at: &mut usize) -> (name: Result<&'a [u8], Malformed>)
    ensures
        match name {
            Ok(name) => *old(at) + 8 <= rec@.len() && name_inside(rec@, *old(at) as int) && name@
                == name_at(rec@, *old(at) as int) && *final(at) == *old(at) + 8,
            Err(e) => if *old(at) + 8 > rec@.len() {
                e == Malformed::AttributePastRecord
            } else {
                !name_inside(rec@, *old(at) as int) && e == Malformed::NameOutsideRecord
                    && *final(at) == *old(at) + 8
            },
        },
{
    let base: usize = *at;
    let offset: i32 = match take_i32(rec, at) {
        Ok(v) => v,
        Err(e) => return Err(e),
    };
    let length: u32 = match take_u32(rec, at) {
        Ok(v) => v,
        Err(e) => return Err(e),
    };
    let start: i128 = base as i128 + offset as i128;
    let len: i128 = if length == 0 {
        0
    } else {
        (length - 1) as i128
    };
    if start < 0 || start + len > rec.len() as i128 {
        return Err(Malformed::NameOutsideRecord);
    }
    Ok(slice_subrange(rec, start as usize, (start + len) as usize))
}

/// Reads a 32-bit attribute if the record carries it.
fn optional_u32(rec: &[u8], at: &mut usize, present: bool, absent: u32) -> (v: Result<
    u32,
    Malformed,
>)
    ensures
        match v {
            Ok(v) => if present {
                *old(at) + 4 <= rec@.len() && v == word(rec@, *old(at) as int) && *final(at)
                    == *old(at) + 4
            } else {
                v == absent && *final(at) == *old(at)
            },
            Err(e) => present && *old(at) + 4 > rec@.len() && e == Malformed::AttributePastRecord,
        },
{
    if present {
        take_u32(rec, at)
    } else {
        Ok(absent)
    }
}

/// Reads a signed 32-bit attribute if the record carries it; zero if not.
fn optional_i32(rec: &[u8], at: &mut usize, present: bool) -> (v: Result<i32, Malformed>)
    ensures
        match v {
            Ok(v) => if present {
                *old(at) + 4 <= rec@.len() && v == signed(word(rec@, *old(at) as int))
                    && *final(at) == *old(at) + 4
            } else {
                v == 0 && *final(at) == *old(at)
            },
            Err(e) => present && *old(at) + 4 > rec@.len() && e == Malformed::AttributePastRecord,
        },
{
    if present {
        take_i32(rec, at)
    } else {
        Ok(0)
    }
}

/// Reads a 64-bit attribute if the record carries it; zero if not.
fn optional_u64(rec: &[u8], at: &mut usize, present: bool) -> (v: Result<u64, Malformed>)
    ensures
        match v {
            Ok(v) => if present {
                *old(at) + 8 <= rec@.len() && v == long(rec@, *old(at) as int) && *final(at)
                    == *old(at) + 8
            } else {
                v == 0 && *final(at) == *old(at)
            },
            Err(e) => present && *old(at) + 8 > rec@.len() && e == Malformed::AttributePastRecord,
        },
{
    if present {
        take_u64(rec, at)
    } else {
        Ok(0)
    }
}

/// Reads a size if the record carries it.
fn optional_size(rec: &[u8], at: &mut usize, present: bool, absent: u64) -> (v: Result<
    u64,
    Malformed,
>)
    ensures
        match v {
            Ok(v) => if present {
                *old(at) + 8 <= rec@.len() && v == size_of_signed(long(rec@, *old(at) as int))
                    && *final(at) == *old(at) + 8
            } else {
                v == absent && *final(at) == *old(at)
            },
            Err(e) => present && *old(at) + 8 > rec@.len() && e == Malformed::AttributePastRecord,
        },
{
    if present {
        take_size(rec, at)
    } else {
        Ok(absent)
    }
}

/// Reads what follows the name in the record of an entry without error.
fn parse_described<'a>(
    rec: &'a [u8],
    name: &'a [u8],
    common: u32,
    file: u32,
    at: usize,
) -> (ent: Result<Ent<'a>, Malformed>)
    requires
        at == layout(common, file).dev,
        name@ == name_at(rec@, layout(common, file).name),
        at <= rec@.len(),
    ensures
        match ent {
            Ok(ent) => layout(common, file).end <= rec@.len() && ent@ == described(
                rec@,
                common,
                file,
            ),
            Err(e) => layout(common, file).end > rec@.len() && e == Malformed::AttributePastRecord,
        },
{
    let ghost l = layout(common, file);
    let mut at: usize = at;
    let dev: i32 = match optional_i32(rec, &mut at, common & ATTR_CMN_DEVID != 0) {
        Ok(v) => v,
        Err(e) => return Err(e),
    };
    assert(at == l.objtype);
    let objtype: u32 = match optional_u32(rec, &mut at, common & ATTR_CMN_OBJTYPE != 0, 0) {
        Ok(v) => v,
        Err(e) => return Err(e),
    };
    assert(at == l.ino);
    let ino: u64 = match optional_u64(rec, &mut at, common & ATTR_CMN_FILEID != 0) {
        Ok(v) => v,
        Err(e) => return Err(e),
    };
    assert(at == l.nlink);
    let nlink: u32 = match optional_u32(rec, &mut at, file & ATTR_FILE_LINKCOUNT != 0, 1) {
        Ok(v) => v,
        Err(e) => return Err(e),
    };
    assert(at == l.logical);
    // The total size counts every fork and reports the *uncompressed* length
    // for compressed files; the allocation is what the volume actually gave up.
    let logical: u64 = match optional_size(rec, &mut at, file & ATTR_FILE_TOTALSIZE != 0, 0) {
        Ok(v) => v,
        Err(e) => return Err(e),
    };
    assert(at == l.physical);
    let physical: u64 = match optional_size(
        rec,
        &mut at,
        file & ATTR_FILE_ALLOCSIZE != 0,
        logical,
    ) {
        Ok(v) => v,
        Err(e) => return Err(e),
    };
    assert(at == l.end);
    Ok(
        Ent {
            name,
            is_dir: objtype == VDIR,
            is_symlink: objtype == VLNK,
            is_regular: objtype == VREG,
            dev: dev as i64,
            ino,
            nlink,
            logical,
            physical,
            error: 0,
        },
    )
}

/// Walks one record's attributes in the order the kernel emits them.
pub fn parse_record(rec: &[u8]) -> (ent: Result<Ent<'_>, Malformed>)
    ensures
        match ent {
            Ok(ent) => parsed(rec@) == Ok::<EntView, Malformed>(ent@),
            Err(e) => parsed(rec@) == Err::<EntView, Malformed>(e),
        },
{
    let common: u32 = match read_u32(rec, 4) {
        Ok(v) => v,
        Err(e) => return Err(e),
    };
    // The volume, directory and fork groups are never requested. Only these
    // two carry fields that were asked for.
    let file: u32 = match read_u32(rec, 16) {
        Ok(v) => v,
        Err(e) => return Err(e),
    };
    let ghost l = layout(common, file);
    let mut at: usize = MIN_RECORD;
    let error: i32 = match optional_i32(rec, &mut at, common & ATTR_CMN_ERROR != 0) {
        Ok(v) => v,
        Err(e) => return Err(e),
    };
    assert(at == l.name);
    if common & ATTR_CMN_NAME == 0 {
        return Err(Malformed::NoName);
    }
    let name = match take_name(rec, &mut at) {
        Ok(name) => name,
        Err(e) => return Err(e),
    };
    assert(at == l.dev);
    if error != 0 {
        return Ok(entry_from_error(name, 0, error));
    }
    parse_described(rec, name, common, file, at)
}

/// The views of a list of entries.
pub open spec fn views(ents: Seq<Ent>) -> Seq<EntView> {
    ents.map(|i: int, e: Ent| e@)
}

/// Appends the entries of `count` records to `out`. A fault ends the batch; the
/// entries before it have been appended.
pub fn parse_batch<'a>(buf: &'a [u8], count: usize, out: &mut Vec<Ent<'a>>) -> (done: Result<
    (),
    Malformed,
>)
    ensures
        views(final(out)@) == views(old(out)@) + batch(buf@, 0, count as nat).0,
        final(out)@.take(old(out)@.len() as int) == old(out)@,
        match done {
            Ok(()) => batch(buf@, 0, count as nat).1 is None,
            Err(e) => batch(buf@, 0, count as nat).1 == Some(e),
        },
{
    let ghost whole = batch(buf@, 0, count as nat);
    let ghost start = out@;
    let mut at: usize = 0;
    let mut i: usize = 0;
    assert(views(out@) + batch(buf@, at as int, count as nat).0 == views(start) + whole.0);
    assert(out@.take(start.len() as int) == start);
    while i < count
        invariant
            i <= count,
            at <= buf@.len(),
            buf@.len() == buf.len(),
            whole == batch(buf@, 0, count as nat),
            out@.len() >= start.len(),
            out@.take(start.len() as int) == start,
            start == old(out)@,
            views(out@) + batch(buf@, at as int, (count - i) as nat).0 == views(start) + whole.0,
            batch(buf@, at as int, (count - i) as nat).1 == whole.1,
        decreases count - i,
    {
        let ghost rest = batch(buf@, at as int, (count - i) as nat);
        let ghost before = out@;
        assert(views(before) + Seq::<EntView>::empty() == views(before));
        if buf.len() - at < MIN_RECORD {
            return Err(Malformed::RecordPastBuffer);
        }
        let length: usize = match read_u32(buf, at) {
            Ok(v) => v as usize,
            Err(e) => {
                assert(false);
                return Err(e);
            },
        };
        if length < MIN_RECORD || length > buf.len() - at {
            return Err(Malformed::LengthOutsideBuffer);
        }
        // Everything below is read relative to the record, so a bad offset can
        // only ever run off the end of this one record.
        let rec = slice_subrange(buf, at, at + length);
        match parse_record(rec) {
            Err(e) => return Err(e),
            Ok(ent) => {
                out.push(ent);
                proof {
                    let tail = batch(buf@, at + length, (count - i - 1) as nat);
                    assert(rest.0 == seq![ent@] + tail.0);
                    assert(views(out@) == views(before).push(ent@));
                    assert(views(out@) + tail.0 == views(before) + rest.0);
                    assert(out@.take(start.len() as int) == before.take(start.len() as int));
                }
            },
        }
        at = at + length;
        i += 1;
    }
    assert(views(out@) + Seq::<EntView>::empty() == views(out@));
    Ok(())
}

/// Records say the same wherever they stand in the buffer.
proof fn lemma_batch_shift(head: Seq<u8>, tail: Seq<u8>, at: int, count: nat)
    requires
        0 <= at,
    ensures
        batch(head + tail, head.len() + at, count) == batch(tail, at, count),
    decreases count,
{
    if count > 0 {
        let whole = head + tail;
        let to = head.len() + at;
        if at + MIN_RECORD <= tail.len() {
            assert(whole[to] == tail[at] && whole[to + 1] == tail[at + 1] && whole[to + 2]
                == tail[at + 2] && whole[to + 3] == tail[at + 3]);
            let len = word(tail, at);
            if len >= MIN_RECORD && at + len <= tail.len() {
                assert(whole.subrange(to, to + len) == tail.subrange(at, at + len));
                lemma_batch_shift(head, tail, at + len, (count - 1) as nat);
            }
        }
    }
}

/// A batch parses in order: the first record's entry comes first, and the rest
/// is what the rest of the buffer says.
pub proof fn lemma_batch_in_order(rec: Seq<u8>, rest: Seq<u8>, ent: EntView, count: nat)
    requires
        MIN_RECORD <= rec.len(),
        word(rec, 0) == rec.len(),
        parsed(rec) == Ok::<EntView, Malformed>(ent),
    ensures
        batch(rec + rest, 0, count + 1).0 == seq![ent] + batch(rest, 0, count).0,
        batch(rec + rest, 0, count + 1).1 == batch(rest, 0, count).1,
{
    let whole = rec + rest;
    assert(whole.subrange(0, rec.len() as int) == rec);
    assert(whole[0] == rec[0] && whole[1] == rec[1] && whole[2] == rec[2] && whole[3] == rec[3]);
    lemma_batch_shift(rec, rest, 0, count);
}

/// What the kernel carries when it is asked for everything: which bits are set.
proof fn lemma_requested()
    ensures
        carries(REQUESTED_COMMON, ATTR_CMN_NAME),
        carries(REQUESTED_COMMON, ATTR_CMN_DEVID),
        carries(REQUESTED_COMMON, ATTR_CMN_OBJTYPE),
        carries(REQUESTED_COMMON, ATTR_CMN_FILEID),
        carries(REQUESTED_COMMON, ATTR_CMN_ERROR),
        carries(REQUESTED_FILE, ATTR_FILE_LINKCOUNT),
        carries(REQUESTED_FILE, ATTR_FILE_TOTALSIZE),
        carries(REQUESTED_FILE, ATTR_FILE_ALLOCSIZE),
        !carries(0, ATTR_FILE_LINKCOUNT),
        !carries(0, ATTR_FILE_TOTALSIZE),
        !carries(0, ATTR_FILE_ALLOCSIZE),
{
    assert(carries(REQUESTED_COMMON, ATTR_CMN_NAME)) by (bit_vector);
    assert(carries(REQUESTED_COMMON, ATTR_CMN_DEVID)) by (bit_vector);
    assert(carries(REQUESTED_COMMON, ATTR_CMN_OBJTYPE)) by (bit_vector);
    assert(carries(REQUESTED_COMMON, ATTR_CMN_FILEID)) by (bit_vector);
    assert(carries(REQUESTED_COMMON, ATTR_CMN_ERROR)) by (bit_vector);
    assert(carries(REQUESTED_FILE, ATTR_FILE_LINKCOUNT)) by (bit_vector);
    assert(carries(REQUESTED_FILE, ATTR_FILE_TOTALSIZE)) by (bit_vector);
    assert(carries(REQUESTED_FILE, ATTR_FILE_ALLOCSIZE)) by (bit_vector);
    assert(!carries(0, ATTR_FILE_LINKCOUNT)) by (bit_vector);
    assert(!carries(0, ATTR_FILE_TOTALSIZE)) by (bit_vector);
    assert(!carries(0, ATTR_FILE_ALLOCSIZE)) by (bit_vector);
}

/// A file's record carries everything that was asked for, at these places.
pub proof fn lemma_file_record(rec: Seq<u8>)
    requires
        72 <= rec.len(),
        word(rec, 4) == REQUESTED_COMMON,
        word(rec, 16) == REQUESTED_FILE,
        word(rec, 24) == 0,
        name_inside(rec, 28),
    ensures
        parsed(rec) == Ok::<EntView, Malformed>(
            EntView {
                name: name_at(rec, 28),
                is_dir: word(rec, 40) == VDIR,
                is_symlink: word(rec, 40) == VLNK,
                is_regular: word(rec, 40) == VREG,
                dev: signed(word(rec, 36)) as i64,
                ino: long(rec, 44),
                nlink: word(rec, 52),
                logical: size_of_signed(long(rec, 56)),
                physical: size_of_signed(long(rec, 64)),
                error: 0,
            },
        ),
{
    lemma_requested();
}

/// A directory's record has no size fields: what follows the inode is not read
/// as one, whatever it is.
pub proof fn lemma_directory_record(rec: Seq<u8>)
    requires
        52 <= rec.len(),
        word(rec, 4) == REQUESTED_COMMON,
        word(rec, 16) == 0,
        word(rec, 24) == 0,
        word(rec, 40) == VDIR,
        name_inside(rec, 28),
    ensures
        parsed(rec) == Ok::<EntView, Malformed>(
            EntView {
                name: name_at(rec, 28),
                is_dir: true,
                is_symlink: false,
                is_regular: false,
                dev: signed(word(rec, 36)) as i64,
                ino: long(rec, 44),
                nlink: 1,
                logical: 0,
                physical: 0,
                error: 0,
            },
        ),
{
    lemma_requested();
}

/// An errored entry keeps only its name and the error.
pub proof fn lemma_errored_record(rec: Seq<u8>)
    requires
        36 <= rec.len(),
        word(rec, 4) == REQUESTED_COMMON,
        word(rec, 24) != 0,
        name_inside(rec, 28),
    ensures
        parsed(rec) == Ok::<EntView, Malformed>(
            undescribed(name_at(rec, 28), 0, signed(word(rec, 24)) as i32),
        ),
{
    lemma_requested();
}

} // verus!
