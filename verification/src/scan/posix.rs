//! Directory entries as `stat` describes them.
//!
//! The slow path, for filesystems that reject the bulk read, and the only one
//! where there is no bulk read.

use vstd::prelude::*;

use crate::scan::entry::{Ent, EntView};

verus! {

/// Mask of the file type in a mode.
pub const S_IFMT: u32 = 0o170000;

pub const S_IFDIR: u32 = 0o040000;

pub const S_IFLNK: u32 = 0o120000;

pub const S_IFREG: u32 = 0o100000;

/// The byte `.`.
pub const DOT: u8 = 0x2e;

/// The fields of a `stat` that the scan reads.
#[derive(Clone, Copy, Debug, PartialEq, Eq, Structural)]
pub struct Stat {
    pub mode: u32,
    pub dev: i64,
    pub ino: u64,
    pub nlink: u64,
    pub size: i64,
    /// Always in 512-byte units regardless of the volume's block size.
    pub blocks: i64,
}

/// `n`, or zero if it is negative.
pub open spec fn at_least_zero(n: i64) -> u64 {
    if n < 0 {
        0
    } else {
        n as u64
    }
}

/// The entry a `stat` describes. Blocks miss resource forks, which the bulk
/// read would include: the one respect in which this is less accurate.
pub open spec fn described(name: Seq<u8>, st: Stat) -> EntView {
    EntView {
        name,
        is_dir: st.mode & S_IFMT == S_IFDIR,
        is_symlink: st.mode & S_IFMT == S_IFLNK,
        is_regular: st.mode & S_IFMT == S_IFREG,
        dev: st.dev,
        ino: st.ino,
        nlink: (st.nlink % 0x1_0000_0000) as u32,
        logical: at_least_zero(st.size),
        physical: (at_least_zero(st.blocks) * 512) as u64,
        error: 0,
    }
}

fn not_below_zero(n: i64) -> (m: u64)
    ensures
        m == at_least_zero(n),
{
    if n < 0 {
        0
    } else {
        n as u64
    }
}

/// The entry a `stat` describes.
pub fn entry_from_stat<'a>(name: &'a [u8], st: &Stat) -> (ent: Ent<'a>)
    requires
        st.blocks * 512 <= u64::MAX,
    ensures
        ent@ == described(name@, *st),
{
    let kind: u32 = st.mode & S_IFMT;
    Ent {
        name,
        is_dir: kind == S_IFDIR,
        is_symlink: kind == S_IFLNK,
        is_regular: kind == S_IFREG,
        dev: st.dev,
        ino: st.ino,
        nlink: (st.nlink % 0x1_0000_0000) as u32,
        logical: not_below_zero(st.size),
        physical: not_below_zero(st.blocks) * 512,
        error: 0,
    }
}

/// Whether a name is one of the two every directory lists for itself and its
/// parent; they are skipped.
pub fn is_dot_entry(name: &[u8]) -> (dots: bool)
    ensures
        dots == (name@ == seq![DOT] || name@ == seq![DOT, DOT]),
{
    let one = name.len() == 1 && name[0] == DOT;
    let two = name.len() == 2 && name[0] == DOT && name[1] == DOT;
    assert(one ==> name@ == seq![DOT]);
    assert(two ==> name@ == seq![DOT, DOT]);
    one || two
}

/// Whether the end of a listing is a failure: the listing says so by an error
/// code other than zero.
pub fn ended_badly(code: Option<i32>) -> (bad: bool)
    ensures
        bad == (code is Some && code->0 != 0),
{
    match code {
        Some(code) => code != 0,
        None => false,
    }
}

} // verus!
