//! One record of a directory.

use vstd::prelude::*;

verus! {

/// One directory entry as reported by either walker. `name` borrows the
/// walker's buffer.
#[derive(Clone, Copy, Debug)]
pub struct Ent<'a> {
    pub name: &'a [u8],
    pub is_dir: bool,
    pub is_symlink: bool,
    pub is_regular: bool,
    pub dev: i64,
    pub ino: u64,
    pub nlink: u32,
    pub logical: u64,
    pub physical: u64,
    /// `errno` for entries the filesystem could not describe; 0 when fine.
    pub error: i32,
}

/// An [`Ent`] with its name as a byte sequence.
pub struct EntView {
    pub name: Seq<u8>,
    pub is_dir: bool,
    pub is_symlink: bool,
    pub is_regular: bool,
    pub dev: i64,
    pub ino: u64,
    pub nlink: u32,
    pub logical: u64,
    pub physical: u64,
    pub error: i32,
}

impl<'a> View for Ent<'a> {
    type V = EntView;

    open spec fn view(&self) -> EntView {
        EntView {
            name: self.name@,
            is_dir: self.is_dir,
            is_symlink: self.is_symlink,
            is_regular: self.is_regular,
            dev: self.dev,
            ino: self.ino,
            nlink: self.nlink,
            logical: self.logical,
            physical: self.physical,
            error: self.error,
        }
    }
}

/// What is reported of an entry the filesystem could not describe: its name,
/// its inode if that is known, and the error.
pub open spec fn undescribed(name: Seq<u8>, ino: u64, error: i32) -> EntView {
    EntView {
        name,
        is_dir: false,
        is_symlink: false,
        is_regular: false,
        dev: 0,
        ino,
        nlink: 1,
        logical: 0,
        physical: 0,
        error,
    }
}

/// Reports an entry the filesystem could not describe.
pub fn entry_from_error(name: &[u8], ino: u64, error: i32) -> (ent: Ent<'_>)
    ensures
        ent@ == undescribed(name@, ino, error),
{
    Ent {
        name,
        is_dir: false,
        is_symlink: false,
        is_regular: false,
        dev: 0,
        ino,
        nlink: 1,
        logical: 0,
        physical: 0,
        error,
    }
}

} // verus!
