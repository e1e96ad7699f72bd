//! What a tree entry is, one bit each.

use vstd::prelude::*;

verus! {

/// Entry is a directory.
pub const DIR: u8 = 1;

/// Symlink. Never followed; the link itself is measured.
pub const SYMLINK: u8 = 2;

/// A macOS bundle (`.app`, `.framework`, ...). Scanned, but drawn as one block.
pub const PACKAGE: u8 = 4;

/// Second or later hard link to an inode already counted; size is zeroed.
pub const HARDLINK_DUP: u8 = 8;

/// Directory that could not be opened, or an entry the filesystem errored on.
pub const UNREADABLE: u8 = 16;

/// A mount point on another device that was not descended into.
pub const OTHER_FS: u8 = 32;

/// Synthetic "free space" node, not a real filesystem entry.
pub const FREE_SPACE: u8 = 64;

} // verus!
