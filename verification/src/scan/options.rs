//! What a scan is asked for, and how far it has got.

use vstd::prelude::*;

verus! {

#[derive(Clone, Copy, Debug, PartialEq, Eq, Structural)]
pub struct ScanOptions {
    /// Descend into directories that live on another device.
    pub cross_mounts: bool,
    /// Count only the first link to a multiply-linked inode.
    pub dedupe_hardlinks: bool,
    /// Flag `.app`/`.framework`/... so the treemap can draw them as one block.
    pub detect_packages: bool,
    /// Depth below the root at which to stop descending.
    pub max_depth: u8,
    /// Try the bulk read before falling back to one `stat` per entry.
    pub prefer_bulk: bool,
    /// Add a synthetic "free space" node when the root is a volume.
    pub include_free_space: bool,
}

impl Default for ScanOptions {
    fn default() -> (opts: ScanOptions)
        ensures
            opts == (ScanOptions {
                cross_mounts: false,
                dedupe_hardlinks: true,
                detect_packages: true,
                max_depth: u8::MAX,
                prefer_bulk: true,
                include_free_space: true,
            }),
    {
        ScanOptions {
            cross_mounts: false,
            dedupe_hardlinks: true,
            detect_packages: true,
            max_depth: u8::MAX,
            prefer_bulk: true,
            include_free_space: true,
        }
    }
}

/// Counters of a scan that runs or has run.
#[derive(Clone, Copy, Debug, PartialEq, Eq, Structural)]
pub struct Progress {
    pub files: u64,
    pub dirs: u64,
    pub symlinks: u64,
    pub hardlink_dups: u64,
    pub bytes: u64,
    pub errors: u64,
    pub cancel: bool,
    pub finished: bool,
}

impl Default for Progress {
    fn default() -> (progress: Progress)
        ensures
            progress == (Progress {
                files: 0,
                dirs: 0,
                symlinks: 0,
                hardlink_dups: 0,
                bytes: 0,
                errors: 0,
                cancel: false,
                finished: false,
            }),
    {
        Progress {
            files: 0,
            dirs: 0,
            symlinks: 0,
            hardlink_dups: 0,
            bytes: 0,
            errors: 0,
            cancel: false,
            finished: false,
        }
    }
}

impl Progress {
    /// Asks the scan to stop; it then returns the partial tree it has built
    /// rather than an error.
    pub fn cancel(&mut self)
        ensures
            *final(self) == (Progress { cancel: true, ..*old(self) }),
    {
        self.cancel = true;
    }

    pub fn is_cancelled(&self) -> (cancelled: bool)
        ensures
            cancelled == self.cancel,
    {
        self.cancel
    }

    /// Files and directories seen so far.
    pub fn entries(&self) -> (n: u64)
        requires
            self.files + self.dirs <= u64::MAX,
        ensures
            n == self.files + self.dirs,
    {
        self.files + self.dirs
    }
}

} // verus!
