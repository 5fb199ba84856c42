//! Translation of native file metadata into the attribute record that the
//! filesystem protocol answers with.

use vstd::prelude::*;
use crate::error::FsError;

verus! {

/// The bits of a mode that hold the file type.
pub const S_IFMT: u32 = 0o170000;
pub const S_IFIFO: u32 = 0o010000;
pub const S_IFCHR: u32 = 0o020000;
pub const S_IFDIR: u32 = 0o040000;
pub const S_IFBLK: u32 = 0o060000;
pub const S_IFREG: u32 = 0o100000;
pub const S_IFLNK: u32 = 0o120000;
pub const S_IFSOCK: u32 = 0o140000;

/// The bits of a mode that hold the permissions.
pub const PERM_MASK: u32 = 0o7777;

/// Nanoseconds in a second.
pub const NANOS_PER_SEC: i128 = 1_000_000_000;

/// The kinds of node the protocol knows.
#[derive(Clone, Copy, Debug, PartialEq, Eq, Structural)]
pub enum FileKind {
    Directory,
    RegularFile,
    Symlink,
    BlockDevice,
    CharDevice,
    NamedPipe,
    Socket,
}

/// What a native `lstat` reports of a file.
#[derive(Clone, Copy, Debug, PartialEq, Eq)]
pub struct NativeStat {
    pub mode: u32,
    pub size: u64,
    pub blocks: u64,
    pub nlink: u64,
    pub uid: u32,
    pub gid: u32,
    pub rdev: u64,
    pub atime: i64,
    pub atime_nsec: i64,
    pub mtime: i64,
    pub mtime_nsec: i64,
    pub ctime: i64,
    pub ctime_nsec: i64,
}

/// The attribute record of a node. Times are nanoseconds since the epoch.
#[derive(Clone, Copy, Debug, PartialEq, Eq)]
pub struct Attr {
    pub kind: FileKind,
    pub perm: u16,
    pub size: u64,
    pub blocks: u64,
    pub atime: i128,
    pub mtime: i128,
    pub ctime: i128,
    pub crtime: i128,
    pub nlink: u64,
    pub uid: u32,
    pub gid: u32,
    pub rdev: u64,
}

/// The kind that the type bits of `mode` denote, if they denote one.
pub open spec fn kind_of_mode(mode: u32) -> Option<FileKind> {
    let t = mode & S_IFMT;
    if t == S_IFDIR {
        Some(FileKind::Directory)
    } else if t == S_IFREG {
        Some(FileKind::RegularFile)
    } else if t == S_IFLNK {
        Some(FileKind::Symlink)
    } else if t == S_IFBLK {
        Some(FileKind::BlockDevice)
    } else if t == S_IFCHR {
        Some(FileKind::CharDevice)
    } else if t == S_IFIFO {
        Some(FileKind::NamedPipe)
    } else if t == S_IFSOCK {
        Some(FileKind::Socket)
    } else {
        None
    }
}

/// A point in time given as whole seconds and nanoseconds since the epoch.
pub open spec fn instant(secs: i64, nsec: i64) -> int {
    secs * NANOS_PER_SEC + nsec
}

/// The record that a native stat translates to, where its type bits are known.
pub open spec fn translated(st: NativeStat, kind: FileKind) -> Attr {
    Attr {
        kind,
        perm: (st.mode & PERM_MASK) as u16,
        size: st.size,
        blocks: st.blocks,
        atime: instant(st.atime, st.atime_nsec) as i128,
        mtime: instant(st.mtime, st.mtime_nsec) as i128,
        ctime: instant(st.ctime, st.ctime_nsec) as i128,
        crtime: 0,
        nlink: st.nlink,
        uid: st.uid,
        gid: st.gid,
        rdev: st.rdev,
    }
}

/// The fixed record of a synthetic directory: mode 0755, empty, epoch times.
pub open spec fn directory_stub() -> Attr {
    Attr {
        kind: FileKind::Directory,
        perm: 0o755,
        size: 0,
        blocks: 0,
        atime: 0,
        mtime: 0,
        ctime: 0,
        crtime: 0,
        nlink: 1,
        uid: 0,
        gid: 0,
        rdev: 0,
    }
}

/// The kind of file that the type bits of `mode` denote, or `None` where they
/// match no known kind.
pub fn mode_to_filetype(mode: u32) -> (r: Option<FileKind>)
    ensures
        r == kind_of_mode(mode),
{
    let t = mode & S_IFMT;
    if t == S_IFDIR {
        Some(FileKind::Directory)
    } else if t == S_IFREG {
        Some(FileKind::RegularFile)
    } else if t == S_IFLNK {
        Some(FileKind::Symlink)
    } else if t == S_IFBLK {
        Some(FileKind::BlockDevice)
    } else if t == S_IFCHR {
        Some(FileKind::CharDevice)
    } else if t == S_IFIFO {
        Some(FileKind::NamedPipe)
    } else if t == S_IFSOCK {
        Some(FileKind::Socket)
    } else {
        None
    }
}

/// Nanoseconds since the epoch of `secs` seconds and `nsec` nanoseconds.
pub fn time_of(secs: i64, nsec: i64) -> (r: i128)
    ensures
        r == instant(secs, nsec),
{
    assert(-0x8000_0000_0000_0000 * NANOS_PER_SEC <= secs * NANOS_PER_SEC
        <= 0x7fff_ffff_ffff_ffff * NANOS_PER_SEC) by (nonlinear_arith)
        requires
            -0x8000_0000_0000_0000 <= secs <= 0x7fff_ffff_ffff_ffff,
    ;
    secs as i128 * NANOS_PER_SEC + nsec as i128
}

/// The attribute record of a synthetic directory.
pub fn directory_attr() -> (r: Attr)
    ensures
        r == directory_stub(),
{
    Attr {
        kind: FileKind::Directory,
        perm: 0o755,
        size: 0,
        blocks: 0,
        atime: 0,
        mtime: 0,
        ctime: 0,
        crtime: 0,
        nlink: 1,
        uid: 0,
        gid: 0,
        rdev: 0,
    }
}

/// Translates a native stat. The type bits must denote a known kind; where
/// they do not, the host broke an assumption and the error says which mode.
pub fn stat_to_fuse(st: &NativeStat) -> (r: Result<Attr, FsError>)
    ensures
        match kind_of_mode(st.mode) {
            Some(k) => r == Ok::<Attr, FsError>(translated(*st, k)),
            None => r == Err::<Attr, FsError>(FsError::UnknownFileType(st.mode)),
        },
{
    match mode_to_filetype(st.mode) {
        Some(kind) => {
            let perm = (st.mode & PERM_MASK) as u16;
            Ok(
                Attr {
                    kind,
                    perm,
                    size: st.size,
                    blocks: st.blocks,
                    atime: time_of(st.atime, st.atime_nsec),
                    mtime: time_of(st.mtime, st.mtime_nsec),
                    ctime: time_of(st.ctime, st.ctime_nsec),
                    crtime: 0,
                    nlink: st.nlink,
                    uid: st.uid,
                    gid: st.gid,
                    rdev: st.rdev,
                },
            )
        },
        None => Err(FsError::UnknownFileType(st.mode)),
    }
}

} // verus!
