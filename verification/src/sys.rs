//! What the library takes from `rustix`: device numbers and file types.
use vstd::prelude::*;

verus! {

/// The major number that Linux packs into a device number: bits 8 to 19 and bits 44 to 63.
pub open spec fn spec_major(dev: u64) -> u32 {
    (((dev >> 32u64) & 0xffff_f000u64) | ((dev >> 8u64) & 0x0000_0fffu64)) as u32
}

/// The minor number that Linux packs into a device number: bits 0 to 7 and bits 20 to 43.
pub open spec fn spec_minor(dev: u64) -> u32 {
    (((dev >> 12u64) & 0xffff_ff00u64) | (dev & 0x0000_00ffu64)) as u32
}

/// `rustix::fs::major`. Claims the bit layout of the Linux backend's `major` (its source shifts
/// by 31 then 1, which is a shift by 32).
#[verifier::external_body]
pub(crate) fn dev_major(dev: u64) -> (m: u32)
    ensures
        m == spec_major(dev),
{
    rustix::fs::major(dev)
}

/// `rustix::fs::minor`. Claims the bit layout of the Linux backend's `minor`.
#[verifier::external_body]
pub(crate) fn dev_minor(dev: u64) -> (m: u32)
    ensures
        m == spec_minor(dev),
{
    rustix::fs::minor(dev)
}

/// The kinds of file that `rustix::fs::FileType` tells apart.
#[derive(Debug, Clone, Copy, PartialEq, Eq)]
pub enum FileKind {
    RegularFile,
    Directory,
    Symlink,
    Fifo,
    Socket,
    CharacterDevice,
    BlockDevice,
    Unknown,
}

/// The kind of file that the `S_IFMT` bits of a mode give.
pub open spec fn spec_file_kind(mode: u32) -> FileKind {
    let t = mode & 0o170000u32;
    if t == 0o100000u32 {
        FileKind::RegularFile
    } else if t == 0o040000u32 {
        FileKind::Directory
    } else if t == 0o120000u32 {
        FileKind::Symlink
    } else if t == 0o010000u32 {
        FileKind::Fifo
    } else if t == 0o140000u32 {
        FileKind::Socket
    } else if t == 0o020000u32 {
        FileKind::CharacterDevice
    } else if t == 0o060000u32 {
        FileKind::BlockDevice
    } else {
        FileKind::Unknown
    }
}

/// `rustix::fs::FileType::from_raw_mode`, its variants turned into `FileKind` one for one.
/// Claims the match on `mode & S_IFMT` of the Linux backend, with Linux's `S_IF*` values.
#[verifier::external_body]
pub(crate) fn file_type_of_mode(mode: u32) -> (k: FileKind)
    ensures
        k == spec_file_kind(mode),
{
    match rustix::fs::FileType::from_raw_mode(mode) {
        rustix::fs::FileType::RegularFile => FileKind::RegularFile,
        rustix::fs::FileType::Directory => FileKind::Directory,
        rustix::fs::FileType::Symlink => FileKind::Symlink,
        rustix::fs::FileType::Fifo => FileKind::Fifo,
        rustix::fs::FileType::Socket => FileKind::Socket,
        rustix::fs::FileType::CharacterDevice => FileKind::CharacterDevice,
        rustix::fs::FileType::BlockDevice => FileKind::BlockDevice,
        rustix::fs::FileType::Unknown => FileKind::Unknown,
    }
}

} // verus!
