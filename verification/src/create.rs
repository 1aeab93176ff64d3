//! What the `create` command computes for each file it archives.
use vstd::prelude::*;
use crate::cpio::{
    entry_bytes, header_bytes, is_first_nul, name_ok, no_nul, trailer_view, CpioEntry, EntryView,
    Header, HeaderView,
};
use crate::sys::{dev_major, dev_minor, file_type_of_mode, spec_file_kind, spec_major, spec_minor, FileKind};

verus! {

/// What the archive takes from the status of a file (the fields of `rustix::fs::Stat` it reads).
#[derive(Debug, Clone, Copy)]
pub struct FileStat {
    pub st_dev: u64,
    pub st_ino: u64,
    pub st_mode: u32,
    pub st_nlink: u64,
    pub st_uid: u32,
    pub st_gid: u32,
    pub st_rdev: u64,
    pub st_mtime: i64,
}

/// A name that holds a NUL byte at `.0` (what `CString::new` reports), with the name.
#[derive(Debug, Clone, PartialEq, Eq)]
pub struct NulError(pub usize, pub Vec<u8>);

/// A device number split into its major and minor numbers.
pub fn devsplit(dev: u64) -> (r: (u32, u32))
    ensures
        r.0 == spec_major(dev),
        r.1 == spec_minor(dev),
{
    (dev_major(dev), dev_minor(dev))
}

/// The header of a file named `name` with status `stat`: no size yet, no checksum. Fails when
/// the name holds a NUL byte.
pub fn stat_to_cpio(name: &[u8], stat: &FileStat) -> (res: Result<Header, NulError>)
    ensures
        match res {
            Ok(h) => no_nul(name@) && h@ == HeaderView {
                ino: (#[verifier::truncate] (stat.st_ino as u32)),
                mode: stat.st_mode,
                uid: stat.st_uid,
                gid: stat.st_gid,
                nlink: (#[verifier::truncate] (stat.st_nlink as u32)),
                mtime: (#[verifier::truncate] (stat.st_mtime as u32)),
                filesize: 0,
                devmajor: spec_major(stat.st_dev),
                devminor: spec_minor(stat.st_dev),
                rdevmajor: spec_major(stat.st_rdev),
                rdevminor: spec_minor(stat.st_rdev),
                checksum: 0,
                name: name@,
            },
            Err(e) => is_first_nul(name@, e.0 as int) && e.1@ == name@,
        },
{
    let mut bytes: Vec<u8> = Vec::new();
    crate::cpio::push_all(&mut bytes, name);
    assert(bytes@ =~= name@);
    let mut i: usize = 0;
    while i < name.len()
        invariant
            i <= name@.len(),
            no_nul(name@.take(i as int)),
            bytes@ == name@,
        decreases name@.len() - i,
    {
        if name[i] == 0 {
            return Err(NulError(i, bytes));
        }
        assert(name@.take(i + 1) =~= name@.take(i as int).push(name@[i as int]));
        i = i + 1;
    }
    assert(name@.take(i as int) =~= name@);
    let (devmajor, devminor) = devsplit(stat.st_dev);
    let (rdevmajor, rdevminor) = devsplit(stat.st_rdev);
    Ok(
        Header {
            ino: (#[verifier::truncate] (stat.st_ino as u32)),
            mode: stat.st_mode,
            uid: stat.st_uid,
            gid: stat.st_gid,
            nlink: (#[verifier::truncate] (stat.st_nlink as u32)),
            mtime: (#[verifier::truncate] (stat.st_mtime as u32)),
            filesize: 0,
            devmajor,
            devminor,
            rdevmajor,
            rdevminor,
            _checksum: 0,
            name: bytes,
        },
    )
}

/// What to do with a line read from the list of files.
#[derive(Debug, Clone, PartialEq, Eq)]
pub enum LineAction {
    /// The list has ended.
    Stop,
    /// An empty line: nothing to archive.
    Skip,
    /// A file to archive, by its name.
    Path(Vec<u8>),
}

/// What a line of the list of files asks for: an empty read ends the list, a lone newline is
/// passed over, and any other line names a file, without its newline.
pub fn line_action(line: &[u8]) -> (a: LineAction)
    requires
        line@.len() == 0 || line@.last() == 0x0a,
    ensures
        line@.len() == 0 ==> a == LineAction::Stop,
        line@.len() == 1 ==> a == LineAction::Skip,
        line@.len() > 1 ==> (a matches LineAction::Path(p) && p@ == line@.drop_last()),
{
    if line.len() == 0 {
        return LineAction::Stop;
    }
    if line.len() == 1 {
        return LineAction::Skip;
    }
    let path = vstd::slice::slice_to_vec(vstd::slice::slice_subrange(line, 0, line.len() - 1));
    assert(path@ =~= line@.drop_last());
    LineAction::Path(path)
}

/// Where the contents of an entry come from.
#[derive(Debug, Clone, Copy, PartialEq, Eq)]
pub enum ContentSource {
    /// The file's own bytes.
    FileData,
    /// The target that a symbolic link holds.
    LinkTarget,
    /// Nothing: the entry has no contents.
    Nothing,
}

pub open spec fn spec_content_source(mode: u32) -> ContentSource {
    match spec_file_kind(mode) {
        FileKind::RegularFile => ContentSource::FileData,
        FileKind::Symlink => ContentSource::LinkTarget,
        _ => ContentSource::Nothing,
    }
}

/// A regular file is archived with its bytes, a symbolic link with its target, anything else
/// with no contents.
pub fn content_source(header: &Header) -> (s: ContentSource)
    ensures
        s == spec_content_source(header.mode),
        s == ContentSource::FileData <==> header.mode & 0o170000u32 == 0o100000u32,
        s == ContentSource::LinkTarget <==> header.mode & 0o170000u32 == 0o120000u32,
        s == ContentSource::Nothing <==> header.mode & 0o170000u32 != 0o100000u32 && header.mode
            & 0o170000u32 != 0o120000u32,
{
    proof {
        lemma_content_source(header.mode);
    }
    match file_type_of_mode(header.mode) {
        FileKind::RegularFile => ContentSource::FileData,
        FileKind::Symlink => ContentSource::LinkTarget,
        _ => ContentSource::Nothing,
    }
}

/// The header with its size set to the length of the contents (kept to 32 bits).
pub open spec fn sized_header(h: HeaderView, len: nat) -> HeaderView {
    HeaderView { filesize: (len % 0x1_0000_0000) as u32, ..h }
}

/// Writes the entry of a file: its header, sized to the contents, and the contents.
pub fn cpio_create_entry(writer: &mut Vec<u8>, header: Header, contents: Vec<u8>)
    requires
        name_ok(header.name@),
    ensures
        final(writer)@ == old(writer)@ + entry_bytes(
            EntryView { header: sized_header(header@, contents@.len()), contents: contents@ },
        ),
{
    let ghost h0 = header@;
    let mut header = header;
    header.filesize = ((contents.len() as u64) % 0x1_0000_0000) as u32;
    let entry = CpioEntry { header, contents };
    crate::traits::MiniBinWrite::m_write_ne(&entry, writer);
    assert(entry@.header =~= sized_header(h0, entry@.contents.len()));
}

/// Ends an archive: a trailer with inode number zero, then zeros up to a multiple of 512 bytes.
pub fn cpio_create_finish(writer: &mut Vec<u8>)
    ensures
        final(writer)@ == crate::commands::padded_to(old(writer)@ + header_bytes(trailer_view(0)), 512),
{
    let trailer = Header::new_trailer(0);
    crate::traits::MiniBinWrite::m_write_ne(&trailer, writer);
    crate::ext::write_padding(writer, 512, 0);
}

} // verus!

verus! {

/// The archive that `create` writes for files, given the entries as `cpio_create_entry` wrote
/// them: the entries, the trailer, then zeros up to a multiple of 512 bytes.
pub open spec fn created_archive(created: Seq<EntryView>) -> Seq<u8> {
    crate::commands::padded_to(crate::iter::archive_bytes(created) + header_bytes(trailer_view(0)), 512)
}

/// Listing an archive that `create` wrote gives back every file's entry, in order, with its
/// size and contents, as long as no file is named like the trailer and every size fits 32 bits.
pub proof fn lemma_create_readback(created: Seq<EntryView>)
    requires
        crate::iter::entries_roundtrip(created),
        forall|i: int| 0 <= i < created.len() ==> (#[trigger] created[i]).header.filesize as nat == created[i].contents.len(),
    ensures
        crate::iter::archive_ok(created_archive(created)),
        crate::iter::spec_read_archive(created_archive(created), false) == (created, None::<crate::error::ErrorView>),
{
    let trailer = EntryView { header: trailer_view(0), contents: Seq::empty() };
    crate::cpio::lemma_trailer(0);
    assert(crate::cpio::written_header(trailer) == trailer_view(0));
    assert(entry_bytes(trailer) =~= header_bytes(trailer_view(0)));
    let written = crate::iter::archive_bytes(created) + header_bytes(trailer_view(0));
    let pad = crate::ext::repeat(
        0,
        (if written.len() % 512 == 0 { 0 } else { 512 - written.len() % 512 }) as nat,
    );
    assert(created_archive(created) =~= crate::iter::archive_bytes(created) + entry_bytes(trailer) + pad);
    crate::iter::lemma_archive_roundtrip(created, trailer, pad);
    assert(created.map_values(|e: EntryView| crate::cpio::normalized(e)) =~= created) by {
        assert forall|i: int| 0 <= i < created.len() implies #[trigger] crate::cpio::normalized(created[i])
            == created[i] by {
            assert(crate::cpio::normalized(created[i]) =~= created[i]);
        }
    }
}

} // verus!

verus! {

/// Only a regular file (`S_IFREG`) is archived with its bytes and only a symbolic link
/// (`S_IFLNK`) with its target; directories, devices, fifos, sockets and anything else are
/// archived with no contents.
pub proof fn lemma_content_source(mode: u32)
    ensures
        spec_content_source(mode) == ContentSource::FileData <==> mode & 0o170000u32 == 0o100000u32,
        spec_content_source(mode) == ContentSource::LinkTarget <==> mode & 0o170000u32 == 0o120000u32,
        spec_content_source(mode) == ContentSource::Nothing <==> mode & 0o170000u32 != 0o100000u32
            && mode & 0o170000u32 != 0o120000u32,
{
}

} // verus!
