use cpiolib::cpio::{CpioEntry, Header};
use cpiolib::create::{
    content_source, cpio_create_entry, cpio_create_finish, devsplit, line_action, stat_to_cpio,
    ContentSource, FileStat, LineAction, NulError,
};
use cpiolib::iter::read_as_cpio;
use cpiolib::termio::{NotSeekable, PartialCursor, SeekFrom};

fn stat(mode: u32) -> FileStat {
    FileStat {
        st_dev: (8u64 << 8) | 1,
        st_ino: 0x1_0000_0005,
        st_mode: mode,
        st_nlink: 2,
        st_uid: 1000,
        st_gid: 100,
        st_rdev: 0,
        st_mtime: -1,
    }
}

#[test]
fn device_numbers_split() {
    assert_eq!(devsplit((8u64 << 8) | 1), (8, 1));
    let dev = ((0x1234_5678u64 & 0xffff_f000) << 32) | ((0x1234_5678u64 & 0xfff) << 8)
        | ((0x9abc_def0u64 & 0xffff_ff00) << 12) | (0x9abc_def0u64 & 0xff);
    assert_eq!(devsplit(dev), (0x1234_5678, 0x9abc_def0));
}

#[test]
fn stat_becomes_header() {
    let h = stat_to_cpio(b"a/b", &stat(0o100644)).unwrap();
    assert_eq!(h.ino, 5);
    assert_eq!(h.mode, 0o100644);
    assert_eq!(h.nlink, 2);
    assert_eq!(h.mtime, u32::MAX);
    assert_eq!((h.devmajor, h.devminor), (8, 1));
    assert_eq!((h.rdevmajor, h.rdevminor), (0, 0));
    assert_eq!(h.filesize, 0);
    assert_eq!(h.name, b"a/b".to_vec());
    assert_eq!(stat_to_cpio(b"a\0b", &stat(0)), Err(NulError(1, b"a\0b".to_vec())));
}

#[test]
fn lines_of_the_file_list() {
    assert_eq!(line_action(b""), LineAction::Stop);
    assert_eq!(line_action(b"\n"), LineAction::Skip);
    assert_eq!(line_action(b"dir/x\n"), LineAction::Path(b"dir/x".to_vec()));
}

#[test]
fn contents_by_file_type() {
    let h = |mode| stat_to_cpio(b"x", &stat(mode)).unwrap();
    assert_eq!(content_source(&h(0o100644)), ContentSource::FileData);
    assert_eq!(content_source(&h(0o120777)), ContentSource::LinkTarget);
    assert_eq!(content_source(&h(0o040755)), ContentSource::Nothing);
    assert_eq!(content_source(&h(0o020666)), ContentSource::Nothing);
    assert_eq!(content_source(&h(0o000644)), ContentSource::Nothing);
}

#[test]
fn created_archive_reads_back() {
    let mut out = Vec::new();
    let h = stat_to_cpio(b"file", &stat(0o100644)).unwrap();
    cpio_create_entry(&mut out, h.clone(), b"contents".to_vec());
    let l = stat_to_cpio(b"link", &stat(0o120777)).unwrap();
    cpio_create_entry(&mut out, l.clone(), b"file".to_vec());
    cpio_create_finish(&mut out);
    assert_eq!(out.len() % 512, 0);
    let mut it = read_as_cpio(&out);
    let mut hs = h;
    hs.filesize = 8;
    assert_eq!(it.next(), Some(Ok(CpioEntry { header: hs, contents: b"contents".to_vec() })));
    let e = it.next().unwrap().unwrap();
    assert_eq!(e.header.filesize, 4);
    assert_eq!(e.contents, b"file".to_vec());
    assert_eq!(it.next(), None);
    assert!(!Header::new_trailer(1).name.is_empty());
}

#[test]
fn partial_cursor_counts() {
    let mut c = PartialCursor::new(Vec::<u8>::new());
    assert_eq!(c.position(), 0);
    c.get_mut().extend_from_slice(b"abc");
    c.advance(3);
    assert_eq!(c.position(), 3);
    assert_eq!(c.seek(SeekFrom::Current(0)), Ok(3));
    assert_eq!(c.seek(SeekFrom::Current(1)), Err(NotSeekable));
    assert_eq!(c.seek(SeekFrom::Start(0)), Err(NotSeekable));
    assert_eq!(c.seek(SeekFrom::End(0)), Err(NotSeekable));
    assert_eq!(c.get_mut().len(), 3);
}
