use cpiolib::cli::{ListArgs, StripArgs};
use cpiolib::commands::{collect_entries, cpio_list, cpio_strip, cpio_strip_entry, list_eol};
use cpiolib::cpio::{CpioEntry, Header};
use cpiolib::cpio::entry_read_consumed_on_error;
use cpiolib::error::{IoErrorKind, MiniBinError};
use cpiolib::iter::{archive_is_well_formed, read_as_cpio, read_as_cpio_with_trailer, CpioIterator};
use cpiolib::order::{lex_le_exec, sort_by_name};
use cpiolib::traits::MiniBinWrite;

fn entry(name: &str, ino: u32, mtime: u32, contents: &[u8]) -> CpioEntry {
    CpioEntry {
        header: Header {
            ino,
            mode: 0o100644,
            uid: 0,
            gid: 0,
            nlink: 1,
            mtime,
            filesize: contents.len() as u32,
            devmajor: 0,
            devminor: 0,
            rdevmajor: 0,
            rdevminor: 0,
            _checksum: 0,
            name: name.as_bytes().to_vec(),
        },
        contents: contents.to_vec(),
    }
}

fn archive(entries: &[CpioEntry], trailer: bool) -> Vec<u8> {
    let mut out = Vec::new();
    for e in entries {
        e.m_write_ne(&mut out);
    }
    if trailer {
        Header::new_trailer(0).m_write_ne(&mut out);
    }
    out
}

fn strip_args(reset_ino: bool, reset_mtime: bool, sort: bool) -> StripArgs {
    StripArgs { input: None, output: None, reset_ino, reset_mtime, sort }
}

#[test]
fn iterator_stops_at_trailer() {
    let es = vec![entry("b", 7, 9, b"xy"), entry("a", 8, 10, b"")];
    let mut bytes = archive(&es, true);
    bytes.extend_from_slice(&[0u8; 300]);
    let mut it = read_as_cpio(&bytes);
    assert!(it.next_is_well_formed());
    assert_eq!(it.next(), Some(Ok(es[0].clone())));
    assert_eq!(it.next(), Some(Ok(es[1].clone())));
    assert_eq!(it.next(), None);
    assert_eq!(it.next(), None);

    let mut it = read_as_cpio_with_trailer(&bytes);
    it.next();
    it.next();
    let t = it.next().unwrap().unwrap();
    assert!(t.is_trailer());
    assert_eq!(t.header, Header::new_trailer(0));
    assert_eq!(it.next(), None);
    let mut it = CpioIterator::new(&bytes, true);
    assert_eq!(it.next(), Some(Ok(es[0].clone())));
}

#[test]
fn iterator_error_without_trailer() {
    let es = vec![entry("only", 1, 1, b"data")];
    let bytes = archive(&es, false);
    let mut it = read_as_cpio(&bytes);
    assert_eq!(it.next(), Some(Ok(es[0].clone())));
    let eof = MiniBinError::IoError(IoErrorKind::UnexpectedEof);
    assert_eq!(it.next(), Some(Err(eof)));
    assert_eq!(it.next(), Some(Err(eof)));
    assert_eq!(collect_entries(&bytes), Err(eof));
}

#[test]
fn well_formedness_check() {
    let es = vec![entry("x", 1, 1, b"1")];
    let mut bytes = archive(&es, true);
    assert!(archive_is_well_formed(&bytes));
    assert!(archive_is_well_formed(b""));
    assert!(archive_is_well_formed(b"notmagic"));
    bytes[6 + 3] = b'Z';
    assert!(!archive_is_well_formed(&bytes));
    let it = read_as_cpio(&bytes);
    assert!(!it.next_is_well_formed());
}

#[test]
fn list_names() {
    let es = vec![entry("one", 1, 1, b"1"), entry("two/three", 2, 2, b"")];
    let bytes = archive(&es, true);
    let mut names = Vec::new();
    assert_eq!(cpio_list(&bytes, &mut names), Ok(()));
    assert_eq!(names, vec![b"one".to_vec(), b"two/three".to_vec()]);
    let mut names = Vec::new();
    let cut = archive(&es, false);
    assert!(cpio_list(&cut, &mut names).is_err());
    assert_eq!(names.len(), 2);
    assert_eq!(list_eol(&ListArgs { input: None, zero: true }), '\0');
    assert_eq!(list_eol(&ListArgs { input: None, zero: false }), '\n');
}

#[test]
fn strip_in_order() {
    let es = vec![entry("z", 40, 5, b"zz"), entry("a", 41, 6, b"a"), entry("m", 42, 7, b"")];
    let bytes = archive(&es, true);
    let mut out = Vec::new();
    let mut notes = Vec::new();
    assert_eq!(cpio_strip(&bytes, &mut out, &strip_args(true, true, false), &mut notes), Ok(()));
    assert_eq!(out.len() % 512, 0);
    let got: Vec<_> = read_all(&out);
    let names: Vec<_> = got.iter().map(|e| e.header.name.clone()).collect();
    assert_eq!(names, vec![b"z".to_vec(), b"a".to_vec(), b"m".to_vec()]);
    assert_eq!(got.iter().map(|e| e.header.ino).collect::<Vec<_>>(), vec![1, 2, 3]);
    assert!(got.iter().all(|e| e.header.mtime == 0));
    assert_eq!(got[0].contents, b"zz".to_vec());
    assert_eq!(notes.len(), 3);
    assert_eq!(notes[1].old_ino, 41);
    assert_eq!(notes[1].new_ino, Some(2));
    assert_eq!(notes[1].old_mtime, Some(6));
}

#[test]
fn strip_sorted() {
    let es = vec![entry("z", 40, 5, b"zz"), entry("a", 41, 6, b"a"), entry("ab", 42, 7, b""), entry("a", 43, 8, b"2")];
    let bytes = archive(&es, true);
    let mut out = Vec::new();
    let mut notes = Vec::new();
    assert_eq!(cpio_strip(&bytes, &mut out, &strip_args(true, false, true), &mut notes), Ok(()));
    let got: Vec<_> = read_all(&out);
    let names: Vec<_> = got.iter().map(|e| e.header.name.clone()).collect();
    assert_eq!(names, vec![b"a".to_vec(), b"a".to_vec(), b"ab".to_vec(), b"z".to_vec()]);
    assert_eq!(got[0].contents, b"a".to_vec());
    assert_eq!(got[1].contents, b"2".to_vec());
    assert_eq!(got.iter().map(|e| e.header.ino).collect::<Vec<_>>(), vec![1, 2, 3, 4]);
    assert_eq!(got.iter().map(|e| e.header.mtime).collect::<Vec<_>>(), vec![6, 8, 7, 5]);
    assert_eq!(out.len() % 512, 0);
}

#[test]
fn strip_keeps_values_when_not_asked() {
    let es = vec![entry("q", 40, 5, b"zz")];
    let bytes = archive(&es, true);
    let mut out = Vec::new();
    let mut notes = Vec::new();
    assert_eq!(cpio_strip(&bytes, &mut out, &strip_args(false, false, false), &mut notes), Ok(()));
    let mut expected = bytes.clone();
    expected.resize(512, 0);
    assert_eq!(out, expected);
    assert_eq!(notes[0].new_ino, None);
    assert_eq!(notes[0].old_mtime, None);
}

#[test]
fn strip_errors() {
    let es = vec![entry("q", 40, 5, b"zz"), entry("r", 4, 5, b"")];
    let bytes = archive(&es, false);
    let mut out = Vec::new();
    let mut notes = Vec::new();
    assert!(cpio_strip(&bytes, &mut out, &strip_args(true, true, true), &mut notes).is_err());
    assert!(out.is_empty());
    assert!(notes.is_empty());
    assert!(cpio_strip(&bytes, &mut out, &strip_args(true, true, false), &mut notes).is_err());
    assert_eq!(notes.len(), 2);
    let (mut e0, mut e1) = (es[0].clone(), es[1].clone());
    e0.header.ino = 1;
    e0.header.mtime = 0;
    e1.header.ino = 2;
    e1.header.mtime = 0;
    assert_eq!(out, archive(&[e0, e1], false));
}

#[test]
fn strip_one_header() {
    let mut h = entry("n", 9, 9, b"").header;
    let mut ino = 5;
    let note = cpio_strip_entry(&mut h, &strip_args(true, false, false), &mut ino);
    assert_eq!((h.ino, h.mtime, ino), (5, 9, 6));
    assert_eq!(note.name, b"n".to_vec());
    assert_eq!(note.old_ino, 9);
}

#[test]
fn lexicographic_order_and_stable_sort() {
    assert!(lex_le_exec(b"", b"a"));
    assert!(lex_le_exec(b"a", b"a"));
    assert!(lex_le_exec(b"a", b"ab"));
    assert!(!lex_le_exec(b"ab", b"a"));
    assert!(lex_le_exec(b"ab", b"b"));
    assert!(!lex_le_exec(b"\xff", b"a"));
    let es = vec![entry("c", 1, 0, b""), entry("b", 2, 0, b""), entry("c", 3, 0, b""), entry("a", 4, 0, b"")];
    let sorted = sort_by_name(es);
    assert_eq!(sorted.iter().map(|e| e.header.ino).collect::<Vec<_>>(), vec![4, 2, 1, 3]);
}

fn read_all(bytes: &[u8]) -> Vec<CpioEntry> {
    let mut it = read_as_cpio(bytes);
    let mut out = Vec::new();
    while let Some(Ok(e)) = it.next() {
        out.push(e);
    }
    out
}

#[test]
fn crc_header_reads_like_newc() {
    let mut r = b"070702".to_vec();
    for v in [0u32, 0, 0, 0, 1, 0, 0, 0, 0, 0, 0, 11, 0] {
        r.extend_from_slice(format!("{:08X}", v).as_bytes());
    }
    r.extend_from_slice(b"TRAILER!!!\0\0\0\0");
    let (h, n) = <Header as cpiolib::traits::MiniBinRead>::m_read_ne(&r).unwrap();
    assert!(h.is_trailer());
    assert_eq!((h.nlink, h.ino, n), (1, 0, r.len()));
    // written back, it carries the newc magic
    let mut out = Vec::new();
    h.m_write_ne(&mut out);
    assert_eq!(&out[..6], b"070701");
    assert_eq!(&out[6..], &r[6..]);
}

#[test]
fn failed_reads_take_what_they_read() {
    let bytes = b"12345600000000";
    let mut it = read_as_cpio(bytes);
    assert_eq!(
        it.next(),
        Some(Err(MiniBinError::BadMagic(cpiolib::error::BadMagicError(*b"123456"))))
    );
    assert_eq!(
        it.next(),
        Some(Err(MiniBinError::BadMagic(cpiolib::error::BadMagicError(*b"000000"))))
    );
    assert_eq!(it.next(), Some(Err(MiniBinError::IoError(IoErrorKind::UnexpectedEof))));
    assert_eq!(it.next(), Some(Err(MiniBinError::IoError(IoErrorKind::UnexpectedEof))));

    // a name with a NUL inside: the fields and the name are taken, then the walk goes on
    let mut bad = archive(&[entry("ab", 1, 1, b"")], true);
    bad[110] = 0;
    let mut it = read_as_cpio(&bad);
    assert!(matches!(it.next(), Some(Err(MiniBinError::Custom(_)))));
    // what follows the name is the padding byte and then the trailer's header
    assert!(matches!(it.next(), Some(Err(MiniBinError::BadMagic(_)))));
}

#[test]
fn consumed_count_of_failed_entry_reads() {
    let eof = MiniBinError::IoError(IoErrorKind::UnexpectedEof);
    assert_eq!(entry_read_consumed_on_error(b"0707", &eof), 4);
    let bad = MiniBinError::BadMagic(cpiolib::error::BadMagicError(*b"123456"));
    assert_eq!(entry_read_consumed_on_error(b"12345600000000", &bad), 6);
    let mut b = archive(&[entry("ab", 1, 1, b"")], true);
    b[110] = 0;
    let e = <CpioEntry as cpiolib::traits::MiniBinRead>::m_read_ne(&b).unwrap_err();
    assert_eq!(entry_read_consumed_on_error(&b, &e), 113);
}
