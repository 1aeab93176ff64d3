use cpiolib::cpio::{CpioEntry, Header, HEADER_LEN, MAGIC_NEWC, TRAILER_NAME, TRAILER_SIZE, trailer_name_cstring};
use cpiolib::error::{BadMagicError, CustomError, IoErrorKind, MiniBinError, NameError};
use cpiolib::ext::{read_pad, write_pad, write_padding, write_padding_with_pos};
use cpiolib::hex::{hex_field_is_valid, read_u32_hex, write_u32_hex};
use cpiolib::traits::{MiniBinRead, MiniBinWrite};

fn sample_header(name: &[u8]) -> Header {
    Header {
        ino: 0x1234,
        mode: 0o100644,
        uid: 1000,
        gid: 100,
        nlink: 1,
        mtime: 0x5F5E_1000,
        filesize: 5,
        devmajor: 8,
        devminor: 1,
        rdevmajor: 0,
        rdevminor: 0,
        _checksum: 0,
        name: name.to_vec(),
    }
}

fn eof() -> MiniBinError {
    MiniBinError::IoError(IoErrorKind::UnexpectedEof)
}

#[test]
fn hex_reads_upper_lower_and_plus() {
    assert_eq!(read_u32_hex(b"0000001A"), Ok(26));
    assert_eq!(read_u32_hex(b"deadBEEF"), Ok(0xDEAD_BEEF));
    assert_eq!(read_u32_hex(b"+1234567"), Ok(0x123_4567));
    assert_eq!(read_u32_hex(b"FFFFFFFFtrailing"), Ok(u32::MAX));
    assert_eq!(read_u32_hex(b"0000001"), Err(eof()));
}

#[test]
fn hex_writes_eight_upper_case_digits() {
    let mut out = vec![1u8];
    write_u32_hex(&mut out, 0xDEAD_BEEF);
    write_u32_hex(&mut out, 26);
    assert_eq!(out, b"\x01DEADBEEF0000001A".to_vec());
    for v in [0u32, 1, 0xabc, 0x8000_0000, u32::MAX] {
        let mut o = Vec::new();
        write_u32_hex(&mut o, v);
        assert_eq!(o, format!("{:08X}", v).into_bytes());
        assert_eq!(read_u32_hex(&o), Ok(v));
    }
}

#[test]
fn hex_field_validity() {
    assert!(hex_field_is_valid(b"0123abCD"));
    assert!(hex_field_is_valid(b"+0123456"));
    assert!(!hex_field_is_valid(b"+"));
    assert!(!hex_field_is_valid(b"0123456G"));
    assert!(!hex_field_is_valid(b"-0000001"));
    assert!(!hex_field_is_valid(b"++000001"));
    assert!(!hex_field_is_valid(b"0000001"));
}

#[test]
fn pad_reading_and_writing() {
    assert_eq!(read_pad(b"", 4), Ok(()));
    assert_eq!(read_pad(b"\0\0\0", 1), Ok(()));
    assert_eq!(read_pad(b"\0\0", 1), Err(eof()));
    assert_eq!(read_pad(b"\0\0", 2), Ok(()));
    assert_eq!(read_pad(b"\0", 3), Ok(()));
    for (size, n) in [(0usize, 0usize), (1, 3), (2, 2), (3, 1), (4, 0), (113, 3)] {
        let mut out = vec![7u8];
        write_pad(&mut out, size);
        assert_eq!(out.len(), 1 + n);
        assert!(out[1..].iter().all(|b| *b == 0));
    }
}

#[test]
fn padding_to_a_modulus() {
    let mut out = Vec::new();
    assert_eq!(write_padding_with_pos(&mut out, 5, 4, 0xff), 1);
    assert_eq!(out, vec![0xff, 0xff, 0xff]);
    let mut out = Vec::new();
    assert_eq!(write_padding_with_pos(&mut out, 8, 4, 0xff), 0);
    assert!(out.is_empty());
    let mut out = vec![0u8; 124];
    assert_eq!(write_padding(&mut out, 512, 0), 124);
    assert_eq!(out.len(), 512);
    assert_eq!(write_padding(&mut out, 512, 0), 0);
    assert_eq!(out.len(), 512);
}

#[test]
fn trailer_header_bytes() {
    let t = Header::new_trailer(0);
    assert!(t.is_trailer());
    assert_eq!(t.name, TRAILER_NAME.to_vec());
    assert_eq!(trailer_name_cstring(), b"TRAILER!!!".to_vec());
    let mut out = Vec::new();
    t.m_write_ne(&mut out);
    assert_eq!(out.len(), TRAILER_SIZE);
    let mut expected = b"070701".to_vec();
    for v in [0u32, 0, 0, 0, 1, 0, 0, 0, 0, 0, 0, 11, 0] {
        expected.extend_from_slice(format!("{:08X}", v).as_bytes());
    }
    assert_eq!(expected.len(), HEADER_LEN);
    expected.extend_from_slice(b"TRAILER!!!\0\0\0\0");
    assert_eq!(out, expected);
    assert_eq!(&out[..6], &MAGIC_NEWC[..]);
}

#[test]
fn header_roundtrip_scenario() {
    let h = sample_header(b"dir/file.txt");
    let mut out = Vec::new();
    h.m_write_le(&mut out);
    assert_eq!(out.len() % 4, 0);
    out.extend_from_slice(b"rest");
    let (back, n) = Header::m_read_be(&out).unwrap();
    assert_eq!(back, h);
    assert_eq!(n, out.len() - 4);
    assert!(!back.is_trailer());
}

#[test]
fn header_errors() {
    assert_eq!(Header::m_read_ne(b"0707"), Err(eof()));
    let bad = b"070703000000000000000000";
    assert_eq!(
        Header::m_read_ne(bad),
        Err(MiniBinError::BadMagic(BadMagicError(*b"070703")))
    );
    let mut out = Vec::new();
    sample_header(b"abc").m_write_ne(&mut out);
    assert_eq!(Header::m_read_ne(&out[..100]), Err(eof()));
    assert_eq!(Header::m_read_ne(&out[..HEADER_LEN + 2]), Err(eof()));
    assert_eq!(Header::m_read_ne(&out[..HEADER_LEN + 4]), Err(eof()));
    assert_eq!(Header::m_read_ne(&out[..HEADER_LEN + 5]), Err(eof()));
    assert_eq!(Header::m_read_ne(&out[..HEADER_LEN + 6]), Ok((sample_header(b"abc"), 116)));
    assert_eq!(Header::m_read_ne(&out), Ok((sample_header(b"abc"), 116)));
    // the name must end in its only NUL
    let mut no_nul = out.clone();
    no_nul[HEADER_LEN + 3] = b'd';
    assert_eq!(
        Header::m_read_ne(&no_nul),
        Err(MiniBinError::Custom(CustomError(NameError::NotNulTerminated)))
    );
    let mut inner = out.clone();
    inner[HEADER_LEN + 1] = 0;
    assert_eq!(
        Header::m_read_ne(&inner),
        Err(MiniBinError::Custom(CustomError(NameError::InteriorNul { position: 1 })))
    );
}

#[test]
fn entry_roundtrip_and_size_fix() {
    let e = CpioEntry { header: sample_header(b"f"), contents: b"hello".to_vec() };
    let mut out = Vec::new();
    e.m_write_ne(&mut out);
    assert_eq!(out.len() % 4, 0);
    let (back, n) = CpioEntry::m_read_ne(&out).unwrap();
    assert_eq!(back, e);
    assert_eq!(n, out.len());

    let mut h = sample_header(b"g");
    h._checksum = 77;
    h.filesize = 99;
    let e = CpioEntry { header: h.clone(), contents: b"abc".to_vec() };
    let mut out = Vec::new();
    e.m_write_ne(&mut out);
    let (back, _) = CpioEntry::m_read_ne(&out).unwrap();
    let mut fixed = h;
    fixed.filesize = 3;
    fixed._checksum = 0;
    assert_eq!(back, CpioEntry { header: fixed, contents: b"abc".to_vec() });
    assert!(!back.is_trailer());
    assert_eq!(CpioEntry::m_read_ne(&out[..out.len() - 1]), Err(eof()));
    assert_eq!(CpioEntry::m_read_ne(&out[..out.len() - 2]), Err(eof()));
}

#[test]
fn error_accessors() {
    let b = BadMagicError::new(*b"123456");
    assert_eq!(b.as_inner(), b"123456");
    assert_eq!(b.into_inner(), *b"123456");
    let c = CustomError::new(NameError::NotNulTerminated);
    assert_eq!(c.into_inner(), NameError::NotNulTerminated);
}

#[test]
fn read_then_write_gives_back_canonical_bytes() {
    let e = CpioEntry { header: sample_header(b"name"), contents: b"hello".to_vec() };
    let mut bytes = Vec::new();
    e.m_write_ne(&mut bytes);
    let (back, n) = CpioEntry::m_read_ne(&bytes).unwrap();
    let mut again = Vec::new();
    back.m_write_ne(&mut again);
    assert_eq!(again, bytes[..n].to_vec());
    // lower-case digits read the same number but are written back in upper case
    let mut lower = bytes.clone();
    lower[6 + 8 * 5 + 1] = b'f';
    lower[6 + 8 * 5 + 2] = b'5';
    let (l, _) = CpioEntry::m_read_ne(&lower).unwrap();
    assert_eq!(l.header.mtime, 0x5F5E_1000);
    let mut out = Vec::new();
    l.m_write_ne(&mut out);
    assert_eq!(out, bytes);
    assert_ne!(out, lower);
}
