//! The `newc` format: headers, entries and their byte layout.
use vstd::prelude::*;
use crate::error::{eof_view, ErrorView, IoErrorKind, MiniBinError, NameError, BadMagicError, CustomError};
use crate::ext::{pad_bytes, pad_len, read_pad, write_pad};
use crate::hex::{hex_field, hex_field_value, is_hex_field, read_u32_hex, write_u32_hex};

verus! {

/// The length of a header before the name: the magic number and thirteen fields.
pub const HEADER_LEN: usize = 110;

/// The magic number of the `newc` format, `070701`.
pub const MAGIC_NEWC: [u8; 6] = [0x30, 0x37, 0x30, 0x37, 0x30, 0x31];

/// The magic number of the `crc` format, `070702`: the `newc` layout, with the checksum field
/// in use.
pub const MAGIC_CRC: [u8; 6] = [0x30, 0x37, 0x30, 0x37, 0x30, 0x32];

/// A magic number that starts a header this library reads: `newc` or `crc`.
pub open spec fn is_known_magic(m: Seq<u8>) -> bool {
    m == MAGIC_NEWC@ || m == MAGIC_CRC@
}

/// Whether the six bytes at the front of `input` are a magic number this library reads.
pub fn magic_is_known(input: &[u8]) -> (b: bool)
    requires
        input@.len() >= 6,
    ensures
        b == is_known_magic(input@.take(6)),
{
    let known = input[0] == 0x30 && input[1] == 0x37 && input[2] == 0x30 && input[3] == 0x37
        && input[4] == 0x30 && (input[5] == 0x31 || input[5] == 0x32);
    proof {
        if known {
            if input[5] == 0x31 {
                assert(input@.take(6) =~= MAGIC_NEWC@);
            } else {
                assert(input@.take(6) =~= MAGIC_CRC@);
            }
        } else {
            if input@.take(6) == MAGIC_NEWC@ {
                assert(input@.take(6)[5] == MAGIC_NEWC@[5]);
                assert(false);
            }
            if input@.take(6) == MAGIC_CRC@ {
                assert(input@.take(6)[5] == MAGIC_CRC@[5]);
                assert(false);
            }
        }
    }
    known
}

/// The name of the entry that ends an archive, `TRAILER!!!`.
pub const TRAILER_NAME: [u8; 10] = [0x54, 0x52, 0x41, 0x49, 0x4c, 0x45, 0x52, 0x21, 0x21, 0x21];

/// The length of a trailer header: the name with its NUL, padded to four bytes.
pub const TRAILER_SIZE: usize = HEADER_LEN + 10 + 4;

/// The header of an entry. `name` holds the name's bytes without the terminating NUL.
#[derive(Debug, Clone, PartialEq, Eq)]
pub struct Header {
    pub ino: u32,
    pub mode: u32,
    pub uid: u32,
    pub gid: u32,
    pub nlink: u32,
    pub mtime: u32,
    pub filesize: u32,
    pub devmajor: u32,
    pub devminor: u32,
    pub rdevmajor: u32,
    pub rdevminor: u32,
    pub _checksum: u32,
    pub name: Vec<u8>,
}

/// A header as plain values.
pub struct HeaderView {
    pub ino: u32,
    pub mode: u32,
    pub uid: u32,
    pub gid: u32,
    pub nlink: u32,
    pub mtime: u32,
    pub filesize: u32,
    pub devmajor: u32,
    pub devminor: u32,
    pub rdevmajor: u32,
    pub rdevminor: u32,
    pub checksum: u32,
    pub name: Seq<u8>,
}

impl View for Header {
    type V = HeaderView;

    open spec fn view(&self) -> HeaderView {
        HeaderView {
            ino: self.ino,
            mode: self.mode,
            uid: self.uid,
            gid: self.gid,
            nlink: self.nlink,
            mtime: self.mtime,
            filesize: self.filesize,
            devmajor: self.devmajor,
            devminor: self.devminor,
            rdevmajor: self.rdevmajor,
            rdevminor: self.rdevminor,
            checksum: self._checksum,
            name: self.name@,
        }
    }
}

/// An entry: its header and the file's contents.
#[derive(Debug, Clone, PartialEq, Eq)]
pub struct CpioEntry {
    pub header: Header,
    pub contents: Vec<u8>,
}

pub struct EntryView {
    pub header: HeaderView,
    pub contents: Seq<u8>,
}

impl View for CpioEntry {
    type V = EntryView;

    open spec fn view(&self) -> EntryView {
        EntryView { header: self.header@, contents: self.contents@ }
    }
}

/// No byte of `s` is NUL.
pub open spec fn no_nul(s: Seq<u8>) -> bool {
    forall|i: int| 0 <= i < s.len() ==> s[i] != 0
}

/// A name that a C string can hold.
pub open spec fn name_ok(name: Seq<u8>) -> bool {
    no_nul(name)
}

/// `p` is where the first NUL of `s` stands.
pub open spec fn is_first_nul(s: Seq<u8>, p: int) -> bool {
    &&& 0 <= p < s.len()
    &&& s[p] == 0
    &&& no_nul(s.take(p))
}

/// What `CString::from_vec_with_nul` makes of `s`: the bytes before the NUL when the only
/// NUL is the last byte.
pub open spec fn name_from_nul_terminated(s: Seq<u8>) -> Result<Seq<u8>, NameError> {
    if no_nul(s) {
        Err(NameError::NotNulTerminated)
    } else {
        let p = choose|p: int| is_first_nul(s, p);
        if p == s.len() - 1 {
            Ok(s.take(p))
        } else {
            Err(NameError::InteriorNul { position: p as usize })
        }
    }
}

/// A sequence that holds a NUL has a first one.
pub proof fn lemma_first_nul_exists(s: Seq<u8>)
    requires
        !no_nul(s),
    ensures
        exists|p: int| is_first_nul(s, p),
    decreases s.len(),
{
    let t = s.drop_last();
    if !no_nul(t) {
        lemma_first_nul_exists(t);
        let p = choose|p: int| is_first_nul(t, p);
        assert(s.take(p) =~= t.take(p));
        assert(is_first_nul(s, p));
    } else {
        let i = choose|i: int| 0 <= i < s.len() && s[i] == 0;
        if i < s.len() - 1 {
            assert(t[i] == s[i]);
        }
        assert(s.take(s.len() - 1) =~= t);
        assert(is_first_nul(s, s.len() - 1));
    }
}

pub proof fn lemma_first_nul_unique(s: Seq<u8>, p: int, q: int)
    requires
        is_first_nul(s, p),
        is_first_nul(s, q),
    ensures
        p == q,
{
    if p < q {
        assert(s.take(q)[p] == s[p]);
    } else if q < p {
        assert(s.take(p)[q] == s[q]);
    }
}

/// The thirteen numbers of a header in the order they are written; the twelfth is the
/// length of the name with its NUL, kept to 32 bits.
pub open spec fn header_field_values(h: HeaderView) -> Seq<u32> {
    seq![
        h.ino,
        h.mode,
        h.uid,
        h.gid,
        h.nlink,
        h.mtime,
        h.filesize,
        h.devmajor,
        h.devminor,
        h.rdevmajor,
        h.rdevminor,
        ((h.name.len() + 1) % 0x1_0000_0000) as u32,
        h.checksum,
    ]
}

/// Numbers written one after another as hex fields.
pub open spec fn hex_fields(vals: Seq<u32>) -> Seq<u8>
    decreases vals.len(),
{
    if vals.len() == 0 {
        seq![]
    } else {
        hex_fields(vals.drop_last()) + hex_field(vals.last())
    }
}

/// The bytes of a header: magic, fields, the name with its NUL, and zeros up to four bytes.
pub open spec fn header_bytes(h: HeaderView) -> Seq<u8> {
    MAGIC_NEWC@ + hex_fields(header_field_values(h)) + h.name.push(0) + pad_bytes(
        (HEADER_LEN + h.name.len() + 1) as nat,
    )
}

/// The eight bytes of the `k`-th field of a header that starts `input`.
pub open spec fn field_bytes(input: Seq<u8>, k: int) -> Seq<u8> {
    input.subrange(6 + 8 * k, 14 + 8 * k)
}

/// The number in the `k`-th field of a header that starts `input`.
pub open spec fn field_at(input: Seq<u8>, k: int) -> u32 {
    hex_field_value(field_bytes(input, k)) as u32
}

/// Every field of the header that starts `input` that the input holds whole is one that
/// `u32::from_str_radix(_, 16)` accepts, when the magic number is right (reading a header
/// stops the program on any other field).
pub open spec fn header_fields_ok(input: Seq<u8>) -> bool {
    input.len() >= 6 && is_known_magic(input.take(6)) ==> forall|k: int|
        0 <= k < 13 && 14 + 8 * k <= input.len() ==> is_hex_field(#[trigger] field_bytes(input, k))
}

/// What reading a header from the front of `input` gives.
#[verifier::opaque]
pub open spec fn spec_read_header(input: Seq<u8>) -> Result<(HeaderView, nat), ErrorView> {
    if input.len() < 6 {
        Err(eof_view())
    } else if !is_known_magic(input.take(6)) {
        Err(ErrorView::BadMagic(input.take(6)))
    } else if input.len() < HEADER_LEN {
        Err(eof_view())
    } else {
        let name_end = HEADER_LEN + field_at(input, 11);
        if input.len() < name_end {
            Err(eof_view())
        } else {
            match name_from_nul_terminated(input.subrange(HEADER_LEN as int, name_end)) {
                Err(e) => Err(ErrorView::Custom(e)),
                Ok(name) => {
                    let end = name_end + pad_len(name_end as nat);
                    if input.len() < end {
                        Err(eof_view())
                    } else {
                        Ok(
                            (
                                HeaderView {
                                    ino: field_at(input, 0),
                                    mode: field_at(input, 1),
                                    uid: field_at(input, 2),
                                    gid: field_at(input, 3),
                                    nlink: field_at(input, 4),
                                    mtime: field_at(input, 5),
                                    filesize: field_at(input, 6),
                                    devmajor: field_at(input, 7),
                                    devminor: field_at(input, 8),
                                    rdevmajor: field_at(input, 9),
                                    rdevminor: field_at(input, 10),
                                    checksum: field_at(input, 12),
                                    name: name,
                                },
                                end as nat,
                            ),
                        )
                    }
                },
            }
        }
    }
}

} // verus!

verus! {

/// Where the first NUL of `s` stands, if it holds one.
fn find_nul(s: &[u8]) -> (res: Option<usize>)
    ensures
        match res {
            Some(p) => is_first_nul(s@, p as int),
            None => no_nul(s@),
        },
{
    let mut i: usize = 0;
    while i < s.len()
        invariant
            i <= s@.len(),
            no_nul(s@.take(i as int)),
        decreases s@.len() - i,
    {
        if s[i] == 0 {
            return Some(i);
        }
        assert(s@.take(i + 1) =~= s@.take(i as int).push(s@[i as int]));
        i = i + 1;
    }
    assert(s@.take(i as int) =~= s@);
    None
}

/// Appends `bytes` to the buffer.
pub fn push_all(writer: &mut Vec<u8>, bytes: &[u8])
    ensures
        final(writer)@ == old(writer)@ + bytes@,
{
    let ghost start = writer@;
    let mut i: usize = 0;
    while i < bytes.len()
        invariant
            i <= bytes@.len(),
            writer@ == start + bytes@.take(i as int),
        decreases bytes@.len() - i,
    {
        writer.push(bytes[i]);
        i = i + 1;
        assert(writer@ =~= start + bytes@.take(i as int));
    }
    assert(bytes@.take(i as int) =~= bytes@);
}

proof fn lemma_hex_fields_step(vals: Seq<u32>, k: int)
    requires
        0 <= k < vals.len(),
    ensures
        hex_fields(vals.take(k + 1)) == hex_fields(vals.take(k)) + hex_field(vals[k]),
{
    assert(vals.take(k + 1).drop_last() =~= vals.take(k));
}

/// The error of a buffer that ends too early.
fn unexpected_eof() -> (e: MiniBinError)
    ensures
        e@ == eof_view(),
{
    MiniBinError::IoError(IoErrorKind::UnexpectedEof)
}

/// The header `h` with its size and checksum fields replaced.
pub open spec fn with_size(h: HeaderView, filesize: u32, checksum: u32) -> HeaderView {
    HeaderView { filesize: filesize, checksum: checksum, ..h }
}

/// Writes the header `h` with `filesize` and `checksum` in place of its own.
fn write_header_with(h: &Header, filesize: u32, checksum: u32, writer: &mut Vec<u8>)
    requires
        name_ok(h.name@),
    ensures
        final(writer)@ == old(writer)@ + header_bytes(with_size(h@, filesize, checksum)),
{
    let ghost start = writer@;
    let ghost hv = with_size(h@, filesize, checksum);
    let n = h.name.len();
    let n64 = n as u64;
    let namesize = ((n64 % 0x1_0000_0000 + 1) % 0x1_0000_0000) as u32;
    proof {
        vstd::arithmetic::div_mod::lemma_add_mod_noop(n as int, 1, 0x1_0000_0000);
    }
    let mut i: usize = 0;
    while i < 6
        invariant
            i <= 6,
            writer@ == start + MAGIC_NEWC@.take(i as int),
        decreases 6 - i,
    {
        writer.push(MAGIC_NEWC[i]);
        i = i + 1;
        assert(writer@ =~= start + MAGIC_NEWC@.take(i as int));
    }
    assert(MAGIC_NEWC@.take(6) =~= MAGIC_NEWC@);
    let fields: [u32; 13] = [
        h.ino,
        h.mode,
        h.uid,
        h.gid,
        h.nlink,
        h.mtime,
        filesize,
        h.devmajor,
        h.devminor,
        h.rdevmajor,
        h.rdevminor,
        namesize,
        checksum,
    ];
    assert(fields@ =~= header_field_values(hv));
    let mut k: usize = 0;
    assert(hex_fields(fields@.take(0)) =~= Seq::<u8>::empty());
    while k < 13
        invariant
            k <= 13,
            fields@.len() == 13,
            writer@ == start + MAGIC_NEWC@ + hex_fields(fields@.take(k as int)),
        decreases 13 - k,
    {
        proof {
            lemma_hex_fields_step(fields@, k as int);
        }
        write_u32_hex(writer, fields[k]);
        k = k + 1;
    }
    assert(fields@.take(13) =~= fields@);
    push_all(writer, h.name.as_slice());
    writer.push(0);
    write_pad(writer, n % 4 + 3);
    assert(writer@ =~= start + header_bytes(hv));
}

impl crate::traits::MiniBinRead for Header {
    open spec fn spec_m_read(input: Seq<u8>) -> Result<(HeaderView, nat), ErrorView> {
        spec_read_header(input)
    }

    open spec fn spec_read_consumed(input: Seq<u8>) -> nat {
        header_read_consumed(input)
    }

    open spec fn read_requires(input: Seq<u8>) -> bool {
        header_fields_ok(input)
    }

    fn m_read_options(reader: &[u8], _endian: binrw::Endian) -> (res: Result<(Self, usize), MiniBinError>) {
        reveal(spec_read_header);
        proof {
            lemma_read_consumed_bound(reader@);
        }
        if reader.len() < 6 {
            return Err(unexpected_eof());
        }
        let magic: [u8; 6] = [reader[0], reader[1], reader[2], reader[3], reader[4], reader[5]];
        assert(magic@ =~= reader@.take(6));
        if !magic_is_known(reader) {
            return Err(MiniBinError::BadMagic(BadMagicError::new(magic)));
        }
        if reader.len() < HEADER_LEN {
            return Err(unexpected_eof());
        }
        let mut vals: Vec<u32> = Vec::new();
        let mut k: usize = 0;
        while k < 13
            invariant
                k <= 13,
                reader@.len() >= HEADER_LEN,
                header_fields_ok(reader@),
                is_known_magic(reader@.take(6)),
                vals@.len() == k,
                forall|j: int| 0 <= j < k ==> vals@[j] == field_at(reader@, j),
            decreases 13 - k,
        {
            let field = vstd::slice::slice_subrange(reader, 6 + 8 * k, 14 + 8 * k);
            assert(field@ == field_bytes(reader@, k as int));
            assert(field@.take(8) =~= field@);
            match read_u32_hex(field) {
                Ok(v) => {
                    vals.push(v);
                },
                Err(e) => {
                    return Err(e);
                },
            }
            k = k + 1;
        }
        let namesize = vals[11] as usize;
        if reader.len() - HEADER_LEN < namesize {
            return Err(unexpected_eof());
        }
        let name_end = HEADER_LEN + namesize;
        let name_nul = vstd::slice::slice_subrange(reader, HEADER_LEN, name_end);
        let p = match find_nul(name_nul) {
            None => {
                return Err(MiniBinError::Custom(CustomError::new(NameError::NotNulTerminated)));
            },
            Some(p) => p,
        };
        proof {
            let q = choose|q: int| is_first_nul(name_nul@, q);
            lemma_first_nul_unique(name_nul@, p as int, q);
        }
        if p + 1 != namesize {
            return Err(
                MiniBinError::Custom(CustomError::new(NameError::InteriorNul { position: p })),
            );
        }
        let name = vstd::slice::slice_to_vec(vstd::slice::slice_subrange(name_nul, 0, p));
        let rest = vstd::slice::slice_subrange(reader, name_end, reader.len());
        match read_pad(rest, name_end) {
            Ok(()) => {},
            Err(e) => {
                return Err(e);
            },
        }
        let end = name_end + (4 - name_end % 4) % 4;
        Ok(
            (
                Header {
                    ino: vals[0],
                    mode: vals[1],
                    uid: vals[2],
                    gid: vals[3],
                    nlink: vals[4],
                    mtime: vals[5],
                    filesize: vals[6],
                    devmajor: vals[7],
                    devminor: vals[8],
                    rdevmajor: vals[9],
                    rdevminor: vals[10],
                    _checksum: vals[12],
                    name,
                },
                end,
            ),
        )
    }
}

impl crate::traits::MiniBinWrite for Header {
    open spec fn spec_m_write(v: HeaderView) -> Seq<u8> {
        header_bytes(v)
    }

    open spec fn write_requires(v: HeaderView) -> bool {
        name_ok(v.name)
    }

    fn m_write_options(&self, writer: &mut Vec<u8>, _endian: binrw::Endian) {
        assert(with_size(self@, self.filesize, self._checksum) =~= self@);
        write_header_with(self, self.filesize, self._checksum, writer);
    }
}

} // verus!

verus! {

/// What reading an entry from the front of `input` gives: the header, then `filesize` bytes of
/// contents, then padding up to four bytes.
pub open spec fn spec_read_entry(input: Seq<u8>) -> Result<(EntryView, nat), ErrorView> {
    match spec_read_header(input) {
        Err(e) => Err(e),
        Ok((h, n)) => {
            let data_end = n + h.filesize;
            if input.len() < data_end {
                Err(eof_view())
            } else {
                let end = data_end + pad_len(h.filesize as nat);
                if input.len() < end {
                    Err(eof_view())
                } else {
                    Ok((EntryView { header: h, contents: input.subrange(n as int, data_end) }, end as nat))
                }
            }
        },
    }
}

/// An entry that reads takes at least `HEADER_LEN` bytes, and no more than there are.
pub proof fn lemma_read_entry_len(input: Seq<u8>)
    ensures
        spec_read_entry(input) matches Ok((e, n)) ==> HEADER_LEN <= n <= input.len(),
{
    lemma_read_header_len(input);
}

/// An entry that reads has a name that a C string holds, contents as long as its size
/// field says, and so reads back as itself once written.
pub proof fn lemma_read_entry_facts(input: Seq<u8>)
    ensures
        spec_read_entry(input) matches Ok((e, n)) ==> {
            &&& entry_roundtrips(e)
            &&& e.contents.len() == e.header.filesize as nat
        },
{
    reveal(spec_read_header);
    if let Ok((e, n)) = spec_read_entry(input) {
        let name_end = HEADER_LEN + field_at(input, 11);
        let s = input.subrange(HEADER_LEN as int, name_end as int);
        assert(!no_nul(s));
        lemma_first_nul_exists(s);
        let p = choose|p: int| is_first_nul(s, p);
        assert(is_first_nul(s, p));
        assert(p == s.len() - 1);
        assert(e.header.name == s.take(p));
        assert(name_ok(e.header.name));
        assert(e.header.name.len() + 1 < 0x1_0000_0000);
        assert(e.contents.len() == e.header.filesize as nat);
    }
}

/// The header that writing an entry puts out: its own when its size field matches the
/// contents; otherwise one with the length of the contents (kept to 32 bits) and no checksum.
pub open spec fn written_header(e: EntryView) -> HeaderView {
    if e.contents.len() == e.header.filesize as nat {
        e.header
    } else {
        with_size(e.header, (e.contents.len() % 0x1_0000_0000) as u32, 0)
    }
}

/// The bytes of an entry: its header, the contents, and zeros up to four bytes.
pub open spec fn entry_bytes(e: EntryView) -> Seq<u8> {
    header_bytes(written_header(e)) + e.contents + pad_bytes(e.contents.len())
}

impl crate::traits::MiniBinRead for CpioEntry {
    open spec fn spec_m_read(input: Seq<u8>) -> Result<(EntryView, nat), ErrorView> {
        spec_read_entry(input)
    }

    open spec fn spec_read_consumed(input: Seq<u8>) -> nat {
        entry_read_consumed(input)
    }

    open spec fn read_requires(input: Seq<u8>) -> bool {
        header_fields_ok(input)
    }

    fn m_read_options(reader: &[u8], endian: binrw::Endian) -> (res: Result<(Self, usize), MiniBinError>) {
        proof {
            lemma_read_consumed_bound(reader@);
        }
        let (header, n) = match <Header as crate::traits::MiniBinRead>::m_read_options(reader, endian) {
            Ok(r) => r,
            Err(e) => {
                return Err(e);
            },
        };
        proof {
            lemma_read_header_len(reader@);
            lemma_read_consumed_bound(reader@);
        }
        let size = header.filesize as usize;
        if reader.len() - n < size {
            return Err(unexpected_eof());
        }
        let data_end = n + size;
        let contents = vstd::slice::slice_to_vec(vstd::slice::slice_subrange(reader, n, data_end));
        let rest = vstd::slice::slice_subrange(reader, data_end, reader.len());
        match read_pad(rest, size) {
            Ok(()) => {},
            Err(e) => {
                return Err(e);
            },
        }
        let end = data_end + (4 - size % 4) % 4;
        Ok((CpioEntry { header, contents }, end))
    }
}

impl crate::traits::MiniBinWrite for CpioEntry {
    open spec fn spec_m_write(v: EntryView) -> Seq<u8> {
        entry_bytes(v)
    }

    open spec fn write_requires(v: EntryView) -> bool {
        name_ok(v.header.name)
    }

    fn m_write_options(&self, writer: &mut Vec<u8>, _endian: binrw::Endian) {
        let ghost start = writer@;
        let len = self.contents.len();
        if len == self.header.filesize as usize {
            assert(with_size(self.header@, self.header.filesize, self.header._checksum) =~= self.header@);
            write_header_with(&self.header, self.header.filesize, self.header._checksum, writer);
        } else {
            let size = ((len as u64) % 0x1_0000_0000) as u32;
            write_header_with(&self.header, size, 0, writer);
        }
        push_all(writer, self.contents.as_slice());
        write_pad(writer, len);
        assert(writer@ =~= start + entry_bytes(self@));
    }
}

} // verus!

verus! {

/// The eight bytes that stand `k`-th in `s`.
pub open spec fn chunk8(s: Seq<u8>, k: int) -> Seq<u8> {
    s.subrange(8 * k, 8 * k + 8)
}

pub proof fn lemma_hex_fields(vals: Seq<u32>)
    ensures
        hex_fields(vals).len() == 8 * vals.len(),
        forall|k: int| 0 <= k < vals.len() ==> #[trigger] chunk8(hex_fields(vals), k) == hex_field(vals[k]),
    decreases vals.len(),
{
    if vals.len() > 0 {
        let init = vals.drop_last();
        lemma_hex_fields(init);
        crate::hex::lemma_hex_field_roundtrip(vals.last());
        let a = hex_fields(init);
        let b = hex_field(vals.last());
        assert forall|k: int| 0 <= k < vals.len() implies #[trigger] chunk8(hex_fields(vals), k) == hex_field(vals[k]) by {
            if k < vals.len() - 1 {
                assert(chunk8(hex_fields(vals), k) =~= chunk8(a, k));
                assert(init[k] == vals[k]);
            } else {
                assert(chunk8(hex_fields(vals), k) =~= b);
            }
        }
    }
}

/// A header that writing and reading carry through unchanged: its name holds no NUL and,
/// with its NUL, fits the 32-bit size field.
pub open spec fn header_roundtrips(h: HeaderView) -> bool {
    &&& name_ok(h.name)
    &&& h.name.len() + 1 < 0x1_0000_0000
}

/// A header that reads takes at least `HEADER_LEN` bytes, and no more than there are.
pub proof fn lemma_read_header_len(input: Seq<u8>)
    ensures
        spec_read_header(input) matches Ok((h, n)) ==> HEADER_LEN <= n <= input.len(),
{
    reveal(spec_read_header);
}

/// Reading back a written header gives the header, and the bytes it took are exactly those
/// written, whatever follows them.
#[verifier::rlimit(40)]
pub proof fn lemma_header_roundtrip(h: HeaderView, rest: Seq<u8>)
    requires
        header_roundtrips(h),
    ensures
        header_fields_ok(header_bytes(h) + rest),
        spec_read_header(header_bytes(h) + rest) == Ok::<(HeaderView, nat), ErrorView>(
            (h, header_bytes(h).len()),
        ),
{
    reveal(spec_read_header);
    let vals = header_field_values(h);
    let m = MAGIC_NEWC@;
    let f = hex_fields(vals);
    let nm = h.name.push(0);
    let n = h.name.len();
    let pad = pad_bytes((HEADER_LEN + n + 1) as nat);
    let input = header_bytes(h) + rest;
    lemma_hex_fields(vals);
    assert(input =~= m + f + nm + pad + rest);
    assert(input.take(6) =~= m);
    assert forall|k: int| 0 <= k < 13 implies #[trigger] field_bytes(input, k) == hex_field(vals[k]) by {
        assert(field_bytes(input, k) =~= chunk8(f, k));
    }
    assert forall|k: int| 0 <= k < 13 implies field_at(input, k) == vals[k] by {
        assert(field_bytes(input, k) == hex_field(vals[k]));
        crate::hex::lemma_hex_field_roundtrip(vals[k]);
    }
    assert forall|k: int| 0 <= k < 13 && 14 + 8 * k <= input.len() implies is_hex_field(
        #[trigger] field_bytes(input, k),
    ) by {
        assert(field_bytes(input, k) == hex_field(vals[k]));
        crate::hex::lemma_hex_field_roundtrip(vals[k]);
    }
    assert(field_at(input, 11) == n + 1);
    let name_end = HEADER_LEN + n + 1;
    assert(input.subrange(HEADER_LEN as int, name_end as int) =~= nm);
    assert(is_first_nul(nm, n as int)) by {
        assert(nm.take(n as int) =~= h.name);
    }
    assert(!no_nul(nm)) by {
        assert(nm[n as int] == 0);
    }
    let q = choose|q: int| is_first_nul(nm, q);
    lemma_first_nul_unique(nm, n as int, q);
    assert(nm.take(n as int) =~= h.name);
    assert(name_from_nul_terminated(nm) == Ok::<Seq<u8>, NameError>(h.name));
    let (hv, end) = spec_read_header(input)->Ok_0;
    assert(hv =~= h);
}

} // verus!

verus! {

/// An entry that writing and reading carry through: its header does, and its contents fit
/// the 32-bit size field.
pub open spec fn entry_roundtrips(e: EntryView) -> bool {
    &&& header_roundtrips(e.header)
    &&& e.contents.len() < 0x1_0000_0000
}

/// The entry as it reads back once written: the header that was put out, and the contents.
pub open spec fn normalized(e: EntryView) -> EntryView {
    EntryView { header: written_header(e), contents: e.contents }
}

/// Reading back a written entry gives the entry with the header that was written (its size
/// field set to the length of the contents), and takes exactly the bytes written.
pub proof fn lemma_entry_roundtrip(e: EntryView, rest: Seq<u8>)
    requires
        entry_roundtrips(e),
    ensures
        header_fields_ok(entry_bytes(e) + rest),
        spec_read_entry(entry_bytes(e) + rest) == Ok::<(EntryView, nat), ErrorView>(
            (normalized(e), entry_bytes(e).len()),
        ),
{
    let wh = written_header(e);
    let hb = header_bytes(wh);
    let c = e.contents;
    let p = pad_bytes(c.len());
    let tail = c + p + rest;
    assert(entry_bytes(e) + rest =~= hb + tail);
    lemma_header_roundtrip(wh, tail);
    assert(wh.filesize as nat == c.len());
    let input = entry_bytes(e) + rest;
    assert(input.subrange(hb.len() as int, (hb.len() + c.len()) as int) =~= c);
    let (ev, end) = spec_read_entry(input)->Ok_0;
    assert(ev =~= normalized(e));
}

/// A written entry reads back as itself when its size field already matches its contents.
pub proof fn lemma_entry_roundtrip_exact(e: EntryView, rest: Seq<u8>)
    requires
        entry_roundtrips(e),
        e.header.filesize as nat == e.contents.len(),
    ensures
        spec_read_entry(entry_bytes(e) + rest) == Ok::<(EntryView, nat), ErrorView>(
            (e, entry_bytes(e).len()),
        ),
{
    lemma_entry_roundtrip(e, rest);
    assert(normalized(e) =~= e);
}

} // verus!

verus! {

/// The name that marks the end of an archive.
pub open spec fn is_trailer_name(name: Seq<u8>) -> bool {
    name == TRAILER_NAME@
}

/// The trailer's name as the bytes of a C string without its NUL.
pub fn trailer_name_cstring() -> (name: Vec<u8>)
    ensures
        name@ == TRAILER_NAME@,
        name_ok(name@),
{
    let mut name: Vec<u8> = Vec::new();
    push_all(&mut name, TRAILER_NAME.as_slice());
    assert(name@ =~= TRAILER_NAME@);
    name
}

/// The header of a trailer as `newc` archives write it.
pub open spec fn trailer_view(ino: u32) -> HeaderView {
    HeaderView {
        ino: ino,
        mode: 0,
        uid: 0,
        gid: 0,
        nlink: 1,
        mtime: 0,
        filesize: 0,
        devmajor: 0,
        devminor: 0,
        rdevmajor: 0,
        rdevminor: 0,
        checksum: 0,
        name: TRAILER_NAME@,
    }
}

impl Header {
    pub fn new_trailer(ino: u32) -> (h: Header)
        ensures
            h@ == trailer_view(ino),
    {
        let name = trailer_name_cstring();
        Header {
            ino,
            mode: 0,
            uid: 0,
            gid: 0,
            nlink: 1,
            mtime: 0,
            filesize: 0,
            devmajor: 0,
            devminor: 0,
            rdevmajor: 0,
            rdevminor: 0,
            _checksum: 0,
            name,
        }
    }

    pub fn is_trailer(&self) -> (b: bool)
        ensures
            b == is_trailer_name(self.name@),
            b <==> self.name@ == seq![0x54u8, 0x52, 0x41, 0x49, 0x4c, 0x45, 0x52, 0x21, 0x21, 0x21],
    {
        if self.name.len() != 10 {
            return false;
        }
        let mut i: usize = 0;
        while i < 10
            invariant
                i <= 10,
                self.name@.len() == 10,
                forall|j: int| 0 <= j < i ==> self.name@[j] == TRAILER_NAME@[j],
            decreases 10 - i,
        {
            if self.name[i] != TRAILER_NAME[i] {
                return false;
            }
            i = i + 1;
        }
        assert(self.name@ =~= TRAILER_NAME@);
        true
    }
}

impl CpioEntry {
    pub fn is_trailer(&self) -> (b: bool)
        ensures
            b == is_trailer_name(self.header.name@),
            b <==> self.header.name@ == seq![0x54u8, 0x52, 0x41, 0x49, 0x4c, 0x45, 0x52, 0x21, 0x21, 0x21],
    {
        self.header.is_trailer()
    }
}

/// A trailer is a trailer, its name is a C string's, and its header takes `TRAILER_SIZE`
/// bytes.
pub proof fn lemma_trailer(ino: u32)
    ensures
        is_trailer_name(trailer_view(ino).name),
        header_roundtrips(trailer_view(ino)),
        header_bytes(trailer_view(ino)).len() == TRAILER_SIZE,
{
    lemma_hex_fields(header_field_values(trailer_view(ino)));
}

/// Every header is padded to a multiple of four bytes, and so is every entry.
pub proof fn lemma_alignment(e: EntryView)
    ensures
        header_bytes(e.header).len() % 4 == 0,
        entry_bytes(e).len() % 4 == 0,
{
    lemma_hex_fields(header_field_values(e.header));
    lemma_hex_fields(header_field_values(written_header(e)));
}

} // verus!

verus! {

/// Whether the fields of the header that starts `input` read (see `header_fields_ok`).
pub fn header_fields_are_hex(input: &[u8]) -> (b: bool)
    ensures
        b == header_fields_ok(input@),
{
    if input.len() < 6 {
        return true;
    }
    if !magic_is_known(input) {
        return true;
    }
    let mut k: usize = 0;
    while k < 13
        invariant
            k <= 13,
            input@.len() >= 6,
            is_known_magic(input@.take(6)),
            forall|j: int|
                0 <= j < k && 14 + 8 * j <= input@.len() ==> is_hex_field(#[trigger] field_bytes(input@, j)),
        decreases 13 - k,
    {
        if input.len() - 6 < 8 * k + 8 {
            assert forall|j: int| 0 <= j < 13 && 14 + 8 * j <= input@.len() implies is_hex_field(
                #[trigger] field_bytes(input@, j),
            ) by {
                assert(j < k);
            }
            return true;
        }
        let field = vstd::slice::slice_subrange(input, 6 + 8 * k, 14 + 8 * k);
        assert(field@ == field_bytes(input@, k as int));
        if !crate::hex::hex_field_is_valid(field) {
            return false;
        }
        k = k + 1;
    }
    true
}

} // verus!

verus! {

proof fn lemma_hex_fields_of_chunks(vals: Seq<u32>, s: Seq<u8>)
    requires
        s.len() == 8 * vals.len(),
        forall|k: int| 0 <= k < vals.len() ==> #[trigger] chunk8(s, k) == hex_field(vals[k]),
    ensures
        hex_fields(vals) == s,
    decreases vals.len(),
{
    if vals.len() == 0 {
        assert(s =~= Seq::<u8>::empty());
    } else {
        let n = vals.len() - 1;
        let init = vals.drop_last();
        let front = s.take(8 * n);
        assert forall|k: int| 0 <= k < init.len() implies #[trigger] chunk8(front, k) == hex_field(init[k]) by {
            assert(chunk8(front, k) =~= chunk8(s, k));
            assert(init[k] == vals[k]);
        }
        lemma_hex_fields_of_chunks(init, front);
        assert(chunk8(s, n) == hex_field(vals[n]));
        assert(s =~= front + chunk8(s, n));
    }
}

/// A header as the format writes it: the `newc` magic number (a `crc` header is written back
/// as `newc`), upper-case fields, and zeros for padding.
pub open spec fn header_canonical(input: Seq<u8>) -> bool {
    &&& input.len() >= 6 && input.take(6) == MAGIC_NEWC@
    &&& forall|k: int| 0 <= k < 13 ==> crate::hex::is_canonical_hex_field(#[trigger] field_bytes(input, k))
    &&& spec_read_header(input) matches Ok((h, n)) ==> forall|i: int|
        HEADER_LEN + h.name.len() + 1 <= i < n ==> input[i] == 0
}

/// A header read from bytes as the format writes them is written back as those bytes.
#[verifier::rlimit(40)]
pub proof fn lemma_header_rewrite(input: Seq<u8>)
    requires
        spec_read_header(input) is Ok,
        header_canonical(input),
    ensures
        ({
            let (h, n) = spec_read_header(input)->Ok_0;
            header_bytes(h) == input.take(n as int)
        }),
{
    reveal(spec_read_header);
    let (h, n) = spec_read_header(input)->Ok_0;
    let vals = header_field_values(h);
    let name_end = HEADER_LEN + field_at(input, 11);
    assert forall|k: int| 0 <= k < 13 implies crate::hex::is_hex_field(#[trigger] field_bytes(input, k))
        && hex_field(field_at(input, k)) == field_bytes(input, k) by {
        crate::hex::lemma_hex_field_canonical(field_bytes(input, k));
    }
    let s = input.subrange(HEADER_LEN as int, name_end as int);
    lemma_first_nul_exists(s);
    let p = choose|p: int| is_first_nul(s, p);
    assert(h.name == s.take(p));
    assert(p == s.len() - 1);
    assert(h.name.len() + 1 == field_at(input, 11));
    assert(vals[11] == field_at(input, 11));
    let fields = input.subrange(6, HEADER_LEN as int);
    assert forall|k: int| 0 <= k < 13 implies #[trigger] chunk8(fields, k) == hex_field(vals[k]) by {
        assert(chunk8(fields, k) =~= field_bytes(input, k));
    }
    lemma_hex_fields_of_chunks(vals, fields);
    assert(s =~= h.name.push(0));
    let pad = input.subrange(name_end as int, n as int);
    assert(pad =~= pad_bytes((HEADER_LEN + h.name.len() + 1) as nat));
    assert(input.take(n as int) =~= input.take(6) + fields + s + pad);
}

/// An entry as the format writes it: a header as the format writes it, and zeros after the
/// contents.
pub open spec fn entry_canonical(input: Seq<u8>) -> bool {
    &&& header_canonical(input)
    &&& spec_read_entry(input) matches Ok((e, n)) ==> forall|i: int|
        n - pad_len(e.contents.len()) <= i < n ==> input[i] == 0
}

/// An entry read from bytes as the format writes them is written back as those bytes.
pub proof fn lemma_entry_rewrite(input: Seq<u8>)
    requires
        spec_read_entry(input) is Ok,
        entry_canonical(input),
    ensures
        ({
            let (e, n) = spec_read_entry(input)->Ok_0;
            entry_bytes(e) == input.take(n as int)
        }),
{
    lemma_read_entry_facts(input);
    lemma_read_header_len(input);
    let (e, n) = spec_read_entry(input)->Ok_0;
    let (h, hn) = spec_read_header(input)->Ok_0;
    lemma_header_rewrite(input);
    assert(written_header(e) == e.header);
    let data_end = hn + h.filesize;
    let pad = input.subrange(data_end as int, n as int);
    assert(pad =~= pad_bytes(e.contents.len()));
    assert(input.take(n as int) =~= input.take(hn as int) + e.contents + pad);
}

} // verus!

verus! {

/// How many bytes reading a header takes from the front of `input`, whether it succeeds or
/// fails: on success the header and its padding; on a bad magic number the six bytes of it; on
/// a name that is not a C string the fields and the name; when the input ends too early, all of
/// it.
pub open spec fn header_read_consumed(input: Seq<u8>) -> nat {
    match spec_read_header(input) {
        Ok((_h, n)) => n,
        Err(ErrorView::BadMagic(_m)) => 6,
        Err(ErrorView::Custom(_c)) => (HEADER_LEN + field_at(input, 11)) as nat,
        Err(ErrorView::IoError(_k)) => input.len(),
    }
}

/// How many bytes reading an entry takes from the front of `input`, whether it succeeds or
/// fails (as for a header; running out of input in the contents or their padding takes all).
pub open spec fn entry_read_consumed(input: Seq<u8>) -> nat {
    match spec_read_entry(input) {
        Ok((_e, n)) => n,
        Err(ErrorView::BadMagic(_m)) => 6,
        Err(ErrorView::Custom(_c)) => (HEADER_LEN + field_at(input, 11)) as nat,
        Err(ErrorView::IoError(_k)) => input.len(),
    }
}

/// A read never takes more than the input holds; a name error stands after the whole name,
/// with a magic number that reads and all fields in the input.
pub proof fn lemma_read_consumed_bound(input: Seq<u8>)
    ensures
        header_read_consumed(input) <= input.len(),
        entry_read_consumed(input) <= input.len(),
        spec_read_entry(input) matches Err(ErrorView::Custom(c)) ==> {
            &&& spec_read_header(input) == Err::<(HeaderView, nat), ErrorView>(ErrorView::Custom(c))
            &&& input.len() >= HEADER_LEN
            &&& is_known_magic(input.take(6))
            &&& HEADER_LEN + field_at(input, 11) <= input.len()
        },
{
    reveal(spec_read_header);
}

/// How many bytes a failed read of an entry took from `reader` (see `entry_read_consumed`).
pub fn entry_read_consumed_on_error(reader: &[u8], e: &MiniBinError) -> (n: usize)
    requires
        header_fields_ok(reader@),
        spec_read_entry(reader@) == Err::<(EntryView, nat), ErrorView>(e@),
    ensures
        n == entry_read_consumed(reader@),
{
    proof {
        lemma_read_consumed_bound(reader@);
    }
    match e {
        MiniBinError::BadMagic(_) => 6,
        MiniBinError::Custom(_) => {
            let field = vstd::slice::slice_subrange(reader, 6 + 8 * 11, 14 + 8 * 11);
            assert(field@ == field_bytes(reader@, 11));
            assert(field@.take(8) =~= field@);
            assert(e@ is Custom);
            assert(spec_read_entry(reader@) matches Err(ErrorView::Custom(_c)));
            assert(HEADER_LEN + field_at(reader@, 11) <= reader@.len());
            assert(is_hex_field(field_bytes(reader@, 11)));
            match read_u32_hex(field) {
                Ok(namesize) => {
                    assert(namesize == field_at(reader@, 11));
                    let ns = namesize as usize;
                    assert(HEADER_LEN + ns <= reader@.len());
                    assert(reader@.len() == reader.len());
                    assert(HEADER_LEN + ns <= usize::MAX);
                    HEADER_LEN + ns
                },
                Err(_) => 0,
            }
        },
        MiniBinError::IoError(_) => reader.len(),
    }
}

} // verus!

verus! {

/// Only the name `TRAILER!!!` itself marks the end of an archive: any other name, of any
/// length, is an ordinary entry's.
pub proof fn lemma_trailer_name_exact(name: Seq<u8>)
    ensures
        is_trailer_name(name) <==> name == seq![0x54u8, 0x52, 0x41, 0x49, 0x4c, 0x45, 0x52, 0x21, 0x21, 0x21],
{
    assert(TRAILER_NAME@ =~= seq![0x54u8, 0x52, 0x41, 0x49, 0x4c, 0x45, 0x52, 0x21, 0x21, 0x21]);
}

proof fn lemma_header_field_chunk(h: HeaderView, k: int)
    requires
        0 <= k < 13,
    ensures
        header_bytes(h).subrange(6 + 8 * k, 14 + 8 * k) == hex_field(header_field_values(h)[k]),
{
    let vals = header_field_values(h);
    lemma_hex_fields(vals);
    assert(header_bytes(h).subrange(6 + 8 * k, 14 + 8 * k) =~= chunk8(hex_fields(vals), k));
}

/// The layout of a written header, as the `newc` format fixes it: the magic number `070701`
/// at bytes 0..6, then eight-byte fields for ino (6..14), mode (14..22), uid (22..30),
/// gid (30..38), nlink (38..46), mtime (46..54), filesize (54..62), devmajor (62..70),
/// devminor (70..78), rdevmajor (78..86), rdevminor (86..94), the name's length with its NUL
/// (94..102) and the checksum (102..110); then the name and a NUL.
pub proof fn lemma_header_layout(h: HeaderView)
    ensures
        header_bytes(h).take(6) == seq![0x30u8, 0x37, 0x30, 0x37, 0x30, 0x31],
        header_bytes(h).subrange(6, 14) == hex_field(h.ino),
        header_bytes(h).subrange(14, 22) == hex_field(h.mode),
        header_bytes(h).subrange(22, 30) == hex_field(h.uid),
        header_bytes(h).subrange(30, 38) == hex_field(h.gid),
        header_bytes(h).subrange(38, 46) == hex_field(h.nlink),
        header_bytes(h).subrange(46, 54) == hex_field(h.mtime),
        header_bytes(h).subrange(54, 62) == hex_field(h.filesize),
        header_bytes(h).subrange(62, 70) == hex_field(h.devmajor),
        header_bytes(h).subrange(70, 78) == hex_field(h.devminor),
        header_bytes(h).subrange(78, 86) == hex_field(h.rdevmajor),
        header_bytes(h).subrange(86, 94) == hex_field(h.rdevminor),
        header_bytes(h).subrange(94, 102) == hex_field(((h.name.len() + 1) % 0x1_0000_0000) as u32),
        header_bytes(h).subrange(102, 110) == hex_field(h.checksum),
        header_bytes(h).subrange(110, 110 + h.name.len() as int) == h.name,
        header_bytes(h)[110 + h.name.len() as int] == 0,
{
    let vals = header_field_values(h);
    let f = hex_fields(vals);
    let b = header_bytes(h);
    lemma_hex_fields(vals);
    assert(b.take(6) =~= MAGIC_NEWC@);
    lemma_header_field_chunk(h, 0);
    lemma_header_field_chunk(h, 1);
    lemma_header_field_chunk(h, 2);
    lemma_header_field_chunk(h, 3);
    lemma_header_field_chunk(h, 4);
    lemma_header_field_chunk(h, 5);
    lemma_header_field_chunk(h, 6);
    lemma_header_field_chunk(h, 7);
    lemma_header_field_chunk(h, 8);
    lemma_header_field_chunk(h, 9);
    lemma_header_field_chunk(h, 10);
    lemma_header_field_chunk(h, 11);
    lemma_header_field_chunk(h, 12);
    assert(b.subrange(110, 110 + h.name.len() as int) =~= h.name);
}

/// Where reading a header takes each number from: ino from bytes 6..14, mode 14..22,
/// uid 22..30, gid 30..38, nlink 38..46, mtime 46..54, filesize 54..62, devmajor 62..70,
/// devminor 70..78, rdevmajor 78..86, rdevminor 86..94, the name's length 94..102, the
/// checksum 102..110; the name follows at 110, its NUL ending it.
pub proof fn lemma_read_header_layout(input: Seq<u8>)
    ensures
        spec_read_header(input) matches Ok((h, n)) ==> {
            &&& is_known_magic(input.take(6))
            &&& h.ino == hex_field_value(input.subrange(6, 14)) as u32
            &&& h.mode == hex_field_value(input.subrange(14, 22)) as u32
            &&& h.uid == hex_field_value(input.subrange(22, 30)) as u32
            &&& h.gid == hex_field_value(input.subrange(30, 38)) as u32
            &&& h.nlink == hex_field_value(input.subrange(38, 46)) as u32
            &&& h.mtime == hex_field_value(input.subrange(46, 54)) as u32
            &&& h.filesize == hex_field_value(input.subrange(54, 62)) as u32
            &&& h.devmajor == hex_field_value(input.subrange(62, 70)) as u32
            &&& h.devminor == hex_field_value(input.subrange(70, 78)) as u32
            &&& h.rdevmajor == hex_field_value(input.subrange(78, 86)) as u32
            &&& h.rdevminor == hex_field_value(input.subrange(86, 94)) as u32
            &&& h.name.len() + 1 == hex_field_value(input.subrange(94, 102)) as u32
            &&& h.checksum == hex_field_value(input.subrange(102, 110)) as u32
            &&& h.name == input.subrange(110, 110 + h.name.len() as int)
            &&& input[110 + h.name.len() as int] == 0
        },
{
    reveal(spec_read_header);
    if let Ok((h, n)) = spec_read_header(input) {
        let name_end = HEADER_LEN + field_at(input, 11);
        let s = input.subrange(HEADER_LEN as int, name_end as int);
        lemma_first_nul_exists(s);
        let p = choose|p: int| is_first_nul(s, p);
        assert(h.name == s.take(p));
        assert(p == s.len() - 1);
        assert(s[p] == input[110 + p]);
        assert(h.name =~= input.subrange(110, 110 + h.name.len() as int));
    }
}

} // verus!
