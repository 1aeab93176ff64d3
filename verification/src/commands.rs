//! What the `list` and `strip` commands compute, on archives held in buffers.
use vstd::prelude::*;
use crate::cli::{ListArgs, StripArgs};
use crate::cpio::{entry_bytes, is_trailer_name, CpioEntry, EntryView, Header, HeaderView};
use crate::error::{ErrorView, MiniBinError};
use crate::iter::{archive_bytes, lemma_archive_bytes_push, archive_ok, lemma_archive_shape, read_as_cpio, read_as_cpio_with_trailer, spec_read_archive};

verus! {

/// The names of entries.
pub open spec fn entry_names(es: Seq<EntryView>) -> Seq<Seq<u8>> {
    es.map_values(|e: EntryView| e.header.name)
}

/// The views of names.
pub open spec fn name_views(v: Seq<Vec<u8>>) -> Seq<Seq<u8>> {
    v.map_values(|n: Vec<u8>| n@)
}

/// The character that ends each listed name.
pub fn list_eol(args: &ListArgs) -> (c: char)
    ensures
        c == (if args.zero { '\0' } else { '\n' }),
{
    if args.zero {
        '\0'
    } else {
        '\n'
    }
}

/// Appends the names of the entries of the archive in `reader`, up to the trailer, in order;
/// fails with the error that stopped the walk, once the names before it are listed.
pub fn cpio_list(reader: &[u8], names: &mut Vec<Vec<u8>>) -> (res: Result<(), MiniBinError>)
    requires
        archive_ok(reader@),
    ensures
        name_views(final(names)@) == name_views(old(names)@) + entry_names(spec_read_archive(reader@, false).0),
        res is Ok <==> spec_read_archive(reader@, false).1 is None,
        res matches Err(e) ==> spec_read_archive(reader@, false).1 == Some(e@),
{
    let ghost es = spec_read_archive(reader@, false).0;
    let ghost err = spec_read_archive(reader@, false).1;
    let ghost start = name_views(names@);
    let mut it = read_as_cpio(reader);
    let ghost mut k: int = 0;
    assert(es.skip(0) =~= es);
    assert(name_views(names@) =~= start + entry_names(es.take(0)));
    loop
        invariant
            !it@.with_trailer,
            !it@.done,
            archive_ok(it@.rest),
            0 <= k <= es.len(),
            es == spec_read_archive(reader@, false).0,
            err == spec_read_archive(reader@, false).1,
            spec_read_archive(it@.rest, false) == (es.skip(k), err),
            start == name_views(old(names)@),
            name_views(names@) == start + entry_names(es.take(k)),
        decreases it@.rest.len(),
    {
        let ghost rest = it@.rest;
        proof {
            crate::cpio::lemma_read_entry_len(rest);
        }
        match it.next() {
            None => {
                // the trailer: nothing is left to list
                assert(spec_read_archive(rest, false).0.len() == 0);
                assert(es.skip(k).len() == 0);
                assert(es.take(k) =~= es);
                return Ok(());
            },
            Some(Err(e)) => {
                assert(spec_read_archive(rest, false).0.len() == 0);
                assert(es.skip(k).len() == 0);
                assert(es.take(k) =~= es);
                return Err(e);
            },
            Some(Ok(entry)) => {
                let ghost ev = entry@;
                assert(spec_read_archive(rest, false).0[0] == ev);
                assert(es.skip(k).len() > 0);
                assert(es.skip(k)[0] == ev);
                assert(es[k] == ev);
                assert(es.skip(k).drop_first() =~= es.skip(k + 1));
                let ghost before = names@;
                names.push(entry.header.name);
                assert(es.take(k + 1) =~= es.take(k).push(ev));
                assert(name_views(names@) =~= name_views(before).push(ev.header.name));
                assert(entry_names(es.take(k + 1)) =~= entry_names(es.take(k)).push(ev.header.name));
                proof {
                    k = k + 1;
                }
            },
        }
    }
}

} // verus!

verus! {

/// What stripping leaves of a header: the given inode number when `reset_ino`, no
/// modification time when `reset_mtime`.
pub open spec fn stripped_header(h: HeaderView, reset_ino: bool, reset_mtime: bool, ino: u32) -> HeaderView {
    HeaderView {
        ino: if reset_ino { ino } else { h.ino },
        mtime: if reset_mtime { 0 } else { h.mtime },
        ..h
    }
}

/// What stripping reports of a header: its name, its inode number and the one it gets, and
/// the modification time it loses.
pub struct StripNote {
    pub name: Vec<u8>,
    pub old_ino: u32,
    pub new_ino: Option<u32>,
    pub old_mtime: Option<u32>,
}

pub struct NoteView {
    pub name: Seq<u8>,
    pub old_ino: u32,
    pub new_ino: Option<u32>,
    pub old_mtime: Option<u32>,
}

impl View for StripNote {
    type V = NoteView;

    open spec fn view(&self) -> NoteView {
        NoteView { name: self.name@, old_ino: self.old_ino, new_ino: self.new_ino, old_mtime: self.old_mtime }
    }
}

pub open spec fn note_of(h: HeaderView, reset_ino: bool, reset_mtime: bool, ino: u32) -> NoteView {
    NoteView {
        name: h.name,
        old_ino: h.ino,
        new_ino: if reset_ino { Some(ino) } else { None },
        old_mtime: if reset_mtime { Some(h.mtime) } else { None },
    }
}

/// Strips one header: with `reset_ino` it takes the inode number `ino`, which then counts on;
/// with `reset_mtime` its modification time becomes zero. Returns what was done.
pub fn cpio_strip_entry(header: &mut Header, args: &StripArgs, ino: &mut u32) -> (note: StripNote)
    requires
        args.reset_ino ==> *old(ino) < u32::MAX,
    ensures
        final(header)@ == stripped_header(old(header)@, args.reset_ino, args.reset_mtime, *old(ino)),
        *final(ino) == (if args.reset_ino { *old(ino) + 1 } else { *old(ino) as int }),
        note@ == note_of(old(header)@, args.reset_ino, args.reset_mtime, *old(ino)),
        final(header).ino == (if args.reset_ino { *old(ino) } else { old(header).ino }),
        final(header).mtime == (if args.reset_mtime { 0 } else { old(header).mtime }),
        final(header).name@ == old(header).name@,
        final(header).filesize == old(header).filesize,
        note.name@ == old(header).name@,
        note.old_ino == old(header).ino,
        note.new_ino == (if args.reset_ino { Some(*old(ino)) } else { None }),
        note.old_mtime == (if args.reset_mtime { Some(old(header).mtime) } else { None }),
{
    let mut name: Vec<u8> = Vec::new();
    crate::cpio::push_all(&mut name, header.name.as_slice());
    assert(name@ =~= header.name@);
    let mut note = StripNote { name, old_ino: header.ino, new_ino: None, old_mtime: None };
    if args.reset_ino {
        note.new_ino = Some(*ino);
        header.ino = *ino;
        *ino = *ino + 1;
    }
    if args.reset_mtime {
        note.old_mtime = Some(header.mtime);
        header.mtime = 0;
    }
    assert(header@ =~= stripped_header(old(header)@, args.reset_ino, args.reset_mtime, *old(ino)));
    note
}

/// Entries stripped in order, the `i`-th taking inode number `start + i`.
pub open spec fn strip_all(es: Seq<EntryView>, reset_ino: bool, reset_mtime: bool, start: int) -> Seq<EntryView> {
    Seq::new(
        es.len(),
        |i: int|
            EntryView {
                header: stripped_header(es[i].header, reset_ino, reset_mtime, (start + i) as u32),
                contents: es[i].contents,
            },
    )
}

/// The notes of stripping entries in order.
pub open spec fn strip_notes(es: Seq<EntryView>, reset_ino: bool, reset_mtime: bool, start: int) -> Seq<NoteView> {
    Seq::new(es.len(), |i: int| note_of(es[i].header, reset_ino, reset_mtime, (start + i) as u32))
}

pub open spec fn note_views(v: Seq<StripNote>) -> Seq<NoteView> {
    v.map_values(|n: StripNote| n@)
}

/// The entries of an archive before its trailer, as far as reading gets.
pub open spec fn archive_body(input: Seq<u8>) -> Seq<EntryView> {
    let (es, err) = spec_read_archive(input, true);
    if err is None {
        es.drop_last()
    } else {
        es
    }
}

/// The trailer of an archive that reads to its end.
pub open spec fn archive_trailer(input: Seq<u8>) -> EntryView {
    spec_read_archive(input, true).0.last()
}

/// The error that stops reading an archive, if one does.
pub open spec fn archive_error(input: Seq<u8>) -> Option<ErrorView> {
    spec_read_archive(input, true).1
}

proof fn lemma_strip_step(es: Seq<EntryView>, k: int, ri: bool, rm: bool, start: int)
    requires
        0 <= k < es.len(),
    ensures
        strip_all(es.take(k + 1), ri, rm, start) == strip_all(es.take(k), ri, rm, start).push(
            EntryView { header: stripped_header(es[k].header, ri, rm, (start + k) as u32), contents: es[k].contents },
        ),
        strip_notes(es.take(k + 1), ri, rm, start) == strip_notes(es.take(k), ri, rm, start).push(
            note_of(es[k].header, ri, rm, (start + k) as u32),
        ),
{
    assert(strip_all(es.take(k + 1), ri, rm, start) =~= strip_all(es.take(k), ri, rm, start).push(
        EntryView { header: stripped_header(es[k].header, ri, rm, (start + k) as u32), contents: es[k].contents },
    ));
    assert(strip_notes(es.take(k + 1), ri, rm, start) =~= strip_notes(es.take(k), ri, rm, start).push(
        note_of(es[k].header, ri, rm, (start + k) as u32),
    ));
}

/// Writes a header and, when its size is not zero, the contents and their padding.
fn write_header_and_contents(writer: &mut Vec<u8>, header: &Header, contents: &Vec<u8>)
    requires
        crate::cpio::name_ok(header.name@),
        contents@.len() == header.filesize as nat,
    ensures
        final(writer)@ == old(writer)@ + entry_bytes(EntryView { header: header@, contents: contents@ }),
{
    let ghost w = writer@;
    crate::traits::MiniBinWrite::m_write_ne(header, writer);
    let size = header.filesize as usize;
    if size != 0 {
        crate::cpio::push_all(writer, contents.as_slice());
        crate::ext::write_pad(writer, size);
    }
    let ghost ev = EntryView { header: header@, contents: contents@ };
    assert(crate::cpio::written_header(ev) == ev.header);
    assert(writer@ =~= w + entry_bytes(ev));
}

/// Strips the entries of the archive in `reader` in their order and writes them, the trailer
/// unchanged; stops at the first error, once the entries before it are written.
#[verifier::rlimit(50)]
pub fn cpio_strip_without_sort(
    reader: &[u8],
    writer: &mut Vec<u8>,
    args: &StripArgs,
    ino: &mut u32,
    notes: &mut Vec<StripNote>,
) -> (res: Result<(), MiniBinError>)
    requires
        archive_ok(reader@),
        args.reset_ino ==> *old(ino) + archive_body(reader@).len() <= u32::MAX,
    ensures
        ({
            let body = strip_all(archive_body(reader@), args.reset_ino, args.reset_mtime, *old(ino) as int);
            match res {
                Ok(()) => archive_error(reader@) is None && final(writer)@ == old(writer)@ + archive_bytes(body)
                    + entry_bytes(archive_trailer(reader@)),
                Err(e) => archive_error(reader@) == Some(e@) && final(writer)@ == old(writer)@ + archive_bytes(body),
            }
        }),
        note_views(final(notes)@) == note_views(old(notes)@) + strip_notes(
            archive_body(reader@),
            args.reset_ino,
            args.reset_mtime,
            *old(ino) as int,
        ),
        *final(ino) == *old(ino) + (if args.reset_ino { archive_body(reader@).len() as int } else { 0 }),
{
    let ghost es = spec_read_archive(reader@, true).0;
    let ghost err = spec_read_archive(reader@, true).1;
    let ghost start = *old(ino) as int;
    let ghost ri = args.reset_ino;
    let ghost rm = args.reset_mtime;
    let ghost w0 = old(writer)@;
    let ghost n0 = note_views(old(notes)@);
    proof {
        lemma_archive_shape(reader@, true);
    }
    let mut it = read_as_cpio_with_trailer(reader);
    let ghost mut k: int = 0;
    assert(es.skip(0) =~= es);
    assert(strip_all(es.take(0), ri, rm, start) =~= Seq::<EntryView>::empty());
    assert(archive_bytes(Seq::<EntryView>::empty()) == Seq::<u8>::empty());
    assert(strip_notes(es.take(0), ri, rm, start) =~= Seq::<NoteView>::empty());
    loop
        invariant
            it@.with_trailer,
            !it@.done,
            archive_ok(it@.rest),
            0 <= k <= es.len(),
            es == spec_read_archive(reader@, true).0,
            err == spec_read_archive(reader@, true).1,
            spec_read_archive(it@.rest, true) == (es.skip(k), err),
            k <= archive_body(reader@).len(),
            forall|i: int| 0 <= i < k ==> archive_body(reader@)[i] == es[i],
            start == *old(ino) as int,
            ri == args.reset_ino,
            rm == args.reset_mtime,
            ri ==> start + archive_body(reader@).len() <= u32::MAX,
            *ino == start + (if ri { k } else { 0 }),
            w0 == old(writer)@,
            n0 == note_views(old(notes)@),
            writer@ == w0 + archive_bytes(strip_all(es.take(k), ri, rm, start)),
            note_views(notes@) == n0 + strip_notes(es.take(k), ri, rm, start),
            forall|i: int|
                0 <= i < es.len() ==> {
                    &&& crate::cpio::entry_roundtrips(#[trigger] es[i])
                    &&& es[i].contents.len() == es[i].header.filesize as nat
                    &&& (i < es.len() - 1 || err is Some) ==> !is_trailer_name(es[i].header.name)
                },
            err is None ==> es.len() > 0 && is_trailer_name(es[es.len() - 1].header.name),
        decreases it@.rest.len(),
    {
        let ghost rest = it@.rest;
        proof {
            crate::cpio::lemma_read_entry_len(rest);
        }
        match it.next() {
            None => {
                assert(false);
                return Ok(());
            },
            Some(Err(e)) => {
                assert(es.skip(k).len() == 0);
                assert(es.take(k) =~= es);
                assert(archive_body(reader@) =~= es);
                return Err(e);
            },
            Some(Ok(entry)) => {
                let ghost ev = entry@;
                assert(spec_read_archive(rest, true).0[0] == ev);
                assert(es.skip(k).len() > 0);
                assert(es.skip(k)[0] == ev);
                assert(es[k] == ev);
                let CpioEntry { mut header, contents } = entry;
                if header.is_trailer() {
                    // the walk ends here, with the trailer written as it was read
                    assert(err is None && k == es.len() - 1);
                    assert(es.take(k) =~= archive_body(reader@));
                    write_header_and_contents(writer, &header, &contents);
                    assert(writer@ =~= w0 + archive_bytes(strip_all(archive_body(reader@), ri, rm, start))
                        + entry_bytes(ev));
                    return Ok(());
                }
                assert(k < archive_body(reader@).len());
                assert(archive_body(reader@)[k] == es[k]);
                let note = cpio_strip_entry(&mut header, args, ino);
                let ghost nb = notes@;
                notes.push(note);
                assert(note_views(notes@) =~= note_views(nb).push(note@));
                write_header_and_contents(writer, &header, &contents);
                proof {
                    lemma_strip_step(es, k, ri, rm, start);
                    assert(es.take(k + 1).drop_last() =~= es.take(k));
                    lemma_archive_bytes_push(strip_all(es.take(k), ri, rm, start), EntryView { header: header@, contents: contents@ });
                    assert(writer@ =~= w0 + archive_bytes(strip_all(es.take(k + 1), ri, rm, start)));
                    assert(es.skip(k).drop_first() =~= es.skip(k + 1));
                    k = k + 1;
                }
            },
        }
    }
}

} // verus!

verus! {

/// All entries of the archive in `reader`, the trailer included, or the first error met
/// (what collecting the walk into a `Result` gives).
pub fn collect_entries(reader: &[u8]) -> (res: Result<Vec<CpioEntry>, MiniBinError>)
    requires
        archive_ok(reader@),
    ensures
        match res {
            Ok(v) => archive_error(reader@) is None && crate::order::entry_views(v@)
                == spec_read_archive(reader@, true).0,
            Err(e) => archive_error(reader@) == Some(e@),
        },
{
    let ghost es = spec_read_archive(reader@, true).0;
    let ghost err = spec_read_archive(reader@, true).1;
    let mut entries: Vec<CpioEntry> = Vec::new();
    let mut it = read_as_cpio_with_trailer(reader);
    let ghost mut k: int = 0;
    assert(es.skip(0) =~= es);
    assert(crate::order::entry_views(entries@) =~= es.take(0));
    loop
        invariant
            it@.with_trailer,
            !it@.done,
            archive_ok(it@.rest),
            0 <= k <= es.len(),
            es == spec_read_archive(reader@, true).0,
            err == spec_read_archive(reader@, true).1,
            spec_read_archive(it@.rest, true) == (es.skip(k), err),
            crate::order::entry_views(entries@) == es.take(k),
        decreases it@.rest.len(),
    {
        let ghost rest = it@.rest;
        proof {
            crate::cpio::lemma_read_entry_len(rest);
        }
        match it.next() {
            None => {
                assert(false);
                return Ok(entries);
            },
            Some(Err(e)) => {
                return Err(e);
            },
            Some(Ok(entry)) => {
                let ghost ev = entry@;
                assert(spec_read_archive(rest, true).0[0] == ev);
                assert(es.skip(k).len() > 0);
                assert(es.skip(k)[0] == ev);
                assert(es[k] == ev);
                let trailer = entry.is_trailer();
                let ghost before = entries@;
                entries.push(entry);
                assert(crate::order::entry_views(entries@) =~= crate::order::entry_views(before).push(ev));
                assert(es.take(k + 1) =~= es.take(k).push(ev));
                if trailer {
                    assert(es.skip(k) =~= seq![ev]);
                    assert(es.take(k + 1) =~= es);
                    return Ok(entries);
                }
                proof {
                    assert(es.skip(k).drop_first() =~= es.skip(k + 1));
                    k = k + 1;
                }
            },
        }
    }
}

/// Strips entries in order and writes each.
#[verifier::rlimit(50)]
fn write_stripped(
    entries: Vec<CpioEntry>,
    writer: &mut Vec<u8>,
    args: &StripArgs,
    ino: &mut u32,
    notes: &mut Vec<StripNote>,
)
    requires
        forall|a: int| 0 <= a < entries@.len() ==> crate::cpio::name_ok(#[trigger] entries@[a].header.name@),
        args.reset_ino ==> *old(ino) + entries@.len() <= u32::MAX,
    ensures
        final(writer)@ == old(writer)@ + archive_bytes(
            strip_all(crate::order::entry_views(entries@), args.reset_ino, args.reset_mtime, *old(ino) as int),
        ),
        note_views(final(notes)@) == note_views(old(notes)@) + strip_notes(
            crate::order::entry_views(entries@),
            args.reset_ino,
            args.reset_mtime,
            *old(ino) as int,
        ),
        *final(ino) == *old(ino) + (if args.reset_ino { entries@.len() as int } else { 0 }),
{
    let ghost s = crate::order::entry_views(entries@);
    let ghost start = *old(ino) as int;
    let ghost ri = args.reset_ino;
    let ghost rm = args.reset_mtime;
    let ghost w0 = writer@;
    let ghost n0 = note_views(notes@);
    let mut rest = entries;
    let ghost mut k: int = 0;
    assert(s.skip(0) =~= s);
    assert(strip_all(s.take(0), ri, rm, start) =~= Seq::<EntryView>::empty());
    assert(archive_bytes(Seq::<EntryView>::empty()) == Seq::<u8>::empty());
    assert(strip_notes(s.take(0), ri, rm, start) =~= Seq::<NoteView>::empty());
    while rest.len() > 0
        invariant
            0 <= k <= s.len(),
            s.len() == entries@.len(),
            crate::order::entry_views(rest@) == s.skip(k),
            forall|a: int| 0 <= a < s.len() ==> crate::cpio::name_ok(#[trigger] s[a].header.name),
            start == *old(ino) as int,
            ri == args.reset_ino,
            rm == args.reset_mtime,
            ri ==> start + s.len() <= u32::MAX,
            *ino == start + (if ri { k } else { 0 }),
            w0 == old(writer)@,
            n0 == note_views(old(notes)@),
            writer@ == w0 + archive_bytes(strip_all(s.take(k), ri, rm, start)),
            note_views(notes@) == n0 + strip_notes(s.take(k), ri, rm, start),
        decreases rest@.len(),
    {
        let ghost old_rest = rest@;
        let mut e = rest.remove(0);
        proof {
            assert(crate::order::entry_views(old_rest).len() == old_rest.len());
            assert(crate::order::entry_views(old_rest)[0] == old_rest[0]@);
            assert(s.skip(k)[0] == s[k]);
            assert(e@ == s[k]);
            assert(rest@ =~= old_rest.drop_first());
            assert(crate::order::entry_views(rest@) =~= crate::order::entry_views(old_rest).drop_first());
            assert(s.skip(k).drop_first() =~= s.skip(k + 1));
        }
        let note = cpio_strip_entry(&mut e.header, args, ino);
        let ghost nb = notes@;
        notes.push(note);
        assert(note_views(notes@) =~= note_views(nb).push(note@));
        crate::traits::MiniBinWrite::m_write_ne(&e, writer);
        proof {
            lemma_strip_step(s, k, ri, rm, start);
            lemma_archive_bytes_push(strip_all(s.take(k), ri, rm, start), e@);
            k = k + 1;
        }
    }
    assert(s.take(k) =~= s);
}

/// Reads the whole archive, strips its entries in order of their names and writes them, then
/// the trailer unchanged. Writes nothing when reading fails.
pub fn cpio_strip_with_sort(
    reader: &[u8],
    writer: &mut Vec<u8>,
    args: &StripArgs,
    ino: &mut u32,
    notes: &mut Vec<StripNote>,
) -> (res: Result<(), MiniBinError>)
    requires
        archive_ok(reader@),
        args.reset_ino ==> *old(ino) + archive_body(reader@).len() <= u32::MAX,
    ensures
        match res {
            Ok(()) => {
                &&& archive_error(reader@) is None
                &&& exists|sorted: Seq<EntryView>| {
                    &&& crate::order::is_stable_sort_of(sorted, archive_body(reader@))
                    &&& sorted.len() == archive_body(reader@).len()
                    &&& final(writer)@ == old(writer)@ + archive_bytes(
                        strip_all(sorted, args.reset_ino, args.reset_mtime, *old(ino) as int),
                    ) + entry_bytes(archive_trailer(reader@))
                    &&& note_views(final(notes)@) == note_views(old(notes)@) + strip_notes(
                        sorted,
                        args.reset_ino,
                        args.reset_mtime,
                        *old(ino) as int,
                    )
                }
                &&& *final(ino) == *old(ino) + (if args.reset_ino { archive_body(reader@).len() as int } else { 0 })
            },
            Err(e) => {
                &&& archive_error(reader@) == Some(e@)
                &&& final(writer)@ == old(writer)@
                &&& note_views(final(notes)@) == note_views(old(notes)@)
                &&& *final(ino) == *old(ino)
            },
        },
{
    proof {
        lemma_archive_shape(reader@, true);
    }
    let mut entries = match collect_entries(reader) {
        Ok(v) => v,
        Err(e) => {
            return Err(e);
        },
    };
    let ghost es = spec_read_archive(reader@, true).0;
    let ghost before = entries@;
    let trailer = entries.pop();
    proof {
        assert(entries@ =~= before.drop_last());
        assert(crate::order::entry_views(entries@) =~= es.drop_last());
        assert(crate::order::entry_views(before).last() == before.last()@);
    }
    let ghost body = crate::order::entry_views(entries@);
    let sorted = crate::order::sort_by_name(entries);
    proof {
        assert forall|a: int| 0 <= a < sorted@.len() implies crate::cpio::name_ok(
            #[trigger] sorted@[a].header.name@,
        ) by {
            assert(body.contains(crate::order::entry_views(sorted@)[a]));
            let j = choose|j: int| 0 <= j < body.len() && body[j] == crate::order::entry_views(sorted@)[a];
            assert(es[j] == body[j]);
        }
        assert(crate::order::is_stable_sort_of(crate::order::entry_views(sorted@), body));
    }
    let ghost sv = crate::order::entry_views(sorted@);
    write_stripped(sorted, writer, args, ino, notes);
    match trailer {
        Some(t) => {
            crate::traits::MiniBinWrite::m_write_ne(&t, writer);
        },
        None => {},
    }
    assert(crate::order::is_stable_sort_of(sv, archive_body(reader@)));
    assert(sv.len() == archive_body(reader@).len());
    Ok(())
}

} // verus!

verus! {

/// `s` followed by zeros up to a multiple of `m` bytes.
pub open spec fn padded_to(s: Seq<u8>, m: nat) -> Seq<u8> {
    s + crate::ext::repeat(0, (if s.len() % m == 0 { 0 } else { m - s.len() % m }) as nat)
}

/// `order` is an order in which `strip` may write the entries of the archive in `reader`: their
/// own when not sorting; when sorting, a stable sort of them by name (which is unique, see
/// `lemma_stable_sort_unique`).
pub open spec fn strip_order(reader: Seq<u8>, order: Seq<EntryView>, sort: bool) -> bool {
    if sort {
        &&& crate::order::is_stable_sort_of(order, archive_body(reader))
        &&& order.len() == archive_body(reader).len()
    } else {
        order == archive_body(reader)
    }
}

/// What the `strip` command writes for the archive in `reader`: the entries before the trailer
/// in the given order, stripped, the `i`-th taking inode number `1 + i`; then the trailer;
/// then zeros up to a multiple of 512 bytes.
pub open spec fn stripped_archive(
    out: Seq<u8>,
    reader: Seq<u8>,
    order: Seq<EntryView>,
    args: StripArgs,
) -> Seq<u8> {
    padded_to(
        out + archive_bytes(strip_all(order, args.reset_ino, args.reset_mtime, 1)) + entry_bytes(
            archive_trailer(reader),
        ),
        512,
    )
}

/// Strips an archive: with `sort`, orders the entries by name first (reading the whole archive
/// before writing); resets inode numbers to `1, 2, ...` and modification times to zero as asked;
/// ends the output with zeros up to a multiple of 512 bytes. On an error the output stops: without
/// `sort` after the entries before the error, with `sort` before any entry.
pub fn cpio_strip(reader: &[u8], writer: &mut Vec<u8>, args: &StripArgs, notes: &mut Vec<StripNote>) -> (res:
    Result<(), MiniBinError>)
    requires
        archive_ok(reader@),
        args.reset_ino ==> 1 + archive_body(reader@).len() <= u32::MAX,
    ensures
        res is Ok <==> archive_error(reader@) is None,
        res matches Err(e) ==> archive_error(reader@) == Some(e@),
        res is Ok ==> exists|order: Seq<EntryView>| {
            &&& strip_order(reader@, order, args.sort)
            &&& final(writer)@ == stripped_archive(old(writer)@, reader@, order, *args)
            &&& note_views(final(notes)@) == note_views(old(notes)@) + strip_notes(
                order,
                args.reset_ino,
                args.reset_mtime,
                1,
            )
        },
        res is Err && args.sort ==> final(writer)@ == old(writer)@ && note_views(final(notes)@)
            == note_views(old(notes)@),
        res is Err && !args.sort ==> {
            &&& final(writer)@ == old(writer)@ + archive_bytes(
                strip_all(archive_body(reader@), args.reset_ino, args.reset_mtime, 1),
            )
            &&& note_views(final(notes)@) == note_views(old(notes)@) + strip_notes(
                archive_body(reader@),
                args.reset_ino,
                args.reset_mtime,
                1,
            )
        },
{
    let mut ino: u32 = 1;
    let ghost w0 = writer@;
    let ghost n0 = note_views(notes@);
    let ghost mut order: Seq<EntryView> = archive_body(reader@);
    if args.sort {
        match cpio_strip_with_sort(reader, writer, args, &mut ino, notes) {
            Ok(()) => {},
            Err(e) => {
                return Err(e);
            },
        }
        proof {
            order = choose|sorted: Seq<EntryView>| {
                &&& crate::order::is_stable_sort_of(sorted, archive_body(reader@))
                &&& sorted.len() == archive_body(reader@).len()
                &&& writer@ == w0 + archive_bytes(strip_all(sorted, args.reset_ino, args.reset_mtime, 1))
                    + entry_bytes(archive_trailer(reader@))
                &&& note_views(notes@) == n0 + strip_notes(sorted, args.reset_ino, args.reset_mtime, 1)
            };
        }
    } else {
        match cpio_strip_without_sort(reader, writer, args, &mut ino, notes) {
            Ok(()) => {},
            Err(e) => {
                return Err(e);
            },
        }
    }
    assert(writer@ == w0 + archive_bytes(strip_all(order, args.reset_ino, args.reset_mtime, 1))
        + entry_bytes(archive_trailer(reader@)));
    let ghost before = writer@;
    crate::ext::write_padding(writer, 512, 0);
    assert(writer@ == padded_to(before, 512));
    assert(writer@ == stripped_archive(w0, reader@, order, *args));
    assert(strip_order(reader@, order, args.sort));
    Ok(())
}

} // verus!

verus! {

/// Reading back what `strip` wrote for an archive that reads to its end gives the stripped
/// entries, in the order they were written, and the walk runs to its end.
pub proof fn lemma_strip_readback(reader: Seq<u8>, order: Seq<EntryView>, args: StripArgs)
    requires
        archive_error(reader) is None,
        order == archive_body(reader) || crate::order::is_stable_sort_of(order, archive_body(reader)),
    ensures
        ({
            let out = stripped_archive(Seq::empty(), reader, order, args);
            &&& archive_ok(out)
            &&& spec_read_archive(out, false) == (
                strip_all(order, args.reset_ino, args.reset_mtime, 1),
                None::<ErrorView>,
            )
            &&& archive_error(out) is None
            &&& archive_body(out) == strip_all(order, args.reset_ino, args.reset_mtime, 1)
            &&& archive_trailer(out) == archive_trailer(reader)
        }),
{
    lemma_archive_shape(reader, true);
    let es = spec_read_archive(reader, true).0;
    let body = archive_body(reader);
    if order != body {
        crate::order::lemma_stable_sort_members(order, body);
    }
    assert forall|i: int| 0 <= i < order.len() implies {
        &&& crate::cpio::entry_roundtrips(#[trigger] order[i])
        &&& order[i].contents.len() == order[i].header.filesize as nat
        &&& !is_trailer_name(order[i].header.name)
    } by {
        if order != body {
            assert(body.contains(order[i]));
        }
        let j = choose|j: int| 0 <= j < body.len() && body[j] == order[i];
        if order == body {
            assert(body[i] == order[i]);
        }
        assert(es[j] == body[j]);
    }
    let stripped = strip_all(order, args.reset_ino, args.reset_mtime, 1);
    assert(crate::iter::entries_roundtrip(stripped)) by {
        assert forall|i: int| 0 <= i < stripped.len() implies crate::cpio::entry_roundtrips(#[trigger] stripped[i])
            && !is_trailer_name(stripped[i].header.name) by {
            assert(crate::cpio::entry_roundtrips(order[i]));
        }
    }
    let trailer = archive_trailer(reader);
    let written = Seq::<u8>::empty() + archive_bytes(stripped) + entry_bytes(trailer);
    let pad = crate::ext::repeat(
        0,
        (if written.len() % 512 == 0 { 0 } else { 512 - written.len() % 512 }) as nat,
    );
    assert(stripped_archive(Seq::empty(), reader, order, args) =~= archive_bytes(stripped) + entry_bytes(trailer)
        + pad);
    crate::iter::lemma_archive_roundtrip(stripped, trailer, pad);
    assert(stripped.map_values(|e: EntryView| crate::cpio::normalized(e)) =~= stripped) by {
        assert forall|i: int| 0 <= i < stripped.len() implies #[trigger] crate::cpio::normalized(stripped[i])
            == stripped[i] by {
            assert(order[i].contents.len() == order[i].header.filesize as nat);
            assert(crate::cpio::normalized(stripped[i]) =~= stripped[i]);
        }
    }
    assert(crate::cpio::normalized(trailer) =~= trailer);
    let out = stripped_archive(Seq::empty(), reader, order, args);
    assert(spec_read_archive(out, true).0 == stripped.push(trailer));
    assert(stripped.push(trailer).drop_last() =~= stripped);
}

/// Stripping an archive a second time, with the same options, gives back what the first
/// stripping wrote; the second run can be made (its archive reads, and has as many entries).
pub proof fn lemma_strip_idempotent(reader: Seq<u8>, order: Seq<EntryView>, order2: Seq<EntryView>, args: StripArgs)
    requires
        archive_error(reader) is None,
        strip_order(reader, order, args.sort),
        strip_order(stripped_archive(Seq::empty(), reader, order, args), order2, args.sort),
    ensures
        ({
            let once = stripped_archive(Seq::empty(), reader, order, args);
            &&& archive_ok(once)
            &&& archive_error(once) is None
            &&& archive_body(once).len() == archive_body(reader).len()
            &&& stripped_archive(Seq::empty(), once, order2, args) == once
        }),
{
    let ri = args.reset_ino;
    let rm = args.reset_mtime;
    let once = stripped_archive(Seq::empty(), reader, order, args);
    lemma_strip_readback(reader, order, args);
    let s1 = strip_all(order, ri, rm, 1);
    assert(archive_body(once) == s1);
    if args.sort {
        // the stripped entries are already in order of their names
        assert(crate::order::sorted_by_name(s1)) by {
            assert forall|i: int, j: int| 0 <= i < j < s1.len() implies crate::order::lex_le(
                #[trigger] s1[i].header.name,
                #[trigger] s1[j].header.name,
            ) by {
                assert(s1[i].header.name == order[i].header.name);
                assert(s1[j].header.name == order[j].header.name);
            }
        }
        assert(crate::order::is_stable_sort_of(s1, s1));
        crate::order::lemma_stable_sort_unique(order2, s1, s1);
    }
    assert(order2 == s1);
    assert(strip_all(s1, ri, rm, 1) =~= s1) by {
        assert forall|i: int| 0 <= i < s1.len() implies #[trigger] strip_all(s1, ri, rm, 1)[i] == s1[i] by {
            assert(strip_all(s1, ri, rm, 1)[i] =~= s1[i]);
        }
    }
}

/// An archive whose entries are already in order of their names is written in the same order
/// whether `strip` sorts or not: with `sort` its output is the output without it.
pub proof fn lemma_strip_sorted_input(reader: Seq<u8>, order: Seq<EntryView>, out: Seq<u8>, args: StripArgs)
    requires
        crate::order::sorted_by_name(archive_body(reader)),
        strip_order(reader, order, true),
    ensures
        order == archive_body(reader),
        strip_order(reader, order, false),
        stripped_archive(out, reader, order, args) == stripped_archive(out, reader, archive_body(reader), args),
{
    let body = archive_body(reader);
    assert(crate::order::is_stable_sort_of(body, body));
    crate::order::lemma_stable_sort_unique(order, body, body);
}

} // verus!

verus! {

/// An archive holds no more entries than `HEADER_LEN`-byte pieces.
pub proof fn lemma_archive_count(input: Seq<u8>, with_trailer: bool)
    ensures
        spec_read_archive(input, with_trailer).0.len() * crate::cpio::HEADER_LEN <= input.len(),
    decreases input.len(),
{
    crate::cpio::lemma_read_entry_len(input);
    if let Ok((ev, n)) = crate::cpio::spec_read_entry(input) {
        if !is_trailer_name(ev.header.name) {
            lemma_archive_count(input.skip(n as int), with_trailer);
        }
    }
}

/// Whether the inode numbers that `strip` hands out fit in 32 bits for the archive in `reader`
/// (judged from its length).
pub fn strip_counter_fits(reader: &[u8]) -> (b: bool)
    ensures
        b == (reader@.len() / (crate::cpio::HEADER_LEN as nat) < 0xFFFF_FFFF),
        b ==> 1 + archive_body(reader@).len() <= u32::MAX,
{
    proof {
        lemma_archive_count(reader@, true);
    }
    reader.len() / crate::cpio::HEADER_LEN < 0xFFFF_FFFF
}

} // verus!

verus! {

/// Every entry met while walking the archive is written as the format writes it.
pub open spec fn archive_canonical(input: Seq<u8>) -> bool
    decreases input.len(),
{
    proof {
        crate::cpio::lemma_read_entry_len(input);
    }
    &&& crate::cpio::entry_canonical(input)
    &&& match crate::cpio::spec_read_entry(input) {
        Ok((ev, n)) => !is_trailer_name(ev.header.name) ==> archive_canonical(input.skip(n as int)),
        Err(_) => true,
    }
}

/// How many bytes walking the archive takes, up to the end of its trailer.
pub open spec fn archive_len(input: Seq<u8>) -> nat
    decreases input.len(),
{
    proof {
        crate::cpio::lemma_read_entry_len(input);
    }
    match crate::cpio::spec_read_entry(input) {
        Ok((ev, n)) => if is_trailer_name(ev.header.name) {
            n
        } else {
            n + archive_len(input.skip(n as int))
        },
        Err(_) => 0,
    }
}

#[verifier::rlimit(40)]
proof fn lemma_archive_rewrite(input: Seq<u8>)
    requires
        archive_error(input) is None,
        archive_canonical(input),
    ensures
        archive_len(input) <= input.len(),
        archive_bytes(archive_body(input)) + entry_bytes(archive_trailer(input)) == input.take(
            archive_len(input) as int,
        ),
    decreases input.len(),
{
    crate::cpio::lemma_read_entry_len(input);
    let (ev, n) = crate::cpio::spec_read_entry(input)->Ok_0;
    crate::cpio::lemma_entry_rewrite(input);
    let es = spec_read_archive(input, true).0;
    if is_trailer_name(ev.header.name) {
        assert(es == seq![ev]);
        assert(archive_body(input) =~= Seq::<EntryView>::empty());
        assert(archive_bytes(archive_body(input)) == Seq::<u8>::empty());
        assert(archive_bytes(archive_body(input)) + entry_bytes(ev) =~= entry_bytes(ev));
    } else {
        let rest = input.skip(n as int);
        lemma_archive_rewrite(rest);
        let res = spec_read_archive(rest, true).0;
        assert(es == seq![ev] + res);
        assert(res.len() > 0);
        assert(archive_body(input) =~= seq![ev] + archive_body(rest));
        assert((seq![ev] + archive_body(rest)).drop_first() =~= archive_body(rest));
        assert(archive_trailer(input) == archive_trailer(rest));
        assert(input.take((n + archive_len(rest)) as int) =~= input.take(n as int) + rest.take(
            archive_len(rest) as int,
        ));
        assert(archive_bytes(archive_body(input)) + entry_bytes(archive_trailer(input)) =~= entry_bytes(ev)
            + (archive_bytes(archive_body(rest)) + entry_bytes(archive_trailer(rest))));
    }
}

/// Stripping nothing from an archive written as the format writes it gives the archive back,
/// padded to a multiple of 512 bytes.
pub proof fn lemma_strip_nothing(input: Seq<u8>, args: StripArgs)
    requires
        archive_error(input) is None,
        archive_canonical(input),
        !args.reset_ino,
        !args.reset_mtime,
    ensures
        stripped_archive(Seq::empty(), input, archive_body(input), args) == padded_to(
            input.take(archive_len(input) as int),
            512,
        ),
{
    let body = archive_body(input);
    assert(strip_all(body, false, false, 1) =~= body) by {
        assert forall|i: int| 0 <= i < body.len() implies #[trigger] strip_all(body, false, false, 1)[i]
            == body[i] by {
            assert(strip_all(body, false, false, 1)[i] =~= body[i]);
        }
    }
    lemma_archive_rewrite(input);
    assert(Seq::<u8>::empty() + archive_bytes(body) + entry_bytes(archive_trailer(input)) =~= input.take(
        archive_len(input) as int,
    ));
}

} // verus!

verus! {

/// What stripping does to each entry, option by option: with `reset_ino` the `i`-th entry takes
/// inode number `start + i`, else it keeps its own; with `reset_mtime` its modification time is
/// zero, else its own; everything else (name, contents, mode, owner, sizes, devices, checksum)
/// is kept. Each option acts whatever the other is.
pub proof fn lemma_strip_fields(es: Seq<EntryView>, reset_ino: bool, reset_mtime: bool, start: int)
    ensures
        strip_all(es, reset_ino, reset_mtime, start).len() == es.len(),
        forall|i: int| #![trigger strip_all(es, reset_ino, reset_mtime, start)[i]] 0 <= i < es.len() ==> {
            let s = strip_all(es, reset_ino, reset_mtime, start)[i];
            let e = es[i];
            &&& s.header.ino == (if reset_ino { (start + i) as u32 } else { e.header.ino })
            &&& s.header.mtime == (if reset_mtime { 0 } else { e.header.mtime })
            &&& s.header.name == e.header.name
            &&& s.contents == e.contents
            &&& s.header.mode == e.header.mode
            &&& s.header.uid == e.header.uid
            &&& s.header.gid == e.header.gid
            &&& s.header.nlink == e.header.nlink
            &&& s.header.filesize == e.header.filesize
            &&& s.header.devmajor == e.header.devmajor
            &&& s.header.devminor == e.header.devminor
            &&& s.header.rdevmajor == e.header.rdevmajor
            &&& s.header.rdevminor == e.header.rdevminor
            &&& s.header.checksum == e.header.checksum
        },
        forall|i: int| #![trigger strip_notes(es, reset_ino, reset_mtime, start)[i]] 0 <= i < es.len() ==> {
            let n = strip_notes(es, reset_ino, reset_mtime, start)[i];
            &&& n.name == es[i].header.name
            &&& n.old_ino == es[i].header.ino
            &&& n.new_ino == (if reset_ino { Some((start + i) as u32) } else { None })
            &&& n.old_mtime == (if reset_mtime { Some(es[i].header.mtime) } else { None })
        },
{
}

} // verus!
