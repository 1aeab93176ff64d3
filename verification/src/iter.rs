//! Walking through the entries of an archive.
use vstd::prelude::*;
use crate::cpio::{
    entry_read_consumed, entry_bytes, entry_roundtrips, header_fields_ok, is_trailer_name, lemma_entry_roundtrip,
    lemma_read_entry_len, normalized, spec_read_entry, CpioEntry, EntryView,
};
use crate::error::{ErrorView, MiniBinError};
use crate::traits::MiniBinRead;

verus! {

/// What walking an archive gives: the entries up to the trailer (the trailer too when
/// `with_trailer`), then the error that stopped the walk, if one did.
pub open spec fn spec_read_archive(input: Seq<u8>, with_trailer: bool) -> (Seq<EntryView>, Option<ErrorView>)
    decreases input.len(),
{
    proof {
        lemma_read_entry_len(input);
    }
    match spec_read_entry(input) {
        Err(e) => (seq![], Some(e)),
        Ok((ev, n)) => {
            if is_trailer_name(ev.header.name) {
                (if with_trailer { seq![ev] } else { seq![] }, None)
            } else {
                let rest = spec_read_archive(input.skip(n as int), with_trailer);
                (seq![ev] + rest.0, rest.1)
            }
        },
    }
}

/// Every header met while walking the archive has fields that read.
pub open spec fn archive_ok(input: Seq<u8>) -> bool
    decreases input.len(),
{
    proof {
        lemma_read_entry_len(input);
    }
    &&& header_fields_ok(input)
    &&& match spec_read_entry(input) {
        Ok((ev, n)) => !is_trailer_name(ev.header.name) ==> archive_ok(input.skip(n as int)),
        Err(_) => true,
    }
}

/// The state of a walk: what is left to read, whether the trailer is handed out, and whether
/// the walk has ended.
pub struct IterView {
    pub rest: Seq<u8>,
    pub with_trailer: bool,
    pub done: bool,
}

/// The entries of an archive held in a buffer, one after another.
pub struct CpioIterator<'a> {
    inner: &'a [u8],
    pos: usize,
    with_trailer: bool,
    done: bool,
}

impl<'a> View for CpioIterator<'a> {
    type V = IterView;

    closed spec fn view(&self) -> IterView {
        IterView { rest: self.inner@.skip(self.pos as int), with_trailer: self.with_trailer, done: self.done }
    }
}

impl<'a> CpioIterator<'a> {
    #[verifier::type_invariant]
    spec fn inv(self) -> bool {
        self.pos <= self.inner@.len()
    }

    pub fn new(inner: &'a [u8], with_trailer: bool) -> (it: Self)
        ensures
            it@.rest == inner@,
            it@.with_trailer == with_trailer,
            !it@.done,
    {
        let it = CpioIterator { inner, pos: 0, with_trailer, done: false };
        assert(inner@.skip(0) =~= inner@);
        it
    }

    /// Whether the next call of `next` can run: the walk has ended, or the next header's
    /// fields read.
    pub fn next_is_well_formed(&self) -> (b: bool)
        ensures
            b == (self@.done || header_fields_ok(self@.rest)),
    {
        proof {
            use_type_invariant(self);
        }
        if self.done {
            return true;
        }
        let rest = vstd::slice::slice_subrange(self.inner, self.pos, self.inner.len());
        assert(rest@ =~= self@.rest);
        crate::cpio::header_fields_are_hex(rest)
    }

    /// The next entry, or the error that stopped reading it; `None` once the trailer is read.
    /// A failed read takes from the buffer what it read before failing (`entry_read_consumed`),
    /// and the walk goes on from there.
    pub fn next(&mut self) -> (res: Option<Result<CpioEntry, MiniBinError>>)
        requires
            old(self)@.done || header_fields_ok(old(self)@.rest),
        ensures
            final(self)@.with_trailer == old(self)@.with_trailer,
            old(self)@.done ==> res is None && final(self)@ == old(self)@,
            !old(self)@.done ==> match spec_read_entry(old(self)@.rest) {
                Err(e) => {
                    &&& res matches Some(Err(x)) && x@ == e
                    &&& !final(self)@.done
                    &&& final(self)@.rest == old(self)@.rest.skip(entry_read_consumed(old(self)@.rest) as int)
                },
                Ok((ev, n)) => {
                    &&& final(self)@.rest == old(self)@.rest.skip(n as int)
                    &&& if is_trailer_name(ev.header.name) {
                        &&& final(self)@.done
                        &&& if old(self)@.with_trailer {
                            res matches Some(Ok(x)) && x@ == ev
                        } else {
                            res is None
                        }
                    } else {
                        &&& !final(self)@.done
                        &&& res matches Some(Ok(x)) && x@ == ev
                    }
                },
            },
    {
        proof {
            use_type_invariant(&*self);
        }
        if self.done {
            return None;
        }
        let rest = vstd::slice::slice_subrange(self.inner, self.pos, self.inner.len());
        assert(rest@ =~= old(self)@.rest);
        let (entry, n) = match CpioEntry::m_read_ne(rest) {
            Ok(r) => r,
            Err(e) => {
                let taken = crate::cpio::entry_read_consumed_on_error(rest, &e);
                proof {
                    crate::cpio::lemma_read_consumed_bound(rest@);
                }
                self.pos = self.pos + taken;
                assert(self.inner@.skip(self.pos as int) =~= old(self)@.rest.skip(taken as int));
                return Some(Err(e));
            },
        };
        proof {
            lemma_read_entry_len(rest@);
        }
        self.pos = self.pos + n;
        assert(self.inner@.skip(self.pos as int) =~= old(self)@.rest.skip(n as int));
        if entry.is_trailer() {
            self.done = true;
            if !self.with_trailer {
                return None;
            }
        }
        Some(Ok(entry))
    }
}

/// The entries of the archive in `reader`, up to the trailer.
pub fn read_as_cpio<'a>(reader: &'a [u8]) -> (it: CpioIterator<'a>)
    ensures
        it@.rest == reader@,
        !it@.with_trailer,
        !it@.done,
{
    CpioIterator::new(reader, false)
}

/// The entries of the archive in `reader`, the trailer included.
pub fn read_as_cpio_with_trailer<'a>(reader: &'a [u8]) -> (it: CpioIterator<'a>)
    ensures
        it@.rest == reader@,
        it@.with_trailer,
        !it@.done,
{
    CpioIterator::new(reader, true)
}

} // verus!

verus! {

/// Whether every header met while walking the archive in `input` has fields that read, so
/// that walking it runs to its end.
pub fn archive_is_well_formed(input: &[u8]) -> (b: bool)
    ensures
        b == archive_ok(input@),
{
    let mut pos: usize = 0;
    assert(input@.skip(0) =~= input@);
    while pos <= input.len()
        invariant
            pos <= input@.len(),
            archive_ok(input@) == archive_ok(input@.skip(pos as int)),
        decreases input@.len() - pos,
    {
        let rest = vstd::slice::slice_subrange(input, pos, input.len());
        assert(rest@ =~= input@.skip(pos as int));
        if !crate::cpio::header_fields_are_hex(rest) {
            return false;
        }
        match CpioEntry::m_read_ne(rest) {
            Err(_) => {
                return true;
            },
            Ok((entry, n)) => {
                proof {
                    lemma_read_entry_len(rest@);
                }
                if entry.is_trailer() {
                    return true;
                }
                assert(input@.skip(pos + n) =~= rest@.skip(n as int));
                pos = pos + n;
            },
        }
    }
    false
}

/// The bytes of entries written one after another.
pub open spec fn archive_bytes(es: Seq<EntryView>) -> Seq<u8>
    decreases es.len(),
{
    if es.len() == 0 {
        seq![]
    } else {
        entry_bytes(es[0]) + archive_bytes(es.drop_first())
    }
}

/// Entries that can stand before the trailer of an archive and read back.
pub open spec fn entries_roundtrip(es: Seq<EntryView>) -> bool {
    forall|i: int|
        0 <= i < es.len() ==> entry_roundtrips(#[trigger] es[i]) && !is_trailer_name(es[i].header.name)
}

/// Reading an archive written from entries and a trailer gives back the entries as they were
/// written (the trailer too, when asked for), with no error, whatever follows the trailer;
/// and walking it runs to its end.
pub proof fn lemma_archive_roundtrip(es: Seq<EntryView>, trailer: EntryView, rest: Seq<u8>)
    requires
        entries_roundtrip(es),
        entry_roundtrips(trailer),
        is_trailer_name(trailer.header.name),
    ensures
        archive_ok(archive_bytes(es) + entry_bytes(trailer) + rest),
        spec_read_archive(archive_bytes(es) + entry_bytes(trailer) + rest, false) == (
            es.map_values(|e: EntryView| normalized(e)),
            None::<ErrorView>,
        ),
        spec_read_archive(archive_bytes(es) + entry_bytes(trailer) + rest, true) == (
            es.map_values(|e: EntryView| normalized(e)).push(normalized(trailer)),
            None::<ErrorView>,
        ),
    decreases es.len(),
{
    let input = archive_bytes(es) + entry_bytes(trailer) + rest;
    if es.len() == 0 {
        assert(input =~= entry_bytes(trailer) + rest);
        lemma_entry_roundtrip(trailer, rest);
        assert(es.map_values(|e: EntryView| normalized(e)) =~= Seq::<EntryView>::empty());
        assert(es.map_values(|e: EntryView| normalized(e)).push(normalized(trailer)) =~= seq![normalized(trailer)]);
    } else {
        let tail = es.drop_first();
        assert(entries_roundtrip(tail)) by {
            assert forall|i: int| 0 <= i < tail.len() implies entry_roundtrips(#[trigger] tail[i])
                && !is_trailer_name(tail[i].header.name) by {
                assert(tail[i] == es[i + 1]);
            }
        }
        lemma_archive_roundtrip(tail, trailer, rest);
        let after = archive_bytes(tail) + entry_bytes(trailer) + rest;
        assert(input =~= entry_bytes(es[0]) + after);
        assert(entry_roundtrips(es[0]) && !is_trailer_name(es[0].header.name));
        lemma_entry_roundtrip(es[0], after);
        assert(input.skip(entry_bytes(es[0]).len() as int) =~= after);
        assert(es.map_values(|e: EntryView| normalized(e)) =~= seq![normalized(es[0])] + tail.map_values(
            |e: EntryView| normalized(e),
        ));
        assert(es.map_values(|e: EntryView| normalized(e)).push(normalized(trailer)) =~= seq![normalized(es[0])]
            + tail.map_values(|e: EntryView| normalized(e)).push(normalized(trailer)));
    }
}

} // verus!

verus! {

/// Every entry that walking an archive hands out reads back as itself once written; only the
/// last can be the trailer, and it is when the walk ended without error and keeps the trailer.
pub proof fn lemma_archive_shape(input: Seq<u8>, with_trailer: bool)
    ensures
        ({
            let (es, err) = spec_read_archive(input, with_trailer);
            &&& forall|i: int|
                0 <= i < es.len() ==> {
                    &&& entry_roundtrips(#[trigger] es[i])
                    &&& es[i].contents.len() == es[i].header.filesize as nat
                    &&& (i < es.len() - 1 || err is Some || !with_trailer) ==> !is_trailer_name(
                        es[i].header.name,
                    )
                }
            &&& (with_trailer && err is None) ==> es.len() > 0 && is_trailer_name(
                es[es.len() - 1].header.name,
            )
        }),
    decreases input.len(),
{
    lemma_read_entry_len(input);
    crate::cpio::lemma_read_entry_facts(input);
    if let Ok((ev, n)) = spec_read_entry(input) {
        if !is_trailer_name(ev.header.name) {
            lemma_archive_shape(input.skip(n as int), with_trailer);
            let (es, err) = spec_read_archive(input, with_trailer);
            let rest = spec_read_archive(input.skip(n as int), with_trailer);
            assert(es == seq![ev] + rest.0);
            assert forall|i: int| 0 < i < es.len() implies es[i] == rest.0[i - 1] by {}
        }
    }
}

} // verus!

verus! {

/// Writing one more entry adds its bytes at the end.
pub proof fn lemma_archive_bytes_push(es: Seq<EntryView>, e: EntryView)
    ensures
        archive_bytes(es.push(e)) == archive_bytes(es) + entry_bytes(e),
    decreases es.len(),
{
    if es.len() == 0 {
        assert(es.push(e).drop_first() =~= Seq::<EntryView>::empty());
        assert(archive_bytes(es.push(e).drop_first()) == Seq::<u8>::empty());
        assert(archive_bytes(es.push(e)) =~= entry_bytes(e));
    } else {
        lemma_archive_bytes_push(es.drop_first(), e);
        assert(es.push(e).drop_first() =~= es.drop_first().push(e));
        assert(archive_bytes(es.push(e)) =~= archive_bytes(es) + entry_bytes(e));
    }
}

} // verus!
