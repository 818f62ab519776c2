//! The reading side of a query: the response body arrives in chunks, and
//! rows are decoded from it one at a time, as the consumer asks for them.
//!
//! The transport is not here: whoever drives the reader hands it each chunk
//! that arrives, and says when the body has ended.
use vstd::prelude::*;

use vstd::utf8::decode_utf8;

use crate::composite::{
    lemma_list_prefix, lemma_many_prefix, models, parse_list, parse_many, types_of,
};
use crate::cursor::Bytes;
use crate::error::Error;
use crate::row::{columns_view, prefix_stable, Column, Parsed, Row, Value};
use crate::schema::{
    names_agree, names_of, negotiate, parse_header, read_header, strings_view, types_view,
    HeaderParsed,
};
use crate::text::utf8_lossy;
use crate::type_text::Ty;

verus! {

/// The text of a name as it is read from the wire.
pub open spec fn text_of(v: Value) -> Seq<char> {
    decode_utf8(v->Blob_0)
}

/// Whether a header with these names and types is accepted for a row type
/// with the columns `expected`.
pub open spec fn header_accepts(expected: Seq<(Seq<char>, Ty)>, names: Seq<Seq<char>>, types: Seq<Ty>) -> bool {
    names_agree(names_of(expected), names) && types_of(expected) == types
}

/// The texts of names as they are read from the wire.
pub open spec fn texts_of(ns: Seq<Value>) -> Seq<Seq<char>> {
    ns.map_values(|v: Value| text_of(v))
}

proof fn lemma_names_text(names: Seq<String>)
    ensures
        texts_of(models(names)) == strings_view(names),
{
    assert forall|i: int| 0 <= i < names.len() implies #[trigger] texts_of(models(names))[i]
        == strings_view(names)[i] by {
        vstd::utf8::encode_utf8_decode_utf8(names[i]@);
    }
    assert(texts_of(models(names)) =~= strings_view(names));
}

/// What the reader asks for, or hands out, after a step.
pub enum Step<R> {
    /// A decoded row.
    Row(R),
    /// The header was read and accepted; rows can be asked for.
    Ready,
    /// More of the body must arrive before anything can be decided.
    NeedInput,
    /// The body ended cleanly after the last row.
    End,
    /// The body cannot be read on; the reader is finished.
    Failed(Error),
}

/// The state of reading one response body.
pub struct Stream {
    buf: Bytes,
    header_done: bool,
    input_ended: bool,
    finished: bool,
}

impl Stream {
    /// The bytes received and not yet decoded.
    pub closed spec fn rest(&self) -> Seq<u8> {
        self.buf.rest()
    }

    /// Whether the header has been read and accepted.
    pub closed spec fn has_header(&self) -> bool {
        self.header_done
    }

    /// Whether the body has ended: no chunk will follow.
    pub closed spec fn ended(&self) -> bool {
        self.input_ended
    }

    /// Whether the reader has failed or reached the end.
    pub closed spec fn is_finished(&self) -> bool {
        self.finished
    }

    /// A reader before any byte of the body.
    pub fn new() -> (r: Stream)
        ensures
            r.rest() == Seq::<u8>::empty(),
            !r.has_header(),
            !r.ended(),
            !r.is_finished(),
    {
        Stream { buf: Bytes::new(Vec::new()), header_done: false, input_ended: false, finished: false }
    }

    /// Hands the reader a chunk of the body.
    pub fn push_chunk(&mut self, chunk: &Vec<u8>)
        ensures
            final(self).rest() == old(self).rest() + chunk@,
            final(self).has_header() == old(self).has_header(),
            final(self).ended() == old(self).ended(),
            final(self).is_finished() == old(self).is_finished(),
    {
        self.buf.push_chunk(chunk);
    }

    /// Tells the reader that the body has ended.
    pub fn end_input(&mut self)
        ensures
            final(self).rest() == old(self).rest(),
            final(self).has_header() == old(self).has_header(),
            final(self).ended(),
            final(self).is_finished() == old(self).is_finished(),
    {
        self.input_ended = true;
    }

    /// Whether the reader has failed or reached the end.
    pub fn finished(&self) -> (r: bool)
        ensures
            r == self.is_finished(),
    {
        self.finished
    }

    /// Reads the header and checks it against the columns `expected`.
    ///
    /// `Ready` says that the header was accepted. `NeedInput` asks for another
    /// chunk; no byte is consumed then. Once the body has ended, a header cut
    /// short fails with `NotEnoughData`.
    pub fn check_header_against<R>(&mut self, expected: Vec<Column>) -> (r: Step<R>)
        requires
            !old(self).has_header(),
            !old(self).is_finished(),
        ensures
            final(self).ended() == old(self).ended(),
            match parse_header(old(self).rest()) {
                HeaderParsed::Done(ns, ts, n) => final(self).rest() == old(self).rest().skip(n as int)
                    && if header_accepts(columns_view(expected@), texts_of(ns), ts) {
                    r is Ready && final(self).has_header() && !final(self).is_finished()
                } else if names_agree(names_of(columns_view(expected@)), texts_of(ns)) {
                    (r matches Step::Failed(Error::WrongColumnTypes { schema, row })
                        && types_view(schema@) == ts && types_view(row@) == types_of(columns_view(expected@)))
                        && final(self).is_finished() && !final(self).has_header()
                } else {
                    (r matches Step::Failed(Error::WrongColumnNames { schema, row })
                        && strings_view(schema@) == names_of(columns_view(expected@)) && strings_view(row@) == texts_of(ns))
                        && final(self).is_finished() && !final(self).has_header()
                },
                HeaderParsed::Unsupported(b) => (r matches Step::Failed(Error::UnsupportedColumn(m))
                    && m@ == utf8_lossy(b)) && final(self).is_finished(),
                HeaderParsed::Fail(Error::NotEnoughData) => final(self).rest() == old(self).rest()
                    && !final(self).has_header() && if old(self).ended() {
                    r matches Step::Failed(Error::NotEnoughData) && final(self).is_finished()
                } else {
                    r matches Step::NeedInput && !final(self).is_finished()
                },
                HeaderParsed::Fail(e) => r == Step::<R>::Failed(e) && final(self).is_finished(),
            },
    {
        match read_header(&mut self.buf) {
            Ok((names, types)) => {
                proof {
                    lemma_names_text(names@);
                }
                match negotiate(expected, names, types) {
                    Ok(()) => {
                        self.header_done = true;
                        Step::Ready
                    },
                    Err(e) => {
                        self.finished = true;
                        Step::Failed(e)
                    },
                }
            },
            Err(Error::NotEnoughData) => {
                if self.input_ended {
                    self.finished = true;
                    Step::Failed(Error::NotEnoughData)
                } else {
                    Step::NeedInput
                }
            },
            Err(e) => {
                self.finished = true;
                Step::Failed(e)
            },
        }
    }

    /// Reads the header and checks it against the columns of `R`.
    pub fn check_header<R: Row>(&mut self) -> (r: Step<R>)
        requires
            !old(self).has_header(),
            !old(self).is_finished(),
        ensures
            final(self).ended() == old(self).ended(),
            match parse_header(old(self).rest()) {
                HeaderParsed::Done(ns, ts, n) => final(self).rest() == old(self).rest().skip(n as int)
                    && if header_accepts(R::spec_columns(""@), texts_of(ns), ts) {
                    r is Ready && final(self).has_header() && !final(self).is_finished()
                } else if names_agree(names_of(R::spec_columns(""@)), texts_of(ns)) {
                    (r matches Step::Failed(Error::WrongColumnTypes { schema, row })
                        && types_view(schema@) == ts && types_view(row@) == types_of(R::spec_columns(""@)))
                        && final(self).is_finished() && !final(self).has_header()
                } else {
                    (r matches Step::Failed(Error::WrongColumnNames { schema, row })
                        && strings_view(schema@) == names_of(R::spec_columns(""@)) && strings_view(row@) == texts_of(ns))
                        && final(self).is_finished() && !final(self).has_header()
                },
                HeaderParsed::Unsupported(b) => (r matches Step::Failed(Error::UnsupportedColumn(m))
                    && m@ == utf8_lossy(b)) && final(self).is_finished(),
                HeaderParsed::Fail(Error::NotEnoughData) => final(self).rest() == old(self).rest()
                    && !final(self).has_header() && if old(self).ended() {
                    r matches Step::Failed(Error::NotEnoughData) && final(self).is_finished()
                } else {
                    r matches Step::NeedInput && !final(self).is_finished()
                },
                HeaderParsed::Fail(e) => r == Step::<R>::Failed(e) && final(self).is_finished(),
            },
    {
        self.check_header_against(R::columns(""))
    }

    /// Decodes the next row.
    ///
    /// `NeedInput` asks for another chunk; no byte is consumed then. Once the
    /// body has ended, the reader ends cleanly only where a row ends; a row
    /// cut short fails with `NotEnoughData`.
    pub fn get_next<R: Row>(&mut self) -> (r: Step<R>)
        requires
            old(self).has_header(),
        ensures
            final(self).has_header(),
            final(self).ended() == old(self).ended(),
            old(self).is_finished() ==> r is End && final(self).is_finished(),
            !old(self).is_finished() && old(self).rest().len() > 0 ==> !(r is End),
            !old(self).is_finished() && old(self).ended() && old(self).rest().len() == 0 ==> r is End
                && final(self).is_finished(),
            !old(self).is_finished() && !(old(self).ended() && old(self).rest().len() == 0) ==> match R::parse(
                old(self).rest(),
            ) {
                Parsed::Done(v, n) => r matches Step::Row(x) && x.model() == v && final(self).rest()
                    == old(self).rest().skip(n as int) && !final(self).is_finished(),
                Parsed::Fail(Error::NotEnoughData) => final(self).rest() == old(self).rest() && if old(
                    self,
                ).ended() {
                    r matches Step::Failed(Error::NotEnoughData) && final(self).is_finished()
                } else {
                    r matches Step::NeedInput && !final(self).is_finished()
                },
                Parsed::Fail(e) => r == Step::<R>::Failed(e) && final(self).is_finished(),
            },
    {
        if self.finished {
            return Step::End;
        }
        if self.input_ended && self.buf.remaining() == 0 {
            self.finished = true;
            return Step::End;
        }
        match R::read(&mut self.buf) {
            Ok(row) => Step::Row(row),
            Err(Error::NotEnoughData) => {
                if self.input_ended {
                    self.finished = true;
                    Step::Failed(Error::NotEnoughData)
                } else {
                    Step::NeedInput
                }
            },
            Err(e) => {
                self.finished = true;
                Step::Failed(e)
            },
        }
    }
}

/// What reading a header from some bytes decides (`p`) holds as well of
/// reading it from those bytes followed by more (`q`).
pub open spec fn header_prefix_stable(p: HeaderParsed, q: HeaderParsed, len: nat) -> bool {
    match p {
        HeaderParsed::Done(_, _, n) => q == p && n <= len,
        HeaderParsed::Unsupported(_) => q == p,
        HeaderParsed::Fail(Error::NotEnoughData) => true,
        HeaderParsed::Fail(_) => q == p,
    }
}

/// Whatever the reader decides from the bytes received so far (the header,
/// a row, or any failure but running out of bytes), it decides the same
/// from those bytes followed by any more: how the body is cut into chunks
/// does not change what is read from it.
pub proof fn lemma_chunk_independence<R: Row>(s: Seq<u8>, t: Seq<u8>)
    ensures
        header_prefix_stable(parse_header(s), parse_header(s + t), s.len()),
        prefix_stable(R::parse(s), R::parse(s + t), s.len()),
{
    R::lemma_parse_prefix(s, t);
    lemma_list_prefix::<String>(s, t);
    if parse_list::<String>(s) is Done {
        let n = parse_list::<String>(s)->Done_1;
        let ns = parse_list::<String>(s)->Done_0;
        assert((s + t).skip(n as int) =~= s.skip(n as int) + t);
        if ns is List {
            lemma_many_prefix::<Vec<u8>>(s.skip(n as int), t, ns->List_0.len());
        }
    }
}

/// A row that the end of the body cuts short reads as running out of bytes:
/// neither as a row nor as another failure.
pub proof fn lemma_truncated_row<R: Row>(s: Seq<u8>, t: Seq<u8>)
    requires
        R::parse(s + t) matches Parsed::Done(_, n) && n > s.len(),
    ensures
        R::parse(s) == Parsed::Fail(Error::NotEnoughData),
{
    R::lemma_parse_prefix(s, t);
}

/// The first `k` rows read from the bytes of a body received so far are the
/// first `k` rows read once more bytes have arrived, and so is any failure
/// but running out of bytes: cutting a body into chunks does not change the
/// rows read from it.
pub proof fn lemma_rows_chunk_independence<R: Row>(s: Seq<u8>, t: Seq<u8>, k: nat)
    ensures
        prefix_stable(parse_many::<R>(s, k), parse_many::<R>(s + t, k), s.len()),
{
    lemma_many_prefix::<R>(s, t, k);
}

/// When a body is cut inside its first `k` rows, reading `k` rows from what
/// is left runs out of bytes: it neither succeeds nor fails otherwise. The
/// rows before the cut are read as before it, by the law above.
pub proof fn lemma_truncated_rows<R: Row>(s: Seq<u8>, t: Seq<u8>, k: nat)
    requires
        parse_many::<R>(s + t, k) matches Parsed::Done(_, n) && n > s.len(),
    ensures
        parse_many::<R>(s, k) == Parsed::Fail(Error::NotEnoughData),
{
    lemma_many_prefix::<R>(s, t, k);
}

} // verus!
