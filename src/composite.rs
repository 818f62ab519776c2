//! Byte strings, text, nullable values, tuples and arrays.
use vstd::prelude::*;

use vstd::utf8::{encode_utf8, valid_utf8};

use crate::column_type::{lemma_tys_of, push_all, tys_of, ColumnType};
use crate::cursor::Bytes;
use crate::error::Error;
use crate::leb128::{leb128, leb_parse, lemma_leb128_round_trip, WriteRowBinary};
use crate::row::{
    prefix_stable, columns_view, encodable, encode, encode_all, all_encodable, fits_u64, one_column, single_type,
    Column, Parsed, Row, Value,
};
use crate::text::text_from_utf8;
use crate::type_text::Ty;

verus! {

/// Reading a byte string: a varint count, then that many bytes.
pub open spec fn parse_blob(s: Seq<u8>) -> Parsed {
    match leb_parse(s) {
        None => Parsed::Fail(Error::NotEnoughData),
        Some((l, n)) => {
            let len = l % 0x1_0000_0000_0000_0000;
            if s.len() < n + len {
                Parsed::Fail(Error::NotEnoughData)
            } else {
                Parsed::Done(Value::Blob(s.subrange(n as int, (n + len) as int)), n + len)
            }
        },
    }
}

/// Reading text: a byte string that must be valid UTF-8.
pub open spec fn parse_text(s: Seq<u8>) -> Parsed {
    match parse_blob(s) {
        Parsed::Done(Value::Blob(b), k) => if valid_utf8(b) {
            Parsed::Done(Value::Blob(b), k)
        } else {
            Parsed::Fail(Error::InvalidUnicode)
        },
        other => other,
    }
}

pub proof fn lemma_parse_blob(b: Seq<u8>, rest: Seq<u8>)
    requires
        fits_u64(b.len()),
    ensures
        parse_blob(encode(Value::Blob(b)) + rest) == Parsed::Done(
            Value::Blob(b),
            encode(Value::Blob(b)).len(),
        ),
{
    let e = leb128(b.len());
    let s = e + b + rest;
    lemma_leb128_round_trip(b.len(), b + rest);
    assert(s == e + (b + rest));
    assert(b.len() % 0x1_0000_0000_0000_0000 == b.len());
    assert(s.subrange(e.len() as int, (e.len() + b.len()) as int) =~= b);
    assert(encode(Value::Blob(b)) + rest == s);
}

pub proof fn lemma_blob_prefix(s: Seq<u8>, t: Seq<u8>)
    ensures
        prefix_stable(parse_blob(s), parse_blob(s + t), s.len()),
{
    crate::leb128::lemma_leb_parse_prefix(s, t);
    crate::leb128::lemma_leb_parse_len(s);
    if leb_parse(s) is Some {
        let (l, n) = leb_parse(s)->Some_0;
        let len = l % 0x1_0000_0000_0000_0000;
        if s.len() >= n + len {
            assert((s + t).subrange(n as int, (n + len) as int) =~= s.subrange(n as int, (n + len) as int));
        }
    }
}

/// Reads a byte string.
pub fn read_blob(buf: &mut Bytes) -> (r: Result<Vec<u8>, Error>)
    ensures
        final(buf).data() == old(buf).data(),
        match parse_blob(old(buf).rest()) {
            Parsed::Done(Value::Blob(b), k) => r matches Ok(v) && v@ == b && final(buf).pos() == old(
                buf,
            ).pos() + k && final(buf).rest() == old(buf).rest().skip(k as int),
            Parsed::Fail(e) => r == Err::<Vec<u8>, Error>(e) && final(buf).pos() == old(buf).pos(),
            _ => false,
        },
{
    let start = buf.position();
    let ghost s = old(buf).rest();
    let l = match buf.read_leb128() {
        Ok(l) => l,
        Err(e) => {
            return Err(e);
        },
    };
    let ghost n = leb_parse(s)->Some_0.1;
    proof {
        crate::leb128::lemma_leb_parse_len(s);
    }
    assert(buf.rest() =~= s.skip(n as int));
    let avail = buf.remaining();
    if l > avail as u64 {
        buf.rewind(start);
        return Err(Error::NotEnoughData);
    }
    let r = buf.read_bytes(l as usize);
    assert(s.skip(n as int).take(l as int) =~= s.subrange(n as int, n + l));
    assert(s.skip(n as int).skip(l as int) =~= s.skip(n + l));
    r
}

/// Appends a byte string: its length as a varint, then its bytes.
pub(crate) fn write_blob(buf: &mut Vec<u8>, b: &[u8])
    ensures
        final(buf)@ == old(buf)@ + encode(Value::Blob(b@)),
        fits_u64(b@.len()),
{
    let n = b.len();
    buf.write_leb128(n as u64);
    push_all(buf, b);
}

/// A `String` column read as text.
impl Row for String {
    open spec fn spec_columns(parent: Seq<char>) -> Seq<(Seq<char>, Ty)> {
        seq![(parent, Ty::String)]
    }

    open spec fn model(&self) -> Value {
        Value::Blob(encode_utf8(self@))
    }

    open spec fn parse(s: Seq<u8>) -> Parsed {
        parse_text(s)
    }

    fn columns(parent: &str) -> (r: Vec<Column>) {
        one_column(parent, ColumnType::String)
    }

    fn read(buf: &mut Bytes) -> (r: Result<Self, Error>) {
        let start = buf.position();
        let b = match read_blob(buf) {
            Ok(b) => b,
            Err(e) => {
                return Err(e);
            },
        };
        let ghost bv = b@;
        match text_from_utf8(b) {
            Some(t) => {
                proof {
                    vstd::utf8::decode_utf8_encode_utf8(bv);
                }
                Ok(t)
            },
            None => {
                buf.rewind(start);
                Err(Error::InvalidUnicode)
            },
        }
    }

    fn write(&self, buf: &mut Vec<u8>) {
        write_blob(buf, self.as_str().as_bytes());
    }

    proof fn lemma_parse_encoded(&self, rest: Seq<u8>) {
        lemma_parse_blob(encode_utf8(self@), rest);
        vstd::utf8::encode_utf8_valid_utf8(self@);
    }

    proof fn lemma_parse_prefix(s: Seq<u8>, t: Seq<u8>) {
        lemma_blob_prefix(s, t);
    }
}

/// Two texts written as the same bytes are the same text: a text read back
/// from what was written is the text written.
pub proof fn lemma_text_model_injective(a: String, b: String)
    requires
        a.model() == b.model(),
    ensures
        a@ == b@,
{
    vstd::utf8::encode_utf8_decode_utf8(a@);
    vstd::utf8::encode_utf8_decode_utf8(b@);
}

/// A `String` column read as raw bytes.
impl Row for Vec<u8> {
    open spec fn spec_columns(parent: Seq<char>) -> Seq<(Seq<char>, Ty)> {
        seq![(parent, Ty::String)]
    }

    open spec fn model(&self) -> Value {
        Value::Blob(self@)
    }

    open spec fn parse(s: Seq<u8>) -> Parsed {
        parse_blob(s)
    }

    fn columns(parent: &str) -> (r: Vec<Column>) {
        one_column(parent, ColumnType::String)
    }

    fn read(buf: &mut Bytes) -> (r: Result<Self, Error>) {
        read_blob(buf)
    }

    fn write(&self, buf: &mut Vec<u8>) {
        write_blob(buf, self.as_slice());
    }

    proof fn lemma_parse_encoded(&self, rest: Seq<u8>) {
        lemma_parse_blob(self@, rest);
    }

    proof fn lemma_parse_prefix(s: Seq<u8>, t: Seq<u8>) {
        lemma_blob_prefix(s, t);
    }
}

/// The types of columns, in order.
pub open spec fn types_of(cs: Seq<(Seq<char>, Ty)>) -> Seq<Ty> {
    cs.map_values(|c: (Seq<char>, Ty)| c.1)
}

/// The type of the one column of `T`, or the tuple of the types of its columns.
pub fn single_column<T: Row>() -> (r: ColumnType)
    ensures
        r@ == single_type(T::spec_columns(""@)),
{
    let mut cs = T::columns("");
    let ghost orig = columns_view(cs@);
    if cs.len() == 1 {
        let c = cs.remove(0);
        return c.column_type;
    }
    let mut ts: Vec<ColumnType> = Vec::new();
    while cs.len() > 0
        invariant
            types_of(orig) =~= ts@.map_values(|t: ColumnType| t@) + types_of(columns_view(cs@)),
        decreases cs@.len(),
    {
        let ghost before = cs@;
        let c = cs.remove(0);
        assert(columns_view(before) =~= seq![(c.name@, c.column_type@)] + columns_view(cs@));
        assert(types_of(columns_view(before)) =~= seq![c.column_type@] + types_of(columns_view(cs@)));
        ts.push(c.column_type);
    }
    proof {
        lemma_tys_of(ts@, ts@.len());
        assert(tys_of(ts@, ts@.len()) =~= types_of(orig));
    }
    ColumnType::Tuple(ts)
}

/// The bytes of two values one after another.
pub proof fn lemma_encode_pair(a: Value, b: Value)
    ensures
        encode(Value::Group(seq![a, b])) == encode(a) + encode(b),
        encodable(Value::Group(seq![a, b])) == (encodable(a) && encodable(b)),
{
    let vs = seq![a, b];
    assert(encode_all(vs, 0) == Seq::<u8>::empty());
    assert(encode_all(vs, 1) == encode_all(vs, 0) + encode(a));
    assert(encode_all(vs, 1) =~= encode(a));
    assert(all_encodable(vs, 0));
    assert(all_encodable(vs, 1) == (all_encodable(vs, 0) && encodable(vs[0])));
    assert(all_encodable(vs, 2) == (all_encodable(vs, 1) && encodable(vs[1])));
}

/// The bytes of three values one after another.
pub proof fn lemma_encode_triple(a: Value, b: Value, c: Value)
    ensures
        encode(Value::Group(seq![a, b, c])) == encode(a) + encode(b) + encode(c),
        encodable(Value::Group(seq![a, b, c])) == (encodable(a) && encodable(b) && encodable(c)),
{
    let vs = seq![a, b, c];
    assert(encode_all(vs, 0) == Seq::<u8>::empty());
    assert(encode_all(vs, 1) == encode_all(vs, 0) + encode(a));
    assert(encode_all(vs, 1) =~= encode(a));
    assert(encode_all(vs, 2) == encode_all(vs, 1) + encode(b));
    assert(all_encodable(vs, 0));
    assert(all_encodable(vs, 1) == (all_encodable(vs, 0) && encodable(vs[0])));
    assert(all_encodable(vs, 2) == (all_encodable(vs, 1) && encodable(vs[1])));
    assert(all_encodable(vs, 3) == (all_encodable(vs, 2) && encodable(vs[2])));
}

/// A column whose type is the tuple of `ts`.
fn tuple_of(ts: Vec<ColumnType>) -> (r: ColumnType)
    ensures
        r@ == Ty::Tuple(ts@.map_values(|t: ColumnType| t@)),
{
    proof {
        lemma_tys_of(ts@, ts@.len());
        assert(tys_of(ts@, ts@.len()) =~= ts@.map_values(|t: ColumnType| t@));
    }
    ColumnType::Tuple(ts)
}

/// Moves the types of `cs` to the end of `ts`.
fn append_types(ts: &mut Vec<ColumnType>, cs: Vec<Column>)
    ensures
        final(ts)@.map_values(|t: ColumnType| t@) == old(ts)@.map_values(|t: ColumnType| t@)
            + types_of(columns_view(cs@)),
{
    let mut cs = cs;
    let ghost orig = cs@;
    while cs.len() > 0
        invariant
            old(ts)@.map_values(|t: ColumnType| t@) + types_of(columns_view(orig)) =~= ts@.map_values(
                |t: ColumnType| t@,
            ) + types_of(columns_view(cs@)),
        decreases cs@.len(),
    {
        let ghost before = cs@;
        let c = cs.remove(0);
        assert(types_of(columns_view(before)) =~= seq![c.column_type@] + types_of(columns_view(cs@)));
        ts.push(c.column_type);
    }
    assert(types_of(columns_view(cs@)) =~= Seq::<Ty>::empty());
}

/// A `Nullable` column: a tag byte, `1` for null and anything else for a
/// value, which then follows.
impl<T: Row> Row for Option<T> {
    open spec fn spec_columns(parent: Seq<char>) -> Seq<(Seq<char>, Ty)> {
        seq![(parent, Ty::Nullable(Box::new(single_type(T::spec_columns(""@)))))]
    }

    open spec fn model(&self) -> Value {
        match self {
            None => Value::Raw(seq![1u8]),
            Some(x) => Value::Group(seq![Value::Raw(seq![0u8]), x.model()]),
        }
    }

    open spec fn parse(s: Seq<u8>) -> Parsed {
        if s.len() == 0 {
            Parsed::Fail(Error::NotEnoughData)
        } else if s[0] == 1 {
            Parsed::Done(Value::Raw(seq![1u8]), 1)
        } else {
            match T::parse(s.skip(1)) {
                Parsed::Done(v, n) => Parsed::Done(Value::Group(seq![Value::Raw(seq![0u8]), v]), n + 1),
                Parsed::Fail(e) => Parsed::Fail(e),
            }
        }
    }

    fn columns(parent: &str) -> (r: Vec<Column>) {
        one_column(parent, ColumnType::Nullable(Box::new(single_column::<T>())))
    }

    fn read(buf: &mut Bytes) -> (r: Result<Self, Error>) {
        let start = buf.position();
        let tag = match buf.read_u8() {
            Ok(b) => b,
            Err(e) => {
                return Err(e);
            },
        };
        if tag == 1 {
            return Ok(None);
        }
        let ghost s = old(buf).rest();
        match T::read(buf) {
            Ok(x) => {
                assert(s.skip(1).skip(T::parse(s.skip(1))->Done_1 as int) =~= s.skip(
                    T::parse(s.skip(1))->Done_1 + 1int,
                ));
                Ok(Some(x))
            },
            Err(e) => {
                buf.rewind(start);
                Err(e)
            },
        }
    }

    fn write(&self, buf: &mut Vec<u8>) {
        match self {
            Some(x) => {
                buf.push(0);
                x.write(buf);
                proof {
                    lemma_encode_pair(Value::Raw(seq![0u8]), x.model());
                }
            },
            None => {
                buf.push(1);
            },
        }
    }

    proof fn lemma_parse_encoded(&self, rest: Seq<u8>) {
        match self {
            Some(x) => {
                lemma_encode_pair(Value::Raw(seq![0u8]), x.model());
                x.lemma_parse_encoded(rest);
                let s = encode(self.model()) + rest;
                assert(s[0] == 0);
                assert(s.skip(1) =~= encode(x.model()) + rest);
            },
            None => {
                assert((seq![1u8] + rest)[0] == 1);
            },
        }
    }

    proof fn lemma_parse_prefix(s: Seq<u8>, t: Seq<u8>) {
        if s.len() > 0 {
            assert((s + t)[0] == s[0]);
            assert((s + t).skip(1) =~= s.skip(1) + t);
            T::lemma_parse_prefix(s.skip(1), t);
        }
    }
}

/// A `Tuple` column of two members.
impl<T1: Row, T2: Row> Row for (T1, T2) {
    open spec fn spec_columns(parent: Seq<char>) -> Seq<(Seq<char>, Ty)> {
        seq![(parent, Ty::Tuple(types_of(T1::spec_columns(parent) + T2::spec_columns(parent))))]
    }

    open spec fn model(&self) -> Value {
        Value::Group(seq![self.0.model(), self.1.model()])
    }

    open spec fn parse(s: Seq<u8>) -> Parsed {
        match T1::parse(s) {
            Parsed::Done(a, n) => match T2::parse(s.skip(n as int)) {
                Parsed::Done(b, m) => Parsed::Done(Value::Group(seq![a, b]), n + m),
                Parsed::Fail(e) => Parsed::Fail(e),
            },
            Parsed::Fail(e) => Parsed::Fail(e),
        }
    }

    fn columns(parent: &str) -> (r: Vec<Column>) {
        let mut ts: Vec<ColumnType> = Vec::new();
        let c1 = T1::columns(parent);
        let ghost v1 = columns_view(c1@);
        let c2 = T2::columns(parent);
        let ghost v2 = columns_view(c2@);
        assert(ts@.map_values(|t: ColumnType| t@) =~= Seq::<Ty>::empty());
        append_types(&mut ts, c1);
        append_types(&mut ts, c2);
        assert(types_of(v1) + types_of(v2) =~= types_of(v1 + v2));
        one_column(parent, tuple_of(ts))
    }

    fn read(buf: &mut Bytes) -> (r: Result<Self, Error>) {
        let start = buf.position();
        let ghost s = old(buf).rest();
        let a = match T1::read(buf) {
            Ok(a) => a,
            Err(e) => {
                return Err(e);
            },
        };
        let ghost n = T1::parse(s)->Done_1;
        match T2::read(buf) {
            Ok(b) => {
                assert(s.skip(n as int).skip(T2::parse(s.skip(n as int))->Done_1 as int) =~= s.skip(
                    n + T2::parse(s.skip(n as int))->Done_1 as int,
                ));
                Ok((a, b))
            },
            Err(e) => {
                buf.rewind(start);
                Err(e)
            },
        }
    }

    fn write(&self, buf: &mut Vec<u8>) {
        self.0.write(buf);
        self.1.write(buf);
        proof {
            lemma_encode_pair(self.0.model(), self.1.model());
        }
    }

    proof fn lemma_parse_encoded(&self, rest: Seq<u8>) {
        let (ma, mb) = (self.0.model(), self.1.model());
        lemma_encode_pair(ma, mb);
        self.0.lemma_parse_encoded(encode(mb) + rest);
        self.1.lemma_parse_encoded(rest);
        let s = encode(ma) + encode(mb) + rest;
        assert(s =~= encode(ma) + (encode(mb) + rest));
        assert(s.skip(encode(ma).len() as int) =~= encode(mb) + rest);
    }

    proof fn lemma_parse_prefix(s: Seq<u8>, t: Seq<u8>) {
        T1::lemma_parse_prefix(s, t);
        if T1::parse(s) is Done {
            let n = T1::parse(s)->Done_1;
            assert((s + t).skip(n as int) =~= s.skip(n as int) + t);
            T2::lemma_parse_prefix(s.skip(n as int), t);
        }
    }
}

/// What the values of `xs` are on the wire.
pub open spec fn models<T: Row>(xs: Seq<T>) -> Seq<Value> {
    xs.map_values(|x: T| x.model())
}

/// Reading `k` values of `T`, one after another.
pub open spec fn parse_many<T: Row>(s: Seq<u8>, k: nat) -> Parsed
    decreases k,
{
    if k == 0 {
        Parsed::Done(Value::Group(seq![]), 0)
    } else {
        match parse_many::<T>(s, (k - 1) as nat) {
            Parsed::Done(Value::Group(vs), n) => match T::parse(s.skip(n as int)) {
                Parsed::Done(v, m) => Parsed::Done(Value::Group(vs.push(v)), n + m),
                Parsed::Fail(e) => Parsed::Fail(e),
            },
            Parsed::Done(_, _) => Parsed::Fail(Error::NotEnoughData),
            Parsed::Fail(e) => Parsed::Fail(e),
        }
    }
}

/// Reading a list: a varint count, then that many values of `T`.
pub open spec fn parse_list<T: Row>(s: Seq<u8>) -> Parsed {
    match leb_parse(s) {
        None => Parsed::Fail(Error::NotEnoughData),
        Some((l, n)) => match parse_many::<T>(s.skip(n as int), l % 0x1_0000_0000_0000_0000) {
            Parsed::Done(Value::Group(vs), m) => Parsed::Done(Value::List(vs), n + m),
            Parsed::Done(_, _) => Parsed::Fail(Error::NotEnoughData),
            Parsed::Fail(e) => Parsed::Fail(e),
        },
    }
}

pub proof fn lemma_many_fail<T: Row>(s: Seq<u8>, k: nat, j: nat)
    requires
        k <= j,
        parse_many::<T>(s, k) is Fail,
    ensures
        parse_many::<T>(s, j) == parse_many::<T>(s, k),
    decreases j,
{
    if k < j {
        lemma_many_fail::<T>(s, k, (j - 1) as nat);
    }
}

proof fn lemma_parse_many<T: Row>(xs: Seq<T>, k: nat, rest: Seq<u8>)
    requires
        k <= xs.len(),
        all_encodable(models(xs), k),
    ensures
        parse_many::<T>(encode_all(models(xs), k) + rest, k) == Parsed::Done(
            Value::Group(models(xs).take(k as int)),
            encode_all(models(xs), k).len(),
        ),
    decreases k,
{
    let ms = models(xs);
    if k == 0 {
        assert(ms.take(0) =~= Seq::<Value>::empty());
        assert(encode_all(ms, 0) == Seq::<u8>::empty());
    } else {
        let e = encode(ms[k - 1]);
        let head = encode_all(ms, (k - 1) as nat);
        let s = encode_all(ms, k) + rest;
        assert(encode_all(ms, k) == head + e);
        assert(s =~= head + (e + rest));
        lemma_parse_many::<T>(xs, (k - 1) as nat, e + rest);
        assert(s.skip(head.len() as int) =~= e + rest);
        xs[k - 1].lemma_parse_encoded(rest);
        assert(ms.take(k - 1).push(ms[k - 1]) =~= ms.take(k as int));
    }
}

pub proof fn lemma_many_prefix<T: Row>(s: Seq<u8>, t: Seq<u8>, k: nat)
    ensures
        prefix_stable(parse_many::<T>(s, k), parse_many::<T>(s + t, k), s.len()),
    decreases k,
{
    if k > 0 {
        lemma_many_prefix::<T>(s, t, (k - 1) as nat);
        if parse_many::<T>(s, (k - 1) as nat) is Done {
            let n = parse_many::<T>(s, (k - 1) as nat)->Done_1;
            assert((s + t).skip(n as int) =~= s.skip(n as int) + t);
            T::lemma_parse_prefix(s.skip(n as int), t);
        }
    }
}

pub proof fn lemma_list_prefix<T: Row>(s: Seq<u8>, t: Seq<u8>)
    ensures
        prefix_stable(parse_list::<T>(s), parse_list::<T>(s + t), s.len()),
{
    crate::leb128::lemma_leb_parse_prefix(s, t);
    crate::leb128::lemma_leb_parse_len(s);
    if leb_parse(s) is Some {
        let (l, n) = leb_parse(s)->Some_0;
        assert((s + t).skip(n as int) =~= s.skip(n as int) + t);
        lemma_many_prefix::<T>(s.skip(n as int), t, l % 0x1_0000_0000_0000_0000);
    }
}

/// Reading `k` values one after another, each of which `T` reads back from
/// its bytes whatever follows them, gives those values back.
pub proof fn lemma_parse_many_values<T: Row>(vs: Seq<Value>, k: nat, rest: Seq<u8>)
    requires
        k <= vs.len(),
        forall|i: int, r: Seq<u8>|
            0 <= i < k ==> #[trigger] T::parse(encode(vs[i]) + r) == Parsed::Done(
                vs[i],
                encode(vs[i]).len(),
            ),
    ensures
        parse_many::<T>(encode_all(vs, k) + rest, k) == Parsed::Done(
            Value::Group(vs.take(k as int)),
            encode_all(vs, k).len(),
        ),
    decreases k,
{
    if k == 0 {
        assert(vs.take(0) =~= Seq::<Value>::empty());
        assert(encode_all(vs, 0) == Seq::<u8>::empty());
    } else {
        let e = encode(vs[k - 1]);
        let head = encode_all(vs, (k - 1) as nat);
        let s = encode_all(vs, k) + rest;
        assert(encode_all(vs, k) == head + e);
        assert(s =~= head + (e + rest));
        lemma_parse_many_values::<T>(vs, (k - 1) as nat, e + rest);
        assert(s.skip(head.len() as int) =~= e + rest);
        assert(T::parse(encode(vs[k - 1]) + rest) == Parsed::Done(vs[k - 1], e.len()));
        assert(vs.take(k - 1).push(vs[k - 1]) =~= vs.take(k as int));
    }
}

/// Reading a list written by [`write_list`] gives its values back.
pub proof fn lemma_list_round_trip<T: Row>(xs: Seq<T>, rest: Seq<u8>)
    requires
        encodable(Value::List(models(xs))),
    ensures
        parse_list::<T>(encode(Value::List(models(xs))) + rest) == Parsed::Done(
            Value::List(models(xs)),
            encode(Value::List(models(xs))).len(),
        ),
{
    let ms = models(xs);
    let body = encode_all(ms, ms.len());
    let e = leb128(ms.len());
    let s = e + body + rest;
    lemma_leb128_round_trip(ms.len(), body + rest);
    assert(s =~= e + (body + rest));
    assert(s.skip(e.len() as int) =~= body + rest);
    assert(ms.len() % 0x1_0000_0000_0000_0000 == ms.len());
    lemma_parse_many::<T>(xs, xs.len(), rest);
    assert(ms.take(ms.len() as int) =~= ms);
}

/// Reads `count` values of `T`, one after another.
pub fn read_many<T: Row>(buf: &mut Bytes, count: u64) -> (r: Result<Vec<T>, Error>)
    ensures
        final(buf).data() == old(buf).data(),
        match parse_many::<T>(old(buf).rest(), count as nat) {
            Parsed::Done(Value::Group(vs), k) => r matches Ok(v) && models(v@) == vs
                && final(buf).pos() == old(buf).pos() + k
                && final(buf).rest() == old(buf).rest().skip(k as int)
                && k <= old(buf).rest().len(),
            Parsed::Fail(e) => r == Err::<Vec<T>, Error>(e) && final(buf).pos() == old(buf).pos(),
            _ => false,
        },
{
    let start = buf.position();
    let ghost base = old(buf).rest();
    let mut out: Vec<T> = Vec::new();
    let mut i: u64 = 0;
    assert(models(out@) =~= Seq::<Value>::empty());
    assert(base.skip(0) =~= base);
    while i < count
        invariant
            buf.data() == old(buf).data(),
            start == old(buf).pos(),
            base == old(buf).rest(),
            start <= buf.pos(),
            i <= count,
            parse_many::<T>(base, i as nat) == Parsed::Done(
                Value::Group(models(out@)),
                (buf.pos() - start) as nat,
            ),
            buf.rest() == base.skip(buf.pos() - start),
            buf.pos() - start <= base.len(),
        decreases count - i,
    {
        let ghost before = buf.rest();
        let ghost consumed = (buf.pos() - start) as nat;
        match T::read(buf) {
            Ok(x) => {
                let ghost m = T::parse(before)->Done_1;
                assert(models(out@.push(x)) =~= models(out@).push(x.model()));
                out.push(x);
                assert(base.skip(consumed as int).skip(m as int) =~= base.skip((consumed + m) as int));
            },
            Err(e) => {
                proof {
                    assert(parse_many::<T>(base, (i + 1) as nat) == Parsed::Fail(e));
                    lemma_many_fail::<T>(base, (i + 1) as nat, count as nat);
                }
                buf.rewind(start);
                return Err(e);
            },
        }
        i = i + 1;
    }
    Ok(out)
}

/// Reads a list: a varint count, then that many values of `T`.
pub fn read_list<T: Row>(buf: &mut Bytes) -> (r: Result<Vec<T>, Error>)
    ensures
        final(buf).data() == old(buf).data(),
        match parse_list::<T>(old(buf).rest()) {
            Parsed::Done(Value::List(vs), k) => r matches Ok(v) && models(v@) == vs
                && final(buf).pos() == old(buf).pos() + k
                && final(buf).rest() == old(buf).rest().skip(k as int)
                && k <= old(buf).rest().len(),
            Parsed::Fail(e) => r == Err::<Vec<T>, Error>(e) && final(buf).pos() == old(buf).pos(),
            _ => false,
        },
{
    let start = buf.position();
    let ghost s = old(buf).rest();
    let l = match buf.read_leb128() {
        Ok(l) => l,
        Err(e) => {
            return Err(e);
        },
    };
    proof {
        crate::leb128::lemma_leb_parse_len(s);
    }
    let ghost n = leb_parse(s)->Some_0.1;
    let ghost mid = buf.pos();
    match read_many::<T>(buf, l) {
        Ok(v) => {
            let ghost k = (buf.pos() - mid) as nat;
            assert(s.skip(n as int).skip(k as int) =~= s.skip((n + k) as int));
            Ok(v)
        },
        Err(e) => {
            buf.rewind(start);
            Err(e)
        },
    }
}

/// Appends a list: the number of values as a varint, then each value.
pub fn write_list<T: Row>(xs: &Vec<T>, buf: &mut Vec<u8>)
    ensures
        final(buf)@ == old(buf)@ + encode(Value::List(models(xs@))),
        encodable(Value::List(models(xs@))),
{
    let ghost ms = models(xs@);
    buf.write_leb128(xs.len() as u64);
    let ghost head = buf@;
    let mut i: usize = 0;
    while i < xs.len()
        invariant
            i <= xs@.len(),
            ms == models(xs@),
            buf@ == head + encode_all(ms, i as nat),
            all_encodable(ms, i as nat),
        decreases xs@.len() - i,
    {
        xs[i].write(buf);
        assert(encode_all(ms, (i + 1) as nat) == encode_all(ms, i as nat) + encode(ms[i as int]));
        i = i + 1;
    }
}

/// An `Array` column: a varint count, then that many values.
pub struct Array<T>(pub Vec<T>);

impl<T: Row> Row for Array<T> {
    open spec fn spec_columns(parent: Seq<char>) -> Seq<(Seq<char>, Ty)> {
        seq![(parent, Ty::Array(Box::new(single_type(T::spec_columns(""@)))))]
    }

    open spec fn model(&self) -> Value {
        Value::List(models(self.0@))
    }

    open spec fn parse(s: Seq<u8>) -> Parsed {
        parse_list::<T>(s)
    }

    fn columns(parent: &str) -> (r: Vec<Column>) {
        one_column(parent, ColumnType::Array(Box::new(single_column::<T>())))
    }

    fn read(buf: &mut Bytes) -> (r: Result<Self, Error>) {
        match read_list::<T>(buf) {
            Ok(v) => Ok(Array(v)),
            Err(e) => Err(e),
        }
    }

    fn write(&self, buf: &mut Vec<u8>) {
        write_list(&self.0, buf);
    }

    proof fn lemma_parse_encoded(&self, rest: Seq<u8>) {
        lemma_list_round_trip::<T>(self.0@, rest);
    }

    proof fn lemma_parse_prefix(s: Seq<u8>, t: Seq<u8>) {
        lemma_list_prefix::<T>(s, t);
    }
}

/// A `Tuple` column of three members.
impl<T1: Row, T2: Row, T3: Row> Row for (T1, T2, T3) {
    open spec fn spec_columns(parent: Seq<char>) -> Seq<(Seq<char>, Ty)> {
        seq![
            (
                parent,
                Ty::Tuple(
                    types_of(T1::spec_columns(parent) + T2::spec_columns(parent) + T3::spec_columns(parent)),
                ),
            ),
        ]
    }

    open spec fn model(&self) -> Value {
        Value::Group(seq![self.0.model(), self.1.model(), self.2.model()])
    }

    open spec fn parse(s: Seq<u8>) -> Parsed {
        match T1::parse(s) {
            Parsed::Done(a, n) => match T2::parse(s.skip(n as int)) {
                Parsed::Done(b, m) => match T3::parse(s.skip((n + m) as int)) {
                    Parsed::Done(c, k) => Parsed::Done(Value::Group(seq![a, b, c]), n + m + k),
                    Parsed::Fail(e) => Parsed::Fail(e),
                },
                Parsed::Fail(e) => Parsed::Fail(e),
            },
            Parsed::Fail(e) => Parsed::Fail(e),
        }
    }

    fn columns(parent: &str) -> (r: Vec<Column>) {
        let mut ts: Vec<ColumnType> = Vec::new();
        let c1 = T1::columns(parent);
        let ghost v1 = columns_view(c1@);
        let c2 = T2::columns(parent);
        let ghost v2 = columns_view(c2@);
        let c3 = T3::columns(parent);
        let ghost v3 = columns_view(c3@);
        assert(ts@.map_values(|t: ColumnType| t@) =~= Seq::<Ty>::empty());
        append_types(&mut ts, c1);
        append_types(&mut ts, c2);
        append_types(&mut ts, c3);
        assert(types_of(v1) + types_of(v2) + types_of(v3) =~= types_of(v1 + v2 + v3));
        one_column(parent, tuple_of(ts))
    }

    fn read(buf: &mut Bytes) -> (r: Result<Self, Error>) {
        let start = buf.position();
        let ghost s = old(buf).rest();
        let a = match T1::read(buf) {
            Ok(a) => a,
            Err(e) => {
                return Err(e);
            },
        };
        let ghost n = T1::parse(s)->Done_1;
        let b = match T2::read(buf) {
            Ok(b) => b,
            Err(e) => {
                buf.rewind(start);
                return Err(e);
            },
        };
        let ghost m = T2::parse(s.skip(n as int))->Done_1;
        assert(s.skip(n as int).skip(m as int) =~= s.skip((n + m) as int));
        match T3::read(buf) {
            Ok(c) => {
                let ghost k = T3::parse(s.skip((n + m) as int))->Done_1;
                assert(s.skip((n + m) as int).skip(k as int) =~= s.skip((n + m + k) as int));
                Ok((a, b, c))
            },
            Err(e) => {
                buf.rewind(start);
                Err(e)
            },
        }
    }

    fn write(&self, buf: &mut Vec<u8>) {
        self.0.write(buf);
        self.1.write(buf);
        self.2.write(buf);
        proof {
            lemma_encode_triple(self.0.model(), self.1.model(), self.2.model());
        }
    }

    proof fn lemma_parse_encoded(&self, rest: Seq<u8>) {
        let (ma, mb, mc) = (self.0.model(), self.1.model(), self.2.model());
        lemma_encode_triple(ma, mb, mc);
        self.0.lemma_parse_encoded(encode(mb) + encode(mc) + rest);
        self.1.lemma_parse_encoded(encode(mc) + rest);
        self.2.lemma_parse_encoded(rest);
        let s = encode(ma) + encode(mb) + encode(mc) + rest;
        assert(s =~= encode(ma) + (encode(mb) + encode(mc) + rest));
        assert(s.skip(encode(ma).len() as int) =~= encode(mb) + (encode(mc) + rest));
        assert(s.skip((encode(ma).len() + encode(mb).len()) as int) =~= encode(mc) + rest);
    }

    proof fn lemma_parse_prefix(s: Seq<u8>, t: Seq<u8>) {
        T1::lemma_parse_prefix(s, t);
        if T1::parse(s) is Done {
            let n = T1::parse(s)->Done_1;
            assert((s + t).skip(n as int) =~= s.skip(n as int) + t);
            T2::lemma_parse_prefix(s.skip(n as int), t);
            if T2::parse(s.skip(n as int)) is Done {
                let m = T2::parse(s.skip(n as int))->Done_1;
                assert((s + t).skip((n + m) as int) =~= s.skip((n + m) as int) + t);
                T3::lemma_parse_prefix(s.skip((n + m) as int), t);
            }
        }
    }
}

} // verus!
