//! The writing side of an insert: the body starts with a statement and a
//! header, and rows follow in batches.
use vstd::prelude::*;

use vstd::utf8::encode_utf8;

use crate::column_type::push_all;
use crate::composite::{
    lemma_parse_blob, lemma_parse_many_values, models, parse_list, parse_many, types_of,
    write_blob,
};
use crate::error::Error;
use crate::leb128::{leb128, lemma_leb128_round_trip, WriteRowBinary};
use crate::row::{columns_view, encode, encode_all, fits_u64, Column, Parsed, Row, Value};
use crate::schema::{names_of, parse_header, parse_types, strings_view, HeaderParsed};
use crate::stream::{header_accepts, texts_of};
use crate::type_laws::{lemma_parse_print, printable};
use crate::type_text::{type_text, Ty};

verus! {

/// The number of rows in one chunk of an insert body.
pub const BATCH_ROWS: usize = 10000;

/// `INSERT INTO `
pub open spec fn kw_insert_into() -> Seq<u8> {
    seq![73, 78, 83, 69, 82, 84, 32, 73, 78, 84, 79, 32]
}

/// ` FORMAT RowBinaryWithNamesAndTypes` and a line feed.
pub open spec fn kw_format() -> Seq<u8> {
    seq![
        32, 70, 79, 82, 77, 65, 84, 32, 82, 111, 119, 66, 105, 110, 97, 114, 121, 87, 105, 116, 104,
        78, 97, 109, 101, 115, 65, 110, 100, 84, 121, 112, 101, 115, 10,
    ]
}

/// The statement that starts the body of an insert into `table`.
pub open spec fn insert_statement(table: Seq<char>) -> Seq<u8> {
    kw_insert_into() + encode_utf8(table) + kw_format()
}

/// The names of the first `k` columns, each as a byte string.
pub open spec fn names_bytes(cs: Seq<(Seq<char>, Ty)>, k: nat) -> Seq<u8>
    decreases k,
{
    if k == 0 || k > cs.len() {
        seq![]
    } else {
        names_bytes(cs, (k - 1) as nat) + encode(Value::Blob(encode_utf8(cs[k - 1].0)))
    }
}

/// The types of the first `k` columns, each as a byte string of its text.
pub open spec fn types_bytes(cs: Seq<(Seq<char>, Ty)>, k: nat) -> Seq<u8>
    decreases k,
{
    if k == 0 || k > cs.len() {
        seq![]
    } else {
        types_bytes(cs, (k - 1) as nat) + encode(Value::Blob(type_text(cs[k - 1].1)))
    }
}

/// The header that announces the columns `cs`.
pub open spec fn header_bytes(cs: Seq<(Seq<char>, Ty)>) -> Seq<u8> {
    leb128(cs.len()) + names_bytes(cs, cs.len()) + types_bytes(cs, cs.len())
}

/// Whether every column has a name.
pub open spec fn all_named(cs: Seq<(Seq<char>, Ty)>) -> bool {
    forall|i: int| 0 <= i < cs.len() ==> #[trigger] cs[i].0.len() > 0
}

/// Appends the header that announces `cs`.
pub fn write_header(cs: &Vec<Column>, out: &mut Vec<u8>)
    ensures
        final(out)@ == old(out)@ + header_bytes(columns_view(cs@)),
{
    let ghost v = columns_view(cs@);
    out.write_leb128(cs.len() as u64);
    let ghost head = out@;
    let mut i: usize = 0;
    while i < cs.len()
        invariant
            i <= cs@.len(),
            v == columns_view(cs@),
            out@ == head + names_bytes(v, i as nat),
        decreases cs@.len() - i,
    {
        write_blob(out, cs[i].name.as_str().as_bytes());
        i = i + 1;
    }
    let ghost mid = out@;
    let mut j: usize = 0;
    while j < cs.len()
        invariant
            j <= cs@.len(),
            v == columns_view(cs@),
            out@ == mid + types_bytes(v, j as nat),
        decreases cs@.len() - j,
    {
        let text = cs[j].column_type.to_text();
        write_blob(out, text.as_slice());
        j = j + 1;
    }
}

/// The start of the body of an insert of rows of `R` into `table`: the
/// statement, then the header. Every column must have a name.
pub fn insert_prefix<R: Row>(table: &str) -> (r: Result<Vec<u8>, Error>)
    ensures
        match r {
            Ok(v) => all_named(R::spec_columns(""@)) && v@ == insert_statement(table@) + header_bytes(
                R::spec_columns(""@),
            ),
            Err(Error::MissingColumnName { row }) => !all_named(R::spec_columns(""@))
                && strings_view(row@) == names_of(R::spec_columns(""@)),
            _ => false,
        },
{
    insert_prefix_for(table, &R::columns(""))
}

/// The start of the body of an insert into `table` of rows with the columns
/// `cs`: the statement, then the header. Every column must have a name.
pub fn insert_prefix_for(table: &str, cs: &Vec<Column>) -> (r: Result<Vec<u8>, Error>)
    ensures
        match r {
            Ok(v) => all_named(columns_view(cs@)) && v@ == insert_statement(table@) + header_bytes(
                columns_view(cs@),
            ),
            Err(Error::MissingColumnName { row }) => !all_named(columns_view(cs@))
                && strings_view(row@) == names_of(columns_view(cs@)),
            _ => false,
        },
{
    let ghost v = columns_view(cs@);
    let mut i: usize = 0;
    while i < cs.len()
        invariant
            i <= cs@.len(),
            v == columns_view(cs@),
            forall|j: int| 0 <= j < i ==> #[trigger] v[j].0.len() > 0,
        decreases cs@.len() - i,
    {
        if cs[i].name.as_str().is_empty() {
            assert(v[i as int].0.len() == 0);
            assert(!all_named(v));
            let mut names: Vec<String> = Vec::new();
            let mut k: usize = 0;
            while k < cs.len()
                invariant
                    k <= cs@.len(),
                    v == columns_view(cs@),
                            !all_named(v),
                    strings_view(names@) =~= names_of(v).take(k as int),
                decreases cs@.len() - k,
            {
                let name = cs[k].name.clone();
                assert(strings_view(names@.push(name)) =~= strings_view(names@).push(name@));
                assert(names_of(v).take(k + 1) =~= names_of(v).take(k as int).push(v[k as int].0));
                names.push(name);
                k = k + 1;
            }
            assert(names_of(v).take(cs@.len() as int) =~= names_of(v));
            return Err(Error::MissingColumnName { row: names });
        }
        i = i + 1;
    }
    let mut out: Vec<u8> = Vec::new();
    // "INSERT INTO "
    push_all(&mut out, vec![73, 78, 83, 69, 82, 84, 32, 73, 78, 84, 79, 32].as_slice());
    push_all(&mut out, table.as_bytes());
    // " FORMAT RowBinaryWithNamesAndTypes\n"
    push_all(
        &mut out,
        vec![
            32, 70, 79, 82, 77, 65, 84, 32, 82, 111, 119, 66, 105, 110, 97, 114, 121, 87, 105, 116,
            104, 78, 97, 109, 101, 115, 65, 110, 100, 84, 121, 112, 101, 115, 10,
        ].as_slice(),
    );
    write_header(cs, &mut out);
    Ok(out)
}

/// Appends the bytes of `rows`, one after another, with nothing between them.
pub fn write_rows<R: Row>(rows: &Vec<R>, out: &mut Vec<u8>)
    ensures
        final(out)@ == old(out)@ + encode_all(models(rows@), rows@.len()),
{
    let ghost ms = models(rows@);
    let mut i: usize = 0;
    while i < rows.len()
        invariant
            i <= rows@.len(),
            ms == models(rows@),
            out@ == old(out)@ + encode_all(ms, i as nat),
        decreases rows@.len() - i,
    {
        rows[i].write(out);
        assert(encode_all(ms, (i + 1) as nat) == encode_all(ms, i as nat) + encode(ms[i as int]));
        i = i + 1;
    }
}

/// The names of columns as they are written: each as text.
pub open spec fn name_values(cs: Seq<(Seq<char>, Ty)>) -> Seq<Value> {
    cs.map_values(|c: (Seq<char>, Ty)| Value::Blob(encode_utf8(c.0)))
}

/// The types of columns as they are written: each as its text.
pub open spec fn type_values(cs: Seq<(Seq<char>, Ty)>) -> Seq<Value> {
    cs.map_values(|c: (Seq<char>, Ty)| Value::Blob(type_text(c.1)))
}

/// Every count in the header of `cs` fits the 64 bits of its varint.
pub open spec fn header_fits(cs: Seq<(Seq<char>, Ty)>) -> bool {
    &&& fits_u64(cs.len())
    &&& forall|i: int| 0 <= i < cs.len() ==> fits_u64(#[trigger] encode_utf8(cs[i].0).len())
    &&& forall|i: int| 0 <= i < cs.len() ==> fits_u64(#[trigger] type_text(cs[i].1).len())
}

proof fn lemma_names_bytes(cs: Seq<(Seq<char>, Ty)>, k: nat)
    requires
        k <= cs.len(),
    ensures
        names_bytes(cs, k) == encode_all(name_values(cs), k),
        types_bytes(cs, k) == encode_all(type_values(cs), k),
    decreases k,
{
    if k > 0 {
        lemma_names_bytes(cs, (k - 1) as nat);
    }
}

proof fn lemma_parse_types_texts(cs: Seq<(Seq<char>, Ty)>, k: nat)
    requires
        k <= cs.len(),
        forall|i: int| 0 <= i < cs.len() ==> printable(#[trigger] cs[i].1),
    ensures
        parse_types(type_values(cs).take(k as int)) == Ok::<Seq<Ty>, Seq<u8>>(types_of(cs).take(k as int)),
    decreases k,
{
    let tv = type_values(cs).take(k as int);
    if k == 0 {
        assert(tv =~= Seq::<Value>::empty());
        assert(types_of(cs).take(0) =~= Seq::<Ty>::empty());
    } else {
        lemma_parse_types_texts(cs, (k - 1) as nat);
        assert(tv.drop_last() =~= type_values(cs).take(k - 1));
        assert(printable(cs[k - 1].1));
        lemma_parse_print(cs[k - 1].1);
        assert(types_of(cs).take(k - 1).push(cs[k - 1].1) =~= types_of(cs).take(k as int));
    }
}

proof fn lemma_names_read(cs: Seq<(Seq<char>, Ty)>, r: Seq<u8>)
    requires
        header_fits(cs),
    ensures
        parse_list::<String>(encode(Value::List(name_values(cs))) + r) == Parsed::Done(
            Value::List(name_values(cs)),
            encode(Value::List(name_values(cs))).len(),
        ),
{
    let n = cs.len();
    let nv = name_values(cs);
    let body = encode_all(nv, n);
    assert forall|i: int, q: Seq<u8>| 0 <= i < n implies #[trigger] String::parse(encode(nv[i]) + q)
        == Parsed::Done(nv[i], encode(nv[i]).len()) by {
        vstd::utf8::encode_utf8_valid_utf8(cs[i].0);
        lemma_parse_blob(encode_utf8(cs[i].0), q);
    }
    let s = encode(Value::List(nv)) + r;
    lemma_leb128_round_trip(n, body + r);
    assert(s =~= leb128(n) + (body + r));
    assert(s.skip(leb128(n).len() as int) =~= body + r);
    lemma_parse_many_values::<String>(nv, n, r);
    assert(nv.take(n as int) =~= nv);
    assert(n % 0x1_0000_0000_0000_0000 == n);
}

proof fn lemma_types_read(cs: Seq<(Seq<char>, Ty)>, r: Seq<u8>)
    requires
        header_fits(cs),
    ensures
        parse_many::<Vec<u8>>(encode_all(type_values(cs), cs.len()) + r, cs.len()) == Parsed::Done(
            Value::Group(type_values(cs)),
            encode_all(type_values(cs), cs.len()).len(),
        ),
{
    let n = cs.len();
    let tv = type_values(cs);
    assert forall|i: int, q: Seq<u8>| 0 <= i < n implies #[trigger] <Vec<u8> as Row>::parse(
        encode(tv[i]) + q,
    ) == Parsed::Done(tv[i], encode(tv[i]).len()) by {
        lemma_parse_blob(type_text(cs[i].1), q);
    }
    lemma_parse_many_values::<Vec<u8>>(tv, n, r);
    assert(tv.take(n as int) =~= tv);
}

proof fn lemma_names_text_back(cs: Seq<(Seq<char>, Ty)>)
    ensures
        texts_of(name_values(cs)) == names_of(cs),
{
    let nv = name_values(cs);
    assert forall|i: int| 0 <= i < cs.len() implies #[trigger] texts_of(nv)[i] == names_of(cs)[i] by {
        vstd::utf8::encode_utf8_decode_utf8(cs[i].0);
    }
    assert(texts_of(nv) =~= names_of(cs));
}

/// The header that an insert writes for columns with printable types reads
/// back as their names and types, and is accepted for those same columns.
#[verifier::spinoff_prover]
#[verifier::rlimit(100)]
pub proof fn lemma_header_symmetry(cs: Seq<(Seq<char>, Ty)>, rest: Seq<u8>)
    requires
        header_fits(cs),
        forall|i: int| 0 <= i < cs.len() ==> printable(#[trigger] cs[i].1),
    ensures
        parse_header(header_bytes(cs) + rest) == HeaderParsed::Done(
            name_values(cs),
            types_of(cs),
            header_bytes(cs).len(),
        ),
        header_accepts(cs, texts_of(name_values(cs)), types_of(cs)),
{
    let n = cs.len();
    let nv = name_values(cs);
    let tv = type_values(cs);
    assert(nv.len() == n && tv.len() == n);
    lemma_names_bytes(cs, n);
    let names_part = encode(Value::List(nv));
    let types_part = encode_all(tv, n);
    assert(names_part == leb128(n) + encode_all(nv, n));
    assert(header_bytes(cs) =~= names_part + types_part);
    let s = header_bytes(cs) + rest;
    assert(s =~= names_part + (types_part + rest));
    lemma_names_read(cs, types_part + rest);
    let pl = parse_list::<String>(s);
    assert(pl == Parsed::Done(Value::List(nv), names_part.len()));
    assert(s.skip(names_part.len() as int) =~= types_part + rest);
    lemma_types_read(cs, rest);
    let pm = parse_many::<Vec<u8>>(s.skip(names_part.len() as int), nv.len());
    assert(pm == Parsed::Done(Value::Group(tv), types_part.len()));
    lemma_parse_types_texts(cs, n);
    assert(tv.take(n as int) =~= tv);
    assert(types_of(cs).take(n as int) =~= types_of(cs));
    assert(parse_types(tv) == Ok::<Seq<Ty>, Seq<u8>>(types_of(cs)));
    assert(parse_header(s) == HeaderParsed::Done(nv, types_of(cs), names_part.len() + types_part.len()));
    lemma_names_text_back(cs);
}

} // verus!
