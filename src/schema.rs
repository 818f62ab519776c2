//! The header of a body: the names and types of its columns, and how they
//! are checked against a row type.
use vstd::prelude::*;

use crate::column_type::{same_type, ColumnType};
use crate::composite::{
    models, parse_list, parse_many, read_list, read_many, types_of,
};
use crate::cursor::Bytes;
use crate::error::Error;
use crate::row::{columns_view, Column, Parsed, Value};
use crate::text::utf8_lossy;
use crate::type_text::{parse_type, Ty};

verus! {

pub open spec fn strings_view(v: Seq<String>) -> Seq<Seq<char>> {
    v.map_values(|s: String| s@)
}

pub open spec fn types_view(v: Seq<ColumnType>) -> Seq<Ty> {
    v.map_values(|t: ColumnType| t@)
}

/// The names of columns, in order.
pub open spec fn names_of(cs: Seq<(Seq<char>, Ty)>) -> Seq<Seq<char>> {
    cs.map_values(|c: (Seq<char>, Ty)| c.0)
}

/// Whether announced names fit the expected ones: the same names in the same
/// order, unless a single column without a name is expected, which takes
/// any one name.
pub open spec fn names_agree(expected: Seq<Seq<char>>, announced: Seq<Seq<char>>) -> bool {
    &&& expected.len() == announced.len()
    &&& ((expected.len() == 1 && expected[0].len() == 0) || expected == announced)
}

/// Splits columns into their names and their types.
fn split_columns(cs: Vec<Column>) -> (r: (Vec<String>, Vec<ColumnType>))
    ensures
        strings_view(r.0@) == names_of(columns_view(cs@)),
        types_view(r.1@) == types_of(columns_view(cs@)),
{
    let ghost orig = columns_view(cs@);
    let mut cs = cs;
    let mut names: Vec<String> = Vec::new();
    let mut types: Vec<ColumnType> = Vec::new();
    while cs.len() > 0
        invariant
            names_of(orig) =~= strings_view(names@) + names_of(columns_view(cs@)),
            types_of(orig) =~= types_view(types@) + types_of(columns_view(cs@)),
        decreases cs@.len(),
    {
        let ghost before = cs@;
        let c = cs.remove(0);
        assert(columns_view(before) =~= seq![(c.name@, c.column_type@)] + columns_view(cs@));
        assert(names_of(columns_view(before)) =~= seq![c.name@] + names_of(columns_view(cs@)));
        assert(types_of(columns_view(before)) =~= seq![c.column_type@] + types_of(columns_view(cs@)));
        names.push(c.name);
        types.push(c.column_type);
    }
    assert(names_of(columns_view(cs@)) =~= Seq::<Seq<char>>::empty());
    assert(types_of(columns_view(cs@)) =~= Seq::<Ty>::empty());
    (names, types)
}

fn same_names(a: &Vec<String>, b: &Vec<String>) -> (r: bool)
    ensures
        r == (strings_view(a@) == strings_view(b@)),
{
    if a.len() != b.len() {
        assert(strings_view(a@).len() != strings_view(b@).len());
        return false;
    }
    let mut i: usize = 0;
    while i < a.len()
        invariant
            i <= a@.len(),
            a@.len() == b@.len(),
            forall|j: int| 0 <= j < i ==> a@[j]@ == b@[j]@,
        decreases a@.len() - i,
    {
        if a[i] != b[i] {
            assert(strings_view(a@)[i as int] != strings_view(b@)[i as int]);
            return false;
        }
        i = i + 1;
    }
    assert(strings_view(a@) =~= strings_view(b@));
    true
}

fn same_types(a: &Vec<ColumnType>, b: &Vec<ColumnType>) -> (r: bool)
    ensures
        r == (types_view(a@) == types_view(b@)),
{
    if a.len() != b.len() {
        assert(types_view(a@).len() != types_view(b@).len());
        return false;
    }
    let mut i: usize = 0;
    while i < a.len()
        invariant
            i <= a@.len(),
            a@.len() == b@.len(),
            forall|j: int| 0 <= j < i ==> a@[j]@ == b@[j]@,
        decreases a@.len() - i,
    {
        if !same_type(&a[i], &b[i]) {
            assert(types_view(a@)[i as int] != types_view(b@)[i as int]);
            return false;
        }
        i = i + 1;
    }
    assert(types_view(a@) =~= types_view(b@));
    true
}

/// Checks the columns that the server announced against those that a row
/// type expects. Names are checked first. In `WrongColumnNames`, `schema`
/// holds the expected names and `row` the announced ones; in
/// `WrongColumnTypes`, `schema` holds the announced types and `row` the
/// expected ones.
pub fn negotiate(expected: Vec<Column>, names: Vec<String>, types: Vec<ColumnType>) -> (r: Result<
    (),
    Error,
>)
    ensures
        match r {
            Ok(()) => names_agree(names_of(columns_view(expected@)), strings_view(names@))
                && types_of(columns_view(expected@)) == types_view(types@),
            Err(Error::WrongColumnNames { schema, row }) => !names_agree(
                names_of(columns_view(expected@)),
                strings_view(names@),
            ) && strings_view(schema@) == names_of(columns_view(expected@)) && strings_view(row@)
                == strings_view(names@),
            Err(Error::WrongColumnTypes { schema, row }) => names_agree(
                names_of(columns_view(expected@)),
                strings_view(names@),
            ) && types_of(columns_view(expected@)) != types_view(types@) && types_view(schema@)
                == types_view(types@) && types_view(row@) == types_of(columns_view(expected@)),
            _ => false,
        },
{
    let (exp_names, exp_types) = split_columns(expected);
    let anonymous = exp_names.len() == 1 && exp_names[0].as_str().is_empty();
    let agree = exp_names.len() == names.len() && (anonymous || same_names(&exp_names, &names));
    assert(strings_view(names@).len() == names@.len());
    assert(anonymous ==> strings_view(exp_names@)[0].len() == 0);
    if !agree {
        return Err(Error::WrongColumnNames { schema: exp_names, row: names });
    }
    if !same_types(&exp_types, &types) {
        return Err(Error::WrongColumnTypes { schema: types, row: exp_types });
    }
    Ok(())
}

/// The outcome of reading a header.
pub enum HeaderParsed {
    /// The names (as their wire values), the types, and the bytes taken.
    Done(Seq<Value>, Seq<Ty>, nat),
    /// A column type whose text names no supported type.
    Unsupported(Seq<u8>),
    Fail(Error),
}

/// The types that the texts `bs` name, or the first text that names none.
pub open spec fn parse_types(bs: Seq<Value>) -> Result<Seq<Ty>, Seq<u8>>
    decreases bs.len(),
{
    if bs.len() == 0 {
        Ok(seq![])
    } else {
        match parse_types(bs.drop_last()) {
            Err(b) => Err(b),
            Ok(ts) => {
                let b = bs.last()->Blob_0;
                match parse_type(b) {
                    Some(t) => Ok(ts.push(t)),
                    None => Err(b),
                }
            },
        }
    }
}

/// Reading a header: the column names as a list of text, then as many
/// column types, each as a byte string holding its textual form.
pub open spec fn parse_header(s: Seq<u8>) -> HeaderParsed {
    match parse_list::<String>(s) {
        Parsed::Done(Value::List(ns), n) => match parse_many::<Vec<u8>>(s.skip(n as int), ns.len()) {
            Parsed::Done(Value::Group(bs), m) => match parse_types(bs) {
                Ok(ts) => HeaderParsed::Done(ns, ts, n + m),
                Err(b) => HeaderParsed::Unsupported(b),
            },
            Parsed::Done(_, _) => HeaderParsed::Fail(Error::NotEnoughData),
            Parsed::Fail(e) => HeaderParsed::Fail(e),
        },
        Parsed::Done(_, _) => HeaderParsed::Fail(Error::NotEnoughData),
        Parsed::Fail(e) => HeaderParsed::Fail(e),
    }
}

proof fn lemma_parse_types_prefix(bs: Seq<Value>, k: nat)
    requires
        k <= bs.len(),
        parse_types(bs.take(k as int)) is Err,
    ensures
        parse_types(bs) == parse_types(bs.take(k as int)),
    decreases bs.len() - k,
{
    if k < bs.len() {
        assert(bs.take(k + 1int).drop_last() =~= bs.take(k as int));
        assert(parse_types(bs.take(k + 1int)) == parse_types(bs.take(k as int)));
        lemma_parse_types_prefix(bs, k + 1);
    } else {
        assert(bs.take(k as int) =~= bs);
    }
}

/// Parses the textual forms `texts` of column types.
fn parse_all_types(texts: &Vec<Vec<u8>>) -> (r: Result<Vec<ColumnType>, Error>)
    ensures
        match parse_types(models(texts@)) {
            Ok(ts) => r matches Ok(v) && types_view(v@) == ts,
            Err(b) => r matches Err(Error::UnsupportedColumn(m)) && m@ == utf8_lossy(b),
        },
{
    let ghost bs = models(texts@);
    let mut types: Vec<ColumnType> = Vec::new();
    let mut j: usize = 0;
    assert(bs.take(0) =~= Seq::<Value>::empty());
    assert(types_view(types@) =~= Seq::<Ty>::empty());
    while j < texts.len()
        invariant
            bs == models(texts@),
            j <= texts@.len(),
            parse_types(bs.take(j as int)) == Ok::<Seq<Ty>, Seq<u8>>(types_view(types@)),
        decreases texts@.len() - j,
    {
        assert(bs.take(j + 1).drop_last() =~= bs.take(j as int));
        assert(bs.take(j + 1).last() == bs[j as int]);
        match ColumnType::parse(texts[j].as_slice()) {
            Ok(t) => {
                assert(types_view(types@.push(t)) =~= types_view(types@).push(t@));
                types.push(t);
            },
            Err(e) => {
                proof {
                    lemma_parse_types_prefix(bs, (j + 1) as nat);
                }
                return Err(e);
            },
        }
        j = j + 1;
    }
    assert(bs.take(texts@.len() as int) =~= bs);
    Ok(types)
}

/// Reads a header: the column names, then the column types.
pub fn read_header(buf: &mut Bytes) -> (r: Result<(Vec<String>, Vec<ColumnType>), Error>)
    ensures
        final(buf).data() == old(buf).data(),
        match parse_header(old(buf).rest()) {
            HeaderParsed::Done(ns, ts, n) => r matches Ok((names, types)) && models(names@) == ns
                && types_view(types@) == ts && final(buf).pos() == old(buf).pos() + n
                && final(buf).rest() == old(buf).rest().skip(n as int),
            HeaderParsed::Unsupported(b) => r matches Err(Error::UnsupportedColumn(m)) && m@
                == utf8_lossy(b) && final(buf).pos() == old(buf).pos(),
            HeaderParsed::Fail(e) => r == Err::<(Vec<String>, Vec<ColumnType>), Error>(e)
                && final(buf).pos() == old(buf).pos(),
        },
{
    let start = buf.position();
    let ghost s = old(buf).rest();
    let names = match read_list::<String>(buf) {
        Ok(names) => names,
        Err(e) => {
            return Err(e);
        },
    };
    let ghost n = (buf.pos() - start) as nat;
    let ghost mid = buf.pos();
    let texts = match read_many::<Vec<u8>>(buf, names.len() as u64) {
        Ok(texts) => texts,
        Err(e) => {
            buf.rewind(start);
            return Err(e);
        },
    };
    let ghost m = (buf.pos() - mid) as nat;
    assert(s.skip(n as int).skip(m as int) =~= s.skip((n + m) as int));
    match parse_all_types(&texts) {
        Ok(types) => Ok((names, types)),
        Err(e) => {
            buf.rewind(start);
            Err(e)
        },
    }
}

} // verus!
