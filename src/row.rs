//! The codec: how a type occupies columns, and how its values are read from
//! and written to the wire.
use vstd::prelude::*;

use crate::column_type::ColumnType;
use crate::cursor::Bytes;
use crate::error::Error;
use crate::leb128::leb128;
use crate::type_text::Ty;

verus! {

/// What a value is on the wire.
pub enum Value {
    /// Bytes written as they are.
    Raw(Seq<u8>),
    /// Bytes after a varint of their number.
    Blob(Seq<u8>),
    /// Values after a varint of their number.
    List(Seq<Value>),
    /// Values one after another, with nothing before them.
    Group(Seq<Value>),
}

/// The bytes of a value.
pub open spec fn encode(v: Value) -> Seq<u8>
    decreases v, 0nat,
{
    match v {
        Value::Raw(b) => b,
        Value::Blob(b) => leb128(b.len()) + b,
        Value::List(vs) => leb128(vs.len()) + encode_all(vs, vs.len()),
        Value::Group(vs) => encode_all(vs, vs.len()),
    }
}

/// The bytes of the first `k` of `vs`, one after another.
pub open spec fn encode_all(vs: Seq<Value>, k: nat) -> Seq<u8>
    decreases vs, k,
{
    if k == 0 || k > vs.len() {
        seq![]
    } else {
        encode_all(vs, (k - 1) as nat) + encode(vs[k - 1])
    }
}

pub open spec fn fits_u64(n: nat) -> bool {
    n < 0x1_0000_0000_0000_0000
}

/// Every count in the value fits the 64 bits of its varint.
pub open spec fn encodable(v: Value) -> bool
    decreases v, 0nat,
{
    match v {
        Value::Raw(b) => true,
        Value::Blob(b) => fits_u64(b.len()),
        Value::List(vs) => fits_u64(vs.len()) && all_encodable(vs, vs.len()),
        Value::Group(vs) => all_encodable(vs, vs.len()),
    }
}

pub open spec fn all_encodable(vs: Seq<Value>, k: nat) -> bool
    decreases vs, k,
{
    if k == 0 || k > vs.len() {
        true
    } else {
        all_encodable(vs, (k - 1) as nat) && encodable(vs[k - 1])
    }
}

/// The outcome of reading a value from the start of some bytes.
pub enum Parsed {
    /// The value read, and the number of bytes it took.
    Done(Value, nat),
    /// The read fails with this error.
    Fail(Error),
}

/// A column: its name and its type.
#[derive(Debug)]
pub struct Column {
    pub name: String,
    pub column_type: ColumnType,
}

impl Column {
    /// A column named `name` of type `column_type`.
    pub fn new(name: &str, column_type: ColumnType) -> (r: Column)
        ensures
            r.name@ == name@,
            r.column_type@ == column_type@,
    {
        Column { name: name.to_owned(), column_type }
    }
}

pub open spec fn columns_view(cs: Seq<Column>) -> Seq<(Seq<char>, Ty)> {
    cs.map_values(|c: Column| (c.name@, c.column_type@))
}

/// The type of the one column that `cs` describes, or the tuple of their
/// types when there are several.
pub open spec fn single_type(cs: Seq<(Seq<char>, Ty)>) -> Ty {
    if cs.len() == 1 {
        cs[0].1
    } else {
        Ty::Tuple(cs.map_values(|c: (Seq<char>, Ty)| c.1))
    }
}

/// What reading `s` decides (`p`) holds as well of reading `s` followed by
/// more bytes (`q`): a value read is read the same, from the same bytes, and
/// so is every failure other than running out of bytes.
pub open spec fn prefix_stable(p: Parsed, q: Parsed, len: nat) -> bool {
    match p {
        Parsed::Done(_, n) => q == p && n <= len,
        Parsed::Fail(Error::NotEnoughData) => true,
        Parsed::Fail(_) => q == p,
    }
}

/// A type whose values are rows, or parts of rows, on the wire.
pub trait Row: Sized {
    /// The columns that the type occupies; `parent` names the column when it
    /// occupies exactly one.
    spec fn spec_columns(parent: Seq<char>) -> Seq<(Seq<char>, Ty)>;

    /// What a value is on the wire.
    spec fn model(&self) -> Value;

    /// What reading a value from the start of `s` gives.
    spec fn parse(s: Seq<u8>) -> Parsed;

    /// The columns of the type.
    fn columns(parent: &str) -> (r: Vec<Column>)
        ensures
            columns_view(r@) == Self::spec_columns(parent@),
    ;

    /// Reads one value. On failure the cursor is left where it was.
    fn read(buf: &mut Bytes) -> (r: Result<Self, Error>)
        ensures
            final(buf).data() == old(buf).data(),
            match Self::parse(old(buf).rest()) {
                Parsed::Done(v, n) => r matches Ok(x) && x.model() == v && final(buf).pos() == old(
                    buf,
                ).pos() + n && final(buf).rest() == old(buf).rest().skip(n as int) && n <= old(
                    buf,
                ).rest().len(),
                Parsed::Fail(e) => r == Err::<Self, Error>(e) && final(buf).pos() == old(buf).pos(),
            },
    ;

    /// Appends the bytes of the value.
    fn write(&self, buf: &mut Vec<u8>)
        ensures
            final(buf)@ == old(buf)@ + encode(self.model()),
            encodable(self.model()),
    ;

    /// Reading the bytes of a value gives that value back, whatever follows them.
    proof fn lemma_parse_encoded(&self, rest: Seq<u8>)
        requires
            encodable(self.model()),
        ensures
            Self::parse(encode(self.model()) + rest) == Parsed::Done(
                self.model(),
                encode(self.model()).len(),
            ),
    ;

    /// What a read decides depends only on the bytes that it takes.
    proof fn lemma_parse_prefix(s: Seq<u8>, t: Seq<u8>)
        ensures
            prefix_stable(Self::parse(s), Self::parse(s + t), s.len()),
    ;
}

impl Bytes {
    /// Reads one value of `T`. On failure the cursor is left where it was.
    pub fn read<T: Row>(&mut self) -> (r: Result<T, Error>)
        ensures
            final(self).data() == old(self).data(),
            match T::parse(old(self).rest()) {
                Parsed::Done(v, n) => r matches Ok(x) && x.model() == v
                    && final(self).pos() == old(self).pos() + n
                    && final(self).rest() == old(self).rest().skip(n as int)
                    && n <= old(self).rest().len(),
                Parsed::Fail(e) => r == Err::<T, Error>(e) && final(self).pos() == old(self).pos(),
            },
    {
        T::read(self)
    }
}

/// A type written as another row type, its internal row. What is read is
/// converted from the internal row, and what is written is converted to it.
///
/// The conversions must keep the wire value: a value converted from an
/// internal row is written as that same row. A representation that loses
/// information on the way cannot meet this.
pub trait RowAs: Sized {
    type InternalRow: Row;

    /// The internal row that a value is written as.
    spec fn internal(&self) -> Self::InternalRow;

    fn from_internal(internal: Self::InternalRow) -> (r: Self)
        ensures
            r.internal().model() == internal.model(),
    ;

    fn to_internal(&self) -> (r: Self::InternalRow)
        ensures
            r.model() == self.internal().model(),
    ;
}

impl<A: RowAs> Row for A {
    open spec fn spec_columns(parent: Seq<char>) -> Seq<(Seq<char>, Ty)> {
        A::InternalRow::spec_columns(parent)
    }

    open spec fn model(&self) -> Value {
        self.internal().model()
    }

    open spec fn parse(s: Seq<u8>) -> Parsed {
        A::InternalRow::parse(s)
    }

    fn columns(parent: &str) -> (r: Vec<Column>) {
        A::InternalRow::columns(parent)
    }

    fn read(buf: &mut Bytes) -> (r: Result<Self, Error>) {
        match A::InternalRow::read(buf) {
            Ok(internal) => Ok(A::from_internal(internal)),
            Err(e) => Err(e),
        }
    }

    fn write(&self, buf: &mut Vec<u8>) {
        let internal = self.to_internal();
        internal.write(buf);
    }

    proof fn lemma_parse_encoded(&self, rest: Seq<u8>) {
        self.internal().lemma_parse_encoded(rest);
    }

    proof fn lemma_parse_prefix(s: Seq<u8>, t: Seq<u8>) {
        A::InternalRow::lemma_parse_prefix(s, t);
    }
}

/// `256` raised to `k`.
pub open spec fn pow256(k: nat) -> nat
    decreases k,
{
    if k == 0 {
        1
    } else {
        256 * pow256((k - 1) as nat)
    }
}

/// The `n` low bytes of `x`, least significant first.
pub open spec fn le_bytes(x: nat, n: nat) -> Seq<u8>
    decreases n,
{
    if n == 0 {
        seq![]
    } else {
        seq![(x % 256) as u8] + le_bytes(x / 256, (n - 1) as nat)
    }
}

/// The number whose bytes, least significant first, are `s`.
pub open spec fn le_value(s: Seq<u8>) -> nat
    decreases s.len(),
{
    if s.len() == 0 {
        0
    } else {
        (s[0] + 256 * le_value(s.skip(1))) as nat
    }
}

/// Reading exactly `n` bytes.
pub open spec fn parse_fixed(s: Seq<u8>, n: nat) -> Parsed {
    if s.len() < n {
        Parsed::Fail(Error::NotEnoughData)
    } else {
        Parsed::Done(Value::Raw(s.take(n as int)), n)
    }
}

pub proof fn lemma_le_bytes_len(x: nat, n: nat)
    ensures
        le_bytes(x, n).len() == n,
    decreases n,
{
    if n > 0 {
        lemma_le_bytes_len(x / 256, (n - 1) as nat);
    }
}

pub proof fn lemma_le_value_bytes(s: Seq<u8>)
    ensures
        le_bytes(le_value(s), s.len()) == s,
        le_value(s) < pow256(s.len()),
    decreases s.len(),
{
    if s.len() > 0 {
        let t = s.skip(1);
        lemma_le_value_bytes(t);
        let v = le_value(s);
        assert(v == s[0] + 256 * le_value(t));
        assert(v % 256 == s[0]);
        assert(v / 256 == le_value(t));
        assert(le_bytes(v, s.len()) == seq![(v % 256) as u8] + le_bytes(v / 256, t.len()));
        assert(le_bytes(v, s.len()) =~= s);
        assert(pow256(s.len()) == 256 * pow256(t.len()));
    }
}

pub proof fn lemma_parse_fixed(b: Seq<u8>, rest: Seq<u8>)
    ensures
        parse_fixed(b + rest, b.len()) == Parsed::Done(Value::Raw(b), b.len()),
{
    assert((b + rest).take(b.len() as int) =~= b);
}

pub proof fn lemma_fixed_prefix(s: Seq<u8>, t: Seq<u8>, n: nat)
    ensures
        prefix_stable(parse_fixed(s, n), parse_fixed(s + t, n), s.len()),
{
    if s.len() >= n {
        assert((s + t).take(n as int) =~= s.take(n as int));
    }
}

/// Reads `n` bytes as a number, least significant byte first.
fn read_le(buf: &mut Bytes, n: usize) -> (r: Result<u128, Error>)
    requires
        n <= 16,
    ensures
        final(buf).data() == old(buf).data(),
        match parse_fixed(old(buf).rest(), n as nat) {
            Parsed::Done(Value::Raw(b), k) => r == Ok::<u128, Error>(le_value(b) as u128) && le_value(b)
                < pow256(n as nat) && le_bytes(le_value(b), n as nat) == b && final(buf).pos() == old(
                buf,
            ).pos() + k && final(buf).rest() == old(buf).rest().skip(k as int),
            Parsed::Fail(e) => r == Err::<u128, Error>(e) && final(buf).pos() == old(buf).pos(),
            _ => false,
        },
{
    let b = match buf.read_bytes(n) {
        Ok(b) => b,
        Err(e) => {
            return Err(e);
        },
    };
    proof {
        lemma_le_value_bytes(b@);
    }
    let mut acc: u128 = 0;
    let mut i: usize = n;
    while i > 0
        invariant
            i <= n <= 16,
            b@.len() == n,
            acc == le_value(b@.skip(i as int)),
            acc < pow256((n - i) as nat),
        decreases i,
    {
        let ghost t = b@.skip(i - 1);
        assert(t.skip(1) =~= b@.skip(i as int));
        assert(pow256((n - i + 1) as nat) == 256 * pow256((n - i) as nat));
        proof {
            lemma_pow256_mono((n - i + 1) as nat, 16);
        }
        proof {
            lemma_pow256_16();
        }
        acc = acc * 256 + b[i - 1] as u128;
        i = i - 1;
    }
    assert(b@.skip(0) =~= b@);
    Ok(acc)
}

proof fn lemma_pow256_16()
    ensures
        pow256(16) == 0x1_0000_0000_0000_0000_0000_0000_0000_0000,
{
    reveal_with_fuel(pow256, 17);
}

pub proof fn lemma_pow256_mono(a: nat, b: nat)
    requires
        a <= b,
    ensures
        pow256(a) <= pow256(b),
    decreases b,
{
    if a < b {
        lemma_pow256_mono(a, (b - 1) as nat);
    }
}

/// Appends the `n` low bytes of `x`, least significant first.
fn write_le(buf: &mut Vec<u8>, x: u128, n: usize)
    ensures
        final(buf)@ == old(buf)@ + le_bytes(x as nat, n as nat),
    decreases n,
{
    if n > 0 {
        buf.push((x % 256) as u8);
        write_le(buf, x / 256, n - 1);
        assert(le_bytes(x as nat, n as nat) == seq![(x % 256) as u8] + le_bytes(
            (x / 256) as nat,
            (n - 1) as nat,
        ));
    }
}

/// One column named `parent` of type `t`.
pub(crate) fn one_column(parent: &str, t: ColumnType) -> (r: Vec<Column>)
    ensures
        columns_view(r@) == seq![(parent@, t@)],
{
    let mut r: Vec<Column> = Vec::new();
    r.push(Column { name: parent.to_owned(), column_type: t });
    assert(columns_view(r@) =~= seq![(parent@, t@)]);
    r
}

proof fn lemma_pow256_values()
    ensures
        pow256(1) == 0x100,
        pow256(2) == 0x1_0000,
        pow256(4) == 0x1_0000_0000,
        pow256(8) == 0x1_0000_0000_0000_0000,
        pow256(16) == 0x1_0000_0000_0000_0000_0000_0000_0000_0000,
{
    reveal_with_fuel(pow256, 17);
}

impl Row for u8 {
    open spec fn spec_columns(parent: Seq<char>) -> Seq<(Seq<char>, Ty)> {
        seq![(parent, Ty::UInt8)]
    }

    open spec fn model(&self) -> Value {
        Value::Raw(seq![*self])
    }

    open spec fn parse(s: Seq<u8>) -> Parsed {
        parse_fixed(s, 1)
    }

    fn columns(parent: &str) -> (r: Vec<Column>) {
        one_column(parent, ColumnType::UInt8)
    }

    fn read(buf: &mut Bytes) -> (r: Result<Self, Error>) {
        let r = buf.read_u8();
        assert(old(buf).rest().len() > 0 ==> old(buf).rest().take(1) =~= seq![old(buf).rest()[0]]);
        r
    }

    fn write(&self, buf: &mut Vec<u8>) {
        buf.push(*self);
    }

    proof fn lemma_parse_encoded(&self, rest: Seq<u8>) {
        lemma_parse_fixed(seq![*self], rest);
    }

    proof fn lemma_parse_prefix(s: Seq<u8>, t: Seq<u8>) {
        lemma_fixed_prefix(s, t, 1);
    }
}

impl Row for i8 {
    open spec fn spec_columns(parent: Seq<char>) -> Seq<(Seq<char>, Ty)> {
        seq![(parent, Ty::Int8)]
    }

    open spec fn model(&self) -> Value {
        Value::Raw(seq![twos(*self as int, 1) as u8])
    }

    open spec fn parse(s: Seq<u8>) -> Parsed {
        parse_fixed(s, 1)
    }

    fn columns(parent: &str) -> (r: Vec<Column>) {
        one_column(parent, ColumnType::Int8)
    }

    fn read(buf: &mut Bytes) -> (r: Result<Self, Error>) {
        let r = buf.read_u8();
        assert(old(buf).rest().len() > 0 ==> old(buf).rest().take(1) =~= seq![old(buf).rest()[0]]);
        proof {
            lemma_pow256_values();
        }
        match r {
            Ok(b) => Ok(if b >= 128 {
                ((b as i16) - 256) as i8
            } else {
                b as i8
            }),
            Err(e) => Err(e),
        }
    }

    fn write(&self, buf: &mut Vec<u8>) {
        proof {
            lemma_pow256_values();
        }
        buf.push(if *self < 0 {
            ((*self as i16) + 256) as u8
        } else {
            *self as u8
        });
    }

    proof fn lemma_parse_encoded(&self, rest: Seq<u8>) {
        lemma_parse_fixed(seq![twos(*self as int, 1) as u8], rest);
    }

    proof fn lemma_parse_prefix(s: Seq<u8>, t: Seq<u8>) {
        lemma_fixed_prefix(s, t, 1);
    }
}

/// A signed number as the `w`-byte unsigned number with the same bits.
pub open spec fn twos(x: int, w: nat) -> nat {
    (if x < 0 {
        x + pow256(w)
    } else {
        x
    }) as nat
}

/// The byte that a flag is written as.
pub open spec fn flag_byte(b: bool) -> u8 {
    if b {
        1
    } else {
        0
    }
}

/// Any byte but zero reads as `true`.
impl Row for bool {
    open spec fn spec_columns(parent: Seq<char>) -> Seq<(Seq<char>, Ty)> {
        seq![(parent, Ty::Bool)]
    }

    open spec fn model(&self) -> Value {
        Value::Raw(seq![flag_byte(*self)])
    }

    open spec fn parse(s: Seq<u8>) -> Parsed {
        if s.len() == 0 {
            Parsed::Fail(Error::NotEnoughData)
        } else {
            Parsed::Done(Value::Raw(seq![flag_byte(s[0] != 0)]), 1)
        }
    }

    fn columns(parent: &str) -> (r: Vec<Column>) {
        one_column(parent, ColumnType::Bool)
    }

    fn read(buf: &mut Bytes) -> (r: Result<Self, Error>) {
        match buf.read_u8() {
            Ok(b) => Ok(b != 0),
            Err(e) => Err(e),
        }
    }

    fn write(&self, buf: &mut Vec<u8>) {
        buf.push(if *self { 1 } else { 0 });
    }

    proof fn lemma_parse_encoded(&self, rest: Seq<u8>) {
        assert((seq![flag_byte(*self)] + rest)[0] == flag_byte(*self));
    }

    proof fn lemma_parse_prefix(s: Seq<u8>, t: Seq<u8>) {
        if s.len() > 0 {
            assert((s + t)[0] == s[0]);
        }
    }
}

impl Row for u16 {
    open spec fn spec_columns(parent: Seq<char>) -> Seq<(Seq<char>, Ty)> {
        seq![(parent, Ty::UInt16)]
    }

    open spec fn model(&self) -> Value {
        Value::Raw(le_bytes(*self as nat, 2))
    }

    open spec fn parse(s: Seq<u8>) -> Parsed {
        parse_fixed(s, 2)
    }

    fn columns(parent: &str) -> (r: Vec<Column>) {
        one_column(parent, ColumnType::UInt16)
    }

    fn read(buf: &mut Bytes) -> (r: Result<Self, Error>) {
        proof {
            lemma_pow256_values();
        }
        match read_le(buf, 2) {
            Ok(v) => Ok(v as u16),
            Err(e) => Err(e),
        }
    }

    fn write(&self, buf: &mut Vec<u8>) {
        write_le(buf, *self as u128, 2);
    }

    proof fn lemma_parse_encoded(&self, rest: Seq<u8>) {
        lemma_le_bytes_len(*self as nat, 2);
        lemma_parse_fixed(le_bytes(*self as nat, 2), rest);
    }

    proof fn lemma_parse_prefix(s: Seq<u8>, t: Seq<u8>) {
        lemma_fixed_prefix(s, t, 2);
    }
}

impl Row for u32 {
    open spec fn spec_columns(parent: Seq<char>) -> Seq<(Seq<char>, Ty)> {
        seq![(parent, Ty::UInt32)]
    }

    open spec fn model(&self) -> Value {
        Value::Raw(le_bytes(*self as nat, 4))
    }

    open spec fn parse(s: Seq<u8>) -> Parsed {
        parse_fixed(s, 4)
    }

    fn columns(parent: &str) -> (r: Vec<Column>) {
        one_column(parent, ColumnType::UInt32)
    }

    fn read(buf: &mut Bytes) -> (r: Result<Self, Error>) {
        proof {
            lemma_pow256_values();
        }
        match read_le(buf, 4) {
            Ok(v) => Ok(v as u32),
            Err(e) => Err(e),
        }
    }

    fn write(&self, buf: &mut Vec<u8>) {
        write_le(buf, *self as u128, 4);
    }

    proof fn lemma_parse_encoded(&self, rest: Seq<u8>) {
        lemma_le_bytes_len(*self as nat, 4);
        lemma_parse_fixed(le_bytes(*self as nat, 4), rest);
    }

    proof fn lemma_parse_prefix(s: Seq<u8>, t: Seq<u8>) {
        lemma_fixed_prefix(s, t, 4);
    }
}

impl Row for u64 {
    open spec fn spec_columns(parent: Seq<char>) -> Seq<(Seq<char>, Ty)> {
        seq![(parent, Ty::UInt64)]
    }

    open spec fn model(&self) -> Value {
        Value::Raw(le_bytes(*self as nat, 8))
    }

    open spec fn parse(s: Seq<u8>) -> Parsed {
        parse_fixed(s, 8)
    }

    fn columns(parent: &str) -> (r: Vec<Column>) {
        one_column(parent, ColumnType::UInt64)
    }

    fn read(buf: &mut Bytes) -> (r: Result<Self, Error>) {
        proof {
            lemma_pow256_values();
        }
        match read_le(buf, 8) {
            Ok(v) => Ok(v as u64),
            Err(e) => Err(e),
        }
    }

    fn write(&self, buf: &mut Vec<u8>) {
        write_le(buf, *self as u128, 8);
    }

    proof fn lemma_parse_encoded(&self, rest: Seq<u8>) {
        lemma_le_bytes_len(*self as nat, 8);
        lemma_parse_fixed(le_bytes(*self as nat, 8), rest);
    }

    proof fn lemma_parse_prefix(s: Seq<u8>, t: Seq<u8>) {
        lemma_fixed_prefix(s, t, 8);
    }
}

impl Row for u128 {
    open spec fn spec_columns(parent: Seq<char>) -> Seq<(Seq<char>, Ty)> {
        seq![(parent, Ty::UInt128)]
    }

    open spec fn model(&self) -> Value {
        Value::Raw(le_bytes(*self as nat, 16))
    }

    open spec fn parse(s: Seq<u8>) -> Parsed {
        parse_fixed(s, 16)
    }

    fn columns(parent: &str) -> (r: Vec<Column>) {
        one_column(parent, ColumnType::UInt128)
    }

    fn read(buf: &mut Bytes) -> (r: Result<Self, Error>) {
        proof {
            lemma_pow256_values();
        }
        match read_le(buf, 16) {
            Ok(v) => Ok(v as u128),
            Err(e) => Err(e),
        }
    }

    fn write(&self, buf: &mut Vec<u8>) {
        write_le(buf, *self as u128, 16);
    }

    proof fn lemma_parse_encoded(&self, rest: Seq<u8>) {
        lemma_le_bytes_len(*self as nat, 16);
        lemma_parse_fixed(le_bytes(*self as nat, 16), rest);
    }

    proof fn lemma_parse_prefix(s: Seq<u8>, t: Seq<u8>) {
        lemma_fixed_prefix(s, t, 16);
    }
}

impl Row for i16 {
    open spec fn spec_columns(parent: Seq<char>) -> Seq<(Seq<char>, Ty)> {
        seq![(parent, Ty::Int16)]
    }

    open spec fn model(&self) -> Value {
        Value::Raw(le_bytes(twos(*self as int, 2), 2))
    }

    open spec fn parse(s: Seq<u8>) -> Parsed {
        parse_fixed(s, 2)
    }

    fn columns(parent: &str) -> (r: Vec<Column>) {
        one_column(parent, ColumnType::Int16)
    }

    fn read(buf: &mut Bytes) -> (r: Result<Self, Error>) {
        proof {
            lemma_pow256_values();
        }
        match read_le(buf, 2) {
            Ok(v) => Ok(if v >= 0x8000 {
                ((v as i128) - 0x1_0000) as i16
            } else {
                v as i16
            }),
            Err(e) => Err(e),
        }
    }

    fn write(&self, buf: &mut Vec<u8>) {
        proof {
            lemma_pow256_values();
        }
        let u: u128 = if *self < 0 {
            ((*self as i128) + 0x1_0000) as u128
        } else {
            *self as u128
        };
        write_le(buf, u, 2);
    }

    proof fn lemma_parse_encoded(&self, rest: Seq<u8>) {
        lemma_le_bytes_len(twos(*self as int, 2), 2);
        lemma_parse_fixed(le_bytes(twos(*self as int, 2), 2), rest);
    }

    proof fn lemma_parse_prefix(s: Seq<u8>, t: Seq<u8>) {
        lemma_fixed_prefix(s, t, 2);
    }
}

impl Row for i32 {
    open spec fn spec_columns(parent: Seq<char>) -> Seq<(Seq<char>, Ty)> {
        seq![(parent, Ty::Int32)]
    }

    open spec fn model(&self) -> Value {
        Value::Raw(le_bytes(twos(*self as int, 4), 4))
    }

    open spec fn parse(s: Seq<u8>) -> Parsed {
        parse_fixed(s, 4)
    }

    fn columns(parent: &str) -> (r: Vec<Column>) {
        one_column(parent, ColumnType::Int32)
    }

    fn read(buf: &mut Bytes) -> (r: Result<Self, Error>) {
        proof {
            lemma_pow256_values();
        }
        match read_le(buf, 4) {
            Ok(v) => Ok(if v >= 0x8000_0000 {
                ((v as i128) - 0x1_0000_0000) as i32
            } else {
                v as i32
            }),
            Err(e) => Err(e),
        }
    }

    fn write(&self, buf: &mut Vec<u8>) {
        proof {
            lemma_pow256_values();
        }
        let u: u128 = if *self < 0 {
            ((*self as i128) + 0x1_0000_0000) as u128
        } else {
            *self as u128
        };
        write_le(buf, u, 4);
    }

    proof fn lemma_parse_encoded(&self, rest: Seq<u8>) {
        lemma_le_bytes_len(twos(*self as int, 4), 4);
        lemma_parse_fixed(le_bytes(twos(*self as int, 4), 4), rest);
    }

    proof fn lemma_parse_prefix(s: Seq<u8>, t: Seq<u8>) {
        lemma_fixed_prefix(s, t, 4);
    }
}

impl Row for i64 {
    open spec fn spec_columns(parent: Seq<char>) -> Seq<(Seq<char>, Ty)> {
        seq![(parent, Ty::Int64)]
    }

    open spec fn model(&self) -> Value {
        Value::Raw(le_bytes(twos(*self as int, 8), 8))
    }

    open spec fn parse(s: Seq<u8>) -> Parsed {
        parse_fixed(s, 8)
    }

    fn columns(parent: &str) -> (r: Vec<Column>) {
        one_column(parent, ColumnType::Int64)
    }

    fn read(buf: &mut Bytes) -> (r: Result<Self, Error>) {
        proof {
            lemma_pow256_values();
        }
        match read_le(buf, 8) {
            Ok(v) => Ok(if v >= 0x8000_0000_0000_0000 {
                ((v as i128) - 0x1_0000_0000_0000_0000) as i64
            } else {
                v as i64
            }),
            Err(e) => Err(e),
        }
    }

    fn write(&self, buf: &mut Vec<u8>) {
        proof {
            lemma_pow256_values();
        }
        let u: u128 = if *self < 0 {
            ((*self as i128) + 0x1_0000_0000_0000_0000) as u128
        } else {
            *self as u128
        };
        write_le(buf, u, 8);
    }

    proof fn lemma_parse_encoded(&self, rest: Seq<u8>) {
        lemma_le_bytes_len(twos(*self as int, 8), 8);
        lemma_parse_fixed(le_bytes(twos(*self as int, 8), 8), rest);
    }

    proof fn lemma_parse_prefix(s: Seq<u8>, t: Seq<u8>) {
        lemma_fixed_prefix(s, t, 8);
    }
}

impl Row for i128 {
    open spec fn spec_columns(parent: Seq<char>) -> Seq<(Seq<char>, Ty)> {
        seq![(parent, Ty::Int128)]
    }

    open spec fn model(&self) -> Value {
        Value::Raw(le_bytes(twos(*self as int, 16), 16))
    }

    open spec fn parse(s: Seq<u8>) -> Parsed {
        parse_fixed(s, 16)
    }

    fn columns(parent: &str) -> (r: Vec<Column>) {
        one_column(parent, ColumnType::Int128)
    }

    fn read(buf: &mut Bytes) -> (r: Result<Self, Error>) {
        proof {
            lemma_pow256_values();
        }
        match read_le(buf, 16) {
            Ok(v) => Ok(if v >= 0x8000_0000_0000_0000_0000_0000_0000_0000 {
                -((u128::MAX - v) as i128) - 1
            } else {
                v as i128
            }),
            Err(e) => Err(e),
        }
    }

    fn write(&self, buf: &mut Vec<u8>) {
        proof {
            lemma_pow256_values();
        }
        let u: u128 = if *self < 0 {
            u128::MAX - ((-(*self + 1)) as u128)
        } else {
            *self as u128
        };
        write_le(buf, u, 16);
    }

    proof fn lemma_parse_encoded(&self, rest: Seq<u8>) {
        lemma_le_bytes_len(twos(*self as int, 16), 16);
        lemma_parse_fixed(le_bytes(twos(*self as int, 16), 16), rest);
    }

    proof fn lemma_parse_prefix(s: Seq<u8>, t: Seq<u8>) {
        lemma_fixed_prefix(s, t, 16);
    }
}

/// Reading back the bytes that a value is written as gives a value that is
/// the same on the wire, and takes exactly those bytes, whatever follows.
pub proof fn lemma_decode_encode<R: Row>(v: R, rest: Seq<u8>)
    requires
        encodable(v.model()),
    ensures
        R::parse(encode(v.model()) + rest) == Parsed::Done(v.model(), encode(v.model()).len()),
{
    v.lemma_parse_encoded(rest);
}

/// The low `n` bytes of a number below `256^n` spell that number.
pub proof fn lemma_le_round_trip(x: nat, n: nat)
    requires
        x < pow256(n),
    ensures
        le_value(le_bytes(x, n)) == x,
    decreases n,
{
    if n > 0 {
        let p = pow256((n - 1) as nat);
        assert(pow256(n) == 256 * p);
        assert(x / 256 < p) by (nonlinear_arith)
            requires
                x < 256 * p,
        ;
        lemma_le_round_trip(x / 256, (n - 1) as nat);
        let b = le_bytes(x, n);
        lemma_le_bytes_len(x / 256, (n - 1) as nat);
        assert(b.skip(1) =~= le_bytes(x / 256, (n - 1) as nat));
        assert(b[0] == x % 256);
    }
}

/// Two numbers below `256^n` with the same low `n` bytes are equal: a
/// fixed-width integer is determined by its bytes on the wire.
pub proof fn lemma_le_bytes_injective(x: nat, y: nat, n: nat)
    requires
        x < pow256(n),
        y < pow256(n),
        le_bytes(x, n) == le_bytes(y, n),
    ensures
        x == y,
{
    lemma_le_round_trip(x, n);
    lemma_le_round_trip(y, n);
}

} // verus!
