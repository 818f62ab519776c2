//! Values of column types that have no Rust type of their own.
use vstd::prelude::*;

use crate::column_type::{push_all, ColumnType};
use crate::composite::{
    lemma_list_prefix, lemma_list_round_trip, models, parse_list, read_list, single_column, write_list,
};
use crate::cursor::Bytes;
use crate::error::Error;
use crate::row::{
    pow256, twos, encode, lemma_fixed_prefix, lemma_parse_fixed, one_column, parse_fixed, single_type, Column, Parsed, Row,
    Value,
};
use crate::type_text::Ty;

verus! {

/// Exactly `N` raw bytes, a `FixedString(N)` column.
impl<const N: usize> Row for [u8; N] {
    open spec fn spec_columns(parent: Seq<char>) -> Seq<(Seq<char>, Ty)> {
        seq![(parent, Ty::FixedString(N as nat))]
    }

    open spec fn model(&self) -> Value {
        Value::Raw(self@)
    }

    open spec fn parse(s: Seq<u8>) -> Parsed {
        parse_fixed(s, N as nat)
    }

    fn columns(parent: &str) -> (r: Vec<Column>) {
        one_column(parent, ColumnType::FixedString(N))
    }

    fn read(buf: &mut Bytes) -> (r: Result<Self, Error>) {
        let b = match buf.read_bytes(N) {
            Ok(b) => b,
            Err(e) => {
                return Err(e);
            },
        };
        let mut a = [0u8; N];
        let mut i: usize = 0;
        while i < N
            invariant
                i <= N,
                b@.len() == N,
                a@.len() == N,
                forall|j: int| 0 <= j < i ==> a@[j] == b@[j],
            decreases N - i,
        {
            a[i] = b[i];
            i = i + 1;
        }
        assert(a@ =~= b@);
        Ok(a)
    }

    fn write(&self, buf: &mut Vec<u8>) {
        push_all(buf, self.as_slice());
    }

    proof fn lemma_parse_encoded(&self, rest: Seq<u8>) {
        vstd::array::array_len_matches_n(self);
        lemma_parse_fixed(self@, rest);
    }

    proof fn lemma_parse_prefix(s: Seq<u8>, t: Seq<u8>) {
        lemma_fixed_prefix(s, t, N as nat);
    }
}

impl Bytes {
    /// Reads the next `N` bytes.
    pub fn read_array<const N: usize>(&mut self) -> (r: Result<[u8; N], Error>)
        ensures
            final(self).data() == old(self).data(),
            old(self).rest().len() < N ==> r == Err::<[u8; N], Error>(Error::NotEnoughData)
                && final(self).pos() == old(self).pos(),
            old(self).rest().len() >= N ==> (r matches Ok(a) && a@ == old(self).rest().take(N as int)
                && final(self).pos() == old(self).pos() + N
                && final(self).rest() == old(self).rest().skip(N as int)),
    {
        <[u8; N]>::read(self)
    }
}

/// A `DateTime` column: seconds since 1970-01-01 00:00:00 UTC.
#[derive(PartialEq, Eq, PartialOrd, Ord, Debug, Clone, Copy)]
pub struct DateTime(pub u32);

/// Relies on `SystemTime::elapsed` of the Unix epoch: the time from the
/// epoch to now, here in whole seconds, or an error when the clock is set
/// before the epoch. Nothing is known of the value: it is the time now.
#[verifier::external_body]
fn seconds_since_epoch() -> (r: Option<u64>) {
    match std::time::UNIX_EPOCH.elapsed() {
        Ok(d) => Some(d.as_secs()),
        Err(_) => None,
    }
}

impl DateTime {
    /// The instant `secs` seconds after the epoch, modulo `2^32` seconds.
    pub fn from_unix_seconds(secs: u64) -> (r: DateTime)
        ensures
            r.0 == secs % 0x1_0000_0000,
    {
        DateTime((secs % 0x1_0000_0000) as u32)
    }

    /// The current time; the epoch itself when the clock is set before it.
    pub fn now() -> DateTime {
        match seconds_since_epoch() {
            Some(secs) => DateTime::from_unix_seconds(secs),
            None => DateTime(0),
        }
    }
}

impl Row for DateTime {
    open spec fn spec_columns(parent: Seq<char>) -> Seq<(Seq<char>, Ty)> {
        seq![(parent, Ty::DateTime)]
    }

    open spec fn model(&self) -> Value {
        self.0.model()
    }

    open spec fn parse(s: Seq<u8>) -> Parsed {
        u32::parse(s)
    }

    fn columns(parent: &str) -> (r: Vec<Column>) {
        one_column(parent, ColumnType::DateTime)
    }

    fn read(buf: &mut Bytes) -> (r: Result<Self, Error>) {
        match u32::read(buf) {
            Ok(v) => Ok(DateTime(v)),
            Err(e) => Err(e),
        }
    }

    fn write(&self, buf: &mut Vec<u8>) {
        self.0.write(buf);
    }

    proof fn lemma_parse_encoded(&self, rest: Seq<u8>) {
        self.0.lemma_parse_encoded(rest);
    }

    proof fn lemma_parse_prefix(s: Seq<u8>, t: Seq<u8>) {
        u32::lemma_parse_prefix(s, t);
    }
}

/// A `UUID` column: sixteen bytes, as they are.
#[derive(PartialEq, Eq, PartialOrd, Ord, Debug, Clone, Copy)]
pub struct Uuid(pub [u8; 16]);

impl From<[u8; 16]> for Uuid {
    fn from(value: [u8; 16]) -> (r: Uuid) {
        Uuid(value)
    }
}

impl vstd::std_specs::convert::FromSpecImpl<[u8; 16]> for Uuid {
    open spec fn obeys_from_spec() -> bool {
        true
    }

    open spec fn from_spec(v: [u8; 16]) -> Uuid {
        Uuid(v)
    }
}

impl From<Uuid> for [u8; 16] {
    fn from(value: Uuid) -> (r: [u8; 16]) {
        value.0
    }
}

impl vstd::std_specs::convert::FromSpecImpl<Uuid> for [u8; 16] {
    open spec fn obeys_from_spec() -> bool {
        true
    }

    open spec fn from_spec(v: Uuid) -> [u8; 16] {
        v.0
    }
}

impl Row for Uuid {
    open spec fn spec_columns(parent: Seq<char>) -> Seq<(Seq<char>, Ty)> {
        seq![(parent, Ty::UUID)]
    }

    open spec fn model(&self) -> Value {
        self.0.model()
    }

    open spec fn parse(s: Seq<u8>) -> Parsed {
        <[u8; 16]>::parse(s)
    }

    fn columns(parent: &str) -> (r: Vec<Column>) {
        one_column(parent, ColumnType::UUID)
    }

    fn read(buf: &mut Bytes) -> (r: Result<Self, Error>) {
        match <[u8; 16]>::read(buf) {
            Ok(v) => Ok(Uuid(v)),
            Err(e) => Err(e),
        }
    }

    fn write(&self, buf: &mut Vec<u8>) {
        self.0.write(buf);
    }

    proof fn lemma_parse_encoded(&self, rest: Seq<u8>) {
        self.0.lemma_parse_encoded(rest);
    }

    proof fn lemma_parse_prefix(s: Seq<u8>, t: Seq<u8>) {
        <[u8; 16]>::lemma_parse_prefix(s, t);
    }
}

/// An IPv4 address, its octets in the order in which it is written
/// (`127.0.0.1` is `[127, 0, 0, 1]`).
#[derive(PartialEq, Eq, PartialOrd, Ord, Debug, Clone, Copy)]
pub struct Ipv4Addr {
    pub octets: [u8; 4],
}

/// The octets in reverse order.
pub open spec fn reversed4(o: Seq<u8>) -> Seq<u8> {
    seq![o[3], o[2], o[1], o[0]]
}

/// An `IPv4` column: the four octets, last octet first.
impl Row for Ipv4Addr {
    open spec fn spec_columns(parent: Seq<char>) -> Seq<(Seq<char>, Ty)> {
        seq![(parent, Ty::IPv4)]
    }

    open spec fn model(&self) -> Value {
        Value::Raw(reversed4(self.octets@))
    }

    open spec fn parse(s: Seq<u8>) -> Parsed {
        parse_fixed(s, 4)
    }

    fn columns(parent: &str) -> (r: Vec<Column>) {
        one_column(parent, ColumnType::IPv4)
    }

    fn read(buf: &mut Bytes) -> (r: Result<Self, Error>) {
        let b = match buf.read_bytes(4) {
            Ok(b) => b,
            Err(e) => {
                return Err(e);
            },
        };
        let octets: [u8; 4] = [b[3], b[2], b[1], b[0]];
        assert(reversed4(octets@) =~= b@);
        Ok(Ipv4Addr { octets })
    }

    fn write(&self, buf: &mut Vec<u8>) {
        buf.push(self.octets[3]);
        buf.push(self.octets[2]);
        buf.push(self.octets[1]);
        buf.push(self.octets[0]);
        assert(buf@ =~= old(buf)@ + reversed4(self.octets@));
    }

    proof fn lemma_parse_encoded(&self, rest: Seq<u8>) {
        lemma_parse_fixed(reversed4(self.octets@), rest);
    }

    proof fn lemma_parse_prefix(s: Seq<u8>, t: Seq<u8>) {
        lemma_fixed_prefix(s, t, 4);
    }
}

/// An IPv6 address, its sixteen octets in network order.
#[derive(PartialEq, Eq, PartialOrd, Ord, Debug, Clone, Copy)]
pub struct Ipv6Addr {
    pub octets: [u8; 16],
}

/// An `IPv6` column: the sixteen octets in network order.
impl Row for Ipv6Addr {
    open spec fn spec_columns(parent: Seq<char>) -> Seq<(Seq<char>, Ty)> {
        seq![(parent, Ty::IPv6)]
    }

    open spec fn model(&self) -> Value {
        self.octets.model()
    }

    open spec fn parse(s: Seq<u8>) -> Parsed {
        <[u8; 16]>::parse(s)
    }

    fn columns(parent: &str) -> (r: Vec<Column>) {
        one_column(parent, ColumnType::IPv6)
    }

    fn read(buf: &mut Bytes) -> (r: Result<Self, Error>) {
        match <[u8; 16]>::read(buf) {
            Ok(octets) => Ok(Ipv6Addr { octets }),
            Err(e) => Err(e),
        }
    }

    fn write(&self, buf: &mut Vec<u8>) {
        self.octets.write(buf);
    }

    proof fn lemma_parse_encoded(&self, rest: Seq<u8>) {
        self.octets.lemma_parse_encoded(rest);
    }

    proof fn lemma_parse_prefix(s: Seq<u8>, t: Seq<u8>) {
        <[u8; 16]>::lemma_parse_prefix(s, t);
    }
}

/// A value of a `LowCardinality` column: on the wire it is the value itself.
#[derive(Debug, PartialEq, Eq, PartialOrd, Ord, Hash, Clone, Copy)]
pub struct LowCardinality<T>(pub T);

impl<T> From<T> for LowCardinality<T> {
    fn from(value: T) -> (r: LowCardinality<T>) {
        LowCardinality(value)
    }
}

impl<T> vstd::std_specs::convert::FromSpecImpl<T> for LowCardinality<T> {
    open spec fn obeys_from_spec() -> bool {
        true
    }

    open spec fn from_spec(v: T) -> LowCardinality<T> {
        LowCardinality(v)
    }
}

impl<T: Row> Row for LowCardinality<T> {
    open spec fn spec_columns(parent: Seq<char>) -> Seq<(Seq<char>, Ty)> {
        seq![(parent, Ty::LowCardinality(Box::new(single_type(T::spec_columns(""@)))))]
    }

    open spec fn model(&self) -> Value {
        self.0.model()
    }

    open spec fn parse(s: Seq<u8>) -> Parsed {
        T::parse(s)
    }

    fn columns(parent: &str) -> (r: Vec<Column>) {
        one_column(parent, ColumnType::LowCardinality(Box::new(single_column::<T>())))
    }

    fn read(buf: &mut Bytes) -> (r: Result<Self, Error>) {
        match T::read(buf) {
            Ok(v) => Ok(LowCardinality(v)),
            Err(e) => Err(e),
        }
    }

    fn write(&self, buf: &mut Vec<u8>) {
        self.0.write(buf);
    }

    proof fn lemma_parse_encoded(&self, rest: Seq<u8>) {
        self.0.lemma_parse_encoded(rest);
    }

    proof fn lemma_parse_prefix(s: Seq<u8>, t: Seq<u8>) {
        T::lemma_parse_prefix(s, t);
    }
}

/// A `Map(K, V)` column: its entries in the order in which they are written.
/// Keys need not be unique: entries are read back as they come, repeated
/// keys included, in the order of the wire; a caller that builds a map from
/// them keeps the last entry of a key, as a map read would.
pub struct KeyValues<K, V>(pub Vec<(K, V)>);

impl<K: Row, V: Row> Row for KeyValues<K, V> {
    open spec fn spec_columns(parent: Seq<char>) -> Seq<(Seq<char>, Ty)> {
        seq![
            (
                parent,
                Ty::MapOf(
                    Box::new(single_type(K::spec_columns(""@))),
                    Box::new(single_type(V::spec_columns(""@))),
                ),
            ),
        ]
    }

    open spec fn model(&self) -> Value {
        Value::List(models(self.0@))
    }

    open spec fn parse(s: Seq<u8>) -> Parsed {
        parse_list::<(K, V)>(s)
    }

    fn columns(parent: &str) -> (r: Vec<Column>) {
        let k = single_column::<K>();
        let v = single_column::<V>();
        one_column(parent, ColumnType::MapOf(Box::new(k), Box::new(v)))
    }

    fn read(buf: &mut Bytes) -> (r: Result<Self, Error>) {
        match read_list::<(K, V)>(buf) {
            Ok(v) => Ok(KeyValues(v)),
            Err(e) => Err(e),
        }
    }

    fn write(&self, buf: &mut Vec<u8>) {
        write_list(&self.0, buf);
    }

    proof fn lemma_parse_encoded(&self, rest: Seq<u8>) {
        lemma_list_round_trip::<(K, V)>(self.0@, rest);
    }

    proof fn lemma_parse_prefix(s: Seq<u8>, t: Seq<u8>) {
        lemma_list_prefix::<(K, V)>(s, t);
    }
}

/// The signed byte with the bits of `b`.
pub open spec fn signed_byte(b: u8) -> i8 {
    if b >= 128 {
        (b - 256) as i8
    } else {
        b as i8
    }
}

pub open spec fn find_tag(ds: Seq<i8>, d: i8) -> Option<nat>
    decreases ds.len(),
{
    if ds.len() == 0 {
        None
    } else if ds[0] == d {
        Some(0)
    } else {
        match find_tag(ds.skip(1), d) {
            Some(i) => Some(i + 1),
            None => None,
        }
    }
}

/// Reads an `Enum8` value: one signed byte, which must be one of
/// `discriminants`. The result is the position of the variant in them.
pub fn read_enum8(buf: &mut Bytes, discriminants: &Vec<i8>) -> (r: Result<usize, Error>)
    ensures
        final(buf).data() == old(buf).data(),
        old(buf).rest().len() == 0 ==> r == Err::<usize, Error>(Error::NotEnoughData)
            && final(buf).pos() == old(buf).pos(),
        old(buf).rest().len() > 0 ==> match find_tag(discriminants@, signed_byte(old(buf).rest()[0])) {
            Some(i) => i < discriminants@.len() && r == Ok::<usize, Error>(i as usize)
                && final(buf).pos() == old(buf).pos() + 1
                && final(buf).rest() == old(buf).rest().skip(1),
            None => r == Err::<usize, Error>(Error::InvalidTagEncoding(old(buf).rest()[0]))
                && final(buf).pos() == old(buf).pos(),
        },
{
    let start = buf.position();
    let b = match buf.read_u8() {
        Ok(b) => b,
        Err(e) => {
            return Err(e);
        },
    };
    let d: i8 = if b >= 128 {
        ((b as i16) - 256) as i8
    } else {
        b as i8
    };
    let mut i: usize = 0;
    assert(discriminants@.skip(0) =~= discriminants@);
    while i < discriminants.len()
        invariant
            i <= discriminants@.len(),
            start == old(buf).pos(),
            buf.data() == old(buf).data(),
            buf.pos() == old(buf).pos() + 1,
            buf.rest() == old(buf).rest().skip(1),
            old(buf).rest().len() > 0,
            b == old(buf).rest()[0],
            d == signed_byte(b),
            find_tag(discriminants@, d) == match find_tag(discriminants@.skip(i as int), d) {
                Some(k) => Some((k + i) as nat),
                None => None::<nat>,
            },
        decreases discriminants@.len() - i,
    {
        assert(discriminants@.skip(i as int).skip(1) =~= discriminants@.skip(i + 1));
        if discriminants[i] == d {
            return Ok(i);
        }
        i = i + 1;
    }
    buf.rewind(start);
    Err(Error::InvalidTagEncoding(b))
}

/// The byte that a discriminant is written as reads back as that
/// discriminant.
pub proof fn lemma_enum8_round_trip(d: i8)
    ensures
        d.model() == Value::Raw(seq![twos(d as int, 1) as u8]),
        signed_byte(twos(d as int, 1) as u8) == d,
{
    assert(pow256(1) == 256) by {
        reveal_with_fuel(pow256, 2);
    }
}

/// Among distinct discriminants, the one at position `i` is found at `i`.
pub proof fn lemma_find_tag_distinct(ds: Seq<i8>, i: int)
    requires
        0 <= i < ds.len(),
        forall|a: int, b: int| 0 <= a < b < ds.len() ==> #[trigger] ds[a] != #[trigger] ds[b],
    ensures
        find_tag(ds, ds[i]) == Some(i as nat),
    decreases i,
{
    if i > 0 {
        let t = ds.skip(1);
        assert(ds[0] != ds[i]);
        assert(t[i - 1] == ds[i]);
        assert forall|a: int, b: int| 0 <= a < b < t.len() implies #[trigger] t[a] != #[trigger] t[b] by {
            assert(t[a] == ds[a + 1] && t[b] == ds[b + 1]);
        }
        lemma_find_tag_distinct(t, i - 1);
    }
}

/// The byte written for the variant at position `i`, read back against the
/// same discriminants, none of them repeated, gives position `i`.
pub proof fn lemma_enum8_variant_round_trip(ds: Seq<i8>, i: int)
    requires
        0 <= i < ds.len(),
        forall|a: int, b: int| 0 <= a < b < ds.len() ==> #[trigger] ds[a] != #[trigger] ds[b],
    ensures
        ds[i].model() == Value::Raw(seq![twos(ds[i] as int, 1) as u8]),
        find_tag(ds, signed_byte(twos(ds[i] as int, 1) as u8)) == Some(i as nat),
{
    lemma_enum8_round_trip(ds[i]);
    lemma_find_tag_distinct(ds, i);
}

/// Appends an `Enum8` value: the discriminant as one byte.
pub fn write_enum8(buf: &mut Vec<u8>, discriminant: i8)
    ensures
        final(buf)@ == old(buf)@ + encode(discriminant.model()),
{
    discriminant.write(buf);
}

} // verus!
