//! Column types: their values, their textual form and its parser.
use vstd::prelude::*;

use crate::type_text::{
    dec, dec_i8, entries_text, items_text, nullary_name, type_text, Ty,
};

verus! {

/// The type of a column as the server describes it.
#[derive(Debug)]
pub enum ColumnType {
    Bool,
    UInt8,
    UInt16,
    UInt32,
    UInt64,
    UInt128,
    Int8,
    Int16,
    Int32,
    Int64,
    Int128,
    Float32,
    Float64,
    String,
    DateTime,
    UUID,
    IPv4,
    IPv6,
    /// Exactly this many raw bytes.
    FixedString(usize),
    Array(Box<ColumnType>),
    Nullable(Box<ColumnType>),
    LowCardinality(Box<ColumnType>),
    MapOf(Box<ColumnType>, Box<ColumnType>),
    /// Labels and their discriminants, in declared order. The parser accepts
    /// no two variants with the same discriminant.
    Enum8(Vec<(Vec<u8>, i8)>),
    Tuple(Vec<ColumnType>),
}

pub open spec fn entries_view(es: Seq<(Vec<u8>, i8)>) -> Seq<(Seq<u8>, i8)> {
    es.map_values(|e: (Vec<u8>, i8)| (e.0@, e.1))
}

/// The value that a column type stands for.
pub open spec fn ty_of(c: ColumnType) -> Ty
    decreases c, 0nat,
{
    match c {
        ColumnType::Bool => Ty::Bool,
        ColumnType::UInt8 => Ty::UInt8,
        ColumnType::UInt16 => Ty::UInt16,
        ColumnType::UInt32 => Ty::UInt32,
        ColumnType::UInt64 => Ty::UInt64,
        ColumnType::UInt128 => Ty::UInt128,
        ColumnType::Int8 => Ty::Int8,
        ColumnType::Int16 => Ty::Int16,
        ColumnType::Int32 => Ty::Int32,
        ColumnType::Int64 => Ty::Int64,
        ColumnType::Int128 => Ty::Int128,
        ColumnType::Float32 => Ty::Float32,
        ColumnType::Float64 => Ty::Float64,
        ColumnType::String => Ty::String,
        ColumnType::DateTime => Ty::DateTime,
        ColumnType::UUID => Ty::UUID,
        ColumnType::IPv4 => Ty::IPv4,
        ColumnType::IPv6 => Ty::IPv6,
        ColumnType::FixedString(n) => Ty::FixedString(n as nat),
        ColumnType::Array(a) => Ty::Array(Box::new(ty_of(*a))),
        ColumnType::Nullable(a) => Ty::Nullable(Box::new(ty_of(*a))),
        ColumnType::LowCardinality(a) => Ty::LowCardinality(Box::new(ty_of(*a))),
        ColumnType::MapOf(k, v) => Ty::MapOf(Box::new(ty_of(*k)), Box::new(ty_of(*v))),
        ColumnType::Enum8(es) => Ty::Enum8(entries_view(es@)),
        ColumnType::Tuple(ts) => Ty::Tuple(tys_of(ts@, ts@.len())),
    }
}

/// The values of the first `k` of `cs`.
pub open spec fn tys_of(cs: Seq<ColumnType>, k: nat) -> Seq<Ty>
    decreases cs, k,
{
    if k == 0 || k > cs.len() {
        seq![]
    } else {
        tys_of(cs, (k - 1) as nat).push(ty_of(cs[k - 1]))
    }
}

impl View for ColumnType {
    type V = Ty;

    open spec fn view(&self) -> Ty {
        ty_of(*self)
    }
}

pub proof fn lemma_tys_of(cs: Seq<ColumnType>, k: nat)
    requires
        k <= cs.len(),
    ensures
        tys_of(cs, k).len() == k,
        forall|i: int| 0 <= i < k ==> #[trigger] tys_of(cs, k)[i] == ty_of(cs[i]),
    decreases k,
{
    if k > 0 {
        lemma_tys_of(cs, (k - 1) as nat);
    }
}

pub(crate) fn push_all(out: &mut Vec<u8>, s: &[u8])
    ensures
        final(out)@ == old(out)@ + s@,
{
    let mut i: usize = 0;
    while i < s.len()
        invariant
            i <= s@.len(),
            out@ == old(out)@ + s@.subrange(0, i as int),
        decreases s@.len() - i,
    {
        out.push(s[i]);
        i = i + 1;
    }
    assert(s@.subrange(0, s@.len() as int) == s@);
}

/// Appends the decimal digits of `n`.
fn push_dec(out: &mut Vec<u8>, n: u64)
    ensures
        final(out)@ == old(out)@ + dec(n as nat),
    decreases n,
{
    if n >= 10 {
        push_dec(out, n / 10);
    }
    out.push((n % 10 + 48) as u8);
}

fn push_dec_i8(out: &mut Vec<u8>, v: i8)
    ensures
        final(out)@ == old(out)@ + dec_i8(v),
{
    if v < 0 {
        out.push(45);
        let m: u64 = (0 - (v as i64)) as u64;
        push_dec(out, m);
    } else {
        push_dec(out, v as u64);
    }
}

impl ColumnType {
    /// Appends the name of a type without parameters.
    fn write_nullary(&self, out: &mut Vec<u8>)
        requires
            nullary_name(self@) is Some,
        ensures
            final(out)@ == old(out)@ + nullary_name(self@).unwrap(),
    {
        let name: Vec<u8> = match self {
            // "Bool"
            ColumnType::Bool => vec![66, 111, 111, 108],
            // "UInt8"
            ColumnType::UInt8 => vec![85, 73, 110, 116, 56],
            // "UInt16"
            ColumnType::UInt16 => vec![85, 73, 110, 116, 49, 54],
            // "UInt32"
            ColumnType::UInt32 => vec![85, 73, 110, 116, 51, 50],
            // "UInt64"
            ColumnType::UInt64 => vec![85, 73, 110, 116, 54, 52],
            // "UInt128"
            ColumnType::UInt128 => vec![85, 73, 110, 116, 49, 50, 56],
            // "Int8"
            ColumnType::Int8 => vec![73, 110, 116, 56],
            // "Int16"
            ColumnType::Int16 => vec![73, 110, 116, 49, 54],
            // "Int32"
            ColumnType::Int32 => vec![73, 110, 116, 51, 50],
            // "Int64"
            ColumnType::Int64 => vec![73, 110, 116, 54, 52],
            // "Int128"
            ColumnType::Int128 => vec![73, 110, 116, 49, 50, 56],
            // "Float32"
            ColumnType::Float32 => vec![70, 108, 111, 97, 116, 51, 50],
            // "Float64"
            ColumnType::Float64 => vec![70, 108, 111, 97, 116, 54, 52],
            // "String"
            ColumnType::String => vec![83, 116, 114, 105, 110, 103],
            // "DateTime"
            ColumnType::DateTime => vec![68, 97, 116, 101, 84, 105, 109, 101],
            // "UUID"
            ColumnType::UUID => vec![85, 85, 73, 68],
            // "IPv4"
            ColumnType::IPv4 => vec![73, 80, 118, 52],
            // "IPv6"
            _ => vec![73, 80, 118, 54],
        };
        push_all(out, name.as_slice());
    }

    /// Appends the textual form of this type.
    pub fn write_text(&self, out: &mut Vec<u8>)
        ensures
            final(out)@ == old(out)@ + type_text(self@),
        decreases self,
    {
        match self {
            ColumnType::FixedString(n) => {
                // "FixedString("
                push_all(out, vec![70, 105, 120, 101, 100, 83, 116, 114, 105, 110, 103, 40].as_slice());
                push_dec(out, *n as u64);
                out.push(41);
            },
            ColumnType::Array(a) => {
                // "Array("
                push_all(out, vec![65, 114, 114, 97, 121, 40].as_slice());
                a.write_text(out);
                out.push(41);
            },
            ColumnType::Nullable(a) => {
                // "Nullable("
                push_all(out, vec![78, 117, 108, 108, 97, 98, 108, 101, 40].as_slice());
                a.write_text(out);
                out.push(41);
            },
            ColumnType::LowCardinality(a) => {
                push_all(
                    out,
                    // "LowCardinality("
                    vec![76, 111, 119, 67, 97, 114, 100, 105, 110, 97, 108, 105, 116, 121, 40].as_slice(),
                );
                a.write_text(out);
                out.push(41);
            },
            ColumnType::MapOf(k, v) => {
                // "Map("
                push_all(out, vec![77, 97, 112, 40].as_slice());
                k.write_text(out);
                out.push(44);
                out.push(32);
                v.write_text(out);
                out.push(41);
            },
            ColumnType::Enum8(es) => {
                let ghost start = out@;
                // "Enum8("
                push_all(out, vec![69, 110, 117, 109, 56, 40].as_slice());
                let ghost head = out@;
                let ghost ev = entries_view(es@);
                let mut i: usize = 0;
                while i < es.len()
                    invariant
                        i <= es@.len(),
                        ev == entries_view(es@),
                        out@ == head + entries_text(ev, i as nat),
                    decreases es@.len() - i,
                {
                    if i > 0 {
                        out.push(44);
                        out.push(32);
                    }
                    out.push(39);
                    push_all(out, es[i].0.as_slice());
                    // "' = "
                    push_all(out, vec![39, 32, 61, 32].as_slice());
                    push_dec_i8(out, es[i].1);
                    i = i + 1;
                }
                out.push(41);
            },
            ColumnType::Tuple(ts) => {
                // "Tuple("
                push_all(out, vec![84, 117, 112, 108, 101, 40].as_slice());
                let ghost head = out@;
                let ghost tv = tys_of(ts@, ts@.len());
                proof {
                    lemma_tys_of(ts@, ts@.len());
                }
                let mut i: usize = 0;
                while i < ts.len()
                    invariant
                        i <= ts@.len(),
                        *self == ColumnType::Tuple(*ts),
                        tv == tys_of(ts@, ts@.len()),
                        tv.len() == ts@.len(),
                        forall|j: int| 0 <= j < ts@.len() ==> #[trigger] tv[j] == ty_of(ts@[j]),
                        out@ == head + items_text(tv, i as nat),
                    decreases ts@.len() - i,
                {
                    if i > 0 {
                        out.push(44);
                        out.push(32);
                    }
                    proof {
                        let me = *self;
                        assert(decreases_to!(me => me->Tuple_0));
                        vstd::std_specs::vec::axiom_vec_index_decreases(me->Tuple_0, i as int);
                    }
                    ts[i].write_text(out);
                    i = i + 1;
                }
                out.push(41);
            },
            _ => {
                self.write_nullary(out);
            },
        }
    }

    /// The textual form of this type.
    pub fn to_text(&self) -> (r: Vec<u8>)
        ensures
            r@ == type_text(self@),
    {
        let mut out: Vec<u8> = Vec::new();
        self.write_text(&mut out);
        out
    }
}

/// A number for each kind of column type.
pub open spec fn kind_of(t: Ty) -> u8 {
    match t {
        Ty::Bool => 0,
        Ty::UInt8 => 1,
        Ty::UInt16 => 2,
        Ty::UInt32 => 3,
        Ty::UInt64 => 4,
        Ty::UInt128 => 5,
        Ty::Int8 => 6,
        Ty::Int16 => 7,
        Ty::Int32 => 8,
        Ty::Int64 => 9,
        Ty::Int128 => 10,
        Ty::Float32 => 11,
        Ty::Float64 => 12,
        Ty::String => 13,
        Ty::DateTime => 14,
        Ty::UUID => 15,
        Ty::IPv4 => 16,
        Ty::IPv6 => 17,
        Ty::FixedString(_) => 18,
        Ty::Array(_) => 19,
        Ty::Nullable(_) => 20,
        Ty::LowCardinality(_) => 21,
        Ty::MapOf(_, _) => 22,
        Ty::Enum8(_) => 23,
        Ty::Tuple(_) => 24,
    }
}

fn kind(c: &ColumnType) -> (r: u8)
    ensures
        r == kind_of(c@),
{
    match c {
        ColumnType::Bool => 0,
        ColumnType::UInt8 => 1,
        ColumnType::UInt16 => 2,
        ColumnType::UInt32 => 3,
        ColumnType::UInt64 => 4,
        ColumnType::UInt128 => 5,
        ColumnType::Int8 => 6,
        ColumnType::Int16 => 7,
        ColumnType::Int32 => 8,
        ColumnType::Int64 => 9,
        ColumnType::Int128 => 10,
        ColumnType::Float32 => 11,
        ColumnType::Float64 => 12,
        ColumnType::String => 13,
        ColumnType::DateTime => 14,
        ColumnType::UUID => 15,
        ColumnType::IPv4 => 16,
        ColumnType::IPv6 => 17,
        ColumnType::FixedString(_) => 18,
        ColumnType::Array(_) => 19,
        ColumnType::Nullable(_) => 20,
        ColumnType::LowCardinality(_) => 21,
        ColumnType::MapOf(_, _) => 22,
        ColumnType::Enum8(_) => 23,
        ColumnType::Tuple(_) => 24,
    }
}

fn same_bytes(a: &Vec<u8>, b: &Vec<u8>) -> (r: bool)
    ensures
        r == (a@ == b@),
{
    if a.len() != b.len() {
        return false;
    }
    let mut i: usize = 0;
    while i < a.len()
        invariant
            i <= a@.len(),
            a@.len() == b@.len(),
            forall|j: int| 0 <= j < i ==> a@[j] == b@[j],
        decreases a@.len() - i,
    {
        if a[i] != b[i] {
            return false;
        }
        i = i + 1;
    }
    assert(a@ =~= b@);
    true
}

fn same_entries(a: &Vec<(Vec<u8>, i8)>, b: &Vec<(Vec<u8>, i8)>) -> (r: bool)
    ensures
        r == (entries_view(a@) == entries_view(b@)),
{
    if a.len() != b.len() {
        assert(entries_view(a@).len() != entries_view(b@).len());
        return false;
    }
    let mut i: usize = 0;
    while i < a.len()
        invariant
            i <= a@.len(),
            a@.len() == b@.len(),
            forall|j: int| 0 <= j < i ==> entries_view(a@)[j] == entries_view(b@)[j],
        decreases a@.len() - i,
    {
        if !same_bytes(&a[i].0, &b[i].0) || a[i].1 != b[i].1 {
            assert(entries_view(a@)[i as int] != entries_view(b@)[i as int]);
            return false;
        }
        i = i + 1;
    }
    assert(entries_view(a@) =~= entries_view(b@));
    true
}

/// Whether two column types are the same type.
pub fn same_type(a: &ColumnType, b: &ColumnType) -> (r: bool)
    ensures
        r == (a@ == b@),
    decreases a,
{
    match (a, b) {
        (ColumnType::FixedString(x), ColumnType::FixedString(y)) => x == y,
        (ColumnType::Array(x), ColumnType::Array(y)) => same_type(x, y),
        (ColumnType::Nullable(x), ColumnType::Nullable(y)) => same_type(x, y),
        (ColumnType::LowCardinality(x), ColumnType::LowCardinality(y)) => same_type(x, y),
        (ColumnType::MapOf(k1, v1), ColumnType::MapOf(k2, v2)) => same_type(k1, k2) && same_type(
            v1,
            v2,
        ),
        (ColumnType::Enum8(x), ColumnType::Enum8(y)) => same_entries(x, y),
        (ColumnType::Tuple(x), ColumnType::Tuple(y)) => {
            proof {
                lemma_tys_of(x@, x@.len());
                lemma_tys_of(y@, y@.len());
            }
            if x.len() != y.len() {
                return false;
            }
            let mut i: usize = 0;
            while i < x.len()
                invariant
                    i <= x@.len(),
                    x@.len() == y@.len(),
                    *a == ColumnType::Tuple(*x),
                    *b == ColumnType::Tuple(*y),
                    tys_of(x@, x@.len()).len() == x@.len(),
                    tys_of(y@, y@.len()).len() == y@.len(),
                    forall|j: int| 0 <= j < x@.len() ==> #[trigger] tys_of(x@, x@.len())[j] == ty_of(x@[j]),
                    forall|j: int| 0 <= j < y@.len() ==> #[trigger] tys_of(y@, y@.len())[j] == ty_of(y@[j]),
                    forall|j: int| 0 <= j < i ==> ty_of(x@[j]) == ty_of(y@[j]),
                decreases x@.len() - i,
            {
                proof {
                    let me = *a;
                    assert(decreases_to!(me => me->Tuple_0));
                    vstd::std_specs::vec::axiom_vec_index_decreases(me->Tuple_0, i as int);
                }
                if !same_type(&x[i], &y[i]) {
                    assert(tys_of(x@, x@.len())[i as int] != tys_of(y@, y@.len())[i as int]);
                    return false;
                }
                i = i + 1;
            }
            assert(tys_of(x@, x@.len()) =~= tys_of(y@, y@.len()));
            true
        },
        _ => kind(a) == kind(b),
    }
}

impl PartialEq for ColumnType {
    fn eq(&self, other: &ColumnType) -> (r: bool) {
        same_type(self, other)
    }
}

impl vstd::std_specs::cmp::PartialEqSpecImpl for ColumnType {
    open spec fn obeys_eq_spec() -> bool {
        true
    }

    open spec fn eq_spec(&self, other: &ColumnType) -> bool {
        self@ == other@
    }
}

impl Eq for ColumnType {
}

} // verus!
