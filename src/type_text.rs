//! The mathematical model of a column type and of its textual form.
use vstd::prelude::*;

verus! {

/// A column type as a value: what two column types are compared by.
pub enum Ty {
    Bool,
    UInt8,
    UInt16,
    UInt32,
    UInt64,
    UInt128,
    Int8,
    Int16,
    Int32,
    Int64,
    Int128,
    Float32,
    Float64,
    String,
    DateTime,
    UUID,
    IPv4,
    IPv6,
    FixedString(nat),
    Array(Box<Ty>),
    Nullable(Box<Ty>),
    LowCardinality(Box<Ty>),
    MapOf(Box<Ty>, Box<Ty>),
    Enum8(Seq<(Seq<u8>, i8)>),
    Tuple(Seq<Ty>),
}

/// The name of a type without parameters, or `None` for a parametric one.
pub open spec fn nullary_name(t: Ty) -> Option<Seq<u8>> {
    match t {
        // "Bool"
        Ty::Bool => Some(seq![66, 111, 111, 108]),
        // "UInt8"
        Ty::UInt8 => Some(seq![85, 73, 110, 116, 56]),
        // "UInt16"
        Ty::UInt16 => Some(seq![85, 73, 110, 116, 49, 54]),
        // "UInt32"
        Ty::UInt32 => Some(seq![85, 73, 110, 116, 51, 50]),
        // "UInt64"
        Ty::UInt64 => Some(seq![85, 73, 110, 116, 54, 52]),
        // "UInt128"
        Ty::UInt128 => Some(seq![85, 73, 110, 116, 49, 50, 56]),
        // "Int8"
        Ty::Int8 => Some(seq![73, 110, 116, 56]),
        // "Int16"
        Ty::Int16 => Some(seq![73, 110, 116, 49, 54]),
        // "Int32"
        Ty::Int32 => Some(seq![73, 110, 116, 51, 50]),
        // "Int64"
        Ty::Int64 => Some(seq![73, 110, 116, 54, 52]),
        // "Int128"
        Ty::Int128 => Some(seq![73, 110, 116, 49, 50, 56]),
        // "Float32"
        Ty::Float32 => Some(seq![70, 108, 111, 97, 116, 51, 50]),
        // "Float64"
        Ty::Float64 => Some(seq![70, 108, 111, 97, 116, 54, 52]),
        // "String"
        Ty::String => Some(seq![83, 116, 114, 105, 110, 103]),
        // "DateTime"
        Ty::DateTime => Some(seq![68, 97, 116, 101, 84, 105, 109, 101]),
        // "UUID"
        Ty::UUID => Some(seq![85, 85, 73, 68]),
        // "IPv4"
        Ty::IPv4 => Some(seq![73, 80, 118, 52]),
        // "IPv6"
        Ty::IPv6 => Some(seq![73, 80, 118, 54]),
        _ => None,
    }
}

pub open spec fn kw_fixed_string() -> Seq<u8> {
    // "FixedString"
    seq![70, 105, 120, 101, 100, 83, 116, 114, 105, 110, 103]
}

pub open spec fn kw_array() -> Seq<u8> {
    // "Array"
    seq![65, 114, 114, 97, 121]
}

pub open spec fn kw_nullable() -> Seq<u8> {
    // "Nullable"
    seq![78, 117, 108, 108, 97, 98, 108, 101]
}

pub open spec fn kw_low_cardinality() -> Seq<u8> {
    // "LowCardinality"
    seq![76, 111, 119, 67, 97, 114, 100, 105, 110, 97, 108, 105, 116, 121]
}

pub open spec fn kw_map() -> Seq<u8> {
    // "Map"
    seq![77, 97, 112]
}

pub open spec fn kw_enum8() -> Seq<u8> {
    // "Enum8"
    seq![69, 110, 117, 109, 56]
}

pub open spec fn kw_tuple() -> Seq<u8> {
    // "Tuple"
    seq![84, 117, 112, 108, 101]
}

/// The decimal digits of `n`, most significant first, without leading zeros.
pub open spec fn dec(n: nat) -> Seq<u8>
    decreases n,
{
    if n < 10 {
        seq![(n + 48) as u8]
    } else {
        dec(n / 10).push((n % 10 + 48) as u8)
    }
}

/// The decimal form of a signed byte: a minus sign for negative values.
pub open spec fn dec_i8(v: i8) -> Seq<u8> {
    if v < 0 {
        seq![45] + dec((-v) as nat)
    } else {
        dec(v as nat)
    }
}

/// `"<name>(<inner>)"`.
pub open spec fn wrapped(name: Seq<u8>, inner: Seq<u8>) -> Seq<u8> {
    name + seq![40] + inner + seq![41]
}

/// One variant of an `Enum8`: `'<label>' = <value>`.
pub open spec fn entry_text(e: (Seq<u8>, i8)) -> Seq<u8> {
    // "'' = "
    seq![39] + e.0 + seq![39, 32, 61, 32] + dec_i8(e.1)
}

/// The first `k` variants, separated by `", "`.
pub open spec fn entries_text(es: Seq<(Seq<u8>, i8)>, k: nat) -> Seq<u8>
    decreases k,
{
    if k == 0 || k > es.len() {
        seq![]
    } else if k == 1 {
        entry_text(es[0])
    } else {
        entries_text(es, (k - 1) as nat) + seq![44, 32] + entry_text(es[k - 1])
    }
}

/// The textual form of a column type, as the server writes it.
pub open spec fn type_text(t: Ty) -> Seq<u8>
    decreases t, 0nat,
{
    match t {
        Ty::FixedString(n) => wrapped(kw_fixed_string(), dec(n)),
        Ty::Array(a) => wrapped(kw_array(), type_text(*a)),
        Ty::Nullable(a) => wrapped(kw_nullable(), type_text(*a)),
        Ty::LowCardinality(a) => wrapped(kw_low_cardinality(), type_text(*a)),
        Ty::MapOf(k, v) => wrapped(kw_map(), type_text(*k) + seq![44, 32] + type_text(*v)),
        Ty::Enum8(es) => wrapped(kw_enum8(), entries_text(es, es.len())),
        Ty::Tuple(ts) => wrapped(kw_tuple(), items_text(ts, ts.len())),
        _ => nullary_name(t).unwrap(),
    }
}

/// The textual forms of the first `k` of `ts`, separated by `", "`.
pub open spec fn items_text(ts: Seq<Ty>, k: nat) -> Seq<u8>
    decreases ts, k,
{
    if k == 0 || k > ts.len() {
        seq![]
    } else if k == 1 {
        type_text(ts[0])
    } else {
        items_text(ts, (k - 1) as nat) + seq![44, 32] + type_text(ts[k - 1])
    }
}

/// The type whose name is `s`, among the types without parameters.
pub open spec fn nullary_of(s: Seq<u8>) -> Option<Ty> {
    if s == nullary_name(Ty::Bool).unwrap() {
        Some(Ty::Bool)
    } else if s == nullary_name(Ty::UInt8).unwrap() {
        Some(Ty::UInt8)
    } else if s == nullary_name(Ty::UInt16).unwrap() {
        Some(Ty::UInt16)
    } else if s == nullary_name(Ty::UInt32).unwrap() {
        Some(Ty::UInt32)
    } else if s == nullary_name(Ty::UInt64).unwrap() {
        Some(Ty::UInt64)
    } else if s == nullary_name(Ty::UInt128).unwrap() {
        Some(Ty::UInt128)
    } else if s == nullary_name(Ty::Int8).unwrap() {
        Some(Ty::Int8)
    } else if s == nullary_name(Ty::Int16).unwrap() {
        Some(Ty::Int16)
    } else if s == nullary_name(Ty::Int32).unwrap() {
        Some(Ty::Int32)
    } else if s == nullary_name(Ty::Int64).unwrap() {
        Some(Ty::Int64)
    } else if s == nullary_name(Ty::Int128).unwrap() {
        Some(Ty::Int128)
    } else if s == nullary_name(Ty::Float32).unwrap() {
        Some(Ty::Float32)
    } else if s == nullary_name(Ty::Float64).unwrap() {
        Some(Ty::Float64)
    } else if s == nullary_name(Ty::String).unwrap() {
        Some(Ty::String)
    } else if s == nullary_name(Ty::DateTime).unwrap() {
        Some(Ty::DateTime)
    } else if s == nullary_name(Ty::UUID).unwrap() {
        Some(Ty::UUID)
    } else if s == nullary_name(Ty::IPv4).unwrap() {
        Some(Ty::IPv4)
    } else if s == nullary_name(Ty::IPv6).unwrap() {
        Some(Ty::IPv6)
    } else {
        None
    }
}

/// How a byte moves the parenthesis depth.
pub open spec fn depth_step(b: u8) -> int {
    if b == 40 {
        1
    } else if b == 41 {
        -1
    } else {
        0
    }
}

/// The position of the first comma of `s` outside all parentheses, when the
/// scan starts at depth `d`.
pub open spec fn top_comma(s: Seq<u8>, d: int) -> Option<nat>
    decreases s.len(),
{
    if s.len() == 0 {
        None
    } else if s[0] == 44 && d == 0 {
        Some(0)
    } else {
        match top_comma(s.skip(1), d + depth_step(s[0])) {
            Some(i) => Some(i + 1),
            None => None,
        }
    }
}

/// The position of the first `b` in `s`.
pub open spec fn find_byte(s: Seq<u8>, b: u8) -> Option<nat>
    decreases s.len(),
{
    if s.len() == 0 {
        None
    } else if s[0] == b {
        Some(0)
    } else {
        match find_byte(s.skip(1), b) {
            Some(i) => Some(i + 1),
            None => None,
        }
    }
}

/// `s` without one leading space.
pub open spec fn trim1(s: Seq<u8>) -> Seq<u8> {
    if s.len() > 0 && s[0] == 32 {
        s.skip(1)
    } else {
        s
    }
}

pub open spec fn is_digit(b: u8) -> bool {
    48 <= b <= 57
}

pub open spec fn all_digits(s: Seq<u8>) -> bool {
    forall|i: int| 0 <= i < s.len() ==> is_digit(#[trigger] s[i])
}

/// The number that the decimal digits `s` spell.
pub open spec fn dec_value(s: Seq<u8>) -> nat
    decreases s.len(),
{
    if s.len() == 0 {
        0
    } else {
        dec_value(s.drop_last()) * 10 + (s.last() - 48) as nat
    }
}

/// A decimal number of at most `limit`.
pub open spec fn parse_nat(s: Seq<u8>, limit: nat) -> Option<nat> {
    if s.len() > 0 && all_digits(s) && dec_value(s) <= limit {
        Some(dec_value(s))
    } else {
        None
    }
}

/// A signed byte in decimal, with an optional minus sign.
pub open spec fn parse_i8(s: Seq<u8>) -> Option<i8> {
    if s.len() > 0 && s[0] == 45 {
        match parse_nat(s.skip(1), 128) {
            Some(n) => Some((-n) as i8),
            None => None,
        }
    } else {
        match parse_nat(s, 127) {
            Some(n) => Some(n as i8),
            None => None,
        }
    }
}

/// No two variants of an `Enum8` share a discriminant.
pub open spec fn distinct_tags(es: Seq<(Seq<u8>, i8)>) -> bool {
    forall|i: int, j: int| 0 <= i < j < es.len() ==> #[trigger] es[i].1 != #[trigger] es[j].1
}

/// One variant of an `Enum8`: `'<label>'`, an optional space, `=`, an
/// optional space and the discriminant.
pub open spec fn parse_entry(s: Seq<u8>) -> Option<(Seq<u8>, i8)> {
    if s.len() > 0 && s[0] == 39 {
        match find_byte(s.skip(1), 39) {
            Some(q) => {
                let label = s.subrange(1, q + 1int);
                let after = trim1(s.skip(q + 2int));
                if after.len() > 0 && after[0] == 61 {
                    match parse_i8(trim1(after.skip(1))) {
                        Some(v) => Some((label, v)),
                        None => None,
                    }
                } else {
                    None
                }
            },
            None => None,
        }
    } else {
        None
    }
}

/// The variants of an `Enum8`, separated by commas.
pub open spec fn parse_entries(s: Seq<u8>) -> Option<Seq<(Seq<u8>, i8)>>
    decreases s.len(),
{
    match top_comma(s, 0) {
        None => match parse_entry(s) {
            Some(e) => Some(seq![e]),
            None => None,
        },
        Some(c) => if c < s.len() {
            let rest = s.skip(c + 1int);
            match (parse_entry(s.take(c as int)), parse_entries(trim1(rest))) {
                (Some(e), Some(es)) => Some(seq![e] + es),
                _ => None,
            }
        } else {
            None
        },
    }
}

/// The column type that the text `s` describes, or `None` when it describes
/// none that is supported.
pub open spec fn parse_type(s: Seq<u8>) -> Option<Ty>
    decreases s.len(), 0nat,
{
    match nullary_of(s) {
        Some(t) => Some(t),
        None => match find_byte(s, 40) {
            None => None,
            Some(p) => if p + 2 <= s.len() && s.last() == 41 {
                parse_param(s.take(p as int), s.subrange(p + 1int, s.len() - 1int))
            } else {
                None
            },
        },
    }
}

/// The parametric type `head(body)`.
pub open spec fn parse_param(head: Seq<u8>, body: Seq<u8>) -> Option<Ty>
    decreases body.len(), 2nat,
{
    if head == kw_array() {
        match parse_type(body) {
            Some(t) => Some(Ty::Array(Box::new(t))),
            None => None,
        }
    } else if head == kw_nullable() {
        match parse_type(body) {
            Some(t) => Some(Ty::Nullable(Box::new(t))),
            None => None,
        }
    } else if head == kw_low_cardinality() {
        match parse_type(body) {
            Some(t) => Some(Ty::LowCardinality(Box::new(t))),
            None => None,
        }
    } else if head == kw_map() {
        match top_comma(body, 0) {
            Some(c) => if c < body.len() {
                match (parse_type(body.take(c as int)), parse_type(trim1(body.skip(c + 1int)))) {
                    (Some(k), Some(v)) => Some(Ty::MapOf(Box::new(k), Box::new(v))),
                    _ => None,
                }
            } else {
                None
            },
            None => None,
        }
    } else if head == kw_tuple() {
        match parse_items(body) {
            Some(ts) => Some(Ty::Tuple(ts)),
            None => None,
        }
    } else if head == kw_enum8() {
        match parse_entries(body) {
            Some(es) => if distinct_tags(es) {
                Some(Ty::Enum8(es))
            } else {
                None
            },
            None => None,
        }
    } else if head == kw_fixed_string() {
        match parse_nat(body, usize::MAX as nat) {
            Some(n) => Some(Ty::FixedString(n)),
            None => None,
        }
    } else {
        None
    }
}

/// The members of a `Tuple`, separated by commas outside parentheses.
pub open spec fn parse_items(s: Seq<u8>) -> Option<Seq<Ty>>
    decreases s.len(), 1nat,
{
    match top_comma(s, 0) {
        None => match parse_type(s) {
            Some(t) => Some(seq![t]),
            None => None,
        },
        Some(c) => if c < s.len() {
            let rest = s.skip(c + 1int);
            match (parse_type(s.take(c as int)), parse_items(trim1(rest))) {
                (Some(t), Some(ts)) => Some(seq![t] + ts),
                _ => None,
            }
        } else {
            None
        },
    }
}

} // verus!
