//! The parser of the textual form of column types.
use vstd::prelude::*;

use crate::error::Error;
use crate::text::{lossy_text, utf8_lossy};
use crate::column_type::{entries_view, lemma_tys_of, ty_of, tys_of, ColumnType};
use crate::type_text::{
    all_digits, dec_value, find_byte, is_digit, nullary_of, parse_entries,
    parse_entry, distinct_tags, parse_i8, parse_items, parse_nat, parse_param, parse_type, top_comma, trim1, depth_step, Ty,
};

verus! {

/// The bytes of `s` from `lo` up to `hi`.
pub open spec fn span(s: Seq<u8>, lo: usize, hi: usize) -> Seq<u8> {
    s.subrange(lo as int, hi as int)
}

pub open spec fn opt_ty(r: Option<ColumnType>) -> Option<Ty> {
    match r {
        Some(c) => Some(c@),
        None => None,
    }
}

fn bytes_eq(s: &[u8], lo: usize, hi: usize, lit: &[u8]) -> (r: bool)
    requires
        lo <= hi <= s@.len(),
    ensures
        r == (span(s@, lo, hi) == lit@),
{
    if hi - lo != lit.len() {
        return false;
    }
    let mut i: usize = 0;
    while i < lit.len()
        invariant
            lo <= hi <= s@.len(),
            hi - lo == lit@.len(),
            i <= lit@.len(),
            forall|j: int| 0 <= j < i ==> s@[lo + j] == lit@[j],
        decreases lit@.len() - i,
    {
        if s[lo + i] != lit[i] {
            assert(span(s@, lo, hi)[i as int] != lit@[i as int]);
            return false;
        }
        i = i + 1;
    }
    assert(span(s@, lo, hi) =~= lit@);
    true
}

fn find_byte_in(s: &[u8], lo: usize, hi: usize, b: u8) -> (r: Option<usize>)
    requires
        lo <= hi <= s@.len(),
    ensures
        match find_byte(span(s@, lo, hi), b) {
            None => r is None,
            Some(i) => r == Some((lo + i) as usize),
        },
{
    let mut i: usize = lo;
    while i < hi
        invariant
            lo <= i <= hi <= s@.len(),
            find_byte(span(s@, lo, hi), b) == match find_byte(span(s@, i, hi), b) {
                Some(k) => Some((k + (i - lo)) as nat),
                None => None::<nat>,
            },
        decreases hi - i,
    {
        assert(span(s@, i, hi)[0] == s@[i as int]);
        assert(span(s@, i, hi).skip(1) =~= span(s@, (i + 1) as usize, hi));
        if s[i] == b {
            return Some(i);
        }
        i = i + 1;
    }
    assert(span(s@, i, hi).len() == 0);
    None
}

fn top_comma_in(s: &[u8], lo: usize, hi: usize) -> (r: Option<usize>)
    requires
        lo <= hi <= s@.len(),
    ensures
        match top_comma(span(s@, lo, hi), 0) {
            None => r is None,
            Some(i) => r == Some((lo + i) as usize) && lo + i < hi,
        },
{
    let mut i: usize = lo;
    let mut d: i128 = 0;
    while i < hi
        invariant
            lo <= i <= hi <= s@.len(),
            -(i - lo) <= d <= i - lo,
            top_comma(span(s@, lo, hi), 0) == match top_comma(span(s@, i, hi), d as int) {
                Some(k) => Some((k + (i - lo)) as nat),
                None => None::<nat>,
            },
        decreases hi - i,
    {
        let b = s[i];
        assert(span(s@, i, hi)[0] == b);
        assert(span(s@, i, hi).skip(1) =~= span(s@, (i + 1) as usize, hi));
        if b == 44 && d == 0 {
            return Some(i);
        }
        let ghost d0 = d;
        if b == 40 {
            d = d + 1;
        } else if b == 41 {
            d = d - 1;
        }
        assert(d == d0 + depth_step(b));
        i = i + 1;
    }
    assert(span(s@, i, hi).len() == 0);
    None
}

fn trim1_in(s: &[u8], lo: usize, hi: usize) -> (r: usize)
    requires
        lo <= hi <= s@.len(),
    ensures
        lo <= r <= hi,
        span(s@, r, hi) == trim1(span(s@, lo, hi)),
{
    if lo < hi && s[lo] == 32 {
        assert(span(s@, lo, hi).skip(1) =~= span(s@, (lo + 1) as usize, hi));
        lo + 1
    } else {
        lo
    }
}

/// Reads the decimal number `s[lo..hi]`: `None` unless it is made of digits
/// only, is not empty, and is at most `limit`.
fn parse_nat_in(s: &[u8], lo: usize, hi: usize, limit: u64) -> (r: Option<u64>)
    requires
        lo <= hi <= s@.len(),
    ensures
        match parse_nat(span(s@, lo, hi), limit as nat) {
            None => r is None,
            Some(n) => r == Some(n as u64),
        },
{
    let ghost t = span(s@, lo, hi);
    if lo == hi {
        return None;
    }
    let mut acc: u64 = 0;
    let mut over = false;
    let mut i: usize = lo;
    while i < hi
        invariant
            lo <= i <= hi <= s@.len(),
            t == span(s@, lo, hi),
            all_digits(span(s@, lo, i)),
            over ==> dec_value(span(s@, lo, i)) > limit,
            !over ==> acc == dec_value(span(s@, lo, i)) && acc <= limit,
        decreases hi - i,
    {
        let b = s[i];
        let ghost before = span(s@, lo, i);
        let ghost after = span(s@, lo, (i + 1) as usize);
        assert(after.drop_last() =~= before);
        assert(after.last() == b);
        if b < 48 || b > 57 {
            assert(t[i - lo] == b);
            return None;
        }
        assert(all_digits(after)) by {
            assert forall|j: int| 0 <= j < after.len() implies is_digit(#[trigger] after[j]) by {
                if j < before.len() {
                    assert(after[j] == before[j]);
                }
            }
        }
        let d: u64 = (b - 48) as u64;
        if !over {
            if d > limit {
                over = true;
            } else if acc > (limit - d) / 10 {
                over = true;
                assert(acc * 10 + d > limit) by (nonlinear_arith)
                    requires
                        acc > (limit - d) / 10,
                        d <= 9,
                        d <= limit,
                ;
            } else {
                assert(acc * 10 + d <= limit) by (nonlinear_arith)
                    requires
                        acc <= (limit - d) / 10,
                        d <= limit,
                ;
                acc = acc * 10 + d;
            }
        }
        i = i + 1;
    }
    assert(span(s@, lo, i) == t);
    if over {
        None
    } else {
        Some(acc)
    }
}

fn parse_i8_in(s: &[u8], lo: usize, hi: usize) -> (r: Option<i8>)
    requires
        lo <= hi <= s@.len(),
    ensures
        r == parse_i8(span(s@, lo, hi)),
{
    if lo < hi && s[lo] == 45 {
        assert(span(s@, lo, hi).skip(1) =~= span(s@, (lo + 1) as usize, hi));
        match parse_nat_in(s, lo + 1, hi, 128) {
            Some(n) => Some((0 - (n as i16)) as i8),
            None => None,
        }
    } else {
        match parse_nat_in(s, lo, hi, 127) {
            Some(n) => Some(n as i8),
            None => None,
        }
    }
}

fn parse_entry_in(s: &[u8], lo: usize, hi: usize) -> (r: Option<(Vec<u8>, i8)>)
    requires
        lo <= hi <= s@.len(),
    ensures
        match parse_entry(span(s@, lo, hi)) {
            None => r is None,
            Some(e) => r matches Some(x) && x.0@ == e.0 && x.1 == e.1,
        },
{
    let ghost t = span(s@, lo, hi);
    if !(lo < hi && s[lo] == 39) {
        return None;
    }
    assert(t.skip(1) =~= span(s@, (lo + 1) as usize, hi));
    let q = match find_byte_in(s, lo + 1, hi, 39) {
        Some(q) => q,
        None => {
            return None;
        },
    };
    let ghost qq = (q - lo - 1) as nat;
    proof {
        crate::type_parse::lemma_find_byte_bound(span(s@, (lo + 1) as usize, hi), 39);
    }
    let mut label: Vec<u8> = Vec::new();
    let mut i: usize = lo + 1;
    while i < q
        invariant
            lo + 1 <= i <= q < hi <= s@.len(),
            label@ == span(s@, (lo + 1) as usize, i),
        decreases q - i,
    {
        label.push(s[i]);
        i = i + 1;
    }
    assert(label@ =~= t.subrange(1, qq + 1int));
    assert(t.skip(qq + 2int) =~= span(s@, (q + 1) as usize, hi));
    let a = trim1_in(s, q + 1, hi);
    if !(a < hi && s[a] == 61) {
        return None;
    }
    assert(span(s@, a, hi).skip(1) =~= span(s@, (a + 1) as usize, hi));
    let b = trim1_in(s, a + 1, hi);
    match parse_i8_in(s, b, hi) {
        Some(v) => Some((label, v)),
        None => None,
    }
}

fn parse_entries_in(s: &[u8], lo: usize, hi: usize) -> (r: Option<Vec<(Vec<u8>, i8)>>)
    requires
        lo <= hi <= s@.len(),
    ensures
        match parse_entries(span(s@, lo, hi)) {
            None => r is None,
            Some(es) => r matches Some(v) && entries_view(v@) == es,
        },
    decreases hi - lo,
{
    let ghost t = span(s@, lo, hi);
    match top_comma_in(s, lo, hi) {
        None => match parse_entry_in(s, lo, hi) {
            Some(e) => {
                let mut v: Vec<(Vec<u8>, i8)> = Vec::new();
                v.push(e);
                assert(entries_view(v@) =~= seq![(e.0@, e.1)]);
                Some(v)
            },
            None => None,
        },
        Some(c) => {
            let ghost cc = (c - lo) as nat;
            assert(t.take(cc as int) =~= span(s@, lo, c));
            assert(t.skip(cc + 1int) =~= span(s@, (c + 1) as usize, hi));
            let first = parse_entry_in(s, lo, c);
            let a = trim1_in(s, c + 1, hi);
            let rest = parse_entries_in(s, a, hi);
            match (first, rest) {
                (Some(e), Some(mut v)) => {
                    let ghost ev = entries_view(v@);
                    v.insert(0, e);
                    assert(entries_view(v@) =~= seq![(e.0@, e.1)] + ev);
                    Some(v)
                },
                _ => None,
            }
        },
    }
}

pub proof fn lemma_find_byte_bound(s: Seq<u8>, b: u8)
    ensures
        find_byte(s, b) matches Some(i) ==> i < s.len() && s[i as int] == b,
    decreases s.len(),
{
    if s.len() > 0 && s[0] != b {
        lemma_find_byte_bound(s.skip(1), b);
    }
}

fn nullary_in(s: &[u8], lo: usize, hi: usize) -> (r: Option<ColumnType>)
    requires
        lo <= hi <= s@.len(),
    ensures
        opt_ty(r) == nullary_of(span(s@, lo, hi)),
{
    // "Bool"
    if bytes_eq(s, lo, hi, vec![66, 111, 111, 108].as_slice()) {
        return Some(ColumnType::Bool);
    }
    // "UInt8"
    if bytes_eq(s, lo, hi, vec![85, 73, 110, 116, 56].as_slice()) {
        return Some(ColumnType::UInt8);
    }
    // "UInt16"
    if bytes_eq(s, lo, hi, vec![85, 73, 110, 116, 49, 54].as_slice()) {
        return Some(ColumnType::UInt16);
    }
    // "UInt32"
    if bytes_eq(s, lo, hi, vec![85, 73, 110, 116, 51, 50].as_slice()) {
        return Some(ColumnType::UInt32);
    }
    // "UInt64"
    if bytes_eq(s, lo, hi, vec![85, 73, 110, 116, 54, 52].as_slice()) {
        return Some(ColumnType::UInt64);
    }
    // "UInt128"
    if bytes_eq(s, lo, hi, vec![85, 73, 110, 116, 49, 50, 56].as_slice()) {
        return Some(ColumnType::UInt128);
    }
    // "Int8"
    if bytes_eq(s, lo, hi, vec![73, 110, 116, 56].as_slice()) {
        return Some(ColumnType::Int8);
    }
    // "Int16"
    if bytes_eq(s, lo, hi, vec![73, 110, 116, 49, 54].as_slice()) {
        return Some(ColumnType::Int16);
    }
    // "Int32"
    if bytes_eq(s, lo, hi, vec![73, 110, 116, 51, 50].as_slice()) {
        return Some(ColumnType::Int32);
    }
    // "Int64"
    if bytes_eq(s, lo, hi, vec![73, 110, 116, 54, 52].as_slice()) {
        return Some(ColumnType::Int64);
    }
    // "Int128"
    if bytes_eq(s, lo, hi, vec![73, 110, 116, 49, 50, 56].as_slice()) {
        return Some(ColumnType::Int128);
    }
    // "Float32"
    if bytes_eq(s, lo, hi, vec![70, 108, 111, 97, 116, 51, 50].as_slice()) {
        return Some(ColumnType::Float32);
    }
    // "Float64"
    if bytes_eq(s, lo, hi, vec![70, 108, 111, 97, 116, 54, 52].as_slice()) {
        return Some(ColumnType::Float64);
    }
    // "String"
    if bytes_eq(s, lo, hi, vec![83, 116, 114, 105, 110, 103].as_slice()) {
        return Some(ColumnType::String);
    }
    // "DateTime"
    if bytes_eq(s, lo, hi, vec![68, 97, 116, 101, 84, 105, 109, 101].as_slice()) {
        return Some(ColumnType::DateTime);
    }
    // "UUID"
    if bytes_eq(s, lo, hi, vec![85, 85, 73, 68].as_slice()) {
        return Some(ColumnType::UUID);
    }
    // "IPv4"
    if bytes_eq(s, lo, hi, vec![73, 80, 118, 52].as_slice()) {
        return Some(ColumnType::IPv4);
    }
    // "IPv6"
    if bytes_eq(s, lo, hi, vec![73, 80, 118, 54].as_slice()) {
        return Some(ColumnType::IPv6);
    }
    None
}

proof fn lemma_tys_of_cons(t: ColumnType, v: Seq<ColumnType>)
    ensures
        tys_of(seq![t] + v, v.len() + 1) == seq![ty_of(t)] + tys_of(v, v.len()),
{
    let w = seq![t] + v;
    lemma_tys_of(w, v.len() + 1);
    lemma_tys_of(v, v.len());
    assert forall|i: int| 0 <= i < v.len() + 1 implies #[trigger] tys_of(w, v.len() + 1)[i] == (
    seq![ty_of(t)] + tys_of(v, v.len()))[i] by {
        if i > 0 {
            assert(w[i] == v[i - 1]);
        }
    }
    assert(tys_of(w, v.len() + 1) =~= seq![ty_of(t)] + tys_of(v, v.len()));
}

/// Whether no two variants share a discriminant.
fn distinct_discriminants(es: &Vec<(Vec<u8>, i8)>) -> (r: bool)
    ensures
        r == distinct_tags(entries_view(es@)),
{
    let ghost v = entries_view(es@);
    let mut j: usize = 0;
    while j < es.len()
        invariant
            j <= es@.len(),
            v == entries_view(es@),
            v.len() == es@.len(),
            forall|a: int, b: int| 0 <= a < b < j ==> #[trigger] v[a].1 != #[trigger] v[b].1,
        decreases es@.len() - j,
    {
        let mut i: usize = 0;
        while i < j
            invariant
                i <= j < es@.len(),
                v == entries_view(es@),
                v.len() == es@.len(),
                forall|a: int, b: int| 0 <= a < b < j ==> #[trigger] v[a].1 != #[trigger] v[b].1,
                forall|a: int| 0 <= a < i ==> #[trigger] v[a].1 != v[j as int].1,
            decreases j - i,
        {
            if es[i].1 == es[j].1 {
                assert(v[i as int].1 == v[j as int].1);
                return false;
            }
            i = i + 1;
        }
        j = j + 1;
    }
    true
}

/// Parses `s[lo..hi]` as a column type.
fn parse_range(s: &[u8], lo: usize, hi: usize) -> (r: Option<ColumnType>)
    requires
        lo <= hi <= s@.len(),
    ensures
        opt_ty(r) == parse_type(span(s@, lo, hi)),
    decreases hi - lo, 0nat,
{
    let ghost t = span(s@, lo, hi);
    if let Some(c) = nullary_in(s, lo, hi) {
        return Some(c);
    }
    let p = match find_byte_in(s, lo, hi, 40) {
        Some(p) => p,
        None => {
            return None;
        },
    };
    proof {
        lemma_find_byte_bound(t, 40);
    }
    if !(hi - p >= 2 && s[hi - 1] == 41) {
        return None;
    }
    let ghost pp = (p - lo) as int;
    assert(t.take(pp) =~= span(s@, lo, p));
    assert(t.subrange(pp + 1, t.len() - 1) =~= span(s@, (p + 1) as usize, (hi - 1) as usize));
    parse_param_in(s, lo, p, hi)
}

/// Parses the parametric type `s[lo..p]` `(` `s[p + 1..hi - 1]` `)`.
#[verifier::rlimit(60)]
fn parse_param_in(s: &[u8], lo: usize, p: usize, hi: usize) -> (r: Option<ColumnType>)
    requires
        lo <= p,
        p + 2 <= hi <= s@.len(),
    ensures
        opt_ty(r) == parse_param(span(s@, lo, p), span(s@, (p + 1) as usize, (hi - 1) as usize)),
    decreases hi - p - 2, 2nat,
{
    let b0 = p + 1;
    let b1 = hi - 1;
    // "Array"
    if bytes_eq(s, lo, p, vec![65, 114, 114, 97, 121].as_slice()) {
        return match parse_range(s, b0, b1) {
            Some(a) => Some(ColumnType::Array(Box::new(a))),
            None => None,
        };
    }
    // "Nullable"
    if bytes_eq(s, lo, p, vec![78, 117, 108, 108, 97, 98, 108, 101].as_slice()) {
        return match parse_range(s, b0, b1) {
            Some(a) => Some(ColumnType::Nullable(Box::new(a))),
            None => None,
        };
    }
    // "LowCardinality"
    if bytes_eq(s, lo, p, vec![76, 111, 119, 67, 97, 114, 100, 105, 110, 97, 108, 105, 116, 121].as_slice()) {
        return match parse_range(s, b0, b1) {
            Some(a) => Some(ColumnType::LowCardinality(Box::new(a))),
            None => None,
        };
    }
    // "Map"
    if bytes_eq(s, lo, p, vec![77, 97, 112].as_slice()) {
        let c = match top_comma_in(s, b0, b1) {
            Some(c) => c,
            None => {
                return None;
            },
        };
        let ghost body = span(s@, b0, b1);
        let ghost cc = (c - b0) as int;
        assert(body.take(cc) =~= span(s@, b0, c));
        assert(body.skip(cc + 1) =~= span(s@, (c + 1) as usize, b1));
        let k = parse_range(s, b0, c);
        let a = trim1_in(s, c + 1, b1);
        let v = parse_range(s, a, b1);
        return match (k, v) {
            (Some(k), Some(v)) => Some(ColumnType::MapOf(Box::new(k), Box::new(v))),
            _ => None,
        };
    }
    // "Tuple"
    if bytes_eq(s, lo, p, vec![84, 117, 112, 108, 101].as_slice()) {
        return match parse_items_in(s, b0, b1) {
            Some(ts) => Some(ColumnType::Tuple(ts)),
            None => None,
        };
    }
    // "Enum8"
    if bytes_eq(s, lo, p, vec![69, 110, 117, 109, 56].as_slice()) {
        return match parse_entries_in(s, b0, b1) {
            Some(es) => if distinct_discriminants(&es) {
                Some(ColumnType::Enum8(es))
            } else {
                None
            },
            None => None,
        };
    }
    // "FixedString"
    if bytes_eq(s, lo, p, vec![70, 105, 120, 101, 100, 83, 116, 114, 105, 110, 103].as_slice()) {
        return match parse_nat_in(s, b0, b1, usize::MAX as u64) {
            Some(n) => Some(ColumnType::FixedString(n as usize)),
            None => None,
        };
    }
    None
}

/// Parses `s[lo..hi]` as the members of a tuple.
fn parse_items_in(s: &[u8], lo: usize, hi: usize) -> (r: Option<Vec<ColumnType>>)
    requires
        lo <= hi <= s@.len(),
    ensures
        match parse_items(span(s@, lo, hi)) {
            None => r is None,
            Some(ts) => r matches Some(v) && tys_of(v@, v@.len()) == ts,
        },
    decreases hi - lo, 1nat,
{
    let ghost t = span(s@, lo, hi);
    match top_comma_in(s, lo, hi) {
        None => match parse_range(s, lo, hi) {
            Some(c) => {
                let mut v: Vec<ColumnType> = Vec::new();
                v.push(c);
                proof {
                    lemma_tys_of(v@, 1);
                }
                assert(tys_of(v@, v@.len()) =~= seq![v@[0]@]);
                Some(v)
            },
            None => None,
        },
        Some(c) => {
            let ghost cc = (c - lo) as int;
            assert(t.take(cc) =~= span(s@, lo, c));
            assert(t.skip(cc + 1) =~= span(s@, (c + 1) as usize, hi));
            let first = parse_range(s, lo, c);
            let a = trim1_in(s, c + 1, hi);
            let rest = parse_items_in(s, a, hi);
            match (first, rest) {
                (Some(f), Some(mut v)) => {
                    let ghost old_v = v@;
                    let ghost fv = f@;
                    v.insert(0, f);
                    proof {
                        assert(v@ =~= seq![v@[0]] + old_v);
                        lemma_tys_of_cons(v@[0], old_v);
                    }
                    Some(v)
                },
                _ => None,
            }
        },
    }
}

impl ColumnType {
    /// Parses the textual form of a column type, as the server announces it.
    pub fn parse(bytes: &[u8]) -> (r: Result<ColumnType, Error>)
        ensures
            match parse_type(bytes@) {
                Some(t) => r matches Ok(c) && c@ == t,
                None => r matches Err(Error::UnsupportedColumn(m)) && m@ == utf8_lossy(bytes@),
            },
    {
        let n = bytes.len();
        assert(span(bytes@, 0, n) =~= bytes@);
        match parse_range(bytes, 0, bytes.len()) {
            Some(c) => Ok(c),
            None => Err(Error::UnsupportedColumn(lossy_text(bytes))),
        }
    }
}

} // verus!
