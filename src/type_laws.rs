//! The parser reads back what the printer writes.
use vstd::prelude::*;

use crate::type_text::{
    all_digits, dec, dec_i8, dec_value, depth_step, entries_text, entry_text, find_byte, is_digit,
    items_text, kw_array, kw_enum8, kw_fixed_string, kw_low_cardinality, kw_map, kw_nullable,
    kw_tuple, distinct_tags, nullary_name, nullary_of, parse_entries, parse_entry, parse_i8, parse_items,
    parse_nat, parse_param, parse_type, top_comma, trim1, type_text, wrapped, Ty,
};

verus! {

/// Scanning `x` from depth `d`: `None` when it meets a comma at depth zero,
/// else the depth after its last byte.
pub open spec fn scan(x: Seq<u8>, d: int) -> Option<int>
    decreases x.len(),
{
    if x.len() == 0 {
        Some(d)
    } else if x[0] == 44 && d == 0 {
        None
    } else {
        scan(x.skip(1), d + depth_step(x[0]))
    }
}

/// No parenthesis and no comma.
pub open spec fn plain(x: Seq<u8>) -> bool {
    forall|i: int| 0 <= i < x.len() ==> #[trigger] x[i] != 40 && x[i] != 41 && x[i] != 44
}

/// A label that the printer can write and the parser read back: no quote,
/// no parenthesis and no comma.
pub open spec fn plain_label(x: Seq<u8>) -> bool {
    plain(x) && forall|i: int| 0 <= i < x.len() ==> #[trigger] x[i] != 39
}

pub open spec fn plain_entries(es: Seq<(Seq<u8>, i8)>) -> bool {
    forall|i: int| 0 <= i < es.len() ==> #[trigger] plain_label(es[i].0)
}

/// The column types whose textual form the parser reads back: sizes fit in
/// a `usize`, tuples and enumerations are not empty, labels are plain, and
/// no two variants of an enumeration share a discriminant.
pub open spec fn printable(t: Ty) -> bool
    decreases t, 0nat,
{
    match t {
        Ty::FixedString(n) => n <= usize::MAX,
        Ty::Array(a) => printable(*a),
        Ty::Nullable(a) => printable(*a),
        Ty::LowCardinality(a) => printable(*a),
        Ty::MapOf(k, v) => printable(*k) && printable(*v),
        Ty::Enum8(es) => es.len() > 0 && plain_entries(es) && distinct_tags(es),
        Ty::Tuple(ts) => ts.len() > 0 && all_printable(ts),
        _ => true,
    }
}

pub open spec fn all_printable(ts: Seq<Ty>) -> bool
    decreases ts, 0nat,
{
    forall|i: int| 0 <= i < ts.len() ==> printable(#[trigger] ts[i])
}

proof fn lemma_scan_concat(x: Seq<u8>, y: Seq<u8>, d: int)
    ensures
        scan(x + y, d) == match scan(x, d) {
            Some(e) => scan(y, e),
            None => None,
        },
    decreases x.len(),
{
    if x.len() > 0 {
        assert((x + y).skip(1) =~= x.skip(1) + y);
        assert((x + y)[0] == x[0]);
        lemma_scan_concat(x.skip(1), y, d + depth_step(x[0]));
    } else {
        assert(x + y =~= y);
    }
}

proof fn lemma_scan_plain(x: Seq<u8>, d: int)
    requires
        plain(x),
    ensures
        scan(x, d) == Some(d),
    decreases x.len(),
{
    if x.len() > 0 {
        assert(plain(x.skip(1))) by {
            assert forall|i: int| 0 <= i < x.skip(1).len() implies #[trigger] x.skip(1)[i] != 40
                && x.skip(1)[i] != 41 && x.skip(1)[i] != 44 by {
                assert(x.skip(1)[i] == x[i + 1]);
            }
        }
        lemma_scan_plain(x.skip(1), d);
    }
}

/// A comma outside parentheses in `x + r`, where the scan of `x` meets none,
/// is one of `r`.
proof fn lemma_top_comma_after(x: Seq<u8>, r: Seq<u8>, d: int)
    requires
        scan(x, d) is Some,
    ensures
        top_comma(x + r, d) == match top_comma(r, scan(x, d)->Some_0) {
            Some(i) => Some(i + x.len()),
            None => None::<nat>,
        },
    decreases x.len(),
{
    if x.len() > 0 {
        assert((x + r).skip(1) =~= x.skip(1) + r);
        assert((x + r)[0] == x[0]);
        lemma_top_comma_after(x.skip(1), r, d + depth_step(x[0]));
    } else {
        assert(x + r =~= r);
    }
}

proof fn lemma_dec(n: nat)
    ensures
        dec(n).len() > 0,
        all_digits(dec(n)),
        plain(dec(n)),
        dec_value(dec(n)) == n,
    decreases n,
{
    let s = dec(n);
    if n >= 10 {
        lemma_dec(n / 10);
        let t = dec(n / 10);
        assert(s.drop_last() =~= t);
        assert forall|i: int| 0 <= i < s.len() implies is_digit(#[trigger] s[i]) by {
            if i < t.len() {
                assert(s[i] == t[i]);
            }
        }
        assert forall|i: int| 0 <= i < s.len() implies #[trigger] s[i] != 40 && s[i] != 41 && s[i]
            != 44 by {
            if i < t.len() {
                assert(s[i] == t[i]);
            }
        }
    } else {
        assert(s.drop_last() =~= Seq::<u8>::empty());
        assert(dec_value(Seq::<u8>::empty()) == 0);
    }
}

proof fn lemma_parse_nat_dec(n: nat, limit: nat)
    requires
        n <= limit,
    ensures
        parse_nat(dec(n), limit) == Some(n),
{
    lemma_dec(n);
}

proof fn lemma_parse_i8_dec(v: i8)
    ensures
        parse_i8(dec_i8(v)) == Some(v),
        plain(dec_i8(v)),
{
    if v < 0 {
        let m = (-v) as nat;
        lemma_dec(m);
        let s = dec_i8(v);
        assert(s.skip(1) =~= dec(m));
        lemma_parse_nat_dec(m, 128);
        assert forall|i: int| 0 <= i < s.len() implies #[trigger] s[i] != 40 && s[i] != 41 && s[i]
            != 44 by {
            if i > 0 {
                assert(s[i] == dec(m)[i - 1]);
            }
        }
    } else {
        lemma_dec(v as nat);
        assert(is_digit(dec(v as nat)[0]));
        lemma_parse_nat_dec(v as nat, 127);
    }
}

proof fn lemma_find_byte_concat(x: Seq<u8>, y: Seq<u8>, b: u8)
    requires
        forall|i: int| 0 <= i < x.len() ==> #[trigger] x[i] != b,
    ensures
        find_byte(x + y, b) == match find_byte(y, b) {
            Some(i) => Some(i + x.len()),
            None => None::<nat>,
        },
    decreases x.len(),
{
    if x.len() > 0 {
        assert((x + y).skip(1) =~= x.skip(1) + y);
        assert((x + y)[0] == x[0]);
        assert forall|i: int| 0 <= i < x.skip(1).len() implies #[trigger] x.skip(1)[i] != b by {
            assert(x.skip(1)[i] == x[i + 1]);
        }
        lemma_find_byte_concat(x.skip(1), y, b);
    } else {
        assert(x + y =~= y);
    }
}

#[verifier::spinoff_prover]
#[verifier::rlimit(60)]
proof fn lemma_entry(e: (Seq<u8>, i8))
    requires
        plain_label(e.0),
    ensures
        parse_entry(entry_text(e)) == Some(e),
        plain(entry_text(e)),
{
    let label = e.0;
    let d = dec_i8(e.1);
    lemma_parse_i8_dec(e.1);
    let tail = seq![39u8, 32, 61, 32] + d;
    let s = entry_text(e);
    assert(s =~= seq![39u8] + (label + tail));
    assert(s.skip(1) =~= label + tail);
    lemma_find_byte_concat(label, tail, 39);
    let q = label.len();
    assert(s.subrange(1, q + 1int) =~= label);
    assert(s.skip(q + 2int) =~= seq![32u8, 61, 32] + d);
    let after = trim1(s.skip(q + 2int));
    assert(after =~= seq![61u8, 32] + d);
    assert(trim1(after.skip(1)) =~= d);
    assert forall|i: int| 0 <= i < s.len() implies #[trigger] s[i] != 40 && s[i] != 41 && s[i]
        != 44 by {
        if 1 <= i < q + 1 {
            assert(s[i] == label[i - 1]);
        } else if i >= q + 5 {
            assert(s[i] == d[i - q - 5]);
        }
    }
}

proof fn lemma_entries_split(es: Seq<(Seq<u8>, i8)>, k: nat)
    requires
        2 <= k <= es.len(),
    ensures
        entries_text(es, k) == entry_text(es[0]) + seq![44u8, 32] + entries_text(
            es.skip(1),
            (k - 1) as nat,
        ),
    decreases k,
{
    let t = es.skip(1);
    assert(t[k - 2] == es[k - 1]);
    let sep = seq![44u8, 32];
    if k == 2 {
        assert(t[0] == es[1]);
        assert(entries_text(es, 1) == entry_text(es[0]));
        assert(entries_text(t, 1) == entry_text(t[0]));
        assert(entries_text(es, 2) == entries_text(es, 1) + sep + entry_text(es[1]));
        assert(entries_text(es, 2) =~= entry_text(es[0]) + sep + entries_text(t, 1));
    } else {
        lemma_entries_split(es, (k - 1) as nat);
        assert(entries_text(es, k) == entries_text(es, (k - 1) as nat) + sep + entry_text(es[k - 1]));
        assert(entries_text(t, (k - 1) as nat) == entries_text(t, (k - 2) as nat) + sep + entry_text(
            t[k - 2],
        ));
        assert(entries_text(es, k) =~= entry_text(es[0]) + sep + entries_text(t, (k - 1) as nat));
    }
}

#[verifier::spinoff_prover]
#[verifier::rlimit(60)]
proof fn lemma_parse_entries_text(es: Seq<(Seq<u8>, i8)>)
    requires
        es.len() >= 1,
        plain_entries(es),
    ensures
        parse_entries(entries_text(es, es.len())) == Some(es),
    decreases es.len(),
{
    let e0 = es[0];
    lemma_entry(e0);
    let x = entry_text(e0);
    lemma_scan_plain(x, 0);
    if es.len() == 1 {
        assert(entries_text(es, 1) == x);
        lemma_top_comma_after(x, Seq::<u8>::empty(), 0);
        assert(x + Seq::<u8>::empty() =~= x);
        assert(seq![e0] =~= es);
    } else {
        let t = es.skip(1);
        assert forall|i: int| 0 <= i < t.len() implies #[trigger] plain_label(t[i].0) by {
            assert(t[i] == es[i + 1]);
        }
        lemma_parse_entries_text(t);
        lemma_entries_split(es, es.len());
        let r = entries_text(t, t.len());
        let s = entries_text(es, es.len());
        assert(s =~= x + (seq![44u8, 32] + r));
        lemma_top_comma_after(x, seq![44u8, 32] + r, 0);
        assert(s.take(x.len() as int) =~= x);
        assert(s.skip(x.len() + 1int) =~= seq![32u8] + r);
        assert(trim1(s.skip(x.len() + 1int)) =~= r);
        assert(seq![e0] + t =~= es);
    }
}

proof fn lemma_scan_separator(r: Seq<u8>, d: int)
    requires
        d >= 1,
    ensures
        scan(seq![44u8, 32] + r, d) == scan(r, d),
{
    let s = seq![44u8, 32] + r;
    assert(s[0] == 44);
    assert(depth_step(44) == 0);
    assert(s.skip(1) =~= seq![32u8] + r);
    assert(s.skip(1)[0] == 32);
    assert(depth_step(32) == 0);
    assert(s.skip(1).skip(1) =~= r);
    assert(scan(s, d) == scan(s.skip(1), d));
    assert(scan(s.skip(1), d) == scan(s.skip(1).skip(1), d));
}

proof fn lemma_scan_entries(es: Seq<(Seq<u8>, i8)>, d: int)
    requires
        es.len() >= 1,
        plain_entries(es),
        d >= 1,
    ensures
        scan(entries_text(es, es.len()), d) == Some(d),
    decreases es.len(),
{
    lemma_entry(es[0]);
    let x = entry_text(es[0]);
    lemma_scan_plain(x, d);
    if es.len() == 1 {
        assert(entries_text(es, 1) == x);
    } else {
        let t = es.skip(1);
        assert forall|i: int| 0 <= i < t.len() implies #[trigger] plain_label(t[i].0) by {
            assert(t[i] == es[i + 1]);
        }
        lemma_scan_entries(t, d);
        lemma_entries_split(es, es.len());
        let r = entries_text(t, t.len());
        lemma_scan_concat(x, seq![44u8, 32] + r, d);
        lemma_scan_separator(r, d);
        assert(entries_text(es, es.len()) =~= x + (seq![44u8, 32] + r));
    }
}

proof fn lemma_keywords()
    ensures
        plain(kw_array()),
        plain(kw_nullable()),
        plain(kw_low_cardinality()),
        plain(kw_map()),
        plain(kw_tuple()),
        plain(kw_enum8()),
        plain(kw_fixed_string()),
        kw_tuple() != kw_array(),
        kw_enum8() != kw_array(),
        kw_enum8() != kw_tuple(),
{
    assert(kw_tuple()[0] != kw_array()[0]);
    assert(kw_enum8()[0] != kw_array()[0]);
    assert(kw_enum8()[0] != kw_tuple()[0]);
}

proof fn lemma_nullary(t: Ty)
    requires
        nullary_name(t) is Some,
    ensures
        plain(nullary_name(t).unwrap()),
        4 <= nullary_name(t).unwrap().len() <= 8,
        type_text(t) == nullary_name(t).unwrap(),
        parse_type(type_text(t)) == Some(t),
{
    let n = nullary_name(t).unwrap();
    let b = nullary_name(Ty::Bool).unwrap();
    let u8n = nullary_name(Ty::UInt8).unwrap();
    let u16n = nullary_name(Ty::UInt16).unwrap();
    let u32n = nullary_name(Ty::UInt32).unwrap();
    let u64n = nullary_name(Ty::UInt64).unwrap();
    let u128n = nullary_name(Ty::UInt128).unwrap();
    let i8n = nullary_name(Ty::Int8).unwrap();
    let i16n = nullary_name(Ty::Int16).unwrap();
    let i32n = nullary_name(Ty::Int32).unwrap();
    let i64n = nullary_name(Ty::Int64).unwrap();
    let i128n = nullary_name(Ty::Int128).unwrap();
    let f32n = nullary_name(Ty::Float32).unwrap();
    let f64n = nullary_name(Ty::Float64).unwrap();
    let sn = nullary_name(Ty::String).unwrap();
    let dn = nullary_name(Ty::DateTime).unwrap();
    let un = nullary_name(Ty::UUID).unwrap();
    let v4 = nullary_name(Ty::IPv4).unwrap();
    let v6 = nullary_name(Ty::IPv6).unwrap();
    assert(b[0] != i8n[0] && b[0] != un[0] && b[0] != v4[0] && b[0] != v6[0]);
    assert(i8n[1] != un[1] && i8n[1] != v4[1] && i8n[1] != v6[1]);
    assert(un[0] != v4[0] && un[0] != v6[0]);
    assert(v4[3] != v6[3]);
    assert(u8n[0] != i16n[0] && u8n[0] != i32n[0] && u8n[0] != i64n[0]);
    assert(i16n[3] != i32n[3] && i16n[3] != i64n[3] && i32n[3] != i64n[3]);
    assert(u16n[4] != u32n[4] && u16n[4] != u64n[4] && u32n[4] != u64n[4]);
    assert(u16n[0] != i128n[0] && u32n[0] != i128n[0] && u64n[0] != i128n[0]);
    assert(u16n[0] != sn[0] && u32n[0] != sn[0] && u64n[0] != sn[0] && i128n[0] != sn[0]);
    assert(u128n[0] != f32n[0] && u128n[0] != f64n[0] && f32n[5] != f64n[5]);
    assert(plain(n));
}

proof fn lemma_wrapped(name: Seq<u8>, inner: Seq<u8>, d: int)
    requires
        plain(name),
        scan(inner, d + 1) == Some(d + 1),
    ensures
        scan(wrapped(name, inner), d) == Some(d),
{
    lemma_scan_plain(name, d);
    lemma_scan_concat(name, seq![40u8], d);
    assert(scan(seq![40u8], d) == Some(d + 1)) by {
        assert(seq![40u8][0] == 40);
        assert(depth_step(40) == 1);
        assert(seq![40u8].skip(1) =~= Seq::<u8>::empty());
        assert(scan(Seq::<u8>::empty(), d + 1) == Some(d + 1));
    }
    lemma_scan_concat(name + seq![40u8], inner, d);
    lemma_scan_concat(name + seq![40u8] + inner, seq![41u8], d);
    assert(scan(seq![41u8], d + 1) == Some(d)) by {
        assert(seq![41u8][0] == 41);
        assert(depth_step(41) == -1);
        assert(seq![41u8].skip(1) =~= Seq::<u8>::empty());
        assert(scan(Seq::<u8>::empty(), d) == Some(d));
    }
}

/// The parse of `name(inner)`, when `name` is a keyword of a parametric type.
proof fn lemma_parse_wrapped(name: Seq<u8>, inner: Seq<u8>)
    requires
        plain(name),
        wrapped(name, inner).len() > 8,
    ensures
        parse_type(wrapped(name, inner)) == parse_param(name, inner),
{
    let s = wrapped(name, inner);
    assert(nullary_of(s) is None);
    assert(forall|i: int| 0 <= i < name.len() ==> #[trigger] name[i] != 40);
    lemma_find_byte_concat(name, seq![40u8] + inner + seq![41u8], 40);
    assert(s =~= name + (seq![40u8] + inner + seq![41u8]));
    assert(find_byte(s, 40) == Some(name.len()));
    assert(s.take(name.len() as int) =~= name);
    assert(s.subrange(name.len() + 1int, s.len() - 1int) =~= inner);
}

proof fn lemma_items_split(ts: Seq<Ty>, k: nat)
    requires
        2 <= k <= ts.len(),
    ensures
        items_text(ts, k) == type_text(ts[0]) + seq![44u8, 32] + items_text(ts.skip(1), (k - 1) as nat),
    decreases k,
{
    let t = ts.skip(1);
    assert(t[k - 2] == ts[k - 1]);
    let sep = seq![44u8, 32];
    if k == 2 {
        assert(t[0] == ts[1]);
        assert(items_text(ts, 1) == type_text(ts[0]));
        assert(items_text(t, 1) == type_text(t[0]));
        assert(items_text(ts, 2) == items_text(ts, 1) + sep + type_text(ts[1]));
        assert(items_text(ts, 2) =~= type_text(ts[0]) + sep + items_text(t, 1));
    } else {
        lemma_items_split(ts, (k - 1) as nat);
        assert(items_text(ts, k) == items_text(ts, (k - 1) as nat) + sep + type_text(ts[k - 1]));
        assert(items_text(t, (k - 1) as nat) == items_text(t, (k - 2) as nat) + sep + type_text(
            t[k - 2],
        ));
        assert(items_text(ts, k) =~= type_text(ts[0]) + sep + items_text(t, (k - 1) as nat));
    }
}

proof fn lemma_scan_text(t: Ty, d: int)
    requires
        printable(t),
        d >= 0,
    ensures
        scan(type_text(t), d) == Some(d),
        type_text(t).len() >= 4,
    decreases t, 0nat,
{
    lemma_keywords();
    match t {
        Ty::FixedString(n) => {
            lemma_dec(n);
            lemma_scan_plain(dec(n), d + 1);
            lemma_wrapped(kw_fixed_string(), dec(n), d);
        },
        Ty::Array(a) => {
            lemma_scan_text(*a, d + 1);
            lemma_wrapped(kw_array(), type_text(*a), d);
        },
        Ty::Nullable(a) => {
            lemma_scan_text(*a, d + 1);
            lemma_wrapped(kw_nullable(), type_text(*a), d);
        },
        Ty::LowCardinality(a) => {
            lemma_scan_text(*a, d + 1);
            lemma_wrapped(kw_low_cardinality(), type_text(*a), d);
        },
        Ty::MapOf(k, v) => {
            lemma_scan_text(*k, d + 1);
            lemma_scan_text(*v, d + 1);
            let inner = type_text(*k) + seq![44u8, 32] + type_text(*v);
            lemma_scan_concat(type_text(*k), seq![44u8, 32] + type_text(*v), d + 1);
            lemma_scan_separator(type_text(*v), d + 1);
            assert(inner =~= type_text(*k) + (seq![44u8, 32] + type_text(*v)));
            lemma_wrapped(kw_map(), inner, d);
        },
        Ty::Enum8(es) => {
            lemma_scan_entries(es, d + 1);
            lemma_wrapped(kw_enum8(), entries_text(es, es.len()), d);
        },
        Ty::Tuple(ts) => {
            lemma_scan_items(ts, d + 1);
            lemma_wrapped(kw_tuple(), items_text(ts, ts.len()), d);
        },
        _ => {
            lemma_nullary(t);
            lemma_scan_plain(type_text(t), d);
        },
    }
}

proof fn lemma_scan_items(ts: Seq<Ty>, d: int)
    requires
        ts.len() >= 1,
        all_printable(ts),
        d >= 1,
    ensures
        scan(items_text(ts, ts.len()), d) == Some(d),
        items_text(ts, ts.len()).len() >= type_text(ts[0]).len(),
    decreases ts, 1nat,
{
    assert(printable(ts[0]));
    lemma_scan_text(ts[0], d);
    let x = type_text(ts[0]);
    if ts.len() == 1 {
        assert(items_text(ts, 1) == x);
    } else {
        let t = ts.subrange(1, ts.len() as int);
        assert(t =~= ts.skip(1));
        assert forall|i: int| 0 <= i < t.len() implies printable(#[trigger] t[i]) by {
            assert(t[i] == ts[i + 1]);
        }
        lemma_scan_items(t, d);
        lemma_items_split(ts, ts.len());
        let r = items_text(t, t.len());
        lemma_scan_concat(x, seq![44u8, 32] + r, d);
        lemma_scan_separator(r, d);
        assert(items_text(ts, ts.len()) =~= x + (seq![44u8, 32] + r));
    }
}

/// The parser reads back the text that the printer writes, for every column
/// type whose sizes fit in a `usize`, whose tuples and enumerations are not
/// empty, and whose enumeration labels hold no quote, parenthesis or comma.
pub proof fn lemma_parse_print(t: Ty)
    requires
        printable(t),
    ensures
        parse_type(type_text(t)) == Some(t),
    decreases t, 1nat,
{
    lemma_keywords();
    lemma_scan_text(t, 0);
    match t {
        Ty::FixedString(n) => {
            lemma_dec(n);
            lemma_parse_wrapped(kw_fixed_string(), dec(n));
            lemma_parse_nat_dec(n, usize::MAX as nat);
        },
        Ty::Array(a) => {
            lemma_scan_text(*a, 0);
            lemma_parse_wrapped(kw_array(), type_text(*a));
            lemma_parse_print(*a);
        },
        Ty::Nullable(a) => {
            lemma_scan_text(*a, 0);
            lemma_parse_wrapped(kw_nullable(), type_text(*a));
            lemma_parse_print(*a);
        },
        Ty::LowCardinality(a) => {
            lemma_scan_text(*a, 0);
            lemma_parse_wrapped(kw_low_cardinality(), type_text(*a));
            lemma_parse_print(*a);
        },
        Ty::MapOf(_, _) => {
            lemma_parse_print_map(t);
        },
        Ty::Enum8(es) => {
            lemma_entry(es[0]);
            lemma_scan_entries(es, 1);
            lemma_parse_entries_text(es);
            let inner = entries_text(es, es.len());
            assert(inner.len() >= 1) by {
                if es.len() >= 2 {
                    lemma_entries_split(es, es.len());
                }
            }
            lemma_parse_wrapped(kw_enum8(), inner);
        },
        Ty::Tuple(ts) => {
            assert(all_printable(ts));
            lemma_scan_items(ts, 1);
            assert(printable(ts[0]));
            lemma_scan_text(ts[0], 0);
            lemma_parse_items_text(ts);
            lemma_parse_wrapped(kw_tuple(), items_text(ts, ts.len()));
        },
        _ => {
            lemma_nullary(t);
        },
    }
}

proof fn lemma_parse_print_map(t: Ty)
    requires
        printable(t),
        t is MapOf,
    ensures
        parse_type(type_text(t)) == Some(t),
    decreases t, 0nat,
{
    lemma_keywords();
    let k = *t->MapOf_0;
    let v = *t->MapOf_1;
    lemma_scan_text(k, 0);
    lemma_scan_text(v, 0);
    lemma_parse_print(k);
    lemma_parse_print(v);
    let x = type_text(k);
    let y = type_text(v);
    let inner = x + seq![44u8, 32] + y;
    lemma_parse_wrapped(kw_map(), inner);
    assert(inner =~= x + (seq![44u8, 32] + y));
    lemma_top_comma_after(x, seq![44u8, 32] + y, 0);
    assert((seq![44u8, 32] + y)[0] == 44);
    assert(top_comma(inner, 0) == Some(x.len()));
    assert(inner.take(x.len() as int) =~= x);
    assert(inner.skip(x.len() + 1int) =~= seq![32u8] + y);
    assert(trim1(inner.skip(x.len() + 1int)) =~= y);
}

proof fn lemma_parse_items_text(ts: Seq<Ty>)
    requires
        ts.len() >= 1,
        all_printable(ts),
    ensures
        parse_items(items_text(ts, ts.len())) == Some(ts),
    decreases ts, 2nat,
{
    assert(printable(ts[0]));
    lemma_scan_text(ts[0], 0);
    lemma_parse_print(ts[0]);
    let x = type_text(ts[0]);
    if ts.len() == 1 {
        assert(items_text(ts, 1) == x);
        lemma_top_comma_after(x, Seq::<u8>::empty(), 0);
        assert(x + Seq::<u8>::empty() =~= x);
        assert(seq![ts[0]] =~= ts);
    } else {
        let t = ts.subrange(1, ts.len() as int);
        assert(t =~= ts.skip(1));
        assert forall|i: int| 0 <= i < t.len() implies printable(#[trigger] t[i]) by {
            assert(t[i] == ts[i + 1]);
        }
        lemma_parse_items_text(t);
        lemma_items_split(ts, ts.len());
        let r = items_text(t, t.len());
        let s = items_text(ts, ts.len());
        assert(s =~= x + (seq![44u8, 32] + r));
        lemma_top_comma_after(x, seq![44u8, 32] + r, 0);
        assert((seq![44u8, 32] + r)[0] == 44);
        assert(s.take(x.len() as int) =~= x);
        assert(s.skip(x.len() + 1int) =~= seq![32u8] + r);
        assert(trim1(s.skip(x.len() + 1int)) =~= r);
        assert(seq![ts[0]] + t =~= ts);
    }
}

} // verus!
