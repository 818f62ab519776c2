use streamhouse::composite::{single_column, Array};
use streamhouse::types::{
    read_enum8, write_enum8, DateTime, Ipv4Addr, Ipv6Addr, KeyValues, LowCardinality, Uuid,
};
use streamhouse::{Bytes, ColumnType, Error, Row, WriteRowBinary};

fn encoded<R: Row>(v: &R) -> Vec<u8> {
    let mut out = Vec::new();
    v.write(&mut out);
    out
}

fn decoded<R: Row>(bytes: Vec<u8>) -> (Result<R, Error>, usize) {
    let mut b = Bytes::new(bytes);
    let r = R::read(&mut b);
    (r, b.position())
}

#[test]
fn u8_type_name() {
    assert_eq!(b"UInt8".to_vec(), u8::columns("")[0].column_type.to_text());
}

#[test]
fn leb128_encodings() {
    let cases: Vec<(u64, Vec<u8>)> = vec![
        (0, vec![0x00]),
        (1, vec![0x01]),
        (127, vec![0x7f]),
        (128, vec![0x80, 0x01]),
        (300, vec![0xac, 0x02]),
        (16383, vec![0xff, 0x7f]),
        (16384, vec![0x80, 0x80, 0x01]),
        (
            u64::MAX,
            vec![0xff, 0xff, 0xff, 0xff, 0xff, 0xff, 0xff, 0xff, 0xff, 0x01],
        ),
    ];
    for (n, bytes) in cases {
        let mut out: Vec<u8> = Vec::new();
        out.write_leb128(n);
        assert_eq!(out, bytes);
        let mut b = Bytes::new(bytes.clone());
        assert_eq!(b.read_leb128().unwrap(), n);
        assert_eq!(b.remaining(), 0);
    }
}

#[test]
fn leb128_length_is_minimal() {
    for (n, len) in [(0u64, 1usize), (127, 1), (128, 2), (1 << 14, 3), (1 << 63, 10)] {
        let mut out: Vec<u8> = Vec::new();
        out.write_leb128(n);
        assert_eq!(out.len(), len);
    }
}

#[test]
fn leb128_short_read_leaves_cursor() {
    let mut b = Bytes::new(vec![0x80, 0x80]);
    assert!(matches!(b.read_leb128(), Err(Error::NotEnoughData)));
    assert_eq!(b.position(), 0);
    b.push_chunk(&vec![0x01, 0x07]);
    assert_eq!(b.read_leb128().unwrap(), 1 << 14);
    assert_eq!(b.remaining(), 1);
}

#[test]
fn scalar_round_trips() {
    for v in [0u8, 1, 200, 255] {
        assert_eq!(decoded::<u8>(encoded(&v)).0.unwrap(), v);
    }
    for v in [i8::MIN, -3, 0, 7, i8::MAX] {
        assert_eq!(decoded::<i8>(encoded(&v)).0.unwrap(), v);
    }
    for v in [0u16, 2, 0x1234, u16::MAX] {
        assert_eq!(decoded::<u16>(encoded(&v)).0.unwrap(), v);
    }
    for v in [i16::MIN, -127, 0, i16::MAX] {
        assert_eq!(decoded::<i16>(encoded(&v)).0.unwrap(), v);
    }
    for v in [0u32, 3, u32::MAX] {
        assert_eq!(decoded::<u32>(encoded(&v)).0.unwrap(), v);
    }
    for v in [i32::MIN, -1, 137, i32::MAX] {
        assert_eq!(decoded::<i32>(encoded(&v)).0.unwrap(), v);
    }
    for v in [0u64, 123456, u64::MAX] {
        assert_eq!(decoded::<u64>(encoded(&v)).0.unwrap(), v);
    }
    for v in [i64::MIN, 0xffff, i64::MAX] {
        assert_eq!(decoded::<i64>(encoded(&v)).0.unwrap(), v);
    }
    for v in [0u128, 1 << 123, u128::MAX] {
        assert_eq!(decoded::<u128>(encoded(&v)).0.unwrap(), v);
    }
    for v in [i128::MIN, -1, 0, i128::MAX] {
        assert_eq!(decoded::<i128>(encoded(&v)).0.unwrap(), v);
    }
    for v in [false, true] {
        assert_eq!(decoded::<bool>(encoded(&v)).0.unwrap(), v);
    }
}

#[test]
fn integers_are_little_endian() {
    assert_eq!(encoded(&0x1234u16), vec![0x34, 0x12]);
    assert_eq!(encoded(&123456u64), vec![0x40, 0xe2, 0x01, 0, 0, 0, 0, 0]);
    assert_eq!(encoded(&-1i32), vec![0xff, 0xff, 0xff, 0xff]);
    assert_eq!(encoded(&-3i8), vec![0xfd]);
    assert_eq!(decoded::<i16>(vec![0x81, 0xff]).0.unwrap(), -127);
}

#[test]
fn bool_reads_any_nonzero_as_true() {
    assert_eq!(encoded(&true), vec![1]);
    assert_eq!(encoded(&false), vec![0]);
    assert!(decoded::<bool>(vec![2]).0.unwrap());
    assert!(!decoded::<bool>(vec![0]).0.unwrap());
}

#[test]
fn short_reads_fail_and_keep_position() {
    let (r, pos) = decoded::<u32>(vec![1, 2, 3]);
    assert!(matches!(r, Err(Error::NotEnoughData)));
    assert_eq!(pos, 0);
    let (r, pos) = decoded::<(u8, u16)>(vec![1, 2]);
    assert!(matches!(r, Err(Error::NotEnoughData)));
    assert_eq!(pos, 0);
    let (r, pos) = decoded::<String>(vec![5, b'a', b'b']);
    assert!(matches!(r, Err(Error::NotEnoughData)));
    assert_eq!(pos, 0);
}

#[test]
fn strings_and_bytes() {
    let s = "Hello world".to_string();
    let bytes = encoded(&s);
    assert_eq!(bytes[0], 11);
    assert_eq!(&bytes[1..], b"Hello world");
    assert_eq!(decoded::<String>(bytes).0.unwrap(), s);
    let raw = b"Hello world\0".to_vec();
    assert_eq!(decoded::<Vec<u8>>(encoded(&raw)).0.unwrap(), raw);
    assert_eq!(encoded(&String::new()), vec![0]);
}

#[test]
fn invalid_utf8_is_rejected() {
    let (r, pos) = decoded::<String>(vec![2, 0xff, 0xfe]);
    assert!(matches!(r, Err(Error::InvalidUnicode)));
    assert_eq!(pos, 0);
    assert_eq!(decoded::<Vec<u8>>(vec![2, 0xff, 0xfe]).0.unwrap(), vec![0xff, 0xfe]);
}

#[test]
fn scenario_string_and_u8_rows() {
    let rows = vec![("David".to_string(), 49u8), ("Roundy".to_string(), 49u8)];
    let mut out = Vec::new();
    for (name, age) in &rows {
        name.write(&mut out);
        age.write(&mut out);
    }
    let mut expected = vec![5];
    expected.extend_from_slice(b"David");
    expected.push(0x31);
    expected.push(6);
    expected.extend_from_slice(b"Roundy");
    expected.push(0x31);
    assert_eq!(out, expected);
}

#[test]
fn scenario_nullable_strings() {
    let mut out = Vec::new();
    None::<String>.write(&mut out);
    Some("hi".to_string()).write(&mut out);
    assert_eq!(out, vec![0x01, 0x00, 0x02, b'h', b'i']);
    let mut b = Bytes::new(out);
    assert_eq!(Option::<String>::read(&mut b).unwrap(), None);
    assert_eq!(Option::<String>::read(&mut b).unwrap(), Some("hi".to_string()));
}

#[test]
fn scenario_array_of_u8() {
    let a = Array(vec![1u8, 2, 3]);
    assert_eq!(encoded(&a), vec![0x03, 0x01, 0x02, 0x03]);
    assert_eq!(decoded::<Array<u8>>(vec![3, 1, 2, 3]).0.unwrap().0, vec![1, 2, 3]);
    let names = Array(vec!["David".to_string(), "Joel".to_string(), "Roundy".to_string()]);
    assert_eq!(decoded::<Array<String>>(encoded(&names)).0.unwrap().0, names.0);
}

#[test]
fn scenario_map_string_u64() {
    let m = KeyValues(vec![("a".to_string(), 1u64)]);
    assert_eq!(
        encoded(&m),
        vec![0x01, 0x01, b'a', 0x01, 0, 0, 0, 0, 0, 0, 0]
    );
    let back = decoded::<KeyValues<String, u64>>(encoded(&m)).0.unwrap();
    assert_eq!(back.0, m.0);
}

#[test]
fn composite_round_trips() {
    let t = (3i8, 137i32);
    assert_eq!(decoded::<(i8, i32)>(encoded(&t)).0.unwrap(), t);
    let triple = (
        Uuid([7; 16]),
        Ipv4Addr { octets: [127, 0, 0, 1] },
        Ipv6Addr { octets: [0, 0, 0, 0, 0, 0, 0, 0, 0, 0, 0xff, 0xff, 0xc0, 0x0a, 0x02, 0xff] },
    );
    assert_eq!(decoded::<(Uuid, Ipv4Addr, Ipv6Addr)>(encoded(&triple)).0.unwrap(), triple);
    let nested = Array(vec![Some(1u32), None, Some(3)]);
    assert_eq!(decoded::<Array<Option<u32>>>(encoded(&nested)).0.unwrap().0, nested.0);
    let low = LowCardinality("David".to_string());
    assert_eq!(encoded(&low), encoded(&"David".to_string()));
    assert_eq!(decoded::<LowCardinality<String>>(encoded(&low)).0.unwrap(), low);
    let fixed = [b'a'; 8];
    assert_eq!(encoded(&fixed), b"aaaaaaaa".to_vec());
    assert_eq!(decoded::<[u8; 8]>(encoded(&fixed)).0.unwrap(), fixed);
    let when = DateTime(1_700_000_000);
    assert_eq!(decoded::<DateTime>(encoded(&when)).0.unwrap(), when);
}

#[test]
fn ipv4_is_written_last_octet_first() {
    let a = Ipv4Addr { octets: [127, 0, 0, 1] };
    assert_eq!(encoded(&a), vec![1, 0, 0, 127]);
    assert_eq!(decoded::<Ipv4Addr>(vec![1, 0, 0, 127]).0.unwrap(), a);
}

#[test]
fn uuid_is_written_as_is() {
    let mut bytes = [0u8; 16];
    for (i, b) in bytes.iter_mut().enumerate() {
        *b = i as u8;
    }
    assert_eq!(encoded(&Uuid(bytes)), bytes.to_vec());
}

#[test]
fn enum8_rejects_unknown_discriminants() {
    let ds = vec![1i8, 2, 3];
    let mut b = Bytes::new(vec![2, 4, 0xff]);
    assert_eq!(read_enum8(&mut b, &ds).unwrap(), 1);
    assert!(matches!(read_enum8(&mut b, &ds), Err(Error::InvalidTagEncoding(4))));
    assert_eq!(b.position(), 1);
    let negative = vec![-1i8];
    let mut c = Bytes::new(vec![0xff]);
    assert_eq!(read_enum8(&mut c, &negative).unwrap(), 0);
    let mut out = Vec::new();
    write_enum8(&mut out, -1);
    assert_eq!(out, vec![0xff]);
    let mut empty = Bytes::new(vec![]);
    assert!(matches!(read_enum8(&mut empty, &ds), Err(Error::NotEnoughData)));
}

#[test]
fn columns_of_built_in_types() {
    assert_eq!(String::columns("name")[0].name, "name");
    assert_eq!(String::columns("name")[0].column_type, ColumnType::String);
    assert_eq!(
        Option::<u32>::columns("x")[0].column_type,
        ColumnType::Nullable(Box::new(ColumnType::UInt32))
    );
    assert_eq!(
        KeyValues::<String, u64>::columns("m")[0].column_type.to_text(),
        b"Map(String, UInt64)".to_vec()
    );
    assert_eq!(
        <(i8, i32)>::columns("t")[0].column_type.to_text(),
        b"Tuple(Int8, Int32)".to_vec()
    );
    assert_eq!(
        <[u8; 8]>::columns("f")[0].column_type.to_text(),
        b"FixedString(8)".to_vec()
    );
    assert_eq!(
        Array::<LowCardinality<String>>::columns("a")[0].column_type.to_text(),
        b"Array(LowCardinality(String))".to_vec()
    );
    assert_eq!(
        single_column::<(u8, String)>(),
        ColumnType::Tuple(vec![ColumnType::UInt8, ColumnType::String])
    );
}

#[test]
fn datetime_now_is_after_2020() {
    assert!(DateTime::now().0 > 1_577_836_800);
    assert_eq!(DateTime::from_unix_seconds((1u64 << 32) + 5).0, 5);
}

#[test]
fn cursor_reads_generic_values_and_arrays() {
    let mut b = Bytes::new(vec![7, 1, 2, 3, 4, 9]);
    let x: u8 = b.read().unwrap();
    assert_eq!(x, 7);
    let a: [u8; 4] = b.read_array().unwrap();
    assert_eq!(a, [1, 2, 3, 4]);
    assert!(matches!(b.read_array::<2>(), Err(Error::NotEnoughData)));
    assert_eq!(b.remaining(), 1);
    let bytes = b.read_bytes(1).unwrap();
    assert_eq!(bytes, vec![9]);
}

#[test]
fn uuid_converts_from_and_to_bytes() {
    let u = Uuid::from([5; 16]);
    assert_eq!(u, Uuid([5; 16]));
    let back: [u8; 16] = u.into();
    assert_eq!(back, [5; 16]);
}

#[test]
fn column_new_keeps_name_and_type() {
    let c = streamhouse::Column::new("age", ColumnType::UInt8);
    assert_eq!(c.name, "age");
    assert_eq!(c.column_type, ColumnType::UInt8);
}
