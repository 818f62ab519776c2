use streamhouse::{ColumnType, Error};

fn parsed(text: &str) -> ColumnType {
    ColumnType::parse(text.as_bytes()).unwrap()
}

#[test]
fn parses_nullary_types() {
    assert_eq!(parsed("UInt8"), ColumnType::UInt8);
    assert_eq!(parsed("Int128"), ColumnType::Int128);
    assert_eq!(parsed("String"), ColumnType::String);
    assert_eq!(parsed("DateTime"), ColumnType::DateTime);
    assert_eq!(parsed("IPv6"), ColumnType::IPv6);
    assert_eq!(parsed("Bool"), ColumnType::Bool);
}

#[test]
fn parses_parametric_types() {
    assert_eq!(parsed("FixedString(16)"), ColumnType::FixedString(16));
    assert_eq!(
        parsed("Array(UInt8)"),
        ColumnType::Array(Box::new(ColumnType::UInt8))
    );
    assert_eq!(
        parsed("Map(String, Array(UInt8))"),
        ColumnType::MapOf(
            Box::new(ColumnType::String),
            Box::new(ColumnType::Array(Box::new(ColumnType::UInt8)))
        )
    );
    assert_eq!(
        parsed("Map(String,UInt64)"),
        ColumnType::MapOf(Box::new(ColumnType::String), Box::new(ColumnType::UInt64))
    );
    assert_eq!(
        parsed("Tuple(UUID, IPv4, IPv6)"),
        ColumnType::Tuple(vec![ColumnType::UUID, ColumnType::IPv4, ColumnType::IPv6])
    );
    assert_eq!(
        parsed("Nullable(LowCardinality(String))"),
        ColumnType::Nullable(Box::new(ColumnType::LowCardinality(Box::new(
            ColumnType::String
        ))))
    );
    assert_eq!(
        parsed("Enum8('Hello' = 1, 'Goodbye' = 2, 'Adios' = -3)"),
        ColumnType::Enum8(vec![
            (b"Hello".to_vec(), 1),
            (b"Goodbye".to_vec(), 2),
            (b"Adios".to_vec(), -3)
        ])
    );
    assert_eq!(
        parsed("Enum8('a'=-128,'b'=127)"),
        ColumnType::Enum8(vec![(b"a".to_vec(), -128), (b"b".to_vec(), 127)])
    );
}

#[test]
fn rejects_unsupported_types() {
    for text in [
        "UInt256",
        "uint8",
        "Array(Foo)",
        "Array(UInt8",
        "FixedString(x)",
        "FixedString()",
        "Enum8('a' = 128)",
        "Map(String)",
        "",
    ] {
        match ColumnType::parse(text.as_bytes()) {
            Err(Error::UnsupportedColumn(m)) => assert_eq!(m, text),
            other => panic!("{text} parsed as {other:?}"),
        }
    }
    match ColumnType::parse(&[0xff, b'(', b')']) {
        Err(Error::UnsupportedColumn(m)) => assert_eq!(m, "\u{fffd}()"),
        other => panic!("parsed as {other:?}"),
    }
}

#[test]
fn printer_writes_server_form() {
    let t = ColumnType::MapOf(
        Box::new(ColumnType::String),
        Box::new(ColumnType::Array(Box::new(ColumnType::UInt8))),
    );
    assert_eq!(t.to_text(), b"Map(String, Array(UInt8))".to_vec());
    let e = ColumnType::Enum8(vec![(b"Hello".to_vec(), 1), (b"Bye".to_vec(), -2)]);
    assert_eq!(e.to_text(), b"Enum8('Hello' = 1, 'Bye' = -2)".to_vec());
    assert_eq!(ColumnType::FixedString(8).to_text(), b"FixedString(8)".to_vec());
}

#[test]
fn printed_types_parse_back() {
    let types = vec![
        ColumnType::UInt128,
        ColumnType::FixedString(1234),
        ColumnType::Tuple(vec![ColumnType::Int8, ColumnType::Int32]),
        ColumnType::MapOf(
            Box::new(ColumnType::String),
            Box::new(ColumnType::Tuple(vec![ColumnType::UInt8, ColumnType::Float64])),
        ),
        ColumnType::Array(Box::new(ColumnType::Nullable(Box::new(ColumnType::DateTime)))),
        ColumnType::Enum8(vec![(b"x".to_vec(), 0), (b"y".to_vec(), -128)]),
    ];
    for t in types {
        assert_eq!(ColumnType::parse(&t.to_text()).unwrap(), t);
    }
}

#[test]
fn equality_is_structural() {
    assert_ne!(
        ColumnType::LowCardinality(Box::new(ColumnType::String)),
        ColumnType::String
    );
    assert_ne!(ColumnType::Array(Box::new(ColumnType::UInt8)), ColumnType::String);
    assert_ne!(ColumnType::FixedString(3), ColumnType::FixedString(4));
    assert_eq!(
        ColumnType::Tuple(vec![ColumnType::UInt8]),
        ColumnType::Tuple(vec![ColumnType::UInt8])
    );
    assert_ne!(
        ColumnType::Tuple(vec![ColumnType::UInt8, ColumnType::String]),
        ColumnType::Tuple(vec![ColumnType::String, ColumnType::UInt8])
    );
}
