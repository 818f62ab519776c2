use std::io::Write;

use streamhouse::compression::decompress_body;
use streamhouse::insert::{insert_prefix, insert_prefix_for, write_rows, BATCH_ROWS};
use streamhouse::request::{bad_response_message, query_body};
use streamhouse::schema::{negotiate, read_header};
use streamhouse::{Bytes, Column, ColumnType, Error, Row, Stream, Step};

fn header(names: &[&str], types: &[&str]) -> Vec<u8> {
    let mut out = vec![names.len() as u8];
    for n in names {
        out.push(n.len() as u8);
        out.extend_from_slice(n.as_bytes());
    }
    for t in types {
        out.push(t.len() as u8);
        out.extend_from_slice(t.as_bytes());
    }
    out
}

/// Feeds `chunks` to a reader and collects what it yields, in order.
fn run<R: Row>(chunks: &[Vec<u8>]) -> (Vec<R>, Option<Error>) {
    let mut reader = Stream::new();
    let mut next_chunk = 0;
    let mut rows = Vec::new();
    let mut header_done = false;
    loop {
        let step = if header_done {
            reader.get_next::<R>()
        } else {
            reader.check_header::<R>()
        };
        match step {
            Step::Row(r) => rows.push(r),
            Step::Ready => header_done = true,
            Step::End => return (rows, None),
            Step::Failed(e) => return (rows, Some(e)),
            Step::NeedInput => {
                if next_chunk < chunks.len() {
                    reader.push_chunk(&chunks[next_chunk]);
                    next_chunk += 1;
                } else {
                    reader.end_input();
                }
            }
        }
    }
}

fn body_a() -> Vec<u8> {
    let mut body = vec![
        0x01, 0x04, b'n', b'a', b'm', b'e', 0x05, b'U', b'I', b'n', b't', b'8',
    ];
    body.extend_from_slice(&[0x05, 0x17]);
    body
}

#[test]
fn scenario_single_u8_column() {
    let (rows, err) = run::<u8>(&[body_a()]);
    assert_eq!(rows, vec![5, 23]);
    assert!(err.is_none());
}

#[test]
fn every_split_gives_the_same_rows() {
    let body = body_a();
    for cut in 0..=body.len() {
        let chunks = vec![body[..cut].to_vec(), body[cut..].to_vec()];
        let (rows, err) = run::<u8>(&chunks);
        assert_eq!(rows, vec![5, 23]);
        assert!(err.is_none());
    }
    let bytewise: Vec<Vec<u8>> = body.iter().map(|b| vec![*b]).collect();
    assert_eq!(run::<u8>(&bytewise).0, vec![5, 23]);
}

fn tuple_body() -> (Vec<u8>, Vec<usize>) {
    let mut body = header(&["person"], &["Tuple(String, UInt8)"]);
    let mut row_ends = vec![body.len()];
    for (name, age) in [("David", 49u8), ("Roundy", 49u8)] {
        (name.to_string(), age).write(&mut body);
        row_ends.push(body.len());
    }
    (body, row_ends)
}

#[test]
fn tuple_rows_split_anywhere() {
    let (body, _) = tuple_body();
    let expected = vec![("David".to_string(), 49u8), ("Roundy".to_string(), 49u8)];
    for cut in 0..=body.len() {
        let chunks = vec![body[..cut].to_vec(), body[cut..].to_vec()];
        let (rows, err) = run::<(String, u8)>(&chunks);
        assert_eq!(rows, expected);
        assert!(err.is_none());
    }
}

#[test]
fn truncated_bodies_end_in_an_error() {
    let (body, row_ends) = tuple_body();
    for cut in 0..body.len() {
        let (rows, err) = run::<(String, u8)>(&[body[..cut].to_vec()]);
        if row_ends.contains(&cut) {
            assert!(err.is_none(), "cut at {cut}");
        } else {
            assert!(matches!(err, Some(Error::NotEnoughData)), "cut at {cut}");
        }
        let complete = row_ends.iter().filter(|e| **e <= cut).count().saturating_sub(1);
        assert_eq!(rows.len(), complete);
    }
}

#[test]
fn anonymous_column_takes_any_name() {
    let mut body = header(&["count()"], &["UInt64"]);
    7u64.write(&mut body);
    let (rows, err) = run::<u64>(&[body]);
    assert_eq!(rows, vec![7]);
    assert!(err.is_none());
}

#[test]
fn scenario_schema_mismatch() {
    let r = negotiate(
        u8::columns("x"),
        vec!["x".to_string()],
        vec![ColumnType::String],
    );
    match r {
        Err(Error::WrongColumnTypes { schema, row }) => {
            assert_eq!(schema, vec![ColumnType::String]);
            assert_eq!(row, vec![ColumnType::UInt8]);
        }
        other => panic!("{other:?}"),
    }
    let body = header(&["x"], &["String"]);
    let (_, err) = run::<(u8, u8)>(&[body]);
    assert!(matches!(err, Some(Error::WrongColumnTypes { .. })));
}

#[test]
fn names_must_match() {
    let r = negotiate(
        u8::columns("age"),
        vec!["name".to_string()],
        vec![ColumnType::UInt8],
    );
    match r {
        Err(Error::WrongColumnNames { schema, row }) => {
            assert_eq!(schema, vec!["age".to_string()]);
            assert_eq!(row, vec!["name".to_string()]);
        }
        other => panic!("{other:?}"),
    }
    assert!(matches!(
        negotiate(u8::columns("age"), vec![], vec![]),
        Err(Error::WrongColumnNames { .. })
    ));
    assert!(negotiate(u8::columns("age"), vec!["age".to_string()], vec![ColumnType::UInt8]).is_ok());
}

#[test]
fn unsupported_header_type_fails() {
    let body = header(&["x"], &["UInt256"]);
    let (_, err) = run::<u8>(&[body]);
    match err {
        Some(Error::UnsupportedColumn(m)) => assert_eq!(m, "UInt256"),
        other => panic!("{other:?}"),
    }
}

#[test]
fn empty_body_is_not_a_header() {
    let (rows, err) = run::<u8>(&[]);
    assert!(rows.is_empty());
    assert!(matches!(err, Some(Error::NotEnoughData)));
}

#[test]
fn insert_prefix_and_header_round_trip() {
    let prefix = insert_prefix::<String>("developers");
    assert!(matches!(prefix, Err(Error::MissingColumnName { .. })));
    let prefix = insert_prefix::<streamhouse::types::LowCardinality<String>>("t");
    match prefix {
        Err(Error::MissingColumnName { row }) => assert_eq!(row, vec![String::new()]),
        other => panic!("{other:?}"),
    }
}

#[test]
fn written_header_reads_back() {
    let cs = streamhouse::types::KeyValues::<String, u64>::columns("mappy");
    let mut out = Vec::new();
    streamhouse::insert::write_header(&cs, &mut out);
    let mut expected = vec![1, 5];
    expected.extend_from_slice(b"mappy");
    expected.push(19);
    expected.extend_from_slice(b"Map(String, UInt64)");
    assert_eq!(out, expected);
    let mut b = Bytes::new(out);
    let (names, types) = read_header(&mut b).unwrap();
    assert_eq!(names, vec!["mappy".to_string()]);
    assert!(negotiate(cs, names, types).is_ok());
}

#[test]
fn rows_are_concatenated() {
    let mut out = Vec::new();
    write_rows(&vec![1u16, 2, 3], &mut out);
    assert_eq!(out, vec![1, 0, 2, 0, 3, 0]);
    assert_eq!(BATCH_ROWS, 10_000);
}

#[test]
fn lz4_frames_decompress() {
    let plain = b"hello hello hello hello".to_vec();
    let mut enc = lz4_flex::frame::FrameEncoder::new(Vec::new());
    enc.write_all(&plain).unwrap();
    let compressed = enc.finish().unwrap();
    assert_ne!(compressed, plain);
    assert_eq!(decompress_body(&compressed).unwrap(), plain);
    assert!(matches!(
        decompress_body(&vec![1, 2, 3, 4, 5]),
        Err(Error::BadResponse(_))
    ));
}

fn person_columns() -> Vec<Column> {
    let mut cs = String::columns("name");
    cs.extend(u8::columns("age"));
    cs
}

/// Like `run`, with the header checked against an explicit column list and
/// each row decoded as a tuple of its columns.
fn run_people(chunks: &[Vec<u8>]) -> (Vec<(String, u8)>, Option<Error>) {
    let mut reader = Stream::new();
    let mut next_chunk = 0;
    let mut rows = Vec::new();
    let mut header_done = false;
    loop {
        let step = if header_done {
            reader.get_next::<(String, u8)>()
        } else {
            reader.check_header_against::<(String, u8)>(person_columns())
        };
        match step {
            Step::Row(r) => rows.push(r),
            Step::Ready => header_done = true,
            Step::End => return (rows, None),
            Step::Failed(e) => return (rows, Some(e)),
            Step::NeedInput => {
                if next_chunk < chunks.len() {
                    reader.push_chunk(&chunks[next_chunk]);
                    next_chunk += 1;
                } else {
                    reader.end_input();
                }
            }
        }
    }
}

#[test]
fn scenario_record_rows() {
    let people = vec![("David".to_string(), 49u8), ("Roundy".to_string(), 49u8)];
    let prefix = insert_prefix_for("developers", &person_columns()).unwrap();
    let mut expected = b"INSERT INTO developers FORMAT RowBinaryWithNamesAndTypes\n".to_vec();
    let head = header(&["name", "age"], &["String", "UInt8"]);
    expected.extend_from_slice(&head);
    assert_eq!(prefix, expected);
    let mut payload = Vec::new();
    for (name, age) in &people {
        name.write(&mut payload);
        age.write(&mut payload);
    }
    let mut p = vec![5];
    p.extend_from_slice(b"David");
    p.push(0x31);
    p.push(6);
    p.extend_from_slice(b"Roundy");
    p.push(0x31);
    assert_eq!(payload, p);
    let mut body = head;
    body.extend_from_slice(&payload);
    for cut in 0..=body.len() {
        let (rows, err) = run_people(&[body[..cut].to_vec(), body[cut..].to_vec()]);
        assert!(err.is_none());
        assert_eq!(rows, people);
    }
    let wrong = header(&["age", "name"], &["UInt8", "String"]);
    assert!(matches!(run_people(&[wrong]).1, Some(Error::WrongColumnNames { .. })));
}

#[test]
fn request_texts() {
    assert_eq!(
        query_body("select 1"),
        b"select 1 FORMAT RowBinaryWithNamesAndTypes".to_vec()
    );
    assert_eq!(
        bad_response_message(b"  Code: 60. Table missing\n".to_vec(), "404 Not Found".to_string()),
        "Code: 60. Table missing"
    );
    assert_eq!(
        bad_response_message(vec![0xff, 0x00], "500 Internal Server Error".to_string()),
        "500 Internal Server Error"
    );
}

#[test]
fn duplicate_enum_discriminants_are_rejected() {
    assert!(matches!(
        ColumnType::parse(b"Enum8('a' = 1, 'b' = 1)"),
        Err(Error::UnsupportedColumn(_))
    ));
}
