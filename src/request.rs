//! The texts that requests and failed responses carry.
use vstd::prelude::*;

use vstd::utf8::{decode_utf8, encode_utf8, valid_utf8};

use crate::column_type::push_all;
use crate::text::text_from_utf8;

verus! {

/// ` FORMAT RowBinaryWithNamesAndTypes`
pub open spec fn kw_select_format() -> Seq<u8> {
    seq![
        32, 70, 79, 82, 77, 65, 84, 32, 82, 111, 119, 66, 105, 110, 97, 114, 121, 87, 105, 116, 104,
        78, 97, 109, 101, 115, 65, 110, 100, 84, 121, 112, 101, 115,
    ]
}

/// The body of a query request: the statement, then the format it asks
/// the rows in.
pub fn query_body(sql: &str) -> (r: Vec<u8>)
    ensures
        r@ == encode_utf8(sql@) + kw_select_format(),
{
    let mut out: Vec<u8> = Vec::new();
    push_all(&mut out, sql.as_bytes());
    // " FORMAT RowBinaryWithNamesAndTypes"
    push_all(
        &mut out,
        vec![
            32, 70, 79, 82, 77, 65, 84, 32, 82, 111, 119, 66, 105, 110, 97, 114, 121, 87, 105, 116,
            104, 78, 97, 109, 101, 115, 65, 110, 100, 84, 121, 112, 101, 115,
        ].as_slice(),
    );
    out
}

/// `s` without leading and trailing white space.
pub uninterp spec fn trimmed(s: Seq<char>) -> Seq<char>;

/// Relies on `str::trim`: the result depends on the characters alone.
#[verifier::external_body]
fn trim_text(s: &str) -> (r: String)
    ensures
        r@ == trimmed(s@),
{
    s.trim().to_string()
}

/// The message of a response that failed: its body as text without the
/// white space around it, or `status_line` (the status code and its reason)
/// when the body is not text.
pub fn bad_response_message(body: Vec<u8>, status_line: String) -> (r: String)
    ensures
        valid_utf8(body@) ==> r@ == trimmed(decode_utf8(body@)),
        !valid_utf8(body@) ==> r@ == status_line@,
{
    match text_from_utf8(body) {
        Some(text) => trim_text(text.as_str()),
        None => status_line,
    }
}

} // verus!
