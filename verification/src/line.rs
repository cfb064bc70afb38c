//! The line by line way: each line holds a JSON document, which is parsed in
//! full, and the text stored under a key is the value of the line.

use crate::boundary::NEWLINE;
use crate::value::find_value_end;
use crate::value::value_end;
use vstd::prelude::*;
use vstd::slice::slice_subrange;

verus! {

/// The opening brace byte, with which a JSON object starts.
pub const OPENING_BRACE: u8 = 0x7b;

/// The tab byte, which parts the fields of a line.
pub const TAB: u8 = 0x09;

/// The number of fields that a line of tab-parted fields has to have; the
/// last of them holds the JSON document.
pub const FIELDS: usize = 5;

/// Where the JSON document of a line starts: at its first opening brace.
/// `None` where the line has no brace.
pub open spec fn document_start(line: Seq<u8>) -> Option<int> {
    let brace = value_end(line, OPENING_BRACE, 0);
    if brace < line.len() {
        Some(brace)
    } else {
        None
    }
}

/// Where the field starts that follows `tabs` tabs, counted from index
/// `from` of the line. `None` where the line has fewer tabs from there on.
pub open spec fn field_start(line: Seq<u8>, tabs: nat, from: int) -> Option<int>
    decreases tabs,
{
    if tabs == 0 {
        Some(from)
    } else {
        let tab = value_end(line, TAB, from);
        if tab < line.len() {
            field_start(line, (tabs - 1) as nat, tab + 1)
        } else {
            None
        }
    }
}

/// Where the last of the five fields of a line starts: after its fourth
/// tab. What follows belongs to that field, tabs too. `None` where the line
/// has fewer than five fields.
pub open spec fn last_field_start(line: Seq<u8>) -> Option<int> {
    field_start(line, (FIELDS - 1) as nat, 0)
}

/// What parsing `document` as JSON and looking up `key` gives: the bytes of
/// the text that the document, an object, stores under `key`; `None` where
/// the document is no object, has no such key, or stores something else than
/// a text under it; the parser's message where the document is not JSON.
pub uninterp spec fn json_text_member(document: Seq<u8>, key: Seq<char>) -> Result<
    Option<Seq<u8>>,
    Seq<char>,
>;

/// What a lookup gave, as sequences.
pub open spec fn member_view(member: Result<Option<Vec<u8>>, String>) -> Result<
    Option<Seq<u8>>,
    Seq<char>,
> {
    match member {
        Ok(Some(text)) => Ok(Some(text@)),
        Ok(None) => Ok(None),
        Err(message) => Err(message@),
    }
}

/// Parses `document` with `serde_json::from_slice` into a `Value`, looks up
/// `key` with `Value::get` and reads the text with `Value::as_str`. The
/// result is taken as it comes: nothing is proved of it but that the same
/// document and key give the same result.
#[verifier::external_body]
fn parse_text_member(document: &[u8], key: &str) -> (member: Result<Option<Vec<u8>>, String>)
    ensures
        member_view(member) == json_text_member(document@, key@),
{
    match serde_json::from_slice::<serde_json::Value>(document) {
        Ok(value) => Ok(
            value.get(key).and_then(serde_json::Value::as_str).map(str::as_bytes).map(
                <[u8]>::to_vec,
            ),
        ),
        Err(error) => Err(error.to_string()),
    }
}

/// Finds where the JSON document of `line` starts.
pub fn find_document_start(line: &[u8]) -> (start: Option<usize>)
    ensures
        match start {
            Some(k) => document_start(line@) == Some(k as int) && k < line.len(),
            None => document_start(line@) is None,
        },
{
    let brace = find_value_end(line, OPENING_BRACE, 0);
    if brace < line.len() {
        Some(brace)
    } else {
        None
    }
}

/// Finds where the last of the five fields of `line` starts.
pub fn find_last_field_start(line: &[u8]) -> (start: Option<usize>)
    ensures
        match start {
            Some(k) => last_field_start(line@) == Some(k as int) && k <= line.len(),
            None => last_field_start(line@) is None,
        },
{
    let mut from: usize = 0;
    let mut tabs: usize = FIELDS - 1;
    while tabs > 0
        invariant
            from <= line.len(),
            tabs < FIELDS,
            last_field_start(line@) == field_start(line@, tabs as nat, from as int),
        decreases tabs,
    {
        let tab = find_value_end(line, TAB, from);
        if tab == line.len() {
            return None;
        }
        from = tab + 1;
        tabs = tabs - 1;
    }
    Some(from)
}

/// The text under `key` in the JSON document that starts at `start` of
/// `line`, where the line has one.
pub open spec fn text_member_from(line: Seq<u8>, start: Option<int>, key: Seq<char>) -> Result<
    Option<Seq<u8>>,
    Seq<char>,
> {
    match start {
        Some(k) => json_text_member(line.skip(k), key),
        None => Ok(None),
    }
}

/// The text stored under `key` in the JSON document that `line` holds from
/// its first opening brace on. A line without a brace has none; a line whose
/// document is not JSON gives the parser's message.
pub fn embedded_text(line: &[u8], key: &str) -> (member: Result<Option<Vec<u8>>, String>)
    ensures
        member_view(member) == text_member_from(line@, document_start(line@), key@),
{
    match find_document_start(line) {
        Some(start) => {
            let document = slice_subrange(line, start, line.len());
            assert(document@ =~= line@.skip(start as int));
            parse_text_member(document, key)
        },
        None => Ok(None),
    }
}

/// The text stored under `key` in the JSON document that is the last of the
/// five tab-parted fields of `line`. A line with fewer fields has none; a
/// line whose document is not JSON gives the parser's message.
pub fn last_field_text(line: &[u8], key: &str) -> (member: Result<Option<Vec<u8>>, String>)
    ensures
        member_view(member) == text_member_from(line@, last_field_start(line@), key@),
{
    match find_last_field_start(line) {
        Some(start) => {
            let document = slice_subrange(line, start, line.len());
            assert(document@ =~= line@.skip(start as int));
            parse_text_member(document, key)
        },
        None => Ok(None),
    }
}

/// A text that a line may hold, as a sequence.
pub open spec fn text_view(text: Option<Vec<u8>>) -> Option<Seq<u8>> {
    match text {
        Some(bytes) => Some(bytes@),
        None => None,
    }
}

/// What a line adds to the output: the text it holds, followed by a line
/// feed, or nothing where it holds none.
pub open spec fn output_of_text(text: Option<Seq<u8>>) -> Seq<u8> {
    match text {
        Some(bytes) => bytes + seq![NEWLINE],
        None => Seq::empty(),
    }
}

/// What a line adds to the output when a line that cannot be parsed ends the
/// run: the line of its text, or the parser's message as the error.
pub fn line_output(member: Result<Option<Vec<u8>>, String>) -> (output: Result<Vec<u8>, String>)
    ensures
        match member {
            Ok(text) => output matches Ok(bytes) && bytes@ == output_of_text(text_view(text)),
            Err(message) => output matches Err(reason) && reason@ == message@,
        },
{
    match member {
        Ok(Some(text)) => {
            let mut bytes = text;
            bytes.push(NEWLINE);
            Ok(bytes)
        },
        Ok(None) => Ok(Vec::new()),
        Err(message) => Err(message),
    }
}

/// What a line adds to the output when lines that cannot be parsed are passed
/// over: the line of its text, or nothing.
pub fn lenient_line_output(member: Result<Option<Vec<u8>>, String>) -> (output: Vec<u8>)
    ensures
        output@ == match member {
            Ok(text) => output_of_text(text_view(text)),
            Err(_) => Seq::<u8>::empty(),
        },
{
    match member {
        Ok(Some(text)) => {
            let mut bytes = text;
            bytes.push(NEWLINE);
            bytes
        },
        _ => Vec::new(),
    }
}

} // verus!
