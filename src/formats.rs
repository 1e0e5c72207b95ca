//! The payloads that documents come in, and the errors met in reading them.
use crate::json::JsonValue;
use vstd::prelude::*;

verus! {

/// The form of a payload of documents.
#[derive(Debug, Clone, Copy, PartialEq, Eq, Structural)]
pub enum PayloadType {
    Ndjson,
    Json,
    Csv,
}

pub open spec fn payload_name(t: PayloadType) -> Seq<char> {
    match t {
        PayloadType::Ndjson => "ndjson"@,
        PayloadType::Json => "json"@,
        PayloadType::Csv => "csv"@,
    }
}

impl PayloadType {
    /// The name of the form, as shown in messages.
    pub fn to_text(&self) -> (r: String)
        ensures
            r@ == payload_name(*self),
    {
        match self {
            PayloadType::Ndjson => String::from_str("ndjson"),
            PayloadType::Json => String::from_str("json"),
            PayloadType::Csv => String::from_str("csv"),
        }
    }
}

/// What went wrong while a payload was read, with the reader's message.
#[derive(Debug, Clone, PartialEq, Eq)]
pub enum PayloadError {
    /// Reading the input failed.
    Io(String),
    /// The input is not the JSON that was expected.
    Json(String),
    /// The input is not the CSV that was expected.
    Csv(String),
}

/// An error of payload reading: internal, or a malformed payload of a form.
#[derive(Debug, Clone, PartialEq, Eq)]
pub enum DocumentFormatError {
    Internal(String),
    MalformedPayload(PayloadError, PayloadType),
}

/// The longest diagnostic that is shown whole, in characters.
pub const MAX_DIAGNOSTIC_LEN: usize = 103;

/// The characters kept from the start of a long diagnostic.
pub const KEPT_HEAD: usize = 50;

/// The characters kept from the end of a long diagnostic.
pub const KEPT_TAIL: usize = 85;

pub open spec fn truncated(msg: Seq<char>) -> Seq<char> {
    if msg.len() > MAX_DIAGNOSTIC_LEN {
        msg.subrange(0, KEPT_HEAD as int) + "..."@ + msg.subrange(msg.len() - KEPT_TAIL, msg.len() as int)
    } else {
        msg
    }
}

/// Shortens a diagnostic that may quote a very long input: past
/// `MAX_DIAGNOSTIC_LEN` characters, its middle gives way to an ellipsis.
pub fn truncate_diagnostic(msg: &str) -> (r: String)
    ensures
        r@ == truncated(msg@),
{
    let len = msg.unicode_len();
    if len > MAX_DIAGNOSTIC_LEN {
        let head = msg.substring_char(0, KEPT_HEAD);
        let tail = msg.substring_char(len - KEPT_TAIL, len);
        let r = String::from_str(head).concat("...").concat(tail);
        r
    } else {
        String::from_str(msg)
    }
}

pub open spec fn payload_error_text(e: PayloadError) -> Seq<char> {
    match e {
        PayloadError::Io(m) => m@,
        PayloadError::Json(m) => m@,
        PayloadError::Csv(m) => m@,
    }
}

pub open spec fn error_message(e: DocumentFormatError) -> Seq<char> {
    match e {
        DocumentFormatError::Internal(m) => "An internal error has occurred: `"@ + m@ + "`."@,
        DocumentFormatError::MalformedPayload(PayloadError::Json(m), t) => "The `"@ + payload_name(t)
            + "` payload provided is malformed. `Couldn't serialize document value: "@ + truncated(m@)
            + "`."@,
        DocumentFormatError::MalformedPayload(p, t) => "The `"@ + payload_name(t)
            + "` payload provided is malformed: `"@ + payload_error_text(p) + "`."@,
    }
}

impl DocumentFormatError {
    /// The message that tells a user what went wrong.
    pub fn to_message(&self) -> (r: String)
        ensures
            r@ == error_message(*self),
    {
        match self {
            DocumentFormatError::Internal(m) => String::from_str("An internal error has occurred: `").concat(
                m.as_str(),
            ).concat("`."),
            DocumentFormatError::MalformedPayload(PayloadError::Json(m), t) => {
                let short = truncate_diagnostic(m.as_str());
                let name = t.to_text();
                String::from_str("The `").concat(name.as_str()).concat(
                    "` payload provided is malformed. `Couldn't serialize document value: ",
                ).concat(short.as_str()).concat("`.")
            },
            DocumentFormatError::MalformedPayload(p, t) => {
                let name = t.to_text();
                let text = match p {
                    PayloadError::Io(m) => m,
                    PayloadError::Json(m) => m,
                    PayloadError::Csv(m) => m,
                };
                String::from_str("The `").concat(name.as_str()).concat(
                    "` payload provided is malformed: `",
                ).concat(text.as_str()).concat("`.")
            },
        }
    }
}

pub open spec fn format_error_of(t: PayloadType, e: PayloadError) -> DocumentFormatError {
    match e {
        PayloadError::Io(m) => DocumentFormatError::Internal(m),
        _ => DocumentFormatError::MalformedPayload(e, t),
    }
}

impl From<(PayloadType, PayloadError)> for DocumentFormatError {
    fn from(pair: (PayloadType, PayloadError)) -> (r: Self)
        ensures
            r == format_error_of(pair.0, pair.1),
    {
        let (t, e) = pair;
        match e {
            PayloadError::Io(m) => DocumentFormatError::Internal(m),
            e => DocumentFormatError::MalformedPayload(e, t),
        }
    }
}

impl vstd::std_specs::convert::FromSpecImpl<(PayloadType, PayloadError)> for DocumentFormatError {
    open spec fn obeys_from_spec() -> bool {
        true
    }

    open spec fn from_spec(pair: (PayloadType, PayloadError)) -> Self {
        format_error_of(pair.0, pair.1)
    }
}

/// The diagnostic given for a document that is not a JSON object.
pub open spec fn not_an_object_text() -> Seq<char> {
    "invalid type: expected a map"@
}

fn not_an_object(t: PayloadType) -> (r: DocumentFormatError)
    ensures
        is_not_an_object_error(r, t),
{
    DocumentFormatError::MalformedPayload(PayloadError::Json(String::from_str("invalid type: expected a map")), t)
}

pub open spec fn all_objects(items: Seq<JsonValue>) -> bool {
    forall|i: int| 0 <= i < items.len() ==> (#[trigger] items[i]) is Object
}

/// `r` is an error for a payload of form `t` whose document is not an object.
pub open spec fn is_not_an_object_error(r: DocumentFormatError, t: PayloadType) -> bool {
    match r {
        DocumentFormatError::MalformedPayload(PayloadError::Json(m), u) => m@ == not_an_object_text() && u == t,
        _ => false,
    }
}

/// How many documents a JSON payload holds, or `None` when one of them is
/// not an object.
pub open spec fn json_document_count(payload: JsonValue) -> Option<nat> {
    match payload {
        JsonValue::Object(_) => Some(1),
        JsonValue::Array(items) => if all_objects(items@) {
            Some(items@.len())
        } else {
            None
        },
        _ => None,
    }
}

/// The line parsed into a JSON object.
pub open spec fn is_document(line: Result<JsonValue, String>) -> bool {
    match line {
        Ok(v) => v is Object,
        Err(_) => false,
    }
}

/// `e` is the error that reading the NDJSON line `line` gives, when it is no document.
pub open spec fn line_error(line: Result<JsonValue, String>, e: DocumentFormatError) -> bool {
    match line {
        Ok(_) => is_not_an_object_error(e, PayloadType::Ndjson),
        Err(m) => e == DocumentFormatError::MalformedPayload(PayloadError::Json(m), PayloadType::Ndjson),
    }
}

/// Reads a JSON payload: one document, or an array of documents, each a
/// JSON object. Returns how many documents it holds.
pub fn read_json(payload: &JsonValue) -> (r: Result<usize, DocumentFormatError>)
    ensures
        match json_document_count(*payload) {
            Some(n) => r == Ok::<usize, DocumentFormatError>(n as usize),
            None => (r matches Err(e) && is_not_an_object_error(e, PayloadType::Json)),
        },
{
    match payload {
        JsonValue::Object(_) => Ok(1),
        JsonValue::Array(items) => {
            let mut i: usize = 0;
            while i < items.len()
                invariant
                    i <= items@.len(),
                    *payload == JsonValue::Array(*items),
                    forall|j: int| 0 <= j < i ==> (#[trigger] items@[j]) is Object,
                decreases items.len() - i,
            {
                if !items[i].is_object() {
                    assert(!all_objects(items@));
                    assert(json_document_count(*payload) is None);
                    let e = not_an_object(PayloadType::Json);
                    return Err(e);
                }
                i = i + 1;
            }
            Ok(items.len())
        },
        _ => Err(not_an_object(PayloadType::Json)),
    }
}

/// The position just past the end of the line that starts at `i`: past its
/// newline, or the end of the input.
pub open spec fn line_end(input: Seq<u8>, i: int) -> int
    decreases input.len() - i,
{
    if i < 0 || i >= input.len() {
        input.len() as int
    } else if input[i] == 10 {
        i + 1
    } else {
        line_end(input, i + 1)
    }
}

/// The lines of the input from position `i` on, as `[start, end)` ranges
/// that keep their newline, without the lines that hold only a newline.
pub open spec fn lines_from(input: Seq<u8>, i: int) -> Seq<(int, int)>
    decreases input.len() - i via lines_from_decreases
{
    if i < 0 || i >= input.len() {
        Seq::empty()
    } else if input[i] == 10 {
        lines_from(input, i + 1)
    } else {
        seq![(i, line_end(input, i))] + lines_from(input, line_end(input, i))
    }
}

#[via_fn]
proof fn lines_from_decreases(input: Seq<u8>, i: int) {
    if 0 <= i < input.len() && input[i] != 10 {
        lemma_line_end_bounds(input, i);
    }
}

proof fn lemma_line_end_bounds(input: Seq<u8>, i: int)
    requires
        0 <= i < input.len(),
    ensures
        i < line_end(input, i) <= input.len(),
    decreases input.len() - i,
{
    if input[i] != 10 {
        if i + 1 < input.len() {
            lemma_line_end_bounds(input, i + 1);
        } else {
            assert(line_end(input, i + 1) == input.len());
        }
    }
}

pub open spec fn ranges_view(r: Seq<(usize, usize)>) -> Seq<(int, int)> {
    r.map_values(|p: (usize, usize)| (p.0 as int, p.1 as int))
}

/// Splits an NDJSON payload into its lines, leaving out empty ones.
pub fn ndjson_lines(input: &[u8]) -> (r: Vec<(usize, usize)>)
    ensures
        ranges_view(r@) == lines_from(input@, 0),
{
    let mut out: Vec<(usize, usize)> = Vec::new();
    let mut i: usize = 0;
    let ghost full = lines_from(input@, 0);
    assert(ranges_view(out@) + full =~= full);
    while i < input.len()
        invariant
            i <= input@.len(),
            full == lines_from(input@, 0),
            full == ranges_view(out@) + lines_from(input@, i as int),
        decreases input.len() - i,
    {
        if input[i] == 10 {
            i = i + 1;
        } else {
            let mut j: usize = i;
            while j < input.len() && input[j] != 10
                invariant
                    i <= j <= input@.len(),
                    line_end(input@, j as int) == line_end(input@, i as int),
                decreases input.len() - j,
            {
                j = j + 1;
            }
            let end = if j < input.len() { j + 1 } else { j };
            proof {
                lemma_line_end_bounds(input@, i as int);
            }
            let ghost prev = out@;
            out.push((i, end));
            assert(ranges_view(out@) =~= ranges_view(prev).push((i as int, end as int)));
            assert(full =~= ranges_view(out@) + lines_from(input@, end as int));
            i = end;
        }
    }
    assert(ranges_view(out@) + Seq::<(int, int)>::empty() =~= ranges_view(out@));
    out
}

/// Reads an NDJSON payload, given the outcome of parsing each of its lines:
/// each must be a JSON object. Returns how many documents it holds, or the
/// error of the first line that is not one.
pub fn read_ndjson(lines: &Vec<Result<JsonValue, String>>) -> (r: Result<usize, DocumentFormatError>)
    ensures
        (forall|i: int| 0 <= i < lines@.len() ==> is_document(#[trigger] lines@[i])) ==> r == Ok::<
            usize,
            DocumentFormatError,
        >(lines@.len() as usize),
        r matches Err(e) ==> exists|i: int|
            0 <= i < lines@.len() && (forall|j: int| 0 <= j < i ==> is_document(#[trigger] lines@[j]))
                && !is_document(lines@[i]) && line_error(#[trigger] lines@[i], e),
        r is Ok ==> (forall|i: int| 0 <= i < lines@.len() ==> is_document(#[trigger] lines@[i])),
{
    let mut i: usize = 0;
    while i < lines.len()
        invariant
            i <= lines@.len(),
            forall|j: int| 0 <= j < i ==> is_document(#[trigger] lines@[j]),
        decreases lines.len() - i,
    {
        match &lines[i] {
            Ok(v) => {
                if !v.is_object() {
                    let e = not_an_object(PayloadType::Ndjson);
                    assert(line_error(lines@[i as int], e));
                    return Err(e);
                }
            },
            Err(m) => {
                let e = DocumentFormatError::MalformedPayload(PayloadError::Json(m.clone()), PayloadType::Ndjson);
                assert(line_error(lines@[i as int], e));
                return Err(e);
            },
        }
        i = i + 1;
    }
    Ok(lines.len())
}

} // verus!
