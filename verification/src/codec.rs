//! The JSON text boundary, carried by serde_json.
//!
//! Parsing text into a document and printing a document as text are done by
//! serde_json; each call sits behind a trusted declaration whose contract
//! names what the call returns.  `parsed_json` names the outcome of parsing a
//! text, `compact_json` and `pretty_json` the two serialized forms of a
//! document: each is a function of its argument alone.

use vstd::prelude::*;

use crate::document::Document;
use crate::document::DocView;

verus! {

#[verifier::external_type_specification]
#[verifier::external_body]
pub struct ExValue(serde_json::Value);

#[verifier::external_type_specification]
#[verifier::external_body]
pub struct ExError(serde_json::Error);

/// What parsing a JSON text yields: the parsed document, or nothing when the
/// text is not valid JSON.
pub uninterp spec fn parsed_json(text: Seq<char>) -> Option<DocView>;

/// The compact JSON text of a document.
pub uninterp spec fn compact_json(d: DocView) -> Seq<char>;

/// The pretty-printed JSON text of a document.
pub uninterp spec fn pretty_json(d: DocView) -> Seq<char>;

/// The document shape of a serde_json tree: a number keeps the text the
/// parser scanned for it (exact under the `arbitrary_precision` feature).
#[verifier::external_body]
fn value_to_doc(v: &serde_json::Value) -> Document {
    match v {
        serde_json::Value::Null => Document::Null,
        serde_json::Value::Bool(b) => Document::Bool(*b),
        serde_json::Value::Number(n) => Document::Number(n.to_string()),
        serde_json::Value::String(s) => Document::Text(s.clone()),
        serde_json::Value::Array(items) => Document::Array(items.iter().map(value_to_doc).collect()),
        serde_json::Value::Object(entries) => Document::Object(
            entries.iter().map(|e| (e.0.clone(), value_to_doc(e.1))).collect(),
        ),
    }
}

/// The serde_json tree of a document: number text is re-read as a JSON number,
/// which keeps canonical text verbatim (an unreadable number text falls back
/// to `null`).
#[verifier::external_body]
fn doc_to_value(d: &Document) -> serde_json::Value {
    match d {
        Document::Null => serde_json::Value::Null,
        Document::Bool(b) => serde_json::Value::Bool(*b),
        Document::Number(s) => match serde_json::from_str::<serde_json::Number>(s) {
            Ok(n) => serde_json::Value::Number(n),
            Err(_) => serde_json::Value::Null,
        },
        Document::Text(s) => serde_json::Value::String(s.clone()),
        Document::Array(items) => serde_json::Value::Array(items.iter().map(doc_to_value).collect()),
        Document::Object(entries) => serde_json::Value::Object(
            entries.iter().map(|e| (e.0.clone(), doc_to_value(&e.1))).collect(),
        ),
    }
}

/// Relies on serde_json::from_str: whether a text parses, and to which
/// document, depends on the text alone.  A parsed document is round-trippable
/// by construction: its object keys are unique (a repeated key replaces the
/// earlier entry), its number texts are canonical (the parser reprints
/// in-range integers in plain decimal and normalizes an exponent to a
/// lowercase `e` with an explicit sign), and its nesting is within the
/// parser's own recursion limit (`max_parse_depth`) — deeper text is refused.
#[verifier::external_body]
pub(crate) fn parse_text(s: &str) -> (r: Result<Document, serde_json::Error>)
    ensures
        match r {
            Ok(d) => parsed_json(s@) == Some(d@) && d@.wf() && d@.round_trippable(),
            Err(_) => parsed_json(s@) is None,
        },
{
    serde_json::from_str::<serde_json::Value>(s).map(|v| value_to_doc(&v))
}

/// Relies on serde_json's compact serialization of a tree (its `Display`),
/// which never fails and depends on the document alone; serde_json parses its
/// own compact output back to an equal tree (insertion order kept under
/// `preserve_order`, canonical number text written and re-read verbatim under
/// `arbitrary_precision`), so a well-formed, round-trippable document — one
/// whose number texts are canonical and whose nesting is within the parser's
/// recursion limit, which the serializer itself does not enforce — re-parses
/// exactly.
#[verifier::external_body]
pub(crate) fn to_json_text(d: &Document) -> (r: String)
    ensures
        r@ == compact_json(d@),
        d@.wf() && d@.round_trippable() ==> parsed_json(r@) == Some(d@),
{
    doc_to_value(d).to_string()
}

/// Relies on serde_json::to_string_pretty: the pretty text depends on the
/// document alone, and the call cannot fail on a tree this codec builds (the
/// writer is a growable buffer, every map key is a string, and a number is
/// written from its stored text); the pretty text differs from the compact
/// one only in whitespace, so it parses back the same way, under the same
/// depth limit.
#[verifier::external_body]
pub(crate) fn to_pretty_text(d: &Document) -> (r: Result<String, serde_json::Error>)
    ensures
        r is Ok,
        r matches Ok(s) ==> {
            &&& s@ == pretty_json(d@)
            &&& d@.wf() && d@.round_trippable() ==> parsed_json(s@) == Some(d@)
        },
{
    serde_json::to_string_pretty(&doc_to_value(d))
}

/// Relies on serde_json::from_value: the document is decoded into `T` by
/// `T`'s own deserialization rules; nothing is promised of the outcome.
#[verifier::external_body]
pub(crate) fn typed_from_document<T: serde::de::DeserializeOwned>(d: &Document) -> Result<
    T,
    serde_json::Error,
> {
    serde_json::from_value(doc_to_value(d))
}

/// Relies on serde_json::Error's `Display` for a description of a failure.
#[verifier::external_body]
pub(crate) fn error_text(e: &serde_json::Error) -> String {
    format!("{}", e)
}

} // verus!
