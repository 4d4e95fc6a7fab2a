//! The conversion of a sequence of lines into a document, held to a schema
//! where one is given.

use crate::config_from_lines::{
    config_value_from_str, document_of, infer, set_config, Config, ConfigValue,
};
use crate::document::Document;
use crate::line::{assignment, is_comment, key_value_of};
use crate::model::schema::{accepts, Schema, ValueType};
use crate::text::{is_blank, split, split_on, texts};
use vstd::prelude::*;
use vstd::string::*;

verus! {

/// Why a conversion gave no document.
#[derive(Debug)]
pub enum JsonFromConfError {
    /// The schema did not accept an assignment. The text names its key and
    /// its raw value (see [`mismatch_text`]).
    NotMatchToTheSchema(String),
}

impl JsonFromConfError {
    /// What the error says.
    pub open spec fn text(self) -> Seq<char> {
        match self {
            JsonFromConfError::NotMatchToTheSchema(detail) => "Config not match to the Schema: "@
                + detail@,
        }
    }

    /// What the error says.
    pub fn message(&self) -> (message: String)
        ensures
            message@ == self.text(),
    {
        match self {
            JsonFromConfError::NotMatchToTheSchema(detail) => {
                let mut message = "Config not match to the Schema: ".to_owned();
                message.append(detail.as_str());
                message
            },
        }
    }
}

/// How a rejected assignment is named: by its key and its raw value.
pub open spec fn mismatch_text(key: Seq<char>, value: Seq<char>) -> Seq<char> {
    "key: "@ + key + ", value: "@ + value
}

/// The document after one more line under a schema, or the name of the
/// line's assignment where the schema does not accept it.
pub open spec fn checked_line(
    doc: Document,
    line: Seq<char>,
    rules: Map<Seq<char>, ValueType>,
) -> Result<Document, Seq<char>> {
    match assignment(line) {
        Some((key, value)) => if accepts(rules, split(key, '.'), infer(value)) {
            Ok(doc.set(split(key, '.'), infer(value)))
        } else {
            Err(mismatch_text(key, value))
        },
        None => Ok(doc),
    }
}

/// The document that a sequence of lines describes under a schema, or the
/// name of the first assignment, in line order, that the schema does not
/// accept.
pub open spec fn checked_document_of(
    lines: Seq<Seq<char>>,
    rules: Map<Seq<char>, ValueType>,
) -> Result<Document, Seq<char>>
    decreases lines.len(),
{
    if lines.len() == 0 {
        Ok(Document::Null)
    } else {
        match checked_document_of(lines.drop_last(), rules) {
            Ok(doc) => checked_line(doc, lines.last(), rules),
            Err(name) => Err(name),
        }
    }
}

/// What a conversion gives: with a schema the checked document, without
/// one the document as the lines describe it.
pub open spec fn converted(
    lines: Seq<Seq<char>>,
    rules: Option<Map<Seq<char>, ValueType>>,
) -> Result<Document, Seq<char>> {
    match rules {
        Some(rules) => checked_document_of(lines, rules),
        None => Ok(document_of(lines)),
    }
}

/// The rules of a schema that may be absent.
pub open spec fn rules_of_option(schema: Option<Schema>) -> Option<Map<Seq<char>, ValueType>> {
    match schema {
        Some(schema) => Some(schema@),
        None => None,
    }
}

/// A schema decides whether a document is built, never which: where the
/// checked conversion gives a document, it is the one that the lines
/// describe.
pub proof fn lemma_schema_changes_no_document(
    lines: Seq<Seq<char>>,
    rules: Map<Seq<char>, ValueType>,
)
    ensures
        checked_document_of(lines, rules) matches Ok(doc) ==> doc == document_of(lines),
    decreases lines.len(),
{
    if lines.len() > 0 {
        lemma_schema_changes_no_document(lines.drop_last(), rules);
    }
}

/// Two conversions of the same lines under the same rules, or both under
/// none, end alike: in the same document, or in errors of the same text.
pub proof fn lemma_checked_conversion_is_deterministic(
    lines: Seq<Seq<char>>,
    rules: Option<Map<Seq<char>, ValueType>>,
    first: Result<ConfigValue, JsonFromConfError>,
    second: Result<ConfigValue, JsonFromConfError>,
)
    requires
        match converted(lines, rules) {
            Ok(doc) => first matches Ok(value) && value@ == doc,
            Err(name) => first matches Err(JsonFromConfError::NotMatchToTheSchema(detail))
                && detail@ == name,
        },
        match converted(lines, rules) {
            Ok(doc) => second matches Ok(value) && value@ == doc,
            Err(name) => second matches Err(JsonFromConfError::NotMatchToTheSchema(detail))
                && detail@ == name,
        },
    ensures
        match first {
            Ok(value) => second matches Ok(other) && value@ == other@,
            Err(error) => second matches Err(other) && error.text() == other.text(),
        },
{
}

/// Once a conversion has failed, more lines do not mend it: the failure
/// stays the same.
pub proof fn lemma_conversion_fails_for_good(
    lines: Seq<Seq<char>>,
    rules: Map<Seq<char>, ValueType>,
    k: int,
)
    requires
        0 <= k <= lines.len(),
        checked_document_of(lines.take(k), rules) is Err,
    ensures
        checked_document_of(lines, rules) == checked_document_of(lines.take(k), rules),
    decreases lines.len() - k,
{
    if k == lines.len() {
        assert(lines.take(k) =~= lines);
    } else {
        assert(lines.take(k + 1).drop_last() =~= lines.take(k));
        lemma_conversion_fails_for_good(lines, rules, k + 1);
    }
}

/// A comment or a blank line, put anywhere among the lines, leaves what
/// the conversion gives as it is, with a schema and without.
pub proof fn lemma_comment_or_blank_changes_no_conversion(
    lines: Seq<Seq<char>>,
    rules: Option<Map<Seq<char>, ValueType>>,
    at: int,
    line: Seq<char>,
)
    requires
        0 <= at <= lines.len(),
        is_comment(line) || is_blank(line),
    ensures
        converted(lines.insert(at, line), rules) == converted(lines, rules),
    decreases lines.len() - at,
{
    let longer = lines.insert(at, line);
    if at == lines.len() {
        assert(longer.drop_last() =~= lines);
    } else {
        lemma_comment_or_blank_changes_no_conversion(lines.drop_last(), rules, at, line);
        assert(longer.drop_last() =~= lines.drop_last().insert(at, line));
        assert(longer.last() == lines.last());
    }
}

/// Names a rejected assignment.
fn mismatch_detail(key: &str, value: &str) -> (detail: String)
    ensures
        detail@ == mismatch_text(key@, value@),
{
    let mut detail = "key: ".to_owned();
    detail.append(key);
    detail.append(", value: ");
    detail.append(value);
    detail
}

/// The document that `lines` describe, held to `schema` where one is
/// given.
///
/// Each line is taken in order. Comments, blank lines and lines without
/// `=` are passed over. Of every other line the key's path and the value
/// that its raw text stands for are put to the schema; the first that it
/// does not accept ends the conversion with an error that names the key
/// and the raw value, and no document is returned. An accepted value is
/// written at its path, over whatever was there.
pub fn json_from_conf(lines: Vec<&str>, schema: Option<Schema>) -> (res: Result<
    ConfigValue,
    JsonFromConfError,
>)
    ensures
        match converted(texts(lines@), rules_of_option(schema)) {
            Ok(doc) => res matches Ok(value) && value@ == doc && value.has_unique_keys(),
            Err(name) => res matches Err(JsonFromConfError::NotMatchToTheSchema(detail))
                && detail@ == name,
        },
{
    let ghost rules = rules_of_option(schema);
    let ghost all = texts(lines@);
    let mut config = Config::new();
    let mut i: usize = 0;
    assert(all.take(0) =~= Seq::<Seq<char>>::empty());
    while i < lines.len()
        invariant
            i <= lines.len(),
            all == texts(lines@),
            rules == rules_of_option(schema),
            converted(all.take(i as int), rules) == Ok::<Document, Seq<char>>(config@),
            config.has_unique_keys(),
        decreases lines.len() - i,
    {
        assert(all.take(i + 1).drop_last() =~= all.take(i as int));
        assert(all.take(i + 1).last() == lines@[i as int]@);
        match key_value_of(lines[i]) {
            Some((key, value)) => {
                let keys = split_on(key, '.');
                match &schema {
                    Some(schema) => {
                        let inferred = config_value_from_str(value);
                        if !schema.is_valid(keys.as_slice(), &inferred) {
                            proof {
                                lemma_conversion_fails_for_good(all, schema@, i + 1);
                            }
                            return Err(
                                JsonFromConfError::NotMatchToTheSchema(
                                    mismatch_detail(key, value),
                                ),
                            );
                        }
                    },
                    None => {},
                }
                config = set_config(config, keys, value);
            },
            None => {},
        }
        i = i + 1;
    }
    assert(all.take(lines.len() as int) =~= all);
    Ok(config.into_value())
}

} // verus!
