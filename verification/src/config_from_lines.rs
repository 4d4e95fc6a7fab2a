//! The document as the library holds it, the inference of a value from
//! its raw text, the writing of one value at one dotted path, and the
//! conversion of a whole sequence of lines.

use crate::bindings::{
    distinct_names, last_binding_of, lemma_appending_inserts, lemma_last_binding_is_member,
    lemma_rebinding_inserts, lemma_unbound_is_no_member, mapping,
};
use crate::document::Document;
use crate::line::{assignment, is_comment, key_value_of};
use crate::number::{integer, parse_integer};
use crate::text::{chars_of, chars_spell, is_blank, split, split_on, texts};
use vstd::prelude::*;
use vstd::string::*;

verus! {

/// A configuration value.
///
/// An `Object` holds its members as a list of bindings of names to values.
/// Where a list binds a name more than once, the last binding is the
/// member. The documents that this library builds never bind a name twice
/// (see [`ConfigValue::has_unique_keys`]).
#[derive(Debug)]
pub enum ConfigValue {
    String(String),
    Number(i64),
    Boolean(bool),
    Object(Vec<(String, ConfigValue)>),
    Null,
}

impl View for ConfigValue {
    type V = Document;

    open spec fn view(&self) -> Document
        decreases self, 1int,
    {
        match self {
            ConfigValue::String(s) => Document::Text(s@),
            ConfigValue::Number(n) => Document::Integer(*n),
            ConfigValue::Boolean(b) => Document::Boolean(*b),
            ConfigValue::Object(bindings) => Document::Object(mapping(named(bindings@))),
            ConfigValue::Null => Document::Null,
        }
    }
}

/// The bindings of an object, each name as a text and each value as the
/// document it stands for.
pub open spec fn named(bindings: Seq<(String, ConfigValue)>) -> Seq<(Seq<char>, Document)>
    decreases bindings, 0int,
{
    Seq::new(
        bindings.len(),
        |i: int|
            if 0 <= i < bindings.len() {
                (bindings[i].0@, bindings[i].1.view())
            } else {
                (Seq::empty(), Document::Null)
            },
    )
}

impl ConfigValue {
    /// No object anywhere in the value binds a name twice.
    pub open spec fn has_unique_keys(&self) -> bool
        decreases self,
    {
        match self {
            ConfigValue::Object(bindings) => {
                &&& distinct_names(named(bindings@))
                &&& forall|i: int|
                    0 <= i < bindings@.len() ==> (#[trigger] bindings@[i]).1.has_unique_keys()
            },
            _ => true,
        }
    }

}

/// The value that a raw text stands for: `true` and `false` are the two
/// booleans; a run of decimal digits, with one `-` in front of it or none,
/// is the integer it denotes where that fits 64 bits; and any other text
/// is itself.
pub open spec fn infer(raw: Seq<char>) -> Document {
    if raw == "true"@ {
        Document::Boolean(true)
    } else if raw == "false"@ {
        Document::Boolean(false)
    } else {
        match integer(raw) {
            Some(n) => Document::Integer(n),
            None => Document::Text(raw),
        }
    }
}

/// The document after one more line: an assignment is written at the path
/// that its key spells, with the value that its raw text stands for; any
/// other line leaves the document as it is.
pub open spec fn apply_line(doc: Document, line: Seq<char>) -> Document {
    match assignment(line) {
        Some((key, value)) => doc.set(split(key, '.'), infer(value)),
        None => doc,
    }
}

/// The document that a sequence of lines describes: the lines applied in
/// order, starting from `Null`.
pub open spec fn document_of(lines: Seq<Seq<char>>) -> Document
    decreases lines.len(),
{
    if lines.len() == 0 {
        Document::Null
    } else {
        apply_line(document_of(lines.drop_last()), lines.last())
    }
}

/// A document under construction.
#[derive(Debug)]
pub struct Config(ConfigValue);

impl View for Config {
    type V = Document;

    closed spec fn view(&self) -> Document {
        self.0@
    }
}

impl Config {
    /// No object anywhere in the document binds a name twice.
    pub closed spec fn has_unique_keys(&self) -> bool {
        self.0.has_unique_keys()
    }

    /// The empty document, `Null`.
    pub fn new() -> (config: Self)
        ensures
            config@ == Document::Null,
            config.has_unique_keys(),
    {
        Self(ConfigValue::Null)
    }

    /// Replaces the whole document by `value`.
    pub fn set(&mut self, value: ConfigValue)
        ensures
            final(self)@ == value@,
            final(self).has_unique_keys() == value.has_unique_keys(),
    {
        self.0 = value;
    }

    /// The document as a value.
    pub fn value(&self) -> (value: &ConfigValue)
        ensures
            value@ == self@,
            value.has_unique_keys() == self.has_unique_keys(),
    {
        &self.0
    }

    /// Gives the document up as a value.
    pub fn into_value(self) -> (value: ConfigValue)
        ensures
            value@ == self@,
            value.has_unique_keys() == self.has_unique_keys(),
    {
        self.0
    }
}

/// The value that the raw text `s` stands for.
pub fn config_value_from_str(s: &str) -> (value: ConfigValue)
    ensures
        value@ == infer(s@),
        value.has_unique_keys(),
{
    let chars = chars_of(s);
    if chars_spell(&chars, "true") {
        ConfigValue::Boolean(true)
    } else if chars_spell(&chars, "false") {
        ConfigValue::Boolean(false)
    } else {
        match parse_integer(&chars) {
            Some(n) => ConfigValue::Number(n),
            None => ConfigValue::String(s.to_owned()),
        }
    }
}

/// Writes `value` into `node` at the path `keys[from..]`.
fn set_value(node: ConfigValue, keys: &Vec<&str>, from: usize, value: ConfigValue) -> (res:
    ConfigValue)
    requires
        from < keys.len(),
    ensures
        res@ == node@.set(texts(keys@).skip(from as int), value@),
        node.has_unique_keys() && value.has_unique_keys() ==> res.has_unique_keys(),
    decreases keys.len() - from,
{
    let ghost path = texts(keys@).skip(from as int);
    let mut bindings = match node {
        ConfigValue::Object(bindings) => bindings,
        _ => Vec::new(),
    };
    let ghost before = named(bindings@);
    assert(mapping(before) == node@.members());
    let key = keys[from].to_owned();
    assert(key@ == path[0]);
    let found = last_binding_of(&bindings, &key);
    let child = match found {
        Some(at) => {
            proof {
                lemma_last_binding_is_member(before, at as int);
            }
            let mut child = ConfigValue::Null;
            std::mem::swap(&mut bindings[at].1, &mut child);
            child
        },
        None => {
            proof {
                lemma_unbound_is_no_member(before, key@);
            }
            ConfigValue::Object(Vec::new())
        },
    };
    assert(child@ == node@.child(key@));
    let child = if from + 1 == keys.len() {
        value
    } else {
        assert(path.skip(1) =~= texts(keys@).skip(from + 1));
        set_value(child, keys, from + 1, value)
    };
    match found {
        Some(at) => {
            bindings[at].1 = child;
            proof {
                lemma_rebinding_inserts(before, at as int, child@);
                assert(named(bindings@) =~= before.update(at as int, (key@, child@)));
            }
        },
        None => {
            proof {
                lemma_appending_inserts(before, key@, child@);
                assert(named(bindings@.push((key, child))) =~= before.push((key@, child@)));
            }
            bindings.push((key, child));
        },
    }
    ConfigValue::Object(bindings)
}

/// Writes the value that `value` stands for into `config` at the path
/// that `keys` spells.
///
/// Every node on the way is made an object where it is none, whatever it
/// held before; the entry of the last key is replaced. Without any key
/// nothing is written.
pub fn set_config(config: Config, keys: Vec<&str>, value: &str) -> (res: Config)
    ensures
        res@ == config@.set(texts(keys@), infer(value@)),
        config.has_unique_keys() ==> res.has_unique_keys(),
{
    if keys.len() == 0 {
        return config;
    }
    assert(texts(keys@).skip(0) =~= texts(keys@));
    Config(set_value(config.0, &keys, 0, config_value_from_str(value)))
}

/// The document that `lines` describe.
///
/// Each line is taken in order. Comments, blank lines and lines without
/// `=` are passed over; every other line writes its value at its key's
/// path, over whatever was there.
pub fn config_from_lines(lines: Vec<&str>) -> (config: Config)
    ensures
        config@ == document_of(texts(lines@)),
        config.has_unique_keys(),
{
    let mut config = Config::new();
    let mut i: usize = 0;
    assert(texts(lines@).take(0) =~= Seq::<Seq<char>>::empty());
    while i < lines.len()
        invariant
            i <= lines.len(),
            config@ == document_of(texts(lines@).take(i as int)),
            config.has_unique_keys(),
        decreases lines.len() - i,
    {
        assert(texts(lines@).take(i + 1).drop_last() =~= texts(lines@).take(i as int));
        assert(texts(lines@).take(i + 1).last() == lines@[i as int]@);
        match key_value_of(lines[i]) {
            Some((key, value)) => {
                config = set_config(config, split_on(key, '.'), value);
            },
            None => {},
        }
        i = i + 1;
    }
    assert(texts(lines@).take(lines.len() as int) =~= texts(lines@));
    config
}

/// A comment or a blank line, put anywhere among the lines, leaves the
/// document that they describe as it is.
pub proof fn lemma_comment_or_blank_changes_nothing(
    lines: Seq<Seq<char>>,
    at: int,
    line: Seq<char>,
)
    requires
        0 <= at <= lines.len(),
        is_comment(line) || is_blank(line),
    ensures
        document_of(lines.insert(at, line)) == document_of(lines),
    decreases lines.len() - at,
{
    let longer = lines.insert(at, line);
    if at == lines.len() {
        assert(longer.drop_last() =~= lines);
    } else {
        lemma_comment_or_blank_changes_nothing(lines.drop_last(), at, line);
        assert(longer.drop_last() =~= lines.drop_last().insert(at, line));
        assert(longer.last() == lines.last());
    }
}

/// Two conversions of the same lines give the same document.
pub proof fn lemma_conversion_is_deterministic(
    lines: Seq<Seq<char>>,
    first: Config,
    second: Config,
)
    requires
        first@ == document_of(lines),
        second@ == document_of(lines),
    ensures
        first@ == second@,
{
}

} // verus!
