//! A schema: for each dotted key that may appear, the type of value that
//! must stand there.

use crate::bindings::{
    last_binding_named_as, last_binding_of, lemma_appending_inserts, lemma_bound_is_member,
    lemma_last_binding_is_member, lemma_rebinding_inserts, lemma_same_mapping,
    lemma_unbound_is_no_member, mapping,
};
use crate::config_from_lines::ConfigValue;
use crate::document::Document;
use crate::text::{
    chars_of, chars_spell, join, joined_with_dots, lemma_join_of_split, split, text_pairs, texts,
};
use vstd::prelude::*;
use vstd::string::*;

verus! {

/// The type that a schema asks of a value.
#[derive(Debug, Clone, Copy, PartialEq, Eq, Structural)]
pub enum ValueType {
    Bool,
    Number,
    String,
    Array,
    Object,
}

impl ValueType {
    /// The type that a text names: each type is named by its own name,
    /// letter for letter, and by nothing else.
    pub open spec fn named_by(text: Seq<char>) -> Option<ValueType> {
        if text == "Bool"@ {
            Some(ValueType::Bool)
        } else if text == "Number"@ {
            Some(ValueType::Number)
        } else if text == "String"@ {
            Some(ValueType::String)
        } else if text == "Array"@ {
            Some(ValueType::Array)
        } else if text == "Object"@ {
            Some(ValueType::Object)
        } else {
            None
        }
    }

    /// The name of the type.
    pub open spec fn text(self) -> Seq<char> {
        match self {
            ValueType::Bool => "Bool"@,
            ValueType::Number => "Number"@,
            ValueType::String => "String"@,
            ValueType::Array => "Array"@,
            ValueType::Object => "Object"@,
        }
    }

    /// Whether a value has this type. Booleans are `Bool`, integers are
    /// `Number`, texts are `String` and objects are `Object`; `Null` has
    /// none of the types, and no value is an `Array`.
    pub open spec fn admits(self, value: Document) -> bool {
        match value {
            Document::Boolean(_) => self == ValueType::Bool,
            Document::Integer(_) => self == ValueType::Number,
            Document::Text(_) => self == ValueType::String,
            Document::Object(_) => self == ValueType::Object,
            Document::Null => false,
        }
    }

    /// Every type is named by its own name.
    pub proof fn lemma_name_names(self)
        ensures
            ValueType::named_by(self.text()) == Some(self),
    {
        reveal_strlit("Bool");
        reveal_strlit("Number");
        reveal_strlit("String");
        reveal_strlit("Array");
        reveal_strlit("Object");
        assert("Bool"@.len() == 4 && "Array"@.len() == 5 && "Number"@[0] == 'N' && "String"@[0]
            == 'S' && "Object"@[0] == 'O');
    }

    /// The type that `text` names, if it names one.
    pub fn from_text(text: &str) -> (tag: Option<ValueType>)
        ensures
            tag == ValueType::named_by(text@),
    {
        let chars = chars_of(text);
        if chars_spell(&chars, "Bool") {
            Some(ValueType::Bool)
        } else if chars_spell(&chars, "Number") {
            Some(ValueType::Number)
        } else if chars_spell(&chars, "String") {
            Some(ValueType::String)
        } else if chars_spell(&chars, "Array") {
            Some(ValueType::Array)
        } else if chars_spell(&chars, "Object") {
            Some(ValueType::Object)
        } else {
            None
        }
    }

    /// The name of the type.
    pub fn name(&self) -> (name: &'static str)
        ensures
            name@ == self.text(),
    {
        match self {
            ValueType::Bool => "Bool",
            ValueType::Number => "Number",
            ValueType::String => "String",
            ValueType::Array => "Array",
            ValueType::Object => "Object",
        }
    }

    /// Whether `value` has this type.
    pub fn matches_value(&self, value: &ConfigValue) -> (b: bool)
        ensures
            b == self.admits(value@),
    {
        match value {
            ConfigValue::Boolean(_) => matches!(self, ValueType::Bool),
            ConfigValue::Number(_) => matches!(self, ValueType::Number),
            ConfigValue::String(_) => matches!(self, ValueType::String),
            ConfigValue::Object(_) => matches!(self, ValueType::Object),
            ConfigValue::Null => false,
        }
    }
}

/// Why a schema could not be built.
#[derive(Debug)]
pub enum SchemaError {
    /// A rule gave this text as its type, and it names none.
    InvalidValueType(String),
}

impl SchemaError {
    /// What the error says.
    pub open spec fn text(self) -> Seq<char> {
        match self {
            SchemaError::InvalidValueType(given) => "Invalid value type: "@ + given@,
        }
    }

    /// What the error says.
    pub fn message(&self) -> (message: String)
        ensures
            message@ == self.text(),
    {
        match self {
            SchemaError::InvalidValueType(given) => {
                let mut message = "Invalid value type: ".to_owned();
                message.append(given.as_str());
                message
            },
        }
    }
}

/// The rules of a schema, each key as a text.
pub open spec fn rule_pairs(rules: Seq<(String, ValueType)>) -> Seq<(Seq<char>, ValueType)> {
    Seq::new(rules.len(), |i: int| (rules[i].0@, rules[i].1))
}

/// Whether the rules accept `value` at `path`: the path's segments, joined
/// by full stops, must be a key of the rules, and the value must have the
/// type that stands under that key.
pub open spec fn accepts(
    rules: Map<Seq<char>, ValueType>,
    path: Seq<Seq<char>>,
    value: Document,
) -> bool {
    rules.contains_key(join(path, '.')) && rules[join(path, '.')].admits(value)
}

/// The key under which the rules are asked about the path that a key
/// spells is that key itself.
pub proof fn lemma_accepts_by_key(
    rules: Map<Seq<char>, ValueType>,
    key: Seq<char>,
    value: Document,
)
    ensures
        accepts(rules, split(key, '.'), value) == (rules.contains_key(key)
            && rules[key].admits(value)),
{
    lemma_join_of_split(key, '.');
}

/// A path whose key the rules do not list is accepted with no value.
pub proof fn lemma_unlisted_key_is_rejected(
    rules: Map<Seq<char>, ValueType>,
    path: Seq<Seq<char>>,
    value: Document,
)
    requires
        !rules.contains_key(join(path, '.')),
    ensures
        !accepts(rules, path, value),
{
}

/// A schema: a mapping from dotted keys to the types asked of their
/// values. Its view is that mapping. Two schemas are equal where they are
/// the same mapping.
#[derive(Debug)]
pub struct Schema(Vec<(String, ValueType)>);

impl View for Schema {
    type V = Map<Seq<char>, ValueType>;

    closed spec fn view(&self) -> Map<Seq<char>, ValueType> {
        mapping(rule_pairs(self.0@))
    }
}

impl Default for Schema {
    /// The schema without any rule.
    fn default() -> (schema: Self)
        ensures
            schema@ == Map::<Seq<char>, ValueType>::empty(),
    {
        Schema(Vec::new())
    }
}

impl Schema {
    /// The schema of the given rules. Where a key stands more than once,
    /// its last rule counts.
    pub fn new(rules: Vec<(String, ValueType)>) -> (schema: Self)
        ensures
            schema@ == mapping(rule_pairs(rules@)),
    {
        Schema(rules)
    }

    /// The schema with one more rule: `key` is to hold a value of the type
    /// that `value_type` names. A rule that the schema had for `key` is
    /// replaced. Where `value_type` names no type, the text is handed back
    /// in the error.
    pub fn add_rule(self, key: &str, value_type: &str) -> (res: Result<Self, SchemaError>)
        ensures
            match ValueType::named_by(value_type@) {
                Some(tag) => res matches Ok(schema) && schema@ == self@.insert(key@, tag),
                None => res matches Err(SchemaError::InvalidValueType(given)) && given@
                    == value_type@,
            },
    {
        let tag = match ValueType::from_text(value_type) {
            Some(tag) => tag,
            None => {
                return Err(SchemaError::InvalidValueType(value_type.to_owned()));
            },
        };
        let mut rules = self.0;
        let ghost before = rule_pairs(rules@);
        let key = key.to_owned();
        match last_binding_of(&rules, &key) {
            Some(at) => {
                rules[at].1 = tag;
                proof {
                    lemma_rebinding_inserts(before, at as int, tag);
                    assert(rule_pairs(rules@) =~= before.update(at as int, (key@, tag)));
                }
            },
            None => {
                proof {
                    lemma_appending_inserts(before, key@, tag);
                    assert(rule_pairs(rules@.push((key, tag))) =~= before.push((key@, tag)));
                }
                rules.push((key, tag));
            },
        }
        Ok(Schema(rules))
    }

    /// Whether `other` is the same mapping.
    pub fn same_rules(&self, other: &Schema) -> (same: bool)
        ensures
            same == (self@ == other@),
    {
        let ghost ours = rule_pairs(self.0@);
        let ghost theirs = rule_pairs(other.0@);
        let mut i: usize = 0;
        while i < self.0.len()
            invariant
                i <= self.0.len(),
                ours == rule_pairs(self.0@),
                theirs == rule_pairs(other.0@),
                forall|j: int|
                    0 <= j < i ==> mapping(theirs).contains_key((#[trigger] ours[j]).0) && mapping(
                        ours,
                    )[ours[j].0] == mapping(theirs)[ours[j].0],
            decreases self.0.len() - i,
        {
            let p = last_binding_named_as(&self.0, i);
            proof {
                lemma_last_binding_is_member(ours, p as int);
            }
            match last_binding_of(&other.0, &self.0[i].0) {
                Some(q) => {
                    proof {
                        lemma_last_binding_is_member(theirs, q as int);
                    }
                    if self.0[p].1 != other.0[q].1 {
                        assert(mapping(ours)[ours[i as int].0] != mapping(theirs)[ours[i as int].0]);
                        return false;
                    }
                },
                None => {
                    proof {
                        lemma_unbound_is_no_member(theirs, ours[i as int].0);
                    }
                    return false;
                },
            }
            i = i + 1;
        }
        let mut i: usize = 0;
        while i < other.0.len()
            invariant
                i <= other.0.len(),
                ours == rule_pairs(self.0@),
                theirs == rule_pairs(other.0@),
                forall|j: int| 0 <= j < i ==> mapping(ours).contains_key((#[trigger] theirs[j]).0),
            decreases other.0.len() - i,
        {
            match last_binding_of(&self.0, &other.0[i].0) {
                Some(p) => {
                    proof {
                        lemma_last_binding_is_member(ours, p as int);
                    }
                },
                None => {
                    proof {
                        lemma_unbound_is_no_member(ours, theirs[i as int].0);
                        lemma_bound_is_member(theirs, i as int);
                    }
                    return false;
                },
            }
            i = i + 1;
        }
        proof {
            lemma_same_mapping(ours, theirs);
        }
        true
    }

    /// Whether the schema accepts `value` at `key_path`.
    ///
    /// A key that the schema does not list is not accepted, whatever the
    /// value.
    pub fn is_valid(&self, key_path: &[&str], value: &ConfigValue) -> (valid: bool)
        ensures
            valid == accepts(self@, texts(key_path@), value@),
    {
        let key = joined_with_dots(key_path);
        match last_binding_of(&self.0, &key) {
            Some(at) => {
                proof {
                    lemma_last_binding_is_member(rule_pairs(self.0@), at as int);
                }
                self.0[at].1.matches_value(value)
            },
            None => {
                proof {
                    lemma_unbound_is_no_member(rule_pairs(self.0@), key@);
                }
                false
            },
        }
    }
}

/// The mapping that a list of rules builds, or the first text among them,
/// in order, that names no type.
pub open spec fn rules_of(rules: Seq<(Seq<char>, Seq<char>)>) -> Result<
    Map<Seq<char>, ValueType>,
    Seq<char>,
>
    decreases rules.len(),
{
    if rules.len() == 0 {
        Ok(Map::empty())
    } else {
        match rules_of(rules.drop_last()) {
            Ok(built) => match ValueType::named_by(rules.last().1) {
                Some(tag) => Ok(built.insert(rules.last().0, tag)),
                None => Err(rules.last().1),
            },
            Err(given) => Err(given),
        }
    }
}

/// The schema of the given rules, each a key and the name of a type, added
/// in order. The first name that names no type ends the building, and no
/// schema is returned.
pub fn schema_from_rules(rules: &Vec<(&str, &str)>) -> (res: Result<Schema, SchemaError>)
    ensures
        match rules_of(text_pairs(rules@)) {
            Ok(built) => res matches Ok(schema) && schema@ == built,
            Err(text) => res matches Err(SchemaError::InvalidValueType(given)) && given@ == text,
        },
{
    let mut schema = Schema::default();
    let mut i: usize = 0;
    assert(text_pairs(rules@).take(0) =~= Seq::<(Seq<char>, Seq<char>)>::empty());
    while i < rules.len()
        invariant
            i <= rules.len(),
            rules_of(text_pairs(rules@).take(i as int)) == Ok::<
                Map<Seq<char>, ValueType>,
                Seq<char>,
            >(schema@),
        decreases rules.len() - i,
    {
        let ghost next = text_pairs(rules@).take(i + 1);
        assert(next.drop_last() =~= text_pairs(rules@).take(i as int));
        assert(next.last() == (rules@[i as int].0@, rules@[i as int].1@));
        match schema.add_rule(rules[i].0, rules[i].1) {
            Ok(extended) => {
                schema = extended;
            },
            Err(error) => {
                proof {
                    lemma_rules_fail_for_good(text_pairs(rules@), i + 1);
                }
                return Err(error);
            },
        }
        i = i + 1;
    }
    assert(text_pairs(rules@).take(rules.len() as int) =~= text_pairs(rules@));
    Ok(schema)
}

/// Once the building of a schema has failed, more rules do not mend it:
/// the failure stays the same.
pub proof fn lemma_rules_fail_for_good(rules: Seq<(Seq<char>, Seq<char>)>, k: int)
    requires
        0 <= k <= rules.len(),
        rules_of(rules.take(k)) is Err,
    ensures
        rules_of(rules) == rules_of(rules.take(k)),
    decreases rules.len() - k,
{
    if k == rules.len() {
        assert(rules.take(k) =~= rules);
    } else {
        assert(rules.take(k + 1).drop_last() =~= rules.take(k));
        lemma_rules_fail_for_good(rules, k + 1);
    }
}

} // verus!
