//! A schema as its source gives it: for each key, the text that names the
//! type of its value, not yet read as a type.

use crate::bindings::{
    bound, distinct_names, last_binding_named_as, last_binding_of, last_position,
    lemma_binding_inserts, lemma_binding_keeps_names_distinct, lemma_bound_is_member,
    lemma_last_binding_is_member, lemma_last_position, lemma_same_mapping, lemma_settled,
    lemma_unbound_is_no_member, mapping, settled,
};
use crate::file_reader::{lines_from_text, lines_of};
use crate::text::{split_at_first, split_once, text_pairs, texts, trim, trimmed};
use vstd::prelude::*;
use vstd::string::*;

verus! {

/// The rules of a schema source, each key and each type name as a text.
pub open spec fn raw_pairs(rules: Seq<(String, String)>) -> Seq<(Seq<char>, Seq<char>)> {
    Seq::new(rules.len(), |i: int| (rules[i].0@, rules[i].1@))
}

/// The rule that a line of a schema source gives, if it gives one: the
/// line is cut at its first `->`; the key is what stands before it and the
/// type name what stands after it, each without the white space around
/// it. A line without `->` gives no rule.
pub open spec fn rule_of(line: Seq<char>) -> Option<(Seq<char>, Seq<char>)> {
    match split_once(line, "->"@) {
        Some((key, value_type)) => Some((trim(key), trim(value_type))),
        None => None,
    }
}

/// The rules that the lines of a schema source give, as they are listed:
/// the rule of each line in turn is bound, in place of the rule listed for
/// its key where there is one, at the end where there is none.
pub open spec fn rules_listed(lines: Seq<Seq<char>>) -> Seq<(Seq<char>, Seq<char>)>
    decreases lines.len(),
{
    if lines.len() == 0 {
        Seq::empty()
    } else {
        match rule_of(lines.last()) {
            Some((key, value_type)) => bound(rules_listed(lines.drop_last()), key, value_type),
            None => rules_listed(lines.drop_last()),
        }
    }
}

/// The mapping that the lines of a schema source give.
pub open spec fn rules_in(lines: Seq<Seq<char>>) -> Map<Seq<char>, Seq<char>> {
    mapping(rules_listed(lines))
}

/// The mapping is built by inserting the rule of each line in turn.
pub proof fn lemma_rules_in_line_by_line(lines: Seq<Seq<char>>)
    requires
        lines.len() > 0,
    ensures
        rules_in(lines) == match rule_of(lines.last()) {
            Some((key, value_type)) => rules_in(lines.drop_last()).insert(key, value_type),
            None => rules_in(lines.drop_last()),
        },
{
    match rule_of(lines.last()) {
        Some((key, value_type)) => {
            lemma_binding_inserts(rules_listed(lines.drop_last()), key, value_type);
        },
        None => {},
    }
}

/// How a list of rules is written out: each rule on a line of its own, as
/// its key, ` -> ` and its type name.
pub open spec fn rendering(rules: Seq<(Seq<char>, Seq<char>)>) -> Seq<char>
    decreases rules.len(),
{
    if rules.len() == 0 {
        Seq::empty()
    } else {
        rendering(rules.drop_last()) + rules.last().0 + " -> "@ + rules.last().1 + "\n"@
    }
}

/// A schema source: a mapping from dotted keys to the texts that name the
/// types of their values. Its view is that mapping.
///
/// The rules are held as a list, in which no key stands twice (see
/// [`Schema::has_unique_keys`]). Two schema sources are equal where they
/// are the same mapping, in whatever order they list their rules.
#[derive(Debug)]
pub struct Schema(Vec<(String, String)>);

impl View for Schema {
    type V = Map<Seq<char>, Seq<char>>;

    closed spec fn view(&self) -> Map<Seq<char>, Seq<char>> {
        mapping(raw_pairs(self.0@))
    }
}

impl Default for Schema {
    /// The schema source without any rule.
    fn default() -> (schema: Self)
        ensures
            schema@ == Map::<Seq<char>, Seq<char>>::empty(),
            schema.listing() == Seq::<(Seq<char>, Seq<char>)>::empty(),
            schema.has_unique_keys(),
    {
        let schema = Schema(Vec::new());
        assert(raw_pairs(schema.0@) =~= Seq::empty());
        schema
    }
}

impl Schema {
    /// The rules in the order in which they are held.
    pub closed spec fn listing(&self) -> Seq<(Seq<char>, Seq<char>)> {
        raw_pairs(self.0@)
    }

    /// No key stands twice in the listing.
    pub closed spec fn has_unique_keys(&self) -> bool {
        distinct_names(self.listing())
    }

    /// The mapping is the one that the listed rules stand for.
    pub proof fn lemma_view_is_mapping_of_listing(&self)
        ensures
            self@ == mapping(self.listing()),
    {
    }

    /// The schema source of the given rules. Where a key stands more than
    /// once, its last rule counts, and the key is listed once, where it
    /// first stood.
    pub fn new(rules: Vec<(String, String)>) -> (schema: Self)
        ensures
            schema@ == mapping(raw_pairs(rules@)),
            schema.listing() == settled(raw_pairs(rules@)),
            schema.has_unique_keys(),
    {
        let mut schema = Schema::default();
        let mut i: usize = 0;
        assert(raw_pairs(rules@).take(0) =~= Seq::empty());
        while i < rules.len()
            invariant
                i <= rules.len(),
                schema.listing() == settled(raw_pairs(rules@).take(i as int)),
            decreases rules.len() - i,
        {
            let ghost next = raw_pairs(rules@).take(i + 1);
            assert(next.drop_last() =~= raw_pairs(rules@).take(i as int));
            assert(next.last() == (rules@[i as int].0@, rules@[i as int].1@));
            schema = schema.add_rule(rules[i].0.as_str(), rules[i].1.as_str());
            i = i + 1;
        }
        proof {
            assert(raw_pairs(rules@).take(rules.len() as int) =~= raw_pairs(rules@));
            lemma_settled(raw_pairs(rules@));
        }
        schema
    }

    /// The schema source with one more rule. A rule that it had for `key`
    /// is replaced, where it stands; a rule for a new key is listed last.
    pub fn add_rule(self, key: &str, value_type: &str) -> (schema: Self)
        ensures
            schema@ == self@.insert(key@, value_type@),
            schema.listing() == bound(self.listing(), key@, value_type@),
            self.has_unique_keys() ==> schema.has_unique_keys(),
    {
        let mut rules = self.0;
        let ghost before = raw_pairs(rules@);
        let key = key.to_owned();
        let value_type = value_type.to_owned();
        proof {
            lemma_last_position(before, key@);
            lemma_binding_inserts(before, key@, value_type@);
            if distinct_names(before) {
                lemma_binding_keeps_names_distinct(before, key@, value_type@);
            }
        }
        match last_binding_of(&rules, &key) {
            Some(at) => {
                assert(last_position(before, key@) == at) by {
                    assert(before[at as int].0 == key@);
                    if last_position(before, key@) >= 0 {
                        assert(before[last_position(before, key@)].0 == key@);
                    }
                }
                rules[at].1 = value_type;
                assert(raw_pairs(rules@) =~= before.update(at as int, (key@, value_type@)));
            },
            None => {
                assert(last_position(before, key@) == -1) by {
                    if last_position(before, key@) >= 0 {
                        assert(before[last_position(before, key@)].0 == key@);
                    }
                }
                assert(raw_pairs(rules@.push((key, value_type))) =~= before.push(
                    (key@, value_type@),
                ));
                rules.push((key, value_type));
            },
        }
        Schema(rules)
    }

    /// The rules in the order in which they are held.
    pub fn rules(&self) -> (rules: Vec<(&str, &str)>)
        ensures
            text_pairs(rules@) == self.listing(),
    {
        let mut rules: Vec<(&str, &str)> = Vec::new();
        let mut i: usize = 0;
        while i < self.0.len()
            invariant
                i <= self.0.len(),
                rules.len() == i,
                forall|j: int|
                    0 <= j < i ==> (#[trigger] rules[j]).0@ == self.0[j].0@ && rules[j].1@
                        == self.0[j].1@,
            decreases self.0.len() - i,
        {
            rules.push((self.0[i].0.as_str(), self.0[i].1.as_str()));
            i = i + 1;
        }
        assert(text_pairs(rules@) =~= raw_pairs(self.0@));
        rules
    }

    /// Whether `other` is the same mapping.
    pub fn same_rules(&self, other: &Schema) -> (same: bool)
        ensures
            same == (self@ == other@),
    {
        let ghost ours = raw_pairs(self.0@);
        let ghost theirs = raw_pairs(other.0@);
        let mut i: usize = 0;
        while i < self.0.len()
            invariant
                i <= self.0.len(),
                ours == raw_pairs(self.0@),
                theirs == raw_pairs(other.0@),
                forall|j: int|
                    0 <= j < i ==> mapping(theirs).contains_key((#[trigger] ours[j]).0) && mapping(
                        ours,
                    )[ours[j].0] == mapping(theirs)[ours[j].0],
            decreases self.0.len() - i,
        {
            let p = last_binding_named_as(&self.0, i);
            proof {
                lemma_last_binding_is_member(ours, p as int);
            }
            match last_binding_of(&other.0, &self.0[i].0) {
                Some(q) => {
                    proof {
                        lemma_last_binding_is_member(theirs, q as int);
                    }
                    if self.0[p].1 != other.0[q].1 {
                        assert(mapping(ours)[ours[i as int].0] != mapping(theirs)[ours[i as int].0]);
                        return false;
                    }
                },
                None => {
                    proof {
                        lemma_unbound_is_no_member(theirs, ours[i as int].0);
                    }
                    return false;
                },
            }
            i = i + 1;
        }
        let mut i: usize = 0;
        while i < other.0.len()
            invariant
                i <= other.0.len(),
                ours == raw_pairs(self.0@),
                theirs == raw_pairs(other.0@),
                forall|j: int| 0 <= j < i ==> mapping(ours).contains_key((#[trigger] theirs[j]).0),
            decreases other.0.len() - i,
        {
            match last_binding_of(&self.0, &other.0[i].0) {
                Some(p) => {
                    proof {
                        lemma_last_binding_is_member(ours, p as int);
                    }
                },
                None => {
                    proof {
                        lemma_unbound_is_no_member(ours, theirs[i as int].0);
                        lemma_bound_is_member(theirs, i as int);
                    }
                    return false;
                },
            }
            i = i + 1;
        }
        proof {
            lemma_same_mapping(ours, theirs);
        }
        true
    }

    /// The rules written out, each on a line of its own.
    pub fn to_text(&self) -> (text: String)
        ensures
            text@ == rendering(self.listing()),
    {
        let mut text = String::new();
        let mut i: usize = 0;
        assert(raw_pairs(self.0@).take(0) =~= Seq::empty());
        while i < self.0.len()
            invariant
                i <= self.0.len(),
                text@ == rendering(raw_pairs(self.0@).take(i as int)),
            decreases self.0.len() - i,
        {
            let ghost next = raw_pairs(self.0@).take(i + 1);
            assert(next.drop_last() =~= raw_pairs(self.0@).take(i as int));
            assert(next.last() == (self.0@[i as int].0@, self.0@[i as int].1@));
            text.append(self.0[i].0.as_str());
            text.append(" -> ");
            text.append(self.0[i].1.as_str());
            text.append("\n");
            i = i + 1;
        }
        assert(raw_pairs(self.0@).take(self.0.len() as int) =~= raw_pairs(self.0@));
        text
    }
}

/// The schema source that `lines` give.
///
/// Each line is taken in order. A line without `->` is passed over; every
/// other line gives a rule, which replaces one given before for the same
/// key.
pub fn schema_from_lines(lines: Vec<&str>) -> (schema: Schema)
    ensures
        schema@ == rules_in(texts(lines@)),
        schema.listing() == rules_listed(texts(lines@)),
        schema.has_unique_keys(),
{
    let mut schema = Schema::default();
    let mut i: usize = 0;
    assert(texts(lines@).take(0) =~= Seq::<Seq<char>>::empty());
    while i < lines.len()
        invariant
            i <= lines.len(),
            schema.listing() == rules_listed(texts(lines@).take(i as int)),
            schema.has_unique_keys(),
        decreases lines.len() - i,
    {
        assert(texts(lines@).take(i + 1).drop_last() =~= texts(lines@).take(i as int));
        assert(texts(lines@).take(i + 1).last() == lines@[i as int]@);
        match split_at_first(lines[i], "->") {
            Some((key, value_type)) => {
                schema = schema.add_rule(trimmed(key), trimmed(value_type));
            },
            None => {},
        }
        i = i + 1;
    }
    assert(texts(lines@).take(lines.len() as int) =~= texts(lines@));
    proof {
        schema.lemma_view_is_mapping_of_listing();
    }
    schema
}

/// The schema source that the lines of `text` give.
pub fn schema_from_text(text: &str) -> (schema: Schema)
    ensures
        schema@ == rules_in(lines_of(text@)),
        schema.listing() == rules_listed(lines_of(text@)),
        schema.has_unique_keys(),
{
    schema_from_lines(lines_from_text(text))
}

} // verus!
