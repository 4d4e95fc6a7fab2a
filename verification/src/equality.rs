//! When two configuration values are the same document, and what `==`
//! means on the library's types.
//!
//! Two values are equal where they stand for the same document: the order
//! in which an object holds its bindings does not count, and neither does
//! a binding that a later one of the same name has replaced. Two schemas,
//! and two schema sources, are equal where they are the same mapping.

use crate::bindings::{
    last_binding_named_as, last_binding_of, lemma_bound_is_member,
    lemma_last_binding_is_member, lemma_same_mapping, lemma_unbound_is_no_member, mapping,
};
use crate::config_from_lines::{named, ConfigValue};
use crate::document::Document;
use vstd::prelude::*;
use vstd::std_specs::cmp::PartialEqSpecImpl;

verus! {

/// Whether `a` and `b` stand for the same document.
pub fn same_document(a: &ConfigValue, b: &ConfigValue) -> (same: bool)
    ensures
        same == (a@ == b@),
    decreases a,
{
    match a {
        ConfigValue::Null => matches!(b, ConfigValue::Null),
        ConfigValue::Boolean(x) => match b {
            ConfigValue::Boolean(y) => *x == *y,
            _ => false,
        },
        ConfigValue::Number(x) => match b {
            ConfigValue::Number(y) => *x == *y,
            _ => false,
        },
        ConfigValue::String(x) => match b {
            ConfigValue::String(y) => *x == *y,
            _ => false,
        },
        ConfigValue::Object(xs) => match b {
            ConfigValue::Object(ys) => {
                let ghost ours = named(xs@);
                let ghost theirs = named(ys@);
                let mut i: usize = 0;
                while i < xs.len()
                    invariant
                        i <= xs.len(),
                        a == ConfigValue::Object(*xs),
                        a@ == Document::Object(mapping(ours)),
                        b@ == Document::Object(mapping(theirs)),
                        ours == named(xs@),
                        theirs == named(ys@),
                        forall|j: int|
                            0 <= j < i ==> mapping(theirs).contains_key((#[trigger] ours[j]).0)
                                && mapping(ours)[ours[j].0] == mapping(theirs)[ours[j].0],
                    decreases xs.len() - i,
                {
                    let p = last_binding_named_as(xs, i);
                    proof {
                        lemma_last_binding_is_member(ours, p as int);
                    }
                    match last_binding_of(ys, &xs[i].0) {
                        Some(q) => {
                            proof {
                                lemma_last_binding_is_member(theirs, q as int);
                            }
                            assert(decreases_to!(a => xs[p as int].1)) by {
                                broadcast use vstd::std_specs::vec::axiom_vec_index_decreases;
                                assert(decreases_to!(*xs => xs[p as int]));
                            }
                            if !same_document(&xs[p].1, &ys[q].1) {
                                assert(mapping(ours)[ours[i as int].0] != mapping(theirs)[ours[i as int].0]);
                                return false;
                            }
                        },
                        None => {
                            proof {
                                lemma_unbound_is_no_member(theirs, ours[i as int].0);
                            }
                            return false;
                        },
                    }
                    i = i + 1;
                }
                let mut i: usize = 0;
                while i < ys.len()
                    invariant
                        i <= ys.len(),
                        a@ == Document::Object(mapping(ours)),
                        b@ == Document::Object(mapping(theirs)),
                        ours == named(xs@),
                        theirs == named(ys@),
                        forall|j: int|
                            0 <= j < i ==> mapping(ours).contains_key((#[trigger] theirs[j]).0),
                    decreases ys.len() - i,
                {
                    match last_binding_of(xs, &ys[i].0) {
                        Some(p) => {
                            proof {
                                lemma_last_binding_is_member(ours, p as int);
                            }
                        },
                        None => {
                            proof {
                                lemma_unbound_is_no_member(ours, theirs[i as int].0);
                                lemma_bound_is_member(theirs, i as int);
                            }
                            return false;
                        },
                    }
                    i = i + 1;
                }
                proof {
                    lemma_same_mapping(ours, theirs);
                }
                true
            },
            _ => false,
        },
    }
}

impl PartialEq for ConfigValue {
    fn eq(&self, other: &Self) -> (same: bool) {
        same_document(self, other)
    }
}

impl PartialEqSpecImpl for ConfigValue {
    open spec fn obeys_eq_spec() -> bool {
        true
    }

    open spec fn eq_spec(&self, other: &Self) -> bool {
        self@ == other@
    }
}

impl Eq for ConfigValue {

}

impl PartialEq for crate::model::schema::Schema {
    fn eq(&self, other: &Self) -> (same: bool) {
        self.same_rules(other)
    }
}

impl PartialEqSpecImpl for crate::model::schema::Schema {
    open spec fn obeys_eq_spec() -> bool {
        true
    }

    open spec fn eq_spec(&self, other: &Self) -> bool {
        self@ == other@
    }
}

impl Eq for crate::model::schema::Schema {

}

impl PartialEq for crate::file_reader::schema_file_reader::Schema {
    fn eq(&self, other: &Self) -> (same: bool) {
        self.same_rules(other)
    }
}

impl PartialEqSpecImpl for crate::file_reader::schema_file_reader::Schema {
    open spec fn obeys_eq_spec() -> bool {
        true
    }

    open spec fn eq_spec(&self, other: &Self) -> bool {
        self@ == other@
    }
}

impl Eq for crate::file_reader::schema_file_reader::Schema {

}

} // verus!
