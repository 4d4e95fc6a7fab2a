//! Lists of bindings of names to values, read as mappings.
//!
//! The library keeps every mapping from names to values as a list of
//! bindings. The mapping that such a list stands for is [`mapping`]: where
//! a name is bound more than once, its last binding counts.

use vstd::prelude::*;

verus! {

/// The mapping that a list of bindings stands for: each binding in turn is
/// inserted, so a later binding of a name replaces an earlier one.
pub open spec fn mapping<T>(bindings: Seq<(Seq<char>, T)>) -> Map<Seq<char>, T>
    decreases bindings.len(),
{
    if bindings.len() == 0 {
        Map::empty()
    } else {
        mapping(bindings.drop_last()).insert(bindings.last().0, bindings.last().1)
    }
}

/// No binding after position `at` has the name `key`.
pub open spec fn unbound_after<T>(bindings: Seq<(Seq<char>, T)>, at: int, key: Seq<char>) -> bool {
    forall|j: int| at < j < bindings.len() ==> (#[trigger] bindings[j]).0 != key
}

/// No two bindings have the same name.
pub open spec fn distinct_names<T>(bindings: Seq<(Seq<char>, T)>) -> bool {
    forall|i: int, j: int|
        0 <= i < j < bindings.len() ==> (#[trigger] bindings[i]).0 != (#[trigger] bindings[j]).0
}

/// The position of the last binding of `key`; -1 where it is not bound.
pub open spec fn last_position<T>(bindings: Seq<(Seq<char>, T)>, key: Seq<char>) -> int
    decreases bindings.len(),
{
    if bindings.len() == 0 {
        -1
    } else if bindings.last().0 == key {
        bindings.len() - 1
    } else {
        last_position(bindings.drop_last(), key)
    }
}

/// The list with `key` bound to `value`: in place of its last binding
/// where it is bound, at the end where it is not.
pub open spec fn bound<T>(bindings: Seq<(Seq<char>, T)>, key: Seq<char>, value: T) -> Seq<
    (Seq<char>, T),
> {
    if last_position(bindings, key) >= 0 {
        bindings.update(last_position(bindings, key), (key, value))
    } else {
        bindings.push((key, value))
    }
}

/// The last position is that of a binding of the name after which the
/// name is not bound, or -1 where no binding has the name.
pub proof fn lemma_last_position<T>(bindings: Seq<(Seq<char>, T)>, key: Seq<char>)
    ensures
        -1 <= last_position(bindings, key) < bindings.len(),
        unbound_after(bindings, last_position(bindings, key), key),
        last_position(bindings, key) >= 0 ==> bindings[last_position(bindings, key)].0 == key,
    decreases bindings.len(),
{
    if bindings.len() > 0 && bindings.last().0 != key {
        let front = bindings.drop_last();
        lemma_last_position(front, key);
        assert forall|j: int| last_position(bindings, key) < j < bindings.len() implies (
        #[trigger] bindings[j]).0 != key by {
            if j < front.len() {
                assert(front[j] == bindings[j]);
            }
        }
    }
}

/// Binding a name inserts it into the mapping.
pub proof fn lemma_binding_inserts<T>(bindings: Seq<(Seq<char>, T)>, key: Seq<char>, value: T)
    ensures
        mapping(bound(bindings, key, value)) == mapping(bindings).insert(key, value),
{
    lemma_last_position(bindings, key);
    if last_position(bindings, key) >= 0 {
        lemma_rebinding_inserts(bindings, last_position(bindings, key), value);
    } else {
        lemma_appending_inserts(bindings, key, value);
    }
}

/// The list with each of its bindings bound in turn: every name stands
/// once, where it first stood, with the value of its last binding.
pub open spec fn settled<T>(bindings: Seq<(Seq<char>, T)>) -> Seq<(Seq<char>, T)>
    decreases bindings.len(),
{
    if bindings.len() == 0 {
        Seq::empty()
    } else {
        bound(settled(bindings.drop_last()), bindings.last().0, bindings.last().1)
    }
}

/// Binding a name in a list without a name twice gives such a list.
pub proof fn lemma_binding_keeps_names_distinct<T>(
    bindings: Seq<(Seq<char>, T)>,
    key: Seq<char>,
    value: T,
)
    requires
        distinct_names(bindings),
    ensures
        distinct_names(bound(bindings, key, value)),
{
    lemma_last_position(bindings, key);
}

/// A settled list stands for the same mapping and holds no name twice.
pub proof fn lemma_settled<T>(bindings: Seq<(Seq<char>, T)>)
    ensures
        mapping(settled(bindings)) == mapping(bindings),
        distinct_names(settled(bindings)),
    decreases bindings.len(),
{
    if bindings.len() > 0 {
        let front = settled(bindings.drop_last());
        lemma_settled(bindings.drop_last());
        lemma_binding_inserts(front, bindings.last().0, bindings.last().1);
        lemma_binding_keeps_names_distinct(front, bindings.last().0, bindings.last().1);
    }
}

/// Two lists stand for the same mapping where every name of the first is
/// a member of the second with the same value, and every name of the
/// second is a member of the first.
pub proof fn lemma_same_mapping<T>(ours: Seq<(Seq<char>, T)>, theirs: Seq<(Seq<char>, T)>)
    requires
        forall|j: int|
            0 <= j < ours.len() ==> mapping(theirs).contains_key((#[trigger] ours[j]).0)
                && mapping(ours)[ours[j].0] == mapping(theirs)[ours[j].0],
        forall|j: int|
            0 <= j < theirs.len() ==> mapping(ours).contains_key((#[trigger] theirs[j]).0),
    ensures
        mapping(ours) == mapping(theirs),
{
    assert forall|key: Seq<char>| #[trigger]
        mapping(ours).contains_key(key) implies mapping(theirs).contains_key(key) && mapping(
        ours,
    )[key] == mapping(theirs)[key] by {
        if unbound_after(ours, -1, key) {
            lemma_unbound_is_no_member(ours, key);
        }
        let j = choose|j: int| -1 < j < ours.len() && (#[trigger] ours[j]).0 == key;
        assert(ours[j].0 == key);
    }
    assert forall|key: Seq<char>| #[trigger]
        mapping(theirs).contains_key(key) implies mapping(ours).contains_key(key) by {
        if unbound_after(theirs, -1, key) {
            lemma_unbound_is_no_member(theirs, key);
        }
        let j = choose|j: int| -1 < j < theirs.len() && (#[trigger] theirs[j]).0 == key;
        assert(theirs[j].0 == key);
    }
    assert(mapping(ours) =~= mapping(theirs));
}

/// A name that no binding has is no member of the mapping.
pub proof fn lemma_unbound_is_no_member<T>(bindings: Seq<(Seq<char>, T)>, key: Seq<char>)
    requires
        unbound_after(bindings, -1, key),
    ensures
        !mapping(bindings).contains_key(key),
    decreases bindings.len(),
{
    if bindings.len() > 0 {
        let front = bindings.drop_last();
        assert forall|j: int| -1 < j < front.len() implies (#[trigger] front[j]).0 != key by {
            assert(front[j] == bindings[j]);
        }
        lemma_unbound_is_no_member(front, key);
        assert(bindings[bindings.len() - 1].0 != key);
    }
}

/// A name that some binding has is a member of the mapping.
pub proof fn lemma_bound_is_member<T>(bindings: Seq<(Seq<char>, T)>, at: int)
    requires
        0 <= at < bindings.len(),
    ensures
        mapping(bindings).contains_key(bindings[at].0),
    decreases bindings.len(),
{
    if at < bindings.len() - 1 {
        let front = bindings.drop_last();
        assert(front[at] == bindings[at]);
        lemma_bound_is_member(front, at);
    }
}

/// The last binding of a name gives the member of that name.
pub proof fn lemma_last_binding_is_member<T>(bindings: Seq<(Seq<char>, T)>, at: int)
    requires
        0 <= at < bindings.len(),
        unbound_after(bindings, at, bindings[at].0),
    ensures
        mapping(bindings).contains_key(bindings[at].0),
        mapping(bindings)[bindings[at].0] == bindings[at].1,
    decreases bindings.len(),
{
    let key = bindings[at].0;
    if at < bindings.len() - 1 {
        let front = bindings.drop_last();
        assert forall|j: int| at < j < front.len() implies (#[trigger] front[j]).0 != key by {
            assert(front[j] == bindings[j]);
        }
        lemma_last_binding_is_member(front, at);
        assert(bindings[bindings.len() - 1].0 != key);
    }
}

/// Replacing the last binding of a name by another binding of that name
/// replaces the member of that name, and no other.
pub proof fn lemma_rebinding_inserts<T>(bindings: Seq<(Seq<char>, T)>, at: int, value: T)
    requires
        0 <= at < bindings.len(),
        unbound_after(bindings, at, bindings[at].0),
    ensures
        mapping(bindings.update(at, (bindings[at].0, value))) == mapping(bindings).insert(
            bindings[at].0,
            value,
        ),
    decreases bindings.len(),
{
    let key = bindings[at].0;
    let updated = bindings.update(at, (key, value));
    let front = bindings.drop_last();
    let last = bindings.last();
    if at == bindings.len() - 1 {
        assert(updated.drop_last() =~= front);
        assert(mapping(front).insert(key, last.1).insert(key, value) =~= mapping(front).insert(
            key,
            value,
        ));
    } else {
        assert forall|j: int| at < j < front.len() implies (#[trigger] front[j]).0 != key by {
            assert(front[j] == bindings[j]);
        }
        lemma_rebinding_inserts(front, at, value);
        assert(updated.drop_last() =~= front.update(at, (key, value)));
        assert(bindings[bindings.len() - 1].0 != key);
        assert(mapping(front).insert(key, value).insert(last.0, last.1) =~= mapping(front).insert(
            last.0,
            last.1,
        ).insert(key, value));
    }
}

/// Appending a binding inserts it into the mapping.
pub proof fn lemma_appending_inserts<T>(bindings: Seq<(Seq<char>, T)>, key: Seq<char>, value: T)
    ensures
        mapping(bindings.push((key, value))) == mapping(bindings).insert(key, value),
{
    assert(bindings.push((key, value)).drop_last() =~= bindings);
}

/// The position of the last binding whose name is `key`, if there is one.
pub fn last_binding_of<V>(bindings: &Vec<(String, V)>, key: &String) -> (found: Option<usize>)
    ensures
        match found {
            Some(at) => {
                &&& at < bindings.len()
                &&& bindings[at as int].0@ == key@
                &&& forall|j: int| at < j < bindings.len() ==> (#[trigger] bindings[j]).0@ != key@
            },
            None => forall|j: int| 0 <= j < bindings.len() ==> (#[trigger] bindings[j]).0@ != key@,
        },
{
    let mut at: usize = bindings.len();
    while at > 0
        invariant
            at <= bindings.len(),
            forall|j: int| at <= j < bindings.len() ==> (#[trigger] bindings[j]).0@ != key@,
        decreases at,
    {
        at = at - 1;
        if bindings[at].0 == *key {
            return Some(at);
        }
    }
    None
}

/// The position of the last binding that has the name of the binding at
/// `at`.
pub fn last_binding_named_as<V>(bindings: &Vec<(String, V)>, at: usize) -> (last: usize)
    requires
        at < bindings.len(),
    ensures
        at <= last < bindings.len(),
        bindings[last as int].0@ == bindings[at as int].0@,
        forall|j: int|
            last < j < bindings.len() ==> (#[trigger] bindings[j]).0@ != bindings[at as int].0@,
{
    let mut last: usize = bindings.len();
    while last > at + 1
        invariant
            at < last <= bindings.len(),
            forall|j: int|
                last <= j < bindings.len() ==> (#[trigger] bindings[j]).0@ != bindings[at as int].0@,
        decreases last,
    {
        last = last - 1;
        if bindings[last].0 == bindings[at].0 {
            return last;
        }
    }
    at
}

} // verus!
