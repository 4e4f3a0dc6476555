//! Sequences of named entries that stand for mappings: a later entry
//! overrides an earlier one of the same name.

use crate::ast::Name;
use vstd::prelude::*;

verus! {

/// The mapping that a sequence of entries stands for.
pub open spec fn as_map<V>(entries: Seq<(Name, V)>) -> Map<Name, V>
    decreases entries.len(),
{
    if entries.len() == 0 {
        Map::empty()
    } else {
        as_map(entries.drop_last()).insert(entries.last().0, entries.last().1)
    }
}

/// The position of the last occurrence of `name`, if it occurs.
pub open spec fn position(names: Seq<Name>, name: Name) -> Option<int>
    decreases names.len(),
{
    if names.len() == 0 {
        None
    } else if names.last() == name {
        Some(names.len() - 1)
    } else {
        position(names.drop_last(), name)
    }
}

/// The names of a sequence of entries, in order.
pub open spec fn names_of<V>(entries: Seq<(Name, V)>) -> Seq<Name> {
    Seq::new(entries.len(), |i: int| entries[i].0)
}

/// The names of the entries of a vector, in order.
pub open spec fn names_in<T>(entries: Seq<(String, T)>) -> Seq<Name> {
    Seq::new(entries.len(), |i: int| entries[i].0@)
}

/// No name occurs twice.
pub open spec fn distinct_names<V>(entries: Seq<(Name, V)>) -> bool {
    forall|i: int, j: int|
        0 <= i < j < entries.len() ==> (#[trigger] entries[i]).0 != (#[trigger] entries[j]).0
}

/// `position` is the greatest index at which the name stands.
pub proof fn lemma_position(names: Seq<Name>, name: Name)
    ensures
        match position(names, name) {
            Some(i) => 0 <= i < names.len() && names[i] == name && forall|j: int|
                i < j < names.len() ==> names[j] != name,
            None => forall|j: int| 0 <= j < names.len() ==> names[j] != name,
        },
    decreases names.len(),
{
    if names.len() > 0 && names.last() != name {
        let front = names.drop_last();
        lemma_position(front, name);
        assert(forall|j: int| 0 <= j < front.len() ==> front[j] == names[j]);
        match position(front, name) {
            Some(i) => {
                assert forall|j: int| i < j < names.len() implies names[j] != name by {
                    if j < front.len() {
                        assert(front[j] != name);
                    }
                }
            },
            None => {
                assert forall|j: int| 0 <= j < names.len() implies names[j] != name by {
                    if j < front.len() {
                        assert(front[j] != name);
                    }
                }
            },
        }
    }
}

/// A name that stands somewhere has a position.
pub proof fn lemma_position_some(names: Seq<Name>, name: Name, i: int)
    requires
        0 <= i < names.len(),
        names[i] == name,
    ensures
        position(names, name) is Some,
{
    lemma_position(names, name);
}

/// What the mapping of a sequence of entries holds: the names that occur,
/// each with the value of its last entry.
pub proof fn lemma_as_map<V>(entries: Seq<(Name, V)>, name: Name)
    ensures
        match position(names_of(entries), name) {
            Some(i) => as_map(entries).dom().contains(name) && as_map(entries)[name]
                == entries[i].1,
            None => !as_map(entries).dom().contains(name),
        },
    decreases entries.len(),
{
    if entries.len() > 0 {
        let front = entries.drop_last();
        assert(names_of(entries).drop_last() == names_of(front));
        assert(names_of(entries).last() == entries.last().0);
        lemma_as_map(front, name);
        if entries.last().0 != name {
            match position(names_of(front), name) {
                Some(i) => {
                    lemma_position(names_of(front), name);
                    assert(front[i] == entries[i]);
                },
                None => {},
            }
        }
    }
}

/// The mapping of a sequence of entries has finitely many names.
pub proof fn lemma_as_map_finite<V>(entries: Seq<(Name, V)>)
    ensures
        as_map(entries).dom().finite(),
    decreases entries.len(),
{
    if entries.len() > 0 {
        lemma_as_map_finite(entries.drop_last());
    }
}

/// Every entry's name is in the mapping.
pub proof fn lemma_as_map_has_entry<V>(entries: Seq<(Name, V)>, i: int)
    requires
        0 <= i < entries.len(),
    ensures
        as_map(entries).dom().contains(entries[i].0),
        distinct_names(entries) ==> as_map(entries)[entries[i].0] == entries[i].1,
{
    let name = entries[i].0;
    lemma_position(names_of(entries), name);
    lemma_as_map(entries, name);
    assert(names_of(entries)[i] == name);
    match position(names_of(entries), name) {
        Some(k) => {
            assert(names_of(entries)[k] == entries[k].0);
            if distinct_names(entries) && k != i {
                if i < k {
                    assert(entries[i].0 != entries[k].0);
                } else {
                    assert(entries[k].0 != entries[i].0);
                }
            }
        },
        None => {},
    }
}

/// `==` on `str`: true exactly when both hold the same characters.
#[verifier::external_body]
pub(crate) fn same_text(a: &str, b: &str) -> (same: bool)
    ensures
        same == (a@ == b@),
{
    a == b
}

/// The index of the last entry named `name`.
pub fn find_last<T>(entries: &Vec<(String, T)>, name: &str) -> (found: Option<usize>)
    ensures
        match found {
            Some(i) => i < entries.len() && position(names_in(entries@), name@) == Some(
                i as int,
            ),
            None => position(names_in(entries@), name@) is None,
        },
{
    let mut i: usize = entries.len();
    assert(names_in(entries@).take(i as int) == names_in(entries@));
    while i > 0
        invariant
            i <= entries.len(),
            position(names_in(entries@), name@) == position(
                names_in(entries@).take(i as int),
                name@,
            ),
        decreases i,
    {
        i = i - 1;
        assert(names_in(entries@).take(i + 1).drop_last() == names_in(entries@).take(i as int));
        if same_text(entries[i].0.as_str(), name) {
            return Some(i);
        }
    }
    None
}

} // verus!
