//! Lexically scoped symbol table: a stack of single-binding scopes.

use crate::assoc::same_text;
use vstd::prelude::*;
use vstd::std_specs::cmp::PartialEqSpec;

verus! {

/// One layer of a lexical environment: a single name bound to a single value.
#[derive(Debug)]
pub struct Scope<T> {
    pub name: String,
    pub contents: T,
}

/// A stack of scopes, oldest first. Lookup goes from the newest scope to the
/// oldest, so that an inner binding hides an outer one of the same name.
#[derive(Debug)]
pub struct SymbolTable<T> {
    pub table: Vec<Scope<T>>,
}

/// The innermost value bound to `name` in a sequence of bindings, oldest first.
pub open spec fn innermost<V>(bindings: Seq<(Seq<char>, V)>, name: Seq<char>) -> Option<V>
    decreases bindings.len(),
{
    if bindings.len() == 0 {
        None
    } else if bindings.last().0 == name {
        Some(bindings.last().1)
    } else {
        innermost(bindings.drop_last(), name)
    }
}

/// Looking a name up commutes with a change of the values.
pub proof fn lemma_innermost_map<A, B>(
    bindings: Seq<(Seq<char>, A)>,
    mapped: Seq<(Seq<char>, B)>,
    f: spec_fn(A) -> B,
    name: Seq<char>,
)
    requires
        mapped.len() == bindings.len(),
        forall|i: int|
            0 <= i < bindings.len() ==> #[trigger] mapped[i] == (bindings[i].0, f(bindings[i].1)),
    ensures
        innermost(mapped, name) == match innermost(bindings, name) {
            Some(v) => Some(f(v)),
            None => None,
        },
    decreases bindings.len(),
{
    if bindings.len() > 0 {
        lemma_innermost_map(bindings.drop_last(), mapped.drop_last(), f, name);
    }
}

/// The position of the outermost binding of `name`, if there is one.
pub open spec fn outermost_index<V>(bindings: Seq<(Seq<char>, V)>, name: Seq<char>) -> Option<int>
    decreases bindings.len(),
{
    if bindings.len() == 0 {
        None
    } else if bindings.first().0 == name {
        Some(0)
    } else {
        match outermost_index(bindings.drop_first(), name) {
            Some(i) => Some(i + 1),
            None => None,
        }
    }
}

/// The bindings that are left when the outermost binding of `name` is taken out.
pub open spec fn without_outermost<V>(bindings: Seq<(Seq<char>, V)>, name: Seq<char>) -> Seq<
    (Seq<char>, V),
> {
    match outermost_index(bindings, name) {
        Some(i) => bindings.remove(i),
        None => bindings,
    }
}

/// `outermost_index` is the least position that binds the name.
pub proof fn lemma_outermost_index<V>(bindings: Seq<(Seq<char>, V)>, name: Seq<char>)
    ensures
        match outermost_index(bindings, name) {
            Some(i) => 0 <= i < bindings.len() && bindings[i].0 == name && forall|j: int|
                0 <= j < i ==> bindings[j].0 != name,
            None => forall|j: int| 0 <= j < bindings.len() ==> bindings[j].0 != name,
        },
    decreases bindings.len(),
{
    if bindings.len() > 0 && bindings.first().0 != name {
        let rest = bindings.drop_first();
        lemma_outermost_index(rest, name);
        match outermost_index(rest, name) {
            Some(i) => {
                assert forall|j: int| 0 <= j < i + 1 implies bindings[j].0 != name by {
                    if j > 0 {
                        assert(rest[j - 1] == bindings[j]);
                    }
                }
            },
            None => {
                assert forall|j: int| 0 <= j < bindings.len() implies bindings[j].0 != name by {
                    if j > 0 {
                        assert(rest[j - 1] == bindings[j]);
                    }
                }
            },
        }
    }
}

impl<T> Scope<T> {
    /// The binding that this scope holds.
    pub open spec fn binding(&self) -> (Seq<char>, T) {
        (self.name@, self.contents)
    }

    /// A scope that binds `name` to `contents`.
    pub fn new(name: String, contents: T) -> (scope: Scope<T>)
        ensures
            scope.binding() == (name@, contents),
    {
        Scope { name, contents }
    }

    /// The value of this scope, where `name` is the name that it binds.
    pub fn get(&self, name: &str) -> (found: Option<&T>)
        ensures
            found == (if self.name@ == name@ {
                Some(&self.contents)
            } else {
                None
            }),
    {
        if same_text(self.name.as_str(), name) {
            Some(&self.contents)
        } else {
            None
        }
    }
}

impl<T: Clone> Clone for Scope<T> {
    fn clone(&self) -> (copy: Self)
        ensures
            copy.name@ == self.name@,
            cloned::<T>(self.contents, copy.contents),
    {
        Scope { name: self.name.clone(), contents: self.contents.clone() }
    }
}

impl<T: PartialEqSpec> PartialEq for Scope<T> {
    /// Two scopes are equal where they bind the same name to equal values.
    fn eq(&self, other: &Self) -> (same: bool) {
        self.name == other.name && self.contents == other.contents
    }
}

impl<T: PartialEqSpec> vstd::std_specs::cmp::PartialEqSpecImpl for Scope<T> {
    open spec fn obeys_eq_spec() -> bool {
        T::obeys_eq_spec()
    }

    open spec fn eq_spec(&self, other: &Self) -> bool {
        self.name@ == other.name@ && PartialEqSpec::eq_spec(&self.contents, &other.contents)
    }
}

impl<T: PartialEqSpec> PartialEq for SymbolTable<T> {
    /// Two tables are equal where they hold equal scopes in the same order.
    fn eq(&self, other: &Self) -> (same: bool) {
        if self.table.len() != other.table.len() {
            return false;
        }
        let mut i: usize = 0;
        while i < self.table.len()
            invariant
                i <= self.table.len(),
                self.table.len() == other.table.len(),
                T::obeys_eq_spec() ==> forall|k: int|
                    0 <= k < i ==> PartialEqSpec::eq_spec(
                        #[trigger] &self.table@[k],
                        &other.table@[k],
                    ),
            decreases self.table.len() - i,
        {
            if !(self.table[i] == other.table[i]) {
                return false;
            }
            i = i + 1;
        }
        true
    }
}

impl<T: PartialEqSpec> vstd::std_specs::cmp::PartialEqSpecImpl for SymbolTable<T> {
    open spec fn obeys_eq_spec() -> bool {
        T::obeys_eq_spec()
    }

    open spec fn eq_spec(&self, other: &Self) -> bool {
        self.table@.len() == other.table@.len() && forall|k: int|
            0 <= k < self.table@.len() ==> PartialEqSpec::eq_spec(
                #[trigger] &self.table@[k],
                &other.table@[k],
            )
    }
}

impl<T> View for SymbolTable<T> {
    type V = Seq<(Seq<char>, T)>;

    open spec fn view(&self) -> Seq<(Seq<char>, T)> {
        self.table@.map_values(|s: Scope<T>| s.binding())
    }
}

impl<T: Clone> Clone for SymbolTable<T> {
    fn clone(&self) -> (copy: Self)
        ensures
            copy@.len() == self@.len(),
            forall|i: int|
                0 <= i < self@.len() ==> (#[trigger] copy@[i]).0 == self@[i].0 && cloned::<T>(
                    self@[i].1,
                    copy@[i].1,
                ),
    {
        let mut table: Vec<Scope<T>> = Vec::new();
        let mut i: usize = 0;
        while i < self.table.len()
            invariant
                i <= self.table.len(),
                table.len() == i,
                forall|j: int|
                    0 <= j < i ==> (#[trigger] table@[j]).name@ == self.table@[j].name@
                        && cloned::<T>(self.table@[j].contents, table@[j].contents),
            decreases self.table.len() - i,
        {
            table.push(self.table[i].clone());
            i = i + 1;
        }
        SymbolTable { table }
    }
}

impl<T> SymbolTable<T> {
    /// A table without scopes.
    pub fn new() -> (table: SymbolTable<T>)
        ensures
            table@ == Seq::<(Seq<char>, T)>::empty(),
    {
        SymbolTable { table: Vec::new() }
    }

    /// The value that the innermost scope of `name` binds it to, if any scope
    /// binds it.
    pub fn lookup(&self, name: &str) -> (found: Option<&T>)
        ensures
            match found {
                Some(value) => innermost(self@, name@) == Some(*value),
                None => innermost(self@, name@) is None,
            },
    {
        let mut i: usize = self.table.len();
        assert(self@.take(i as int) == self@);
        while i > 0
            invariant
                i <= self.table.len(),
                innermost(self@, name@) == innermost(self@.take(i as int), name@),
            decreases i,
        {
            i = i - 1;
            assert(self@.take(i + 1).drop_last() == self@.take(i as int));
            if let Some(value) = self.table[i].get(name) {
                return Some(value);
            }
        }
        None
    }

    /// Adds a scope as the innermost one.
    pub fn push(&mut self, scope: Scope<T>)
        ensures
            final(self)@ == old(self)@.push(scope.binding()),
    {
        self.table.push(scope);
    }

    /// Takes out the outermost scope that binds `name`; leaves the table as it
    /// is where no scope binds it.
    pub fn remove(&mut self, name: &str)
        ensures
            final(self)@ == without_outermost(old(self)@, name@),
    {
        let mut i: usize = 0;
        assert(self@.skip(0) == self@);
        while i < self.table.len()
            invariant
                i <= self.table.len(),
                *self == *old(self),
                outermost_index(self@, name@) == match outermost_index(
                    self@.skip(i as int),
                    name@,
                ) {
                    Some(k) => Some(k + i),
                    None => None,
                },
            decreases self.table.len() - i,
        {
            assert(self@.skip(i as int).drop_first() == self@.skip(i + 1));
            if self.table[i].get(name).is_some() {
                self.table.remove(i);
                return ;
            }
            i = i + 1;
        }
    }
}

} // verus!
