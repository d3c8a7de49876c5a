use vstd::prelude::*;

use std::collections::HashMap;

use crate::errors::{unit_result, LoxError, SpecError};
use crate::text::{decimal, push_decimal, string_of, text_equals};

verus! {

broadcast use vstd::std_specs::hash::group_hash_axioms;

/// The variables that a list of bindings defines, each with its value; a
/// later binding of a name overrides an earlier one.
pub open spec fn bindings_view<V>(entries: Seq<(String, V)>) -> Map<Seq<char>, V>
    decreases entries.len(),
{
    if entries.len() == 0 {
        Map::empty()
    } else {
        bindings_view(entries.drop_last()).insert(entries.last().0@, entries.last().1)
    }
}

/// Where `j` is the last binding of `name` (or -1 where there is none), the
/// bindings give `name` that binding's value (or do not hold it).
pub proof fn lemma_bindings_last<V>(entries: Seq<(String, V)>, name: Seq<char>, j: int)
    requires
        -1 <= j < entries.len(),
        j >= 0 ==> entries[j].0@ == name,
        forall|k: int| j < k < entries.len() ==> (#[trigger] entries[k]).0@ != name,
    ensures
        j >= 0 ==> bindings_view(entries).contains_key(name) && bindings_view(entries)[name]
            == entries[j].1,
        j < 0 ==> !bindings_view(entries).contains_key(name),
    decreases entries.len(),
{
    if entries.len() > 0 && j != entries.len() - 1 {
        let shorter = entries.drop_last();
        assert forall|k: int| j < k < shorter.len() implies (#[trigger] shorter[k]).0@ != name by {
            assert(shorter[k] == entries[k]);
        }
        lemma_bindings_last(shorter, name, j);
        assert(entries[entries.len() - 1].0@ != name);
    }
}

/// Replacing the last binding of `name` rebinds `name` and nothing else.
pub proof fn lemma_bindings_replace_last<V>(entries: Seq<(String, V)>, j: int, key: String, value: V)
    requires
        0 <= j < entries.len(),
        entries[j].0@ == key@,
        forall|k: int| j < k < entries.len() ==> (#[trigger] entries[k]).0@ != key@,
    ensures
        bindings_view(entries.update(j, (key, value))) == bindings_view(entries).insert(
            key@,
            value,
        ),
    decreases entries.len(),
{
    let updated = entries.update(j, (key, value));
    assert(updated.drop_last() =~= if j == entries.len() - 1 {
        entries.drop_last()
    } else {
        entries.drop_last().update(j, (key, value))
    });
    if j < entries.len() - 1 {
        let shorter = entries.drop_last();
        assert forall|k: int| j < k < shorter.len() implies (#[trigger] shorter[k]).0@ != key@ by {
            assert(shorter[k] == entries[k]);
        }
        lemma_bindings_replace_last(shorter, j, key, value);
        let last = entries.last();
        assert(last.0@ != key@);
        assert(bindings_view(updated) =~= bindings_view(entries).insert(key@, value));
    } else {
        assert(bindings_view(updated) =~= bindings_view(entries).insert(key@, value));
    }
}

/// The position of the last binding of `name`, if there is one.
pub(crate) fn find_binding<V>(entries: &Vec<(String, V)>, name: &str) -> (r: Option<usize>)
    ensures
        r matches Some(j) ==> j < entries@.len() && entries@[j as int].0@ == name@ && forall|
            k: int,
        | j < k < entries@.len() ==> (#[trigger] entries@[k]).0@ != name@,
        r is None ==> forall|k: int| 0 <= k < entries@.len() ==> (#[trigger] entries@[k]).0@ != name@,
{
    let mut i: usize = entries.len();
    while i > 0
        invariant
            i <= entries@.len(),
            forall|k: int| i <= k < entries@.len() ==> (#[trigger] entries@[k]).0@ != name@,
        decreases i,
    {
        i = i - 1;
        if text_equals(entries[i].0.as_str(), name) {
            return Some(i);
        }
    }
    None
}

/// The scope `distance` steps out along the chain of enclosing scopes from
/// `scope`, if the chain is that long.
pub open spec fn spec_ancestor(parents: Seq<Option<usize>>, scope: int, distance: nat) -> Option<int>
    decreases distance,
{
    if distance == 0 {
        Some(scope)
    } else if 0 <= scope < parents.len() {
        match parents[scope] {
            Some(p) => spec_ancestor(parents, p as int, (distance - 1) as nat),
            None => None,
        }
    } else {
        None
    }
}

/// The innermost scope, from `scope` outwards along the chain of enclosing
/// scopes, that defines `name`.
pub open spec fn defining_scope<V>(
    values: Seq<Map<Seq<char>, V>>,
    parents: Seq<Option<usize>>,
    scope: int,
    name: Seq<char>,
) -> Option<int>
    decreases scope,
{
    if !(0 <= scope < values.len() && scope < parents.len()) {
        None
    } else if values[scope].contains_key(name) {
        Some(scope)
    } else {
        match parents[scope] {
            Some(p) => if p < scope {
                defining_scope(values, parents, p as int, name)
            } else {
                None
            },
            None => None,
        }
    }
}

/// Each scope's enclosing scope, where it has one, comes before it.
pub open spec fn parents_precede(parents: Seq<Option<usize>>) -> bool {
    forall|i: int| 0 <= i < parents.len() ==> (#[trigger] parents[i] matches Some(p) ==> p < i)
}

/// The error that reports a name that no scope in reach defines.
pub open spec fn undefined(name: Seq<char>) -> SpecError {
    SpecError::UndefinedVariable(name)
}

/// The error that reports a distance longer than the chain of scopes.
pub open spec fn too_far() -> SpecError {
    SpecError::InternalError("No enclosing scope at this distance"@)
}

/// The error that reports a name missing from the scope at a distance.
pub open spec fn missing_at(name: Seq<char>, distance: nat) -> SpecError {
    SpecError::InternalError(
        "value matching "@ + name + " not found in environment at depth "@ + decimal(distance),
    )
}

/// What reading the variable `name` from `scope` gives: its value in the
/// innermost scope, from `scope` outwards, that defines it.
pub open spec fn read<V>(
    values: Seq<Map<Seq<char>, V>>,
    parents: Seq<Option<usize>>,
    scope: int,
    name: Seq<char>,
) -> Result<V, SpecError> {
    match defining_scope(values, parents, scope, name) {
        Some(s) => Ok(values[s][name]),
        None => Err(undefined(name)),
    }
}

/// What reading `name` in the scope `distance` steps out from `scope` gives.
pub open spec fn read_at<V>(
    values: Seq<Map<Seq<char>, V>>,
    parents: Seq<Option<usize>>,
    scope: int,
    distance: nat,
    name: Seq<char>,
) -> Result<V, SpecError> {
    match spec_ancestor(parents, scope, distance) {
        Some(a) => if values[a].contains_key(name) {
            Ok(values[a][name])
        } else {
            Err(missing_at(name, distance))
        },
        None => Err(too_far()),
    }
}

/// What assigning `value` to the variable `name` from `scope` gives, and
/// the variables after it: the innermost scope that defines `name` gets the
/// new value.
pub open spec fn write<V>(
    values: Seq<Map<Seq<char>, V>>,
    parents: Seq<Option<usize>>,
    scope: int,
    name: Seq<char>,
    value: V,
) -> (Result<(), SpecError>, Seq<Map<Seq<char>, V>>) {
    match defining_scope(values, parents, scope, name) {
        Some(s) => (Ok(()), values.update(s, values[s].insert(name, value))),
        None => (Err(undefined(name)), values),
    }
}

/// What assigning `value` to `name` in the scope `distance` steps out from
/// `scope` gives, and the variables after it.
pub open spec fn write_at<V>(
    values: Seq<Map<Seq<char>, V>>,
    parents: Seq<Option<usize>>,
    scope: int,
    distance: nat,
    name: Seq<char>,
    value: V,
) -> (Result<(), SpecError>, Seq<Map<Seq<char>, V>>) {
    match spec_ancestor(parents, scope, distance) {
        Some(a) => (Ok(()), values.update(a, values[a].insert(name, value))),
        None => (Err(too_far()), values),
    }
}

/// The model of a read's outcome.
pub open spec fn read_result<V>(r: Result<&V, LoxError>) -> Result<V, SpecError> {
    match r {
        Ok(v) => Ok(*v),
        Err(e) => Err(e@),
    }
}

/// A new scope adds nothing to what the scopes before it see.
proof fn lemma_defining_scope_extend<V>(
    values: Seq<Map<Seq<char>, V>>,
    parents: Seq<Option<usize>>,
    scope: int,
    name: Seq<char>,
    fresh: Map<Seq<char>, V>,
    parent: Option<usize>,
)
    requires
        values.len() == parents.len(),
        parents_precede(parents),
        0 <= scope < values.len(),
    ensures
        defining_scope(values.push(fresh), parents.push(parent), scope, name) == defining_scope(
            values,
            parents,
            scope,
            name,
        ),
    decreases scope,
{
    assert(values.push(fresh)[scope] == values[scope]);
    assert(parents.push(parent)[scope] == parents[scope]);
    if !values[scope].contains_key(name) {
        if let Some(p) = parents[scope] {
            lemma_defining_scope_extend(values, parents, p as int, name, fresh, parent);
        }
    }
}

/// The scope that defines a name lies on the chain from `scope`, at or
/// before it.
proof fn lemma_defining_scope_range<V>(
    values: Seq<Map<Seq<char>, V>>,
    parents: Seq<Option<usize>>,
    scope: int,
    name: Seq<char>,
)
    ensures
        defining_scope(values, parents, scope, name) matches Some(t) ==> 0 <= t <= scope
            && t < values.len() && values[t].contains_key(name),
    decreases scope,
{
    if 0 <= scope < values.len() && scope < parents.len() && !values[scope].contains_key(name) {
        if let Some(p) = parents[scope] {
            if p < scope {
                lemma_defining_scope_range(values, parents, p as int, name);
            }
        }
    }
}

/// Changing a scope that lies outside the chain from `scope` up to the
/// scope that defines `name` changes nothing that `scope` sees of `name`.
proof fn lemma_defining_scope_update<V>(
    values: Seq<Map<Seq<char>, V>>,
    parents: Seq<Option<usize>>,
    scope: int,
    name: Seq<char>,
    target: int,
    value: V,
)
    requires
        values.len() == parents.len(),
        parents_precede(parents),
        0 <= scope < values.len(),
        defining_scope(values, parents, scope, name) == Some(target),
    ensures
        defining_scope(
            values.update(target, values[target].insert(name, value)),
            parents,
            scope,
            name,
        ) == Some(target),
    decreases scope,
{
    lemma_defining_scope_range(values, parents, scope, name);
    let updated = values.update(target, values[target].insert(name, value));
    assert(parents[scope] matches Some(p) ==> p < scope);
    if scope != target {
        assert(!values[scope].contains_key(name));
        assert(updated[scope] == values[scope]);
        if let Some(p) = parents[scope] {
            lemma_defining_scope_update(values, parents, p as int, name, target, value);
        }
    }
}

/// A variable defined in a scope is read there with the value it was given.
pub proof fn law_read_after_define<V>(
    values: Seq<Map<Seq<char>, V>>,
    parents: Seq<Option<usize>>,
    scope: int,
    name: Seq<char>,
    value: V,
)
    requires
        values.len() == parents.len(),
        parents_precede(parents),
        0 <= scope < values.len(),
    ensures
        read(values.update(scope, values[scope].insert(name, value)), parents, scope, name) == Ok::<
            V,
            SpecError,
        >(value),
{
}

/// A scope opened inside another reads, for every name, just what the
/// enclosing scope reads, and the scopes that were there read what they read.
pub proof fn law_new_scope_reads_enclosing<V>(
    values: Seq<Map<Seq<char>, V>>,
    parents: Seq<Option<usize>>,
    enclosing: usize,
    name: Seq<char>,
)
    requires
        values.len() == parents.len(),
        parents_precede(parents),
        enclosing < values.len(),
    ensures
        read(values.push(Map::empty()), parents.push(Some(enclosing)), values.len() as int, name)
            == read(values, parents, enclosing as int, name),
        forall|scope: int|
            0 <= scope < values.len() ==> #[trigger] read(
                values.push(Map::empty()),
                parents.push(Some(enclosing)),
                scope,
                name,
            ) == read(values, parents, scope, name),
{
    let n = values.len() as int;
    let values2 = values.push(Map::<Seq<char>, V>::empty());
    let parents2 = parents.push(Some(enclosing));
    assert(values2[n] == Map::<Seq<char>, V>::empty());
    assert(parents2[n] == Some(enclosing));
    lemma_defining_scope_extend(values, parents, enclosing as int, name, Map::empty(), Some(enclosing));
    lemma_defining_scope_range(values, parents, enclosing as int, name);
    assert forall|scope: int| 0 <= scope < values.len() implies #[trigger] read(
        values2,
        parents2,
        scope,
        name,
    ) == read(values, parents, scope, name) by {
        lemma_defining_scope_extend(values, parents, scope, name, Map::empty(), Some(enclosing));
        lemma_defining_scope_range(values, parents, scope, name);
    }
}

/// After an assignment succeeds, a read of the same name from the same
/// scope gives back the value assigned; an assignment that fails changes
/// nothing.
pub proof fn law_read_after_write<V>(
    values: Seq<Map<Seq<char>, V>>,
    parents: Seq<Option<usize>>,
    scope: int,
    name: Seq<char>,
    value: V,
)
    requires
        values.len() == parents.len(),
        parents_precede(parents),
        0 <= scope < values.len(),
    ensures
        ({
            let (outcome, after) = write(values, parents, scope, name, value);
            &&& outcome is Ok ==> read(after, parents, scope, name) == Ok::<V, SpecError>(value)
            &&& outcome is Err ==> after == values
        }),
{
    lemma_defining_scope_range(values, parents, scope, name);
    if let Some(target) = defining_scope(values, parents, scope, name) {
        lemma_defining_scope_update(values, parents, scope, name, target, value);
    }
}

/// After an assignment at a distance succeeds, a read at the same distance
/// gives back the value assigned; one that fails changes nothing.
pub proof fn law_read_at_after_write_at<V>(
    values: Seq<Map<Seq<char>, V>>,
    parents: Seq<Option<usize>>,
    scope: int,
    distance: nat,
    name: Seq<char>,
    value: V,
)
    requires
        values.len() == parents.len(),
        parents_precede(parents),
        0 <= scope < values.len(),
    ensures
        ({
            let (outcome, after) = write_at(values, parents, scope, distance, name, value);
            &&& outcome is Ok ==> read_at(after, parents, scope, distance, name) == Ok::<
                V,
                SpecError,
            >(value)
            &&& outcome is Err ==> after == values
        }),
{
    lemma_ancestor_range(parents, scope, distance);
}

/// The scope any distance out from a scope comes at or before it.
proof fn lemma_ancestor_range(parents: Seq<Option<usize>>, scope: int, distance: nat)
    requires
        parents_precede(parents),
        0 <= scope < parents.len(),
    ensures
        spec_ancestor(parents, scope, distance) matches Some(a) ==> 0 <= a <= scope,
    decreases distance,
{
    if distance > 0 {
        if let Some(p) = parents[scope] {
            lemma_ancestor_range(parents, p as int, (distance - 1) as nat);
        }
    }
}

/// The variables of a running program: a set of scopes, each with its
/// variables and the scope that encloses it. A scope is named by its
/// position; scope 0 is the global scope, and a scope's enclosing scope
/// always comes before it.
pub struct Environment<V> {
    scopes: Vec<Vec<(String, V)>>,
    enclosing: Vec<Option<usize>>,
}

/// The global scope.
pub const GLOBAL_SCOPE: usize = 0;

impl<V> Environment<V> {
    /// The variables of each scope, by position.
    pub closed spec fn values(&self) -> Seq<Map<Seq<char>, V>> {
        self.scopes@.map_values(|s: Vec<(String, V)>| bindings_view(s@))
    }

    /// The enclosing scope of each scope, by position.
    pub closed spec fn parents(&self) -> Seq<Option<usize>> {
        self.enclosing@
    }

    /// Every scope has an enclosing scope's position, where it has one, and
    /// that scope comes before it.
    pub open spec fn wf(&self) -> bool {
        &&& self.values().len() == self.parents().len()
        &&& self.values().len() > 0
        &&& parents_precede(self.parents())
    }

    /// The number of scopes; the scopes are those at positions below it.
    pub fn scope_count(&self) -> (r: usize)
        ensures
            r == self.values().len(),
    {
        self.scopes.len()
    }

    /// An environment with only the global scope, which holds no variable.
    pub fn new() -> (r: Environment<V>)
        ensures
            r.wf(),
            r.values() == seq![Map::<Seq<char>, V>::empty()],
            r.parents() == seq![None::<usize>],
    {
        let mut scopes: Vec<Vec<(String, V)>> = Vec::new();
        scopes.push(Vec::new());
        let mut enclosing: Vec<Option<usize>> = Vec::new();
        enclosing.push(None);
        let r = Environment { scopes, enclosing };
        proof {
            assert(bindings_view(Seq::<(String, V)>::empty()) =~= Map::empty());
            assert(r.values() =~= seq![Map::<Seq<char>, V>::empty()]);
            assert(r.parents() =~= seq![None::<usize>]);
        }
        r
    }

    /// Opens a new scope, with no variable, inside `enclosing`, and returns
    /// its position.
    pub fn enclosed_by(&mut self, enclosing: usize) -> (r: usize)
        requires
            old(self).wf(),
            enclosing < old(self).values().len(),
        ensures
            final(self).wf(),
            r == old(self).values().len(),
            final(self).values() == old(self).values().push(Map::empty()),
            final(self).parents() == old(self).parents().push(Some(enclosing)),
    {
        let r = self.scopes.len();
        let ghost before = self.values();
        self.scopes.push(Vec::new());
        self.enclosing.push(Some(enclosing));
        proof {
            assert(bindings_view(Seq::<(String, V)>::empty()) =~= Map::empty());
            assert(self.values() =~= before.push(Map::empty()));
        }
        r
    }

    /// Gives `name` the value `value` in `scope`, whether or not it had one.
    pub fn define(&mut self, scope: usize, name: &str, value: V)
        requires
            old(self).wf(),
            scope < old(self).values().len(),
        ensures
            final(self).wf(),
            final(self).values() == old(self).values().update(
                scope as int,
                old(self).values()[scope as int].insert(name@, value),
            ),
            final(self).parents() == old(self).parents(),
    {
        let ghost before = self.values();
        let mut entries: Vec<(String, V)> = Vec::new();
        self.scopes.set_and_swap(scope, &mut entries);
        let ghost old_entries = entries@;
        let key = string_of(name);
        match find_binding(&entries, name) {
            Some(j) => {
                proof {
                    lemma_bindings_replace_last(entries@, j as int, key, value);
                }
                entries.set(j, (key, value));
            },
            None => {
                entries.push((key, value));
                proof {
                    assert(entries@.drop_last() =~= old_entries);
                }
            },
        }
        self.scopes.set_and_swap(scope, &mut entries);
        proof {
            assert(self.values() =~= before.update(
                scope as int,
                before[scope as int].insert(name@, value),
            ));
        }
    }

    /// The scope that holds the variable `name` as seen from `scope`, and
    /// the position of its binding there.
    fn find_variable(&self, scope: usize, name: &str) -> (r: Option<(usize, usize)>)
        requires
            self.wf(),
            scope < self.values().len(),
        ensures
            match r {
                Some((s, j)) => defining_scope(self.values(), self.parents(), scope as int, name@)
                    == Some(s as int) && s < self.values().len() && j < self.scopes@[s as int]@.len()
                    && self.scopes@[s as int]@[j as int].0@ == name@ && forall|k: int|
                    j < k < self.scopes@[s as int]@.len() ==> (#[trigger] self.scopes@[
                    s as int]@[k]).0@ != name@,
                None => defining_scope(self.values(), self.parents(), scope as int, name@) is None,
            },
    {
        let mut current = scope;
        loop
            invariant
                self.wf(),
                current < self.values().len(),
                defining_scope(self.values(), self.parents(), scope as int, name@)
                    == defining_scope(self.values(), self.parents(), current as int, name@),
            decreases current,
        {
            match find_binding(&self.scopes[current], name) {
                Some(j) => {
                    proof {
                        lemma_bindings_last(self.scopes@[current as int]@, name@, j as int);
                    }
                    return Some((current, j));
                },
                None => {
                    proof {
                        lemma_bindings_last(self.scopes@[current as int]@, name@, -1);
                    }
                },
            }
            match self.enclosing[current] {
                Some(p) => {
                    assert(self.parents()[current as int] == Some(p));
                    current = p;
                },
                None => {
                    return None;
                },
            }
        }
    }

    /// Gives the variable `name`, as seen from `scope`, the value `value`
    /// where it is defined; a name that no scope in reach defines is an error.
    pub fn assign(&mut self, scope: usize, name: &str, value: V) -> (r: Result<(), LoxError>)
        requires
            old(self).wf(),
            scope < old(self).values().len(),
        ensures
            final(self).wf(),
            final(self).parents() == old(self).parents(),
            (unit_result(r), final(self).values()) == write(
                old(self).values(),
                old(self).parents(),
                scope as int,
                name@,
                value,
            ),
    {
        match self.find_variable(scope, name) {
            Some((s, j)) => {
                let ghost before = self.values();
                let mut entries: Vec<(String, V)> = Vec::new();
                self.scopes.set_and_swap(s, &mut entries);
                let key = string_of(name);
                proof {
                    lemma_bindings_replace_last(entries@, j as int, key, value);
                }
                entries.set(j, (key, value));
                self.scopes.set_and_swap(s, &mut entries);
                proof {
                    assert(self.values() =~= before.update(
                        s as int,
                        before[s as int].insert(name@, value),
                    ));
                }
                Ok(())
            },
            None => Err(LoxError::UndefinedVariable(string_of(name))),
        }
    }

    /// The value of the variable `name` as seen from `scope`; a name that no
    /// scope in reach defines is an error.
    pub fn get(&self, scope: usize, name: &str) -> (r: Result<&V, LoxError>)
        requires
            self.wf(),
            scope < self.values().len(),
        ensures
            read_result(r) == read(self.values(), self.parents(), scope as int, name@),
    {
        match self.find_variable(scope, name) {
            Some((s, j)) => {
                proof {
                    lemma_bindings_last(self.scopes@[s as int]@, name@, j as int);
                }
                Ok(&self.scopes[s][j].1)
            },
            None => Err(LoxError::UndefinedVariable(string_of(name))),
        }
    }

    /// The scope `distance` steps out from `scope`; a chain of enclosing
    /// scopes shorter than that is an error.
    fn ancestor(&self, scope: usize, distance: usize) -> (r: Result<usize, LoxError>)
        requires
            self.wf(),
            scope < self.values().len(),
        ensures
            match spec_ancestor(self.parents(), scope as int, distance as nat) {
                Some(a) => r matches Ok(x) && x == a && x < self.values().len(),
                None => r matches Err(e) && e@ == too_far(),
            },
    {
        let mut current = scope;
        let mut steps: usize = 0;
        while steps < distance
            invariant
                self.wf(),
                steps <= distance,
                current < self.values().len(),
                spec_ancestor(self.parents(), scope as int, distance as nat) == spec_ancestor(
                    self.parents(),
                    current as int,
                    (distance - steps) as nat,
                ),
            decreases distance - steps,
        {
            match self.enclosing[current] {
                Some(p) => {
                    assert(self.parents()[current as int] == Some(p));
                    current = p;
                },
                None => {
                    let message = string_of("No enclosing scope at this distance");
                    return Err(LoxError::InternalError(message));
                },
            }
            steps = steps + 1;
        }
        Ok(current)
    }

    /// The value of `name` in the scope `distance` steps out from `scope`.
    pub fn get_at(&self, scope: usize, distance: usize, name: &str) -> (r: Result<&V, LoxError>)
        requires
            self.wf(),
            scope < self.values().len(),
        ensures
            read_result(r) == read_at(
                self.values(),
                self.parents(),
                scope as int,
                distance as nat,
                name@,
            ),
    {
        let target = match self.ancestor(scope, distance) {
            Ok(a) => a,
            Err(e) => {
                return Err(e);
            },
        };
        match find_binding(&self.scopes[target], name) {
            Some(j) => {
                proof {
                    lemma_bindings_last(self.scopes@[target as int]@, name@, j as int);
                }
                Ok(&self.scopes[target][j].1)
            },
            None => {
                proof {
                    lemma_bindings_last(self.scopes@[target as int]@, name@, -1);
                }
                let mut message = string_of("value matching ");
                message.append(name);
                message.append(" not found in environment at depth ");
                push_decimal(&mut message, distance);
                Err(LoxError::InternalError(message))
            },
        }
    }

    /// Gives `name` the value `value` in the scope `distance` steps out from
    /// `scope`.
    pub fn assign_at(&mut self, scope: usize, distance: usize, name: &str, value: V) -> (r: Result<
        (),
        LoxError,
    >)
        requires
            old(self).wf(),
            scope < old(self).values().len(),
        ensures
            final(self).wf(),
            final(self).parents() == old(self).parents(),
            (unit_result(r), final(self).values()) == write_at(
                old(self).values(),
                old(self).parents(),
                scope as int,
                distance as nat,
                name@,
                value,
            ),
    {
        let target = match self.ancestor(scope, distance) {
            Ok(a) => a,
            Err(e) => {
                return Err(e);
            },
        };
        self.define(target, name, value);
        Ok(())
    }
    /// The value of the variable `name` that expression `id` reads from
    /// `scope`: at the distance that `locals` records for `id`, or among the
    /// globals where it records none.
    pub fn look_up(&self, locals: &HashMap<usize, usize>, id: usize, scope: usize, name: &str) -> (r:
        Result<&V, LoxError>)
        requires
            self.wf(),
            scope < self.values().len(),
        ensures
            read_result(r) == if locals@.contains_key(id) {
                read_at(self.values(), self.parents(), scope as int, locals@[id] as nat, name@)
            } else {
                read(self.values(), self.parents(), GLOBAL_SCOPE as int, name@)
            },
    {
        match locals.get(&id) {
            Some(distance) => self.get_at(scope, *distance, name),
            None => self.get(GLOBAL_SCOPE, name),
        }
    }

    /// Assigns `value` to the variable `name` that expression `id` assigns
    /// from `scope`: at the distance that `locals` records for `id`, or among
    /// the globals where it records none.
    pub fn assign_resolved(
        &mut self,
        locals: &HashMap<usize, usize>,
        id: usize,
        scope: usize,
        name: &str,
        value: V,
    ) -> (r: Result<(), LoxError>)
        requires
            old(self).wf(),
            scope < old(self).values().len(),
        ensures
            final(self).wf(),
            final(self).parents() == old(self).parents(),
            (unit_result(r), final(self).values()) == if locals@.contains_key(id) {
                write_at(
                    old(self).values(),
                    old(self).parents(),
                    scope as int,
                    locals@[id] as nat,
                    name@,
                    value,
                )
            } else {
                write(old(self).values(), old(self).parents(), GLOBAL_SCOPE as int, name@, value)
            },
    {
        match locals.get(&id) {
            Some(distance) => self.assign_at(scope, *distance, name, value),
            None => self.assign(GLOBAL_SCOPE, name, value),
        }
    }
}

} // verus!
