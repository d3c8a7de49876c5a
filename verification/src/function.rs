use vstd::prelude::*;

use std::rc::Rc;

use crate::ast::{strings_view, FunctionDeclaration};
use crate::environment::Environment;
use crate::errors::{unit_result, LoxError, SpecError};
use crate::text::{decimal, push_decimal, string_of};
use crate::token::{SpecToken, Token};

verus! {

/// Calls `Rc::clone`, which makes another pointer to the same value; the
/// contract states that the value pointed to is the same.
#[verifier::external_body]
pub(crate) fn share<T>(rc: &Rc<T>) -> (r: Rc<T>)
    ensures
        r == *rc,
{
    Rc::clone(rc)
}

/// The variables that calling a function with parameters `names` and
/// arguments `values` starts with: each parameter bound to the argument in
/// its place, as far as both go; a later parameter of the same name wins.
pub open spec fn bound_parameters<V>(names: Seq<Seq<char>>, values: Seq<V>, n: nat) -> Map<
    Seq<char>,
    V,
>
    decreases n,
{
    if n == 0 {
        Map::empty()
    } else {
        bound_parameters(names, values, (n - 1) as nat).insert(
            names[n - 1],
            values[n - 1],
        )
    }
}

/// Where the parameter names are all different, a call binds each of the
/// first `n` parameters to the argument in its place, and nothing else.
pub proof fn law_parameters_bound_in_place<V>(names: Seq<Seq<char>>, values: Seq<V>, n: nat)
    requires
        n <= names.len(),
        n <= values.len(),
        names.no_duplicates(),
    ensures
        forall|i: int|
            0 <= i < n ==> #[trigger] bound_parameters(names, values, n).contains_key(names[i])
                && bound_parameters(names, values, n)[names[i]] == values[i],
        forall|k: Seq<char>|
            #[trigger] bound_parameters(names, values, n).contains_key(k) ==> exists|i: int|
                0 <= i < n && names[i] == k,
    decreases n,
{
    if n > 0 {
        let m = (n - 1) as nat;
        law_parameters_bound_in_place(names, values, m);
        assert forall|i: int| 0 <= i < n implies #[trigger] bound_parameters(
            names,
            values,
            n,
        ).contains_key(names[i]) && bound_parameters(names, values, n)[names[i]] == values[i] by {
            if i < m {
                assert(names[i] != names[m as int]);
                assert(bound_parameters(names, values, m).contains_key(names[i]));
            }
        }
        assert forall|k: Seq<char>| #[trigger]
            bound_parameters(names, values, n).contains_key(k) implies exists|i: int|
            0 <= i < n && names[i] == k by {
            if k != names[m as int] {
                assert(bound_parameters(names, values, m).contains_key(k));
            }
        }
    }
}

/// The error that reports a call with `count` arguments of a callable that
/// takes `arity`, at the call's closing parenthesis.
pub open spec fn arity_error(paren: SpecToken, arity: nat, count: nat) -> SpecError {
    SpecError::RuntimeError {
        token: paren,
        message: "Expected "@ + decimal(arity) + " arguments, got "@ + decimal(count),
    }
}

/// Checks that a call gives a callable as many arguments as it takes.
pub fn check_arity(paren: &Token, arity: usize, count: usize) -> (r: Result<(), LoxError>)
    ensures
        unit_result(r) == if arity == count {
            Ok(())
        } else {
            Err(arity_error(paren@, arity as nat, count as nat))
        },
{
    if arity == count {
        return Ok(());
    }
    let mut message = string_of("Expected ");
    push_decimal(&mut message, arity);
    message.append(" arguments, got ");
    push_decimal(&mut message, count);
    proof {
        assert(message@ =~= "Expected "@ + decimal(arity as nat) + " arguments, got "@ + decimal(
            count as nat,
        ));
    }
    Err(LoxError::RuntimeError { token: paren.duplicate(), message })
}

/// A function declared in a Lox program, with the scope it was declared in.
pub struct LoxFunction {
    pub declaration: Rc<FunctionDeclaration>,
    /// The scope, in the program's `Environment`, that the function closes over.
    pub closure: usize,
    /// Whether this is a class's `init` method bound to an instance.
    pub is_initializer: bool,
}

impl LoxFunction {
    /// The number of parameters the function takes.
    pub fn arity(&self) -> (r: usize)
        ensures
            r == self.declaration.params@.len(),
    {
        self.declaration.params.len()
    }

    /// The function's name.
    pub fn name(&self) -> (r: &String)
        ensures
            r@ == self.declaration.name@,
    {
        &self.declaration.name
    }

    /// The same function as a method of `instance`: it closes over a new
    /// scope, inside its own, in which `this` is `instance`.
    pub fn bind<V>(&self, environment: &mut Environment<V>, instance: V, is_initializer: bool) -> (r:
        LoxFunction)
        requires
            old(environment).wf(),
            self.closure < old(environment).values().len(),
        ensures
            final(environment).wf(),
            r.declaration == self.declaration,
            r.is_initializer == is_initializer,
            r.closure == old(environment).values().len(),
            final(environment).values() == old(environment).values().push(
                Map::empty().insert("this"@, instance),
            ),
            final(environment).parents() == old(environment).parents().push(Some(self.closure)),
    {
        let scope = environment.enclosed_by(self.closure);
        let this = string_of("this");
        environment.define(scope, this.as_str(), instance);
        proof {
            assert(final(environment).values() =~= old(environment).values().push(
                Map::empty().insert("this"@, instance),
            ));
        }
        LoxFunction { declaration: share(&self.declaration), closure: scope, is_initializer }
    }

    /// Opens the scope that a call of the function runs its body in: a scope
    /// inside the one the function closes over, with each parameter bound to
    /// the argument in its place. Returns the new scope.
    pub fn prepare_call<V>(&self, environment: &mut Environment<V>, arguments: Vec<V>) -> (r:
        usize)
        requires
            old(environment).wf(),
            self.closure < old(environment).values().len(),
        ensures
            final(environment).wf(),
            r == old(environment).values().len(),
            final(environment).values() == old(environment).values().push(
                bound_parameters(
                    strings_view(self.declaration.params@),
                    arguments@,
                    if self.declaration.params@.len() <= arguments@.len() {
                        self.declaration.params@.len()
                    } else {
                        arguments@.len()
                    },
                ),
            ),
            final(environment).parents() == old(environment).parents().push(Some(self.closure)),
    {
        let ghost names = strings_view(self.declaration.params@);
        let ghost values = arguments@;
        let ghost before = environment.values();
        let scope = environment.enclosed_by(self.closure);
        let params = &self.declaration.params;
        let n = if params.len() <= arguments.len() {
            params.len()
        } else {
            arguments.len()
        };
        let mut rest = arguments;
        let mut i: usize = 0;
        while i < n
            invariant
                environment.wf(),
                scope == before.len(),
                environment.values().len() == before.len() + 1,
                environment.values().subrange(0, before.len() as int) == before,
                environment.values()[scope as int] == bound_parameters(names, values, i as nat),
                environment.parents() == old(environment).parents().push(Some(self.closure)),
                before == old(environment).values(),
                names == strings_view(params@),
                n <= params@.len(),
                n <= values.len(),
                i <= n,
                rest@ == values.subrange(i as int, values.len() as int),
            decreases n - i,
        {
            let value = rest.remove(0);
            proof {
                assert(value == values[i as int]);
                assert(names[i as int] == params@[i as int]@);
            }
            environment.define(scope, params[i].as_str(), value);
            proof {
                assert(rest@ =~= values.subrange(i + 1, values.len() as int));
                assert(environment.values().subrange(0, before.len() as int) =~= before);
            }
            i = i + 1;
        }
        proof {
            assert(environment.values() =~= before.push(bound_parameters(names, values, n as nat)));
        }
        scope
    }
}

} // verus!
