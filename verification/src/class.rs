use vstd::prelude::*;

use std::rc::Rc;

use crate::ast::FunctionDeclaration;
use crate::environment::{
    bindings_view, find_binding, lemma_bindings_last, lemma_bindings_replace_last, Environment,
};
use crate::errors::{LoxError, SpecError};
use crate::function::{share, LoxFunction};
use crate::text::{concat3, text_equals};
use crate::token::{SpecToken, SpecTokenType, Token, TokenType};

verus! {

/// A class declared in a Lox program: its name and its methods.
pub struct LoxClass {
    pub name: String,
    /// The methods by name; where a name occurs twice, the later one counts.
    pub methods: Vec<(String, LoxFunction)>,
}

impl LoxClass {
    /// The class's methods, by name.
    pub open spec fn method_map(&self) -> Map<Seq<char>, LoxFunction> {
        bindings_view(self.methods@)
    }

    /// The method called `name`, if the class has one.
    pub fn find_method(&self, name: &str) -> (r: Option<&LoxFunction>)
        ensures
            self.method_map().contains_key(name@) ==> r == Some(&self.method_map()[name@]),
            !self.method_map().contains_key(name@) ==> r is None,
    {
        match find_binding(&self.methods, name) {
            Some(j) => {
                proof {
                    lemma_bindings_last(self.methods@, name@, j as int);
                }
                Some(&self.methods[j].1)
            },
            None => {
                proof {
                    lemma_bindings_last(self.methods@, name@, -1);
                }
                None
            },
        }
    }

    /// The class declared with the name `name` and the methods `methods` in
    /// the scope `closure`: each method closes over that scope, and the one
    /// named `init` is the initializer.
    pub fn from_declaration(name: &String, methods: &Vec<Rc<FunctionDeclaration>>, closure: usize) -> (r:
        LoxClass)
        ensures
            r.name@ == name@,
            r.methods@.len() == methods@.len(),
            forall|i: int|
                0 <= i < methods@.len() ==> (#[trigger] r.methods@[i]).0@ == methods@[i].name@
                    && r.methods@[i].1.declaration == methods@[i] && r.methods@[i].1.closure
                    == closure && r.methods@[i].1.is_initializer == (methods@[i].name@ == "init"@),
    {
        let mut bound: Vec<(String, LoxFunction)> = Vec::new();
        let mut i: usize = 0;
        while i < methods.len()
            invariant
                i <= methods@.len(),
                bound@.len() == i,
                forall|j: int|
                    0 <= j < i ==> (#[trigger] bound@[j]).0@ == methods@[j].name@
                        && bound@[j].1.declaration == methods@[j] && bound@[j].1.closure == closure
                        && bound@[j].1.is_initializer == (methods@[j].name@ == "init"@),
            decreases methods@.len() - i,
        {
            let method = &methods[i];
            let is_initializer = text_equals(method.name.as_str(), "init");
            let function = LoxFunction { declaration: share(method), closure, is_initializer };
            bound.push((method.name.clone(), function));
            i = i + 1;
        }
        LoxClass { name: name.clone(), methods: bound }
    }

    /// The class's initializer bound to `instance`, where the class has one;
    /// where it has none, the environment is left as it was.
    pub fn bind_initializer<V>(&self, environment: &mut Environment<V>, instance: V) -> (r: Option<
        LoxFunction,
    >)
        requires
            old(environment).wf(),
            self.method_map().contains_key("init"@) ==> self.method_map()["init"@].closure < old(
                environment,
            ).values().len(),
        ensures
            final(environment).wf(),
            self.method_map().contains_key("init"@) ==> {
                let init = self.method_map()["init"@];
                &&& r matches Some(f) && f.declaration == init.declaration && f.is_initializer
                    && f.closure == old(environment).values().len()
                &&& final(environment).values() == old(environment).values().push(
                    Map::empty().insert("this"@, instance),
                )
                &&& final(environment).parents() == old(environment).parents().push(
                    Some(init.closure),
                )
            },
            !self.method_map().contains_key("init"@) ==> r is None && *final(environment) == *old(
                environment,
            ),
    {
        match self.find_method("init") {
            Some(init) => Some(init.bind(environment, instance, true)),
            None => None,
        }
    }

    /// The number of arguments that making an instance takes: those of the
    /// class's `init` method, or none.
    pub fn arity(&self) -> (r: usize)
        ensures
            r == (if self.method_map().contains_key("init"@) {
                self.method_map()["init"@].declaration.params@.len()
            } else {
                0
            }),
    {
        match self.find_method("init") {
            Some(function) => function.arity(),
            None => 0,
        }
    }
}

/// A field read by an identifier token whose name is its text gives back
/// the value last set through that token.
pub proof fn law_get_after_set<V>(fields: Map<Seq<char>, V>, name: SpecToken, value: V)
    requires
        name.kind matches SpecTokenType::Identifier(id) && id == name.lexeme,
    ensures
        ({
            let after = fields.insert(name.lexeme, value);
            let id = name.kind->Identifier_0;
            after.contains_key(id) && after[id] == value
        }),
{
}

/// What reading a property of an instance finds: a field's value, or a
/// method of its class bound to the instance.
pub enum Property<'a, V> {
    Field(&'a V),
    Method(LoxFunction),
}

/// An instance of a class, with its fields.
pub struct LoxInstance<V> {
    class: Rc<LoxClass>,
    fields: Vec<(String, V)>,
}

impl<V> LoxInstance<V> {
    /// The instance's fields, by name.
    pub closed spec fn fields(&self) -> Map<Seq<char>, V> {
        bindings_view(self.fields@)
    }

    /// The instance's class.
    pub closed spec fn spec_class(&self) -> LoxClass {
        *self.class
    }

    /// The instance's class.
    pub fn class(&self) -> (r: &LoxClass)
        ensures
            *r == self.spec_class(),
    {
        &self.class
    }

    /// A new instance of `class`, with no field.
    pub fn new(class: Rc<LoxClass>) -> (r: LoxInstance<V>)
        ensures
            r.spec_class() == *class,
            r.fields() == Map::<Seq<char>, V>::empty(),
    {
        let r = LoxInstance { class, fields: Vec::new() };
        proof {
            assert(r.fields() =~= Map::<Seq<char>, V>::empty());
        }
        r
    }

    /// Reads the property named by the identifier `name`: a field of that
    /// name, else a method of the class bound to the instance `this` (an
    /// initializer where the name is `init`); a name that is neither is an
    /// error. Only binding a method changes the environment.
    pub fn get(&self, name: &Token, environment: &mut Environment<V>, this: V) -> (r: Result<
        Property<'_, V>,
        LoxError,
    >)
        requires
            name.token_type is Identifier,
            old(environment).wf(),
            self.spec_class().method_map().contains_key(name@.kind->Identifier_0)
                ==> self.spec_class().method_map()[name@.kind->Identifier_0].closure < old(
                environment,
            ).values().len(),
        ensures
            final(environment).wf(),
            ({
                let id = name@.kind->Identifier_0;
                if self.fields().contains_key(id) {
                    &&& r matches Ok(Property::Field(v)) && *v == self.fields()[id]
                    &&& *final(environment) == *old(environment)
                } else if self.spec_class().method_map().contains_key(id) {
                    let method = self.spec_class().method_map()[id];
                    &&& r matches Ok(Property::Method(bound)) && bound.declaration
                        == method.declaration && bound.is_initializer == (name.lexeme@ == "init"@)
                        && bound.closure == old(environment).values().len()
                    &&& final(environment).values() == old(environment).values().push(
                        Map::empty().insert("this"@, this),
                    )
                    &&& final(environment).parents() == old(environment).parents().push(
                        Some(method.closure),
                    )
                } else {
                    &&& r matches Err(e) && e@ == SpecError::RuntimeError {
                        token: name@,
                        message: "Property "@ + id + " not found"@,
                    }
                    &&& *final(environment) == *old(environment)
                }
            }),
    {
        let identifier = match &name.token_type {
            TokenType::Identifier(s) => s,
            _ => vstd::pervasive::unreached(),
        };
        match find_binding(&self.fields, identifier.as_str()) {
            Some(j) => {
                proof {
                    lemma_bindings_last(self.fields@, identifier@, j as int);
                }
                return Ok(Property::Field(&self.fields[j].1));
            },
            None => {
                proof {
                    lemma_bindings_last(self.fields@, identifier@, -1);
                }
            },
        }
        match self.class.find_method(identifier.as_str()) {
            Some(function) => {
                let is_initializer = text_equals(name.lexeme.as_str(), "init");
                Ok(Property::Method(function.bind(environment, this, is_initializer)))
            },
            None => {
                let message = concat3("Property ", identifier.as_str(), " not found");
                Err(LoxError::RuntimeError { token: name.duplicate(), message })
            },
        }
    }

    /// Sets the field named by `name`'s text to `value`.
    pub fn set(&mut self, name: Token, value: V)
        ensures
            final(self).fields() == old(self).fields().insert(name.lexeme@, value),
            final(self).spec_class() == old(self).spec_class(),
    {
        let key = name.lexeme;
        match find_binding(&self.fields, key.as_str()) {
            Some(j) => {
                proof {
                    lemma_bindings_replace_last(self.fields@, j as int, key, value);
                }
                self.fields.set(j, (key, value));
            },
            None => {
                let ghost before = self.fields@;
                self.fields.push((key, value));
                proof {
                    assert(self.fields@.drop_last() =~= before);
                }
            },
        }
    }
}

} // verus!
