use vstd::prelude::*;
use crate::env::Env;
use crate::error::{Error, ErrorView, error_view};
use crate::parser::{Parser, parse_text};
use crate::visitor::{Bindings, Visitor};

verus! {

/// Parses one text and evaluates it with a visitor, keeping the variable
/// bindings for as long as the interpreter lives. An evaluation that fails
/// leaves the bindings as they were.
#[verifier::reject_recursive_types(T)]
pub struct Intepreter<T, V: Visitor<Output = T>> {
    parser: Parser,
    visitor: V,
    env: Env,
}

/// The outcome of one evaluation of `text` by a visitor whose outcome on a
/// tree is `outcome`, starting from `env`: the result, and the bindings
/// afterwards, unchanged unless the evaluation succeeds.
pub open spec fn commit<T>(
    parsed: Result<crate::ast::Tree, ErrorView>,
    visited: spec_fn(crate::ast::Tree) -> (Result<T, ErrorView>, Bindings),
    env: Bindings,
) -> (Result<T, ErrorView>, Bindings) {
    match parsed {
        Err(e) => (Err(e), env),
        Ok(tree) => match visited(tree) {
            (Ok(v), after) => (Ok(v), after),
            (Err(e), _) => (Err(e), env),
        },
    }
}

/// An evaluation that fails, in parsing or in visiting, leaves the bindings
/// as they were; one that succeeds leaves those that the visit produced.
pub proof fn lemma_failure_commits_nothing<T>(
    parsed: Result<crate::ast::Tree, ErrorView>,
    visited: spec_fn(crate::ast::Tree) -> (Result<T, ErrorView>, Bindings),
    env: Bindings,
)
    ensures
        commit(parsed, visited, env).0 is Err ==> commit(parsed, visited, env).1 == env,
        commit(parsed, visited, env).0 is Ok ==> commit(parsed, visited, env).1 == visited(
            parsed->Ok_0,
        ).1,
{
}

impl<T, V: Visitor<Output = T>> Intepreter<T, V> {
    /// The text that is evaluated.
    pub closed spec fn text(&self) -> Seq<char> {
        self.parser.text()
    }

    /// The current variable bindings.
    pub closed spec fn bindings(&self) -> Bindings {
        self.env@
    }

    /// The visitor that evaluates.
    pub closed spec fn visitor(&self) -> V {
        self.visitor
    }

    pub closed spec fn wf(&self) -> bool {
        self.env.wf()
    }

    pub fn new(text: String, visitor: V) -> (i: Self)
        ensures
            i.wf(),
            i.text() == text@,
            i.visitor() == visitor,
            i.bindings() == Map::<Seq<char>, i32>::empty(),
    {
        Intepreter { parser: Parser::new(text), visitor: visitor, env: Env::new() }
    }

    /// Parses the text and evaluates it.
    pub fn eval(&mut self) -> (r: Result<T, Error>)
        requires
            old(self).wf(),
        ensures
            final(self).wf(),
            final(self).text() == old(self).text(),
            final(self).visitor() == old(self).visitor(),
            (error_view(r), final(self).bindings()) == commit(
                parse_text(old(self).text()),
                |tree| old(self).visitor().outcome(tree, old(self).bindings()),
                old(self).bindings(),
            ),
    {
        let node = match self.parser.parse() {
            Ok(n) => n,
            Err(e) => return Err(e),
        };
        let mut scratch = self.env.snapshot();
        match self.visitor.visit(node, &mut scratch) {
            Ok(v) => {
                self.env = scratch;
                Ok(v)
            },
            Err(e) => Err(e),
        }
    }

    /// The variable bindings.
    pub fn get_env(&self) -> (e: &Env)
        requires
            self.wf(),
        ensures
            e.wf(),
            e@ == self.bindings(),
    {
        &self.env
    }
}

} // verus!
