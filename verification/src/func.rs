//! Named function definitions: a name, an ordered list of formal parameters
//! (distinct in any well-formed definition), and a body expression.

use vstd::prelude::*;
use crate::expr::{Expr, ExprModel, Identifier};

verus! {

/// Mathematical model of a function definition.
pub struct FuncModel {
    pub name: Seq<char>,
    pub params: Seq<Seq<char>>,
    pub body: ExprModel,
}

/// The parameters are pairwise distinct.
pub open spec fn params_distinct(f: FuncModel) -> bool {
    forall|i: int, j: int| 0 <= i < j < f.params.len() ==> f.params[i] != f.params[j]
}

/// A named definition. A function with no parameters is an alias whose body
/// replaces an occurrence of its name in head position.
#[derive(Debug, PartialEq, Eq)]
pub struct Func {
    name: Identifier,
    params: Vec<Identifier>,
    body: Expr,
}

impl View for Func {
    type V = FuncModel;

    closed spec fn view(&self) -> FuncModel {
        FuncModel {
            name: self.name@,
            params: self.params@.map_values(|p: Identifier| p@),
            body: self.body@,
        }
    }
}

impl Func {
    pub fn name(&self) -> (r: &Identifier)
        ensures
            r@ == self@.name,
    {
        &self.name
    }

    pub fn params(&self) -> (r: &Vec<Identifier>)
        ensures
            r@.map_values(|p: Identifier| p@) == self@.params,
    {
        &self.params
    }

    pub fn body(&self) -> (r: &Expr)
        ensures
            r@ == self@.body,
    {
        &self.body
    }

    /// The number of formal parameters.
    pub fn arity(&self) -> (r: usize)
        ensures
            r == self@.params.len(),
    {
        self.params.len()
    }
}

impl Clone for Func {
    fn clone(&self) -> (r: Func)
        ensures
            r@ == self@,
    {
        let mut params: Vec<Identifier> = Vec::new();
        let mut j: usize = 0;
        while j < self.params.len()
            invariant
                j <= self.params.len(),
                params@ == self.params@.take(j as int),
            decreases self.params.len() - j,
        {
            params.push(self.params[j].clone());
            proof {
                assert(params@ =~= self.params@.take(j + 1));
            }
            j += 1;
        }
        proof {
            assert(self.params@.take(self.params@.len() as int) =~= self.params@);
        }
        let r = Func { name: self.name.clone(), params, body: self.body.clone() };
        proof {
            assert(r@.params =~= self@.params);
        }
        r
    }
}

/// Builds a definition from already-interned parts.
pub fn from_parts(name: Identifier, params: Vec<Identifier>, body: Expr) -> (r: Func)
    ensures
        r@.name == name@,
        r@.params == params@.map_values(|p: Identifier| p@),
        r@.body == body@,
{
    Func { name, params, body }
}

/// Builds a definition from its name, parameter names and body.
pub fn new(name: &str, params: Vec<&str>, body: Expr) -> (r: Func)
    ensures
        r@.name == name@,
        r@.params == params@.map_values(|p: &str| p@),
        r@.body == body@,
{
    let mut ids: Vec<Identifier> = Vec::new();
    let mut j: usize = 0;
    while j < params.len()
        invariant
            j <= params.len(),
            ids@.len() == j,
            forall|k: int| 0 <= k < j ==> ids@[k]@ == params@[k]@,
        decreases params.len() - j,
    {
        ids.push(Identifier::new(params[j]));
        j += 1;
    }
    let r = Func { name: Identifier::new(name), params: ids, body };
    proof {
        assert(r@.params =~= params@.map_values(|p: &str| p@));
    }
    r
}

} // verus!
