//! The expression algebra: identifiers and the four-variant expression tree
//! (variables, inert symbols, applications, single-parameter lambdas),
//! together with the mathematical model that every contract in the crate
//! speaks of.

use vstd::prelude::*;
use vstd::string::StringExecFns;

verus! {

/// Mathematical model of an expression: the same tree, with every identifier
/// abstracted to its character sequence.
pub enum ExprModel {
    Variable { id: Seq<char> },
    Symbol { id: Seq<char> },
    Apply { lhs: Box<ExprModel>, rhs: Box<ExprModel> },
    Lambda { param: Seq<char>, body: Box<ExprModel> },
}

/// Number of nodes in an expression model; the measure most recursions use.
pub open spec fn esize(e: ExprModel) -> nat
    decreases e,
{
    match e {
        ExprModel::Variable { .. } => 1,
        ExprModel::Symbol { .. } => 1,
        ExprModel::Apply { lhs, rhs } => 1 + esize(*lhs) + esize(*rhs),
        ExprModel::Lambda { body, .. } => 1 + esize(*body),
    }
}

/// The set of identifiers that occur free in `e`.
pub open spec fn free_vars_of(e: ExprModel) -> Set<Seq<char>>
    decreases e,
{
    match e {
        ExprModel::Variable { id } => Set::empty().insert(id),
        ExprModel::Symbol { .. } => Set::empty(),
        ExprModel::Apply { lhs, rhs } => free_vars_of(*lhs).union(free_vars_of(*rhs)),
        ExprModel::Lambda { param, body } => free_vars_of(*body).remove(param),
    }
}

/// Holds when no lambda node occurs anywhere in `e`.
pub open spec fn lambda_free(e: ExprModel) -> bool
    decreases e,
{
    match e {
        ExprModel::Variable { .. } => true,
        ExprModel::Symbol { .. } => true,
        ExprModel::Apply { lhs, rhs } => lambda_free(*lhs) && lambda_free(*rhs),
        ExprModel::Lambda { .. } => false,
    }
}

/// An interned textual name, used for variables, symbols and function names.
#[derive(Debug, Eq)]
pub struct Identifier {
    name: String,
}

impl View for Identifier {
    type V = Seq<char>;

    closed spec fn view(&self) -> Seq<char> {
        self.name@
    }
}

impl Identifier {
    pub fn new(name: &str) -> (r: Identifier)
        ensures
            r@ == name@,
    {
        Identifier { name: String::from_str(name) }
    }

    pub fn from_string(name: String) -> (r: Identifier)
        ensures
            r@ == name@,
    {
        Identifier { name }
    }

    /// The identifier's text.
    pub fn as_str(&self) -> (r: &str)
        ensures
            r@ == self@,
    {
        self.name.as_str()
    }
}

impl Clone for Identifier {
    fn clone(&self) -> (r: Identifier)
        ensures
            r == *self,
    {
        Identifier { name: self.name.clone() }
    }
}

impl PartialEq for Identifier {
    fn eq(&self, other: &Identifier) -> (r: bool) {
        self.name == other.name
    }
}

impl vstd::std_specs::cmp::PartialEqSpecImpl for Identifier {
    open spec fn obeys_eq_spec() -> bool {
        true
    }

    open spec fn eq_spec(&self, other: &Identifier) -> bool {
        self@ == other@
    }
}

/// An immutable expression tree: a bound or free name, an inert symbol
/// literal, a binary application, or a single-parameter abstraction.
#[derive(Debug, PartialEq, Eq)]
pub enum Expr {
    Variable(Identifier),
    Symbol(Identifier),
    Apply { lhs: Box<Expr>, rhs: Box<Expr> },
    Lambda { param: Identifier, body: Box<Expr> },
}

pub open spec fn model_of(e: Expr) -> ExprModel
    decreases e,
{
    match e {
        Expr::Variable(id) => ExprModel::Variable { id: id@ },
        Expr::Symbol(id) => ExprModel::Symbol { id: id@ },
        Expr::Apply { lhs, rhs } => ExprModel::Apply {
            lhs: Box::new(model_of(*lhs)),
            rhs: Box::new(model_of(*rhs)),
        },
        Expr::Lambda { param, body } => ExprModel::Lambda {
            param: param@,
            body: Box::new(model_of(*body)),
        },
    }
}

impl View for Expr {
    type V = ExprModel;

    open spec fn view(&self) -> ExprModel {
        model_of(*self)
    }
}

impl Clone for Expr {
    fn clone(&self) -> (r: Expr)
        ensures
            r == *self,
        decreases self,
    {
        match self {
            Expr::Variable(id) => Expr::Variable(id.clone()),
            Expr::Symbol(id) => Expr::Symbol(id.clone()),
            Expr::Apply { lhs, rhs } => Expr::Apply {
                lhs: Box::new((**lhs).clone()),
                rhs: Box::new((**rhs).clone()),
            },
            Expr::Lambda { param, body } => Expr::Lambda {
                param: param.clone(),
                body: Box::new((**body).clone()),
            },
        }
    }
}

/// A variable expression.
pub fn v(name: &str) -> (r: Expr)
    ensures
        r@ == (ExprModel::Variable { id: name@ }),
{
    Expr::Variable(Identifier::new(name))
}

/// A symbol expression; symbols are inert under every reduction rule.
pub fn s(name: &str) -> (r: Expr)
    ensures
        r@ == (ExprModel::Symbol { id: name@ }),
{
    Expr::Symbol(Identifier::new(name))
}

/// An application `lhs rhs`.
pub fn a(lhs: Expr, rhs: Expr) -> (r: Expr)
    ensures
        r@ == (ExprModel::Apply { lhs: Box::new(lhs@), rhs: Box::new(rhs@) }),
{
    Expr::Apply { lhs: Box::new(lhs), rhs: Box::new(rhs) }
}

/// A single-parameter abstraction `λparam.body`.
pub fn l(param: &str, body: Expr) -> (r: Expr)
    ensures
        r@ == (ExprModel::Lambda { param: param@, body: Box::new(body@) }),
{
    Expr::Lambda { param: Identifier::new(param), body: Box::new(body) }
}

} // verus!
