//! Redex arity at a head expression, and the one-step application of a head
//! to the arguments popped off the spine.

use vstd::prelude::*;
use crate::expr::{Expr, ExprModel, Identifier};
use crate::func::FuncModel;
use crate::context::{lookup_func, Context};
use crate::subst::{subst, subst_many, subst_model, subst_sim_model, pairs_view};

verus! {

/// The model of a sequence of argument expressions.
pub open spec fn models_of(args: Seq<Expr>) -> Seq<ExprModel> {
    args.map_values(|x: Expr| x@)
}

/// How many arguments the head needs before it reduces: one for a lambda,
/// the parameter count for a defined name, nothing otherwise.
pub open spec fn arity_model(ctx: Seq<FuncModel>, e: ExprModel) -> Option<nat> {
    match e {
        ExprModel::Lambda { .. } => Some(1),
        ExprModel::Variable { id } => match lookup_func(ctx, id) {
            Some(f) => Some(f.params.len()),
            None => None,
        },
        _ => None,
    }
}

/// `None` if the head is no redex candidate (an application, a symbol, or a
/// free variable); the needed argument count otherwise. An alias still
/// answers `Some(0)`.
pub fn arity(context: &Context, e: &Expr) -> (r: Option<usize>)
    ensures
        match r {
            Some(n) => arity_model(context@, e@) == Some(n as nat),
            None => arity_model(context@, e@) is None,
        },
{
    match e {
        Expr::Lambda { .. } => Some(1),
        Expr::Variable(id) => context.arity(id),
        _ => None,
    }
}

/// Formal parameters paired with the arguments they receive.
pub open spec fn zip_params(ps: Seq<Seq<char>>, args: Seq<ExprModel>) -> Seq<
    (Seq<char>, ExprModel),
> {
    Seq::new(ps.len(), |i: int| (ps[i], args[i]))
}

/// The one-step reduct of an applicable head: a beta step for a lambda, the
/// body verbatim for an alias, and a simultaneous substitution of the
/// arguments for the parameters otherwise.
pub open spec fn apply_model(ctx: Seq<FuncModel>, head: ExprModel, args: Seq<ExprModel>) -> ExprModel {
    match head {
        ExprModel::Lambda { param, body } => subst_model(*body, param, args[0]),
        ExprModel::Variable { id } => match lookup_func(ctx, id) {
            Some(f) => if f.params.len() == 0 {
                f.body
            } else {
                subst_sim_model(f.body, zip_params(f.params, args))
            },
            None => head,
        },
        _ => head,
    }
}

/// The defect report for a precondition-checked application: the head was no
/// redex, or the argument count did not match its arity.
#[derive(Debug, PartialEq, Eq, Clone, Copy)]
pub enum CalcError {
    InternalInvariantViolation,
}

/// Rewrites the head in place to its one-step reduct, given exactly as many
/// detached arguments as its arity asks; anything else is refused and the
/// head stands unchanged.
pub fn apply(context: &Context, e: &mut Expr, args: Vec<Expr>) -> (r: Result<(), CalcError>)
    ensures
        r is Ok <==> arity_model(context@, old(e)@) == Some(args@.len() as nat),
        r is Ok ==> final(e)@ == apply_model(context@, old(e)@, models_of(args@)),
        r is Err ==> final(e)@ == old(e)@,
{
    let needed = match arity(context, e) {
        Some(n) => n,
        None => {
            return Err(CalcError::InternalInvariantViolation);
        },
    };
    if needed != args.len() {
        return Err(CalcError::InternalInvariantViolation);
    }
    match e {
        Expr::Lambda { param, body } => {
            let reduct = subst(body, param, &args[0]);
            proof {
                assert(models_of(args@)[0] == args@[0]@);
            }
            *e = reduct;
            Ok(())
        },
        Expr::Variable(id) => {
            let f = match context.get(id) {
                Some(f) => f,
                None => {
                    proof {
                        assert(false);
                    }
                    return Err(CalcError::InternalInvariantViolation);
                },
            };
            let params = f.params();
            if params.len() == 0 {
                let body = f.body().clone();
                *e = body;
                Ok(())
            } else {
                let mut pairs: Vec<(Identifier, Expr)> = Vec::new();
                let mut j: usize = 0;
                while j < params.len()
                    invariant
                        j <= params.len(),
                        args@.len() == params@.len(),
                        pairs@.len() == j,
                        forall|k: int| 0 <= k < j ==> pairs@[k].0@ == params@[k]@
                            && pairs@[k].1@ == args@[k]@,
                    decreases params.len() - j,
                {
                    pairs.push((params[j].clone(), args[j].clone()));
                    j += 1;
                }
                let reduct = subst_many(f.body(), &pairs);
                proof {
                    assert(pairs_view(pairs@) =~= zip_params(f@.params, models_of(args@)));
                }
                *e = reduct;
                Ok(())
            }
        },
        _ => {
            proof {
                assert(false);
            }
            Err(CalcError::InternalInvariantViolation)
        },
    }
}

} // verus!
