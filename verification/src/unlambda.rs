//! Abstraction elimination: rewriting lambdas into applications of three
//! chosen combinator names S, K and I. The translation is shallow: a
//! subterm in which the bound variable does not occur free is kept verbatim
//! under K.

use vstd::prelude::*;
use crate::expr::{esize, free_vars_of, lambda_free, model_of, Expr, ExprModel, Identifier};
use crate::subst::free_vars;

verus! {

/// Number of lambda nodes in `e`; elimination never increases it.
pub open spec fn lam_count(e: ExprModel) -> nat
    decreases e,
{
    match e {
        ExprModel::Variable { .. } => 0,
        ExprModel::Symbol { .. } => 0,
        ExprModel::Apply { lhs, rhs } => lam_count(*lhs) + lam_count(*rhs),
        ExprModel::Lambda { body, .. } => 1 + lam_count(*body),
    }
}

/// Fuel-indexed abstraction elimination `T(e, x)`: what the body of a lambda
/// binding `x` becomes. `None` only when the fuel runs out; the fixed
/// translation is the common value of all sufficient fuels.
pub open spec fn unl_fuel(
    e: ExprModel,
    x: Seq<char>,
    s: Seq<char>,
    k: Seq<char>,
    i: Seq<char>,
    fuel: nat,
) -> Option<ExprModel>
    decreases fuel,
{
    if fuel == 0 {
        None
    } else {
        match e {
            ExprModel::Variable { id } => Some(
                if id == x {
                    ExprModel::Variable { id: i }
                } else {
                    ExprModel::Apply {
                        lhs: Box::new(ExprModel::Variable { id: k }),
                        rhs: Box::new(e),
                    }
                },
            ),
            ExprModel::Symbol { .. } => Some(ExprModel::Apply {
                lhs: Box::new(ExprModel::Variable { id: k }),
                rhs: Box::new(e),
            }),
            ExprModel::Apply { lhs, rhs } => {
                if !free_vars_of(e).contains(x) {
                    Some(ExprModel::Apply {
                        lhs: Box::new(ExprModel::Variable { id: k }),
                        rhs: Box::new(e),
                    })
                } else if *rhs == (ExprModel::Variable { id: x }) && !free_vars_of(
                    *lhs,
                ).contains(x) {
                    Some(*lhs)
                } else {
                    match (
                        unl_fuel(*lhs, x, s, k, i, (fuel - 1) as nat),
                        unl_fuel(*rhs, x, s, k, i, (fuel - 1) as nat),
                    ) {
                        (Some(tl), Some(tr)) => Some(ExprModel::Apply {
                            lhs: Box::new(ExprModel::Apply {
                                lhs: Box::new(ExprModel::Variable { id: s }),
                                rhs: Box::new(tl),
                            }),
                            rhs: Box::new(tr),
                        }),
                        _ => None,
                    }
                }
            },
            ExprModel::Lambda { param, body } => {
                match unl_fuel(*body, param, s, k, i, (fuel - 1) as nat) {
                    Some(ib) => unl_fuel(ib, x, s, k, i, (fuel - 1) as nat),
                    None => None,
                }
            },
        }
    }
}

/// More fuel never changes a settled answer.
proof fn lemma_unl_fuel_mono(
    e: ExprModel,
    x: Seq<char>,
    s: Seq<char>,
    k: Seq<char>,
    i: Seq<char>,
    f1: nat,
    f2: nat,
)
    requires
        unl_fuel(e, x, s, k, i, f1) is Some,
        f1 <= f2,
    ensures
        unl_fuel(e, x, s, k, i, f2) == unl_fuel(e, x, s, k, i, f1),
    decreases f1,
{
    if f1 == 0 {
    } else if f1 == f2 {
    } else {
        match e {
            ExprModel::Apply { lhs, rhs } => {
                if !free_vars_of(e).contains(x) {
                } else if *rhs == (ExprModel::Variable { id: x }) && !free_vars_of(
                    *lhs,
                ).contains(x) {
                } else {
                    lemma_unl_fuel_mono(*lhs, x, s, k, i, (f1 - 1) as nat, (f2 - 1) as nat);
                    lemma_unl_fuel_mono(*rhs, x, s, k, i, (f1 - 1) as nat, (f2 - 1) as nat);
                }
            },
            ExprModel::Lambda { param, body } => {
                lemma_unl_fuel_mono(*body, param, s, k, i, (f1 - 1) as nat, (f2 - 1) as nat);
                let ib = unl_fuel(*body, param, s, k, i, (f1 - 1) as nat).unwrap();
                lemma_unl_fuel_mono(ib, x, s, k, i, (f1 - 1) as nat, (f2 - 1) as nat);
            },
            _ => {},
        }
    }
}

/// Some fuel settles the translation of `e` under `x`.
pub open spec fn unl_defined(
    e: ExprModel,
    x: Seq<char>,
    s: Seq<char>,
    k: Seq<char>,
    i: Seq<char>,
) -> bool {
    exists|f: nat| (#[trigger] unl_fuel(e, x, s, k, i, f)) is Some
}

/// The settled translation `T(e, x)`.
pub open spec fn unl_spec(
    e: ExprModel,
    x: Seq<char>,
    s: Seq<char>,
    k: Seq<char>,
    i: Seq<char>,
) -> ExprModel {
    unl_fuel(
        e,
        x,
        s,
        k,
        i,
        choose|f: nat| (#[trigger] unl_fuel(e, x, s, k, i, f)) is Some,
    ).unwrap()
}

/// Any settled answer is the translation.
proof fn lemma_unl_spec_of(
    e: ExprModel,
    x: Seq<char>,
    s: Seq<char>,
    k: Seq<char>,
    i: Seq<char>,
    f: nat,
    r: ExprModel,
)
    requires
        unl_fuel(e, x, s, k, i, f) == Some(r),
    ensures
        unl_defined(e, x, s, k, i),
        unl_spec(e, x, s, k, i) == r,
{
    assert(unl_fuel(e, x, s, k, i, f) is Some);
    let g = choose|g: nat| (#[trigger] unl_fuel(e, x, s, k, i, g)) is Some;
    if g <= f {
        lemma_unl_fuel_mono(e, x, s, k, i, g, f);
    } else {
        lemma_unl_fuel_mono(e, x, s, k, i, f, g);
    }
}

/// Elimination never adds lambda nodes.
proof fn lemma_unl_fuel_count(
    e: ExprModel,
    x: Seq<char>,
    s: Seq<char>,
    k: Seq<char>,
    i: Seq<char>,
    f: nat,
    r: ExprModel,
)
    requires
        unl_fuel(e, x, s, k, i, f) == Some(r),
    ensures
        lam_count(r) <= lam_count(e),
    decreases f,
{
    reveal_with_fuel(lam_count, 4);
    reveal_with_fuel(unl_fuel, 2);
    match e {
        ExprModel::Apply { lhs, rhs } => {
            if !free_vars_of(e).contains(x) {
            } else if *rhs == (ExprModel::Variable { id: x }) && !free_vars_of(*lhs).contains(
                x,
            ) {
            } else {
                let tl = unl_fuel(*lhs, x, s, k, i, (f - 1) as nat).unwrap();
                let tr = unl_fuel(*rhs, x, s, k, i, (f - 1) as nat).unwrap();
                lemma_unl_fuel_count(*lhs, x, s, k, i, (f - 1) as nat, tl);
                lemma_unl_fuel_count(*rhs, x, s, k, i, (f - 1) as nat, tr);
            }
        },
        ExprModel::Lambda { param, body } => {
            let ib = unl_fuel(*body, param, s, k, i, (f - 1) as nat).unwrap();
            lemma_unl_fuel_count(*body, param, s, k, i, (f - 1) as nat, ib);
            lemma_unl_fuel_count(ib, x, s, k, i, (f - 1) as nat, r);
        },
        _ => {},
    }
}

/// Elimination of a lambda-free term stays lambda-free.
proof fn lemma_unl_fuel_keeps_nolam(
    e: ExprModel,
    x: Seq<char>,
    s: Seq<char>,
    k: Seq<char>,
    i: Seq<char>,
    f: nat,
    r: ExprModel,
)
    requires
        unl_fuel(e, x, s, k, i, f) == Some(r),
        lambda_free(e),
    ensures
        lambda_free(r),
    decreases f,
{
    reveal_with_fuel(lambda_free, 4);
    reveal_with_fuel(unl_fuel, 2);
    match e {
        ExprModel::Apply { lhs, rhs } => {
            if !free_vars_of(e).contains(x) {
            } else if *rhs == (ExprModel::Variable { id: x }) && !free_vars_of(*lhs).contains(
                x,
            ) {
            } else {
                let tl = unl_fuel(*lhs, x, s, k, i, (f - 1) as nat).unwrap();
                let tr = unl_fuel(*rhs, x, s, k, i, (f - 1) as nat).unwrap();
                lemma_unl_fuel_keeps_nolam(*lhs, x, s, k, i, (f - 1) as nat, tl);
                lemma_unl_fuel_keeps_nolam(*rhs, x, s, k, i, (f - 1) as nat, tr);
            }
        },
        _ => {},
    }
}

/// The lambdas of `e` that the shallow translation under `x` would keep
/// verbatim: none, when this predicate holds. A subterm without `x` free is
/// embedded unchanged, so it must already be lambda-free; elsewhere the
/// translation recurses and eliminates what it meets.
pub open spec fn binder_covers(e: ExprModel, x: Seq<char>) -> bool
    decreases e,
{
    match e {
        ExprModel::Variable { .. } => true,
        ExprModel::Symbol { .. } => true,
        ExprModel::Apply { lhs, rhs } => {
            if !free_vars_of(e).contains(x) {
                lambda_free(e)
            } else if *rhs == (ExprModel::Variable { id: x }) && !free_vars_of(*lhs).contains(
                x,
            ) {
                lambda_free(*lhs)
            } else {
                binder_covers(*lhs, x) && binder_covers(*rhs, x)
            }
        },
        ExprModel::Lambda { param, body } => binder_covers(*body, param),
    }
}

/// Under a covered binder the translation is lambda-free.
proof fn lemma_unl_fuel_covers(
    e: ExprModel,
    x: Seq<char>,
    s: Seq<char>,
    k: Seq<char>,
    i: Seq<char>,
    f: nat,
    r: ExprModel,
)
    requires
        unl_fuel(e, x, s, k, i, f) == Some(r),
        binder_covers(e, x),
    ensures
        lambda_free(r),
    decreases f,
{
    reveal_with_fuel(lambda_free, 4);
    reveal_with_fuel(unl_fuel, 2);
    match e {
        ExprModel::Apply { lhs, rhs } => {
            if !free_vars_of(e).contains(x) {
            } else if *rhs == (ExprModel::Variable { id: x }) && !free_vars_of(*lhs).contains(
                x,
            ) {
            } else {
                let tl = unl_fuel(*lhs, x, s, k, i, (f - 1) as nat).unwrap();
                let tr = unl_fuel(*rhs, x, s, k, i, (f - 1) as nat).unwrap();
                lemma_unl_fuel_covers(*lhs, x, s, k, i, (f - 1) as nat, tl);
                lemma_unl_fuel_covers(*rhs, x, s, k, i, (f - 1) as nat, tr);
            }
        },
        ExprModel::Lambda { param, body } => {
            let ib = unl_fuel(*body, param, s, k, i, (f - 1) as nat).unwrap();
            lemma_unl_fuel_covers(*body, param, s, k, i, (f - 1) as nat, ib);
            lemma_unl_fuel_keeps_nolam(ib, x, s, k, i, (f - 1) as nat, r);
        },
        _ => {},
    }
}

/// The free variables of the translation: those of the original body minus
/// the eliminated binder, give or take the three combinator names.
proof fn lemma_unl_fuel_free(
    e: ExprModel,
    x: Seq<char>,
    s: Seq<char>,
    k: Seq<char>,
    i: Seq<char>,
    f: nat,
    r: ExprModel,
)
    requires
        unl_fuel(e, x, s, k, i, f) == Some(r),
    ensures
        free_vars_of(r).subset_of(
            free_vars_of(e).remove(x).insert(s).insert(k).insert(i),
        ),
        free_vars_of(e).remove(x).subset_of(
            free_vars_of(r).insert(s).insert(k).insert(i),
        ),
    decreases f,
{
    reveal_with_fuel(free_vars_of, 4);
    reveal_with_fuel(unl_fuel, 2);
    match e {
        ExprModel::Apply { lhs, rhs } => {
            if !free_vars_of(e).contains(x) {
            } else if *rhs == (ExprModel::Variable { id: x }) && !free_vars_of(*lhs).contains(
                x,
            ) {
            } else {
                let tl = unl_fuel(*lhs, x, s, k, i, (f - 1) as nat).unwrap();
                let tr = unl_fuel(*rhs, x, s, k, i, (f - 1) as nat).unwrap();
                lemma_unl_fuel_free(*lhs, x, s, k, i, (f - 1) as nat, tl);
                lemma_unl_fuel_free(*rhs, x, s, k, i, (f - 1) as nat, tr);
                assert forall|v: Seq<char>|
                    free_vars_of(e).remove(x).contains(v) implies free_vars_of(r).insert(
                    s,
                ).insert(k).insert(i).contains(v) by {
                    if free_vars_of(*lhs).contains(v) {
                        assert(free_vars_of(*lhs).remove(x).contains(v));
                        assert(free_vars_of(tl).insert(s).insert(k).insert(i).contains(v));
                        if v != s && v != k && v != i {
                            assert(free_vars_of(r).contains(v));
                        }
                    } else {
                        assert(free_vars_of(*rhs).remove(x).contains(v));
                        assert(free_vars_of(tr).insert(s).insert(k).insert(i).contains(v));
                        if v != s && v != k && v != i {
                            assert(free_vars_of(r).contains(v));
                        }
                    }
                }
            }
        },
        ExprModel::Lambda { param, body } => {
            let ib = unl_fuel(*body, param, s, k, i, (f - 1) as nat).unwrap();
            lemma_unl_fuel_free(*body, param, s, k, i, (f - 1) as nat, ib);
            lemma_unl_fuel_free(ib, x, s, k, i, (f - 1) as nat, r);
            assert forall|v: Seq<char>|
                free_vars_of(e).remove(x).contains(v) implies free_vars_of(r).insert(s).insert(
                k,
            ).insert(i).contains(v) by {
                assert(free_vars_of(e) == free_vars_of(*body).remove(param));
                assert(free_vars_of(*body).remove(param).contains(v));
                assert(free_vars_of(ib).insert(s).insert(k).insert(i).contains(v));
                if v != s && v != k && v != i {
                    assert(free_vars_of(ib).contains(v));
                    assert(free_vars_of(ib).remove(x).contains(v));
                    assert(free_vars_of(r).insert(s).insert(k).insert(i).contains(v));
                }
            }
        },
        _ => {},
    }
}

/// Every term's translation settles at some fuel.
proof fn lemma_unl_defined(e: ExprModel, x: Seq<char>, s: Seq<char>, k: Seq<char>, i: Seq<char>)
    ensures
        unl_defined(e, x, s, k, i),
    decreases lam_count(e), esize(e),
{
    match e {
        ExprModel::Variable { .. } => {
            assert(unl_fuel(e, x, s, k, i, 1) is Some);
        },
        ExprModel::Symbol { .. } => {
            assert(unl_fuel(e, x, s, k, i, 1) is Some);
        },
        ExprModel::Apply { lhs, rhs } => {
            if !free_vars_of(e).contains(x) {
                assert(unl_fuel(e, x, s, k, i, 1) is Some);
            } else if *rhs == (ExprModel::Variable { id: x }) && !free_vars_of(*lhs).contains(
                x,
            ) {
                assert(unl_fuel(e, x, s, k, i, 1) is Some);
            } else {
                lemma_unl_defined(*lhs, x, s, k, i);
                lemma_unl_defined(*rhs, x, s, k, i);
                let f1 = choose|f: nat| (#[trigger] unl_fuel(*lhs, x, s, k, i, f)) is Some;
                let f2 = choose|f: nat| (#[trigger] unl_fuel(*rhs, x, s, k, i, f)) is Some;
                lemma_unl_fuel_mono(*lhs, x, s, k, i, f1, f1 + f2);
                lemma_unl_fuel_mono(*rhs, x, s, k, i, f2, f1 + f2);
                assert(unl_fuel(e, x, s, k, i, f1 + f2 + 1) is Some);
            }
        },
        ExprModel::Lambda { param, body } => {
            lemma_unl_defined(*body, param, s, k, i);
            let f1 = choose|f: nat| (#[trigger] unl_fuel(*body, param, s, k, i, f)) is Some;
            let ib = unl_fuel(*body, param, s, k, i, f1).unwrap();
            lemma_unl_fuel_count(*body, param, s, k, i, f1, ib);
            lemma_unl_defined(ib, x, s, k, i);
            let f2 = choose|f: nat| (#[trigger] unl_fuel(ib, x, s, k, i, f)) is Some;
            lemma_unl_fuel_mono(*body, param, s, k, i, f1, f1 + f2);
            lemma_unl_fuel_mono(ib, x, s, k, i, f2, f1 + f2);
            assert(unl_fuel(e, x, s, k, i, f1 + f2 + 1) is Some);
        },
    }
}

/// The whole translation: recurse structurally, eliminating each lambda met.
pub open spec fn unlambda_model(e: ExprModel, s: Seq<char>, k: Seq<char>, i: Seq<char>) -> ExprModel
    decreases e,
{
    match e {
        ExprModel::Variable { .. } => e,
        ExprModel::Symbol { .. } => e,
        ExprModel::Apply { lhs, rhs } => ExprModel::Apply {
            lhs: Box::new(unlambda_model(*lhs, s, k, i)),
            rhs: Box::new(unlambda_model(*rhs, s, k, i)),
        },
        ExprModel::Lambda { param, body } => unl_spec(*body, param, s, k, i),
    }
}

/// Lambdas whose constant subterms hide no further lambda: on these the
/// shallow elimination removes every lambda node.
pub open spec fn shallow_clean(e: ExprModel) -> bool
    decreases e,
{
    match e {
        ExprModel::Variable { .. } => true,
        ExprModel::Symbol { .. } => true,
        ExprModel::Apply { lhs, rhs } => shallow_clean(*lhs) && shallow_clean(*rhs),
        ExprModel::Lambda { param, body } => binder_covers(*body, param),
    }
}

/// The translation of a clean term contains no lambda node. (A lambda buried
/// in a subterm that does not mention the enclosing binder is embedded
/// verbatim under K and survives; `shallow_clean` names the terms without
/// such burials.)
pub proof fn lemma_unlambda_no_lambda(e: ExprModel, s: Seq<char>, k: Seq<char>, i: Seq<char>)
    requires
        shallow_clean(e),
    ensures
        lambda_free(unlambda_model(e, s, k, i)),
    decreases e,
{
    match e {
        ExprModel::Apply { lhs, rhs } => {
            lemma_unlambda_no_lambda(*lhs, s, k, i);
            lemma_unlambda_no_lambda(*rhs, s, k, i);
        },
        ExprModel::Lambda { param, body } => {
            lemma_unl_defined(*body, param, s, k, i);
            let f = choose|f: nat| (#[trigger] unl_fuel(*body, param, s, k, i, f)) is Some;
            let r = unl_fuel(*body, param, s, k, i, f).unwrap();
            lemma_unl_spec_of(*body, param, s, k, i, f, r);
            lemma_unl_fuel_covers(*body, param, s, k, i, f, r);
        },
        _ => {},
    }
}

/// The free variables of the translation are those of the original, up to
/// the three combinator names: the two sides agree off `{s, k, i}`.
pub proof fn lemma_unlambda_free_vars(e: ExprModel, s: Seq<char>, k: Seq<char>, i: Seq<char>)
    ensures
        free_vars_of(unlambda_model(e, s, k, i)).difference(
            Set::empty().insert(s).insert(k).insert(i),
        ) =~= free_vars_of(e).difference(Set::empty().insert(s).insert(k).insert(i)),
        free_vars_of(unlambda_model(e, s, k, i)).subset_of(
            free_vars_of(e).insert(s).insert(k).insert(i),
        ),
    decreases e,
{
    reveal_with_fuel(free_vars_of, 3);
    let skis = Set::empty().insert(s).insert(k).insert(i);
    match e {
        ExprModel::Apply { lhs, rhs } => {
            lemma_unlambda_free_vars(*lhs, s, k, i);
            lemma_unlambda_free_vars(*rhs, s, k, i);
            let ul = unlambda_model(*lhs, s, k, i);
            let ur = unlambda_model(*rhs, s, k, i);
            let u = unlambda_model(e, s, k, i);
            assert(free_vars_of(u) == free_vars_of(ul).union(free_vars_of(ur)));
            assert forall|v: Seq<char>|
                free_vars_of(u).difference(skis).contains(v) <==> free_vars_of(e).difference(
                skis,
            ).contains(v) by {
                if !skis.contains(v) {
                    assert(free_vars_of(ul).difference(skis).contains(v)
                        <==> free_vars_of(*lhs).difference(skis).contains(v));
                    assert(free_vars_of(ur).difference(skis).contains(v)
                        <==> free_vars_of(*rhs).difference(skis).contains(v));
                }
            }
        },
        ExprModel::Lambda { param, body } => {
            lemma_unl_defined(*body, param, s, k, i);
            let f = choose|f: nat| (#[trigger] unl_fuel(*body, param, s, k, i, f)) is Some;
            let r = unl_fuel(*body, param, s, k, i, f).unwrap();
            lemma_unl_spec_of(*body, param, s, k, i, f, r);
            lemma_unl_fuel_free(*body, param, s, k, i, f, r);
            assert(free_vars_of(e) == free_vars_of(*body).remove(param));
            assert forall|v: Seq<char>|
                free_vars_of(r).difference(skis).contains(v) <==> free_vars_of(e).difference(
                skis,
            ).contains(v) by {
                if !skis.contains(v) {
                    if free_vars_of(r).contains(v) {
                        assert(free_vars_of(e).remove(param).insert(s).insert(k).insert(
                            i,
                        ).contains(v) || free_vars_of(*body).remove(param).insert(s).insert(
                            k,
                        ).insert(i).contains(v));
                    }
                    if free_vars_of(e).contains(v) {
                        assert(free_vars_of(*body).remove(param).contains(v));
                        assert(free_vars_of(r).insert(s).insert(k).insert(i).contains(v));
                    }
                }
            }
        },
        _ => {},
    }
}

/// Eliminates every lambda by translating each into combinators over the
/// three identifiers naming S, K and I.
pub fn unlambda(expr: Expr, ski: &[&Identifier; 3]) -> (r: Expr)
    ensures
        r@ == unlambda_model(expr@, ski@[0]@, ski@[1]@, ski@[2]@),
    decreases expr,
{
    match expr {
        Expr::Variable(_) => expr,
        Expr::Symbol(_) => expr,
        Expr::Apply { lhs, rhs } => Expr::Apply {
            lhs: Box::new(unlambda(*lhs, ski)),
            rhs: Box::new(unlambda(*rhs, ski)),
        },
        Expr::Lambda { param, body } => unlambda_(*body, &param, ski),
    }
}

/// The body-level translation `T(expr, param)` of classical abstraction
/// elimination.
pub fn unlambda_(expr: Expr, param: &Identifier, ski: &[&Identifier; 3]) -> (r: Expr)
    ensures
        unl_defined(expr@, param@, ski@[0]@, ski@[1]@, ski@[2]@),
        r@ == unl_spec(expr@, param@, ski@[0]@, ski@[1]@, ski@[2]@),
    decreases lam_count(expr@), esize(expr@),
{
    let ghost sm = ski@[0]@;
    let ghost km = ski@[1]@;
    let ghost im = ski@[2]@;
    let s_id: &Identifier = *vstd::array::array_index_get(ski, 0);
    let k_id: &Identifier = *vstd::array::array_index_get(ski, 1);
    let i_id: &Identifier = *vstd::array::array_index_get(ski, 2);
    proof {
        assert(s_id@ == sm && k_id@ == km && i_id@ == im);
    }
    match expr {
        Expr::Variable(id) => {
            if &id == param {
                let r = Expr::Variable(i_id.clone());
                proof {
                    assert(r@ == (ExprModel::Variable { id: im }));
                    assert(unl_fuel(ExprModel::Variable { id: id@ }, param@, sm, km, im, 1)
                        == Some(r@));
                    lemma_unl_spec_of(ExprModel::Variable { id: id@ }, param@, sm, km, im, 1, r@);
                }
                r
            } else {
                let ghost idm = id@;
                let r = Expr::Apply {
                    lhs: Box::new(Expr::Variable(k_id.clone())),
                    rhs: Box::new(Expr::Variable(id)),
                };
                proof {
                    reveal_with_fuel(model_of, 3);
                    assert(r@ == (ExprModel::Apply {
                        lhs: Box::new(ExprModel::Variable { id: km }),
                        rhs: Box::new(ExprModel::Variable { id: idm }),
                    }));
                    assert(unl_fuel(ExprModel::Variable { id: idm }, param@, sm, km, im, 1)
                        == Some(r@));
                    lemma_unl_spec_of(ExprModel::Variable { id: idm }, param@, sm, km, im, 1, r@);
                }
                r
            }
        },
        Expr::Symbol(id) => {
            let r = Expr::Apply {
                lhs: Box::new(Expr::Variable(k_id.clone())),
                rhs: Box::new(Expr::Symbol(id)),
            };
            proof {
                reveal_with_fuel(model_of, 3);
                assert(r@ == (ExprModel::Apply {
                    lhs: Box::new(ExprModel::Variable { id: km }),
                    rhs: Box::new(expr@),
                }));
                assert(unl_fuel(expr@, param@, sm, km, im, 1) == Some(r@));
                lemma_unl_spec_of(expr@, param@, sm, km, im, 1, r@);
            }
            r
        },
        Expr::Apply { lhs, rhs } => {
            let ghost em = ExprModel::Apply { lhs: Box::new(lhs@), rhs: Box::new(rhs@) };
            let lf = free_vars(&lhs);
            let rf = free_vars(&rhs);
            if !lf.contains(param) && !rf.contains(param) {
                let r = Expr::Apply {
                    lhs: Box::new(Expr::Variable(k_id.clone())),
                    rhs: Box::new(Expr::Apply { lhs, rhs }),
                };
                proof {
                    reveal_with_fuel(model_of, 3);
                    reveal_with_fuel(free_vars_of, 2);
                    assert(!free_vars_of(em).contains(param@));
                    assert(r@ == (ExprModel::Apply {
                        lhs: Box::new(ExprModel::Variable { id: km }),
                        rhs: Box::new(em),
                    }));
                    assert(unl_fuel(em, param@, sm, km, im, 1) == Some(r@));
                    lemma_unl_spec_of(em, param@, sm, km, im, 1, r@);
                }
                r
            } else {
                let ghost spec_eta = rhs@ == (ExprModel::Variable { id: param@ })
                    && !free_vars_of(lhs@).contains(param@);
                let is_eta = match &*rhs {
                    Expr::Variable(id) => id == param && !lf.contains(param),
                    _ => false,
                };
                proof {
                    assert(is_eta == spec_eta);
                }
                if is_eta {
                    proof {
                        assert(rhs@ == (ExprModel::Variable { id: param@ }));
                        assert(free_vars_of(em).contains(param@)) by {
                            assert(free_vars_of(rhs@).contains(param@));
                        }
                        lemma_unl_spec_of(em, param@, sm, km, im, 1, lhs@);
                    }
                    *lhs
                } else {
                    let tl = unlambda_(*lhs, param, ski);
                    let tr = unlambda_(*rhs, param, ski);
                    let r = Expr::Apply {
                        lhs: Box::new(Expr::Apply {
                            lhs: Box::new(Expr::Variable(s_id.clone())),
                            rhs: Box::new(tl),
                        }),
                        rhs: Box::new(tr),
                    };
                    proof {
                        reveal_with_fuel(model_of, 4);
                        let f1 = choose|f: nat|
                            (#[trigger] unl_fuel(lhs@, param@, sm, km, im, f)) is Some;
                        let f2 = choose|f: nat|
                            (#[trigger] unl_fuel(rhs@, param@, sm, km, im, f)) is Some;
                        lemma_unl_spec_of(
                            lhs@,
                            param@,
                            sm,
                            km,
                            im,
                            f1,
                            unl_fuel(lhs@, param@, sm, km, im, f1).unwrap(),
                        );
                        lemma_unl_spec_of(
                            rhs@,
                            param@,
                            sm,
                            km,
                            im,
                            f2,
                            unl_fuel(rhs@, param@, sm, km, im, f2).unwrap(),
                        );
                        lemma_unl_fuel_mono(lhs@, param@, sm, km, im, f1, f1 + f2);
                        lemma_unl_fuel_mono(rhs@, param@, sm, km, im, f2, f1 + f2);
                        assert(free_vars_of(em).contains(param@));
                        assert(unl_fuel(em, param@, sm, km, im, f1 + f2 + 1) == Some(r@));
                        lemma_unl_spec_of(em, param@, sm, km, im, f1 + f2 + 1, r@);
                    }
                    r
                }
            }
        },
        Expr::Lambda { param: inner, body } => {
            let ghost em = ExprModel::Lambda { param: inner@, body: Box::new(body@) };
            let ib = unlambda_(*body, &inner, ski);
            proof {
                let f1 = choose|f: nat|
                    (#[trigger] unl_fuel(body@, inner@, sm, km, im, f)) is Some;
                lemma_unl_spec_of(
                    body@,
                    inner@,
                    sm,
                    km,
                    im,
                    f1,
                    unl_fuel(body@, inner@, sm, km, im, f1).unwrap(),
                );
                lemma_unl_fuel_count(body@, inner@, sm, km, im, f1, ib@);
            }
            let r = unlambda_(ib, param, ski);
            proof {
                let f1 = choose|f: nat|
                    (#[trigger] unl_fuel(body@, inner@, sm, km, im, f)) is Some;
                lemma_unl_spec_of(
                    body@,
                    inner@,
                    sm,
                    km,
                    im,
                    f1,
                    unl_fuel(body@, inner@, sm, km, im, f1).unwrap(),
                );
                let f2 = choose|f: nat| (#[trigger] unl_fuel(ib@, param@, sm, km, im, f)) is Some;
                lemma_unl_spec_of(
                    ib@,
                    param@,
                    sm,
                    km,
                    im,
                    f2,
                    unl_fuel(ib@, param@, sm, km, im, f2).unwrap(),
                );
                lemma_unl_fuel_mono(body@, inner@, sm, km, im, f1, f1 + f2);
                lemma_unl_fuel_mono(ib@, param@, sm, km, im, f2, f1 + f2);
                assert(unl_fuel(em, param@, sm, km, im, f1 + f2 + 1) == Some(r@));
                lemma_unl_spec_of(em, param@, sm, km, im, f1 + f2 + 1, r@);
            }
            r
        },
    }
}

} // verus!
