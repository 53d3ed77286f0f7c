//! The seed library: the context every session starts from, with the S, K
//! and I combinators, Church booleans, pairs, fixed-point combinators,
//! arithmetic, and the Church numerals zero through ten.

use vstd::prelude::*;
use crate::expr::{self, Expr, ExprModel};
use crate::func::{self, FuncModel};
use crate::context::Context;
use crate::subst::{dec_digits, push_dec_digits};
use vstd::string::StringExecFns;

verus! {

/// A variable, in the model.
pub open spec fn vm(n: Seq<char>) -> ExprModel {
    ExprModel::Variable { id: n }
}

/// An application, in the model.
pub open spec fn am(l: ExprModel, r: ExprModel) -> ExprModel {
    ExprModel::Apply { lhs: Box::new(l), rhs: Box::new(r) }
}

/// An abstraction, in the model.
pub open spec fn lm(p: Seq<char>, b: ExprModel) -> ExprModel {
    ExprModel::Lambda { param: p, body: Box::new(b) }
}

/// `f` applied `n` times to `x`.
pub open spec fn church_iter(n: nat) -> ExprModel
    decreases n,
{
    if n == 0 {
        vm("x"@)
    } else {
        am(vm("f"@), church_iter((n - 1) as nat))
    }
}

/// The Church numeral `n`: `λf.λx.fⁿ x`.
pub open spec fn church_body(n: nat) -> ExprModel {
    lm("f"@, lm("x"@, church_iter(n)))
}

/// The basis combinators: identity, constant, and substitution.
pub open spec fn combinator_defs() -> Seq<FuncModel> {
    seq![
        FuncModel { name: "i"@, params: seq!["x"@], body: vm("x"@) },
        FuncModel { name: "k"@, params: seq!["x"@, "y"@], body: vm("x"@) },
        FuncModel {
            name: "s"@,
            params: seq!["x"@, "y"@, "z"@],
            body: am(am(vm("x"@), vm("z"@)), am(vm("y"@), vm("z"@))),
        },
    ]
}

/// Church booleans and connectives.
pub open spec fn boolean_defs() -> Seq<FuncModel> {
    seq![
        FuncModel { name: "TRUE"@, params: Seq::empty(), body: lm("x"@, lm("y"@, vm("x"@))) },
        FuncModel { name: "FALSE"@, params: Seq::empty(), body: lm("x"@, lm("y"@, vm("y"@))) },
        FuncModel {
            name: "IF"@,
            params: seq!["PRED"@, "THEN"@, "ELSE"@],
            body: am(am(vm("PRED"@), vm("THEN"@)), vm("ELSE"@)),
        },
        FuncModel {
            name: "NOT"@,
            params: seq!["x"@],
            body: am(am(vm("x"@), vm("FALSE"@)), vm("TRUE"@)),
        },
        FuncModel {
            name: "AND"@,
            params: seq!["x"@, "y"@],
            body: am(am(vm("x"@), vm("y"@)), vm("FALSE"@)),
        },
        FuncModel {
            name: "OR"@,
            params: seq!["x"@, "y"@],
            body: am(am(vm("x"@), vm("TRUE"@)), vm("y"@)),
        },
        FuncModel {
            name: "XOR"@,
            params: seq!["x"@, "y"@],
            body: am(am(vm("x"@), am(vm("NOT"@), vm("y"@))), vm("y"@)),
        },
    ]
}

/// Pairs and the empty list.
pub open spec fn pair_defs() -> Seq<FuncModel> {
    seq![
        FuncModel {
            name: "CONS"@,
            params: seq!["x"@, "y"@],
            body: lm("f"@, am(am(vm("f"@), vm("x"@)), vm("y"@))),
        },
        FuncModel { name: "CAR"@, params: seq!["x"@], body: am(vm("x"@), vm("TRUE"@)) },
        FuncModel { name: "CDR"@, params: seq!["x"@], body: am(vm("x"@), vm("FALSE"@)) },
        FuncModel { name: "NIL"@, params: Seq::empty(), body: vm("FALSE"@) },
        FuncModel {
            name: "IS_NIL"@,
            params: seq!["x"@],
            body: am(am(vm("x"@), lm("_"@, vm("FALSE"@))), vm("TRUE"@)),
        },
    ]
}

/// The Y and Z fixed-point combinators.
pub open spec fn fixpoint_defs() -> Seq<FuncModel> {
    seq![
        FuncModel {
            name: "Y"@,
            params: seq!["f"@],
            body: am(
                lm("x"@, am(vm("f"@), am(vm("x"@), vm("x"@)))),
                lm("x"@, am(vm("f"@), am(vm("x"@), vm("x"@)))),
            ),
        },
        FuncModel {
            name: "Z"@,
            params: seq!["f"@],
            body: am(
                lm("x"@, am(vm("f"@), lm("y"@, am(am(vm("x"@), vm("x"@)), vm("y"@))))),
                lm("x"@, am(vm("f"@), lm("y"@, am(am(vm("x"@), vm("x"@)), vm("y"@))))),
            ),
        },
    ]
}

/// Church-numeral arithmetic and comparisons.
pub open spec fn numeric_defs() -> Seq<FuncModel> {
    seq![
        FuncModel {
            name: "IS_ZERO"@,
            params: seq!["n"@],
            body: am(am(vm("n"@), lm("_"@, vm("FALSE"@))), vm("TRUE"@)),
        },
        FuncModel {
            name: "SUCC"@,
            params: seq!["n"@],
            body: lm("f"@, lm("x"@, am(vm("f"@), am(am(vm("n"@), vm("f"@)), vm("x"@))))),
        },
        FuncModel {
            name: "ADD"@,
            params: seq!["m"@, "n"@],
            body: lm(
                "f"@,
                lm("x"@, am(am(vm("m"@), vm("f"@)), am(am(vm("n"@), vm("f"@)), vm("x"@)))),
            ),
        },
        FuncModel {
            name: "MUL"@,
            params: seq!["m"@, "n"@],
            body: lm("f"@, am(vm("m"@), am(vm("n"@), vm("f"@)))),
        },
        FuncModel { name: "POW"@, params: seq!["m"@, "n"@], body: am(vm("n"@), vm("m"@)) },
        FuncModel {
            name: "PRED"@,
            params: seq!["n"@],
            body: lm(
                "f"@,
                lm(
                    "x"@,
                    am(
                        am(
                            am(vm("n"@), lm("g"@, lm("h"@, am(vm("h"@), am(vm("g"@), vm("f"@)))))),
                            lm("u"@, vm("x"@)),
                        ),
                        lm("u"@, vm("u"@)),
                    ),
                ),
            ),
        },
        FuncModel {
            name: "SUB"@,
            params: seq!["m"@, "n"@],
            body: am(am(vm("n"@), vm("PRED"@)), vm("m"@)),
        },
        FuncModel {
            name: "GTE"@,
            params: seq!["m"@, "n"@],
            body: am(vm("IS_ZERO"@), am(am(vm("SUB"@), vm("n"@)), vm("m"@))),
        },
        FuncModel {
            name: "LTE"@,
            params: seq!["m"@, "n"@],
            body: am(vm("IS_ZERO"@), am(am(vm("SUB"@), vm("m"@)), vm("n"@))),
        },
        FuncModel {
            name: "EQ"@,
            params: seq!["m"@, "n"@],
            body: am(
                am(vm("AND"@), am(am(vm("GTE"@), vm("m"@)), vm("n"@))),
                am(am(vm("LTE"@), vm("m"@)), vm("n"@)),
            ),
        },
    ]
}

/// The numerals zero through ten, as aliases for their Church bodies.
pub open spec fn numeral_defs() -> Seq<FuncModel> {
    Seq::new(
        11,
        |n: int| FuncModel { name: dec_digits(n as nat), params: Seq::empty(), body: church_body(n as nat) },
    )
}

/// The whole seed library, in definition order.
pub open spec fn default_defs() -> Seq<FuncModel> {
    combinator_defs() + boolean_defs() + pair_defs() + fixpoint_defs() + numeric_defs()
        + numeral_defs()
}

/// The Church numeral expression for `n`.
fn church(n: u64) -> (r: Expr)
    ensures
        r@ == church_body(n as nat),
{
    let mut acc = expr::v("x");
    let mut j: u64 = 0;
    while j < n
        invariant
            j <= n,
            acc@ == church_iter(j as nat),
        decreases n - j,
    {
        acc = expr::a(expr::v("f"), acc);
        j += 1;
    }
    expr::l("f", expr::l("x", acc))
}

impl Default for Context {
    /// The context a session starts from: the library of combinators and
    /// Church numerals, in the order and with the bodies the surface
    /// language documents.
    fn default() -> (r: Context)
        ensures
            r@ == default_defs(),
    {
        let mut ctx = Context::new();
        push_combinators(&mut ctx);
        push_booleans(&mut ctx);
        push_pairs(&mut ctx);
        push_fixpoints(&mut ctx);
        push_numerics(&mut ctx);
        push_numerals(&mut ctx);
        proof {
            assert(ctx@ =~= default_defs());
        }
        ctx
    }
}

fn push_combinators(ctx: &mut Context)
    ensures
        final(ctx)@ == old(ctx)@ + combinator_defs(),
{
    let f = func::new("i", vec!["x"], expr::v("x"));
    proof {
        assert(f@.params =~= seq!["x"@]);
        assert(f@ == combinator_defs()[0]);
    }
    ctx.push_def(f);
    let f = func::new("k", vec!["x", "y"], expr::v("x"));
    proof {
        assert(f@.params =~= seq!["x"@, "y"@]);
        assert(f@ == combinator_defs()[1]);
    }
    ctx.push_def(f);
    let f = func::new(
        "s",
        vec!["x", "y", "z"],
        expr::a(expr::a(expr::v("x"), expr::v("z")), expr::a(expr::v("y"), expr::v("z"))),
    );
    proof {
        assert(f@.params =~= seq!["x"@, "y"@, "z"@]);
        assert(f@ == combinator_defs()[2]);
    }
    ctx.push_def(f);
    proof {
        assert(final(ctx)@ =~= old(ctx)@ + combinator_defs());
    }
}

fn push_booleans(ctx: &mut Context)
    ensures
        final(ctx)@ == old(ctx)@ + boolean_defs(),
{
    let f = func::new("TRUE", Vec::new(), expr::l("x", expr::l("y", expr::v("x"))));
    proof {
        assert(f@.params =~= Seq::<Seq<char>>::empty());
        assert(f@ == boolean_defs()[0]);
    }
    ctx.push_def(f);
    let f = func::new("FALSE", Vec::new(), expr::l("x", expr::l("y", expr::v("y"))));
    proof {
        assert(f@.params =~= Seq::<Seq<char>>::empty());
        assert(f@ == boolean_defs()[1]);
    }
    ctx.push_def(f);
    let f = func::new(
        "IF",
        vec!["PRED", "THEN", "ELSE"],
        expr::a(expr::a(expr::v("PRED"), expr::v("THEN")), expr::v("ELSE")),
    );
    proof {
        assert(f@.params =~= seq!["PRED"@, "THEN"@, "ELSE"@]);
        assert(f@ == boolean_defs()[2]);
    }
    ctx.push_def(f);
    let f = func::new(
        "NOT",
        vec!["x"],
        expr::a(expr::a(expr::v("x"), expr::v("FALSE")), expr::v("TRUE")),
    );
    proof {
        assert(f@.params =~= seq!["x"@]);
        assert(f@ == boolean_defs()[3]);
    }
    ctx.push_def(f);
    let f = func::new(
        "AND",
        vec!["x", "y"],
        expr::a(expr::a(expr::v("x"), expr::v("y")), expr::v("FALSE")),
    );
    proof {
        assert(f@.params =~= seq!["x"@, "y"@]);
        assert(f@ == boolean_defs()[4]);
    }
    ctx.push_def(f);
    let f = func::new(
        "OR",
        vec!["x", "y"],
        expr::a(expr::a(expr::v("x"), expr::v("TRUE")), expr::v("y")),
    );
    proof {
        assert(f@.params =~= seq!["x"@, "y"@]);
        assert(f@ == boolean_defs()[5]);
    }
    ctx.push_def(f);
    let f = func::new(
        "XOR",
        vec!["x", "y"],
        expr::a(expr::a(expr::v("x"), expr::a(expr::v("NOT"), expr::v("y"))), expr::v("y")),
    );
    proof {
        assert(f@.params =~= seq!["x"@, "y"@]);
        assert(f@ == boolean_defs()[6]);
    }
    ctx.push_def(f);
    proof {
        assert(final(ctx)@ =~= old(ctx)@ + boolean_defs());
    }
}

fn push_pairs(ctx: &mut Context)
    ensures
        final(ctx)@ == old(ctx)@ + pair_defs(),
{
    let f = func::new(
        "CONS",
        vec!["x", "y"],
        expr::l("f", expr::a(expr::a(expr::v("f"), expr::v("x")), expr::v("y"))),
    );
    proof {
        assert(f@.params =~= seq!["x"@, "y"@]);
        assert(f@ == pair_defs()[0]);
    }
    ctx.push_def(f);
    let f = func::new("CAR", vec!["x"], expr::a(expr::v("x"), expr::v("TRUE")));
    proof {
        assert(f@.params =~= seq!["x"@]);
        assert(f@ == pair_defs()[1]);
    }
    ctx.push_def(f);
    let f = func::new("CDR", vec!["x"], expr::a(expr::v("x"), expr::v("FALSE")));
    proof {
        assert(f@.params =~= seq!["x"@]);
        assert(f@ == pair_defs()[2]);
    }
    ctx.push_def(f);
    let f = func::new("NIL", Vec::new(), expr::v("FALSE"));
    proof {
        assert(f@.params =~= Seq::<Seq<char>>::empty());
        assert(f@ == pair_defs()[3]);
    }
    ctx.push_def(f);
    let f = func::new(
        "IS_NIL",
        vec!["x"],
        expr::a(expr::a(expr::v("x"), expr::l("_", expr::v("FALSE"))), expr::v("TRUE")),
    );
    proof {
        assert(f@.params =~= seq!["x"@]);
        assert(f@ == pair_defs()[4]);
    }
    ctx.push_def(f);
    proof {
        assert(final(ctx)@ =~= old(ctx)@ + pair_defs());
    }
}

fn push_fixpoints(ctx: &mut Context)
    ensures
        final(ctx)@ == old(ctx)@ + fixpoint_defs(),
{
    let f = func::new(
        "Y",
        vec!["f"],
        expr::a(
            expr::l("x", expr::a(expr::v("f"), expr::a(expr::v("x"), expr::v("x")))),
            expr::l("x", expr::a(expr::v("f"), expr::a(expr::v("x"), expr::v("x")))),
        ),
    );
    proof {
        assert(f@.params =~= seq!["f"@]);
        assert(f@ == fixpoint_defs()[0]);
    }
    ctx.push_def(f);
    let f = func::new(
        "Z",
        vec!["f"],
        expr::a(
            expr::l(
                "x",
                expr::a(
                    expr::v("f"),
                    expr::l("y", expr::a(expr::a(expr::v("x"), expr::v("x")), expr::v("y"))),
                ),
            ),
            expr::l(
                "x",
                expr::a(
                    expr::v("f"),
                    expr::l("y", expr::a(expr::a(expr::v("x"), expr::v("x")), expr::v("y"))),
                ),
            ),
        ),
    );
    proof {
        assert(f@.params =~= seq!["f"@]);
        assert(f@ == fixpoint_defs()[1]);
    }
    ctx.push_def(f);
    proof {
        assert(final(ctx)@ =~= old(ctx)@ + fixpoint_defs());
    }
}

#[verifier::rlimit(50)]
fn push_numerics(ctx: &mut Context)
    ensures
        final(ctx)@ == old(ctx)@ + numeric_defs(),
{
    let f = func::new(
        "IS_ZERO",
        vec!["n"],
        expr::a(expr::a(expr::v("n"), expr::l("_", expr::v("FALSE"))), expr::v("TRUE")),
    );
    proof {
        assert(f@.params =~= seq!["n"@]);
        assert(f@ == numeric_defs()[0]);
    }
    ctx.push_def(f);
    let f = func::new(
        "SUCC",
        vec!["n"],
        expr::l(
            "f",
            expr::l(
                "x",
                expr::a(expr::v("f"), expr::a(expr::a(expr::v("n"), expr::v("f")), expr::v("x"))),
            ),
        ),
    );
    proof {
        assert(f@.params =~= seq!["n"@]);
        assert(f@ == numeric_defs()[1]);
    }
    ctx.push_def(f);
    let f = func::new(
        "ADD",
        vec!["m", "n"],
        expr::l(
            "f",
            expr::l(
                "x",
                expr::a(
                    expr::a(expr::v("m"), expr::v("f")),
                    expr::a(expr::a(expr::v("n"), expr::v("f")), expr::v("x")),
                ),
            ),
        ),
    );
    proof {
        assert(f@.params =~= seq!["m"@, "n"@]);
        assert(f@ == numeric_defs()[2]);
    }
    ctx.push_def(f);
    let f = func::new(
        "MUL",
        vec!["m", "n"],
        expr::l("f", expr::a(expr::v("m"), expr::a(expr::v("n"), expr::v("f")))),
    );
    proof {
        assert(f@.params =~= seq!["m"@, "n"@]);
        assert(f@ == numeric_defs()[3]);
    }
    ctx.push_def(f);
    let f = func::new("POW", vec!["m", "n"], expr::a(expr::v("n"), expr::v("m")));
    proof {
        assert(f@.params =~= seq!["m"@, "n"@]);
        assert(f@ == numeric_defs()[4]);
    }
    ctx.push_def(f);
    let f = func::new(
        "PRED",
        vec!["n"],
        expr::l(
            "f",
            expr::l(
                "x",
                expr::a(
                    expr::a(
                        expr::a(
                            expr::v("n"),
                            expr::l(
                                "g",
                                expr::l(
                                    "h",
                                    expr::a(expr::v("h"), expr::a(expr::v("g"), expr::v("f"))),
                                ),
                            ),
                        ),
                        expr::l("u", expr::v("x")),
                    ),
                    expr::l("u", expr::v("u")),
                ),
            ),
        ),
    );
    proof {
        assert(f@.params =~= seq!["n"@]);
        assert(f@ == numeric_defs()[5]);
    }
    ctx.push_def(f);
    let f = func::new(
        "SUB",
        vec!["m", "n"],
        expr::a(expr::a(expr::v("n"), expr::v("PRED")), expr::v("m")),
    );
    proof {
        assert(f@.params =~= seq!["m"@, "n"@]);
        assert(f@ == numeric_defs()[6]);
    }
    ctx.push_def(f);
    let f = func::new(
        "GTE",
        vec!["m", "n"],
        expr::a(expr::v("IS_ZERO"), expr::a(expr::a(expr::v("SUB"), expr::v("n")), expr::v("m"))),
    );
    proof {
        assert(f@.params =~= seq!["m"@, "n"@]);
        assert(f@ == numeric_defs()[7]);
    }
    ctx.push_def(f);
    let f = func::new(
        "LTE",
        vec!["m", "n"],
        expr::a(expr::v("IS_ZERO"), expr::a(expr::a(expr::v("SUB"), expr::v("m")), expr::v("n"))),
    );
    proof {
        assert(f@.params =~= seq!["m"@, "n"@]);
        assert(f@ == numeric_defs()[8]);
    }
    ctx.push_def(f);
    let f = func::new(
        "EQ",
        vec!["m", "n"],
        expr::a(
            expr::a(expr::v("AND"), expr::a(expr::a(expr::v("GTE"), expr::v("m")), expr::v("n"))),
            expr::a(expr::a(expr::v("LTE"), expr::v("m")), expr::v("n")),
        ),
    );
    proof {
        assert(f@.params =~= seq!["m"@, "n"@]);
        assert(f@ == numeric_defs()[9]);
    }
    ctx.push_def(f);
    proof {
        assert(final(ctx)@ =~= old(ctx)@ + numeric_defs());
    }
}

fn push_numerals(ctx: &mut Context)
    ensures
        final(ctx)@ == old(ctx)@ + numeral_defs(),
{
    let mut n: u64 = 0;
    while n < 11
        invariant
            n <= 11,
            ctx@ == old(ctx)@ + numeral_defs().take(n as int),
        decreases 11 - n,
    {
        let mut name = String::new();
        push_dec_digits(&mut name, n);
        let body = church(n);
        let f = func::from_parts(crate::expr::Identifier::from_string(name), Vec::new(), body);
        proof {
            assert(f@.params =~= Seq::<Seq<char>>::empty());
            assert(f@ == numeral_defs()[n as int]);
            assert(numeral_defs().take(n + 1) =~= numeral_defs().take(n as int).push(
                numeral_defs()[n as int],
            ));
        }
        ctx.push_def(f);
        proof {
            assert(ctx@ =~= old(ctx)@ + numeral_defs().take(n + 1));
        }
        n += 1;
    }
    proof {
        assert(numeral_defs().take(11) =~= numeral_defs());
    }
}

} // verus!
