use ski::apply::{apply, arity, CalcError};
use ski::context::Context;
use ski::evaluate::EvalSteps;
use ski::expr::{self, Identifier};
use ski::func;
use ski::subst::{free_vars, subst};

fn seeded() -> Context {
    Context::default()
}

#[test]
fn test_default_context_listing() {
    let ctx = seeded();
    assert_eq!(ctx.len(), 38);
    assert_eq!(ctx.arity(&Identifier::new("i")), Some(1));
    assert_eq!(ctx.arity(&Identifier::new("k")), Some(2));
    assert_eq!(ctx.arity(&Identifier::new("s")), Some(3));
    assert_eq!(ctx.arity(&Identifier::new("TRUE")), Some(0));
    assert_eq!(ctx.arity(&Identifier::new("ADD")), Some(2));
    assert_eq!(ctx.arity(&Identifier::new("10")), Some(0));
    assert_eq!(ctx.arity(&Identifier::new("missing")), None);

    let zero = ctx.get(&Identifier::new("0")).unwrap();
    assert_eq!(*zero.body(), expr::l("f", expr::l("x", expr::v("x"))));
    let two = ctx.get(&Identifier::new("2")).unwrap();
    assert_eq!(
        *two.body(),
        expr::l("f", expr::l("x", expr::a(expr::v("f"), expr::a(expr::v("f"), expr::v("x")))))
    );
}

#[test]
fn test_if_true_selects_first() {
    let ctx = seeded();
    // IF TRUE :a :b reduces to :a
    let e = expr::a(
        expr::a(expr::a(expr::v("IF"), expr::v("TRUE")), expr::s("a")),
        expr::s("b"),
    );
    let mut steps = EvalSteps::new(e, &ctx);
    assert_eq!(steps.eval_last(100), (Some(expr::s("a")), false));
}

#[test]
fn test_succ_zero_applies_once() {
    let ctx = seeded();
    // SUCC 0 :f :x reduces to `:f :x
    let e = expr::a(
        expr::a(expr::a(expr::v("SUCC"), expr::v("0")), expr::s("f")),
        expr::s("x"),
    );
    let mut steps = EvalSteps::new(e, &ctx);
    assert_eq!(
        steps.eval_last(100),
        (Some(expr::a(expr::s("f"), expr::s("x"))), false)
    );
}

#[test]
fn test_symbols_only_term_is_normal() {
    let ctx = seeded();
    // a term of symbols and applications alone never reduces
    let e = expr::a(expr::a(expr::s("a"), expr::s("b")), expr::s("c"));
    let mut steps = EvalSteps::new(e.clone(), &ctx);
    assert_eq!(steps.next(), None);
    let mut steps = EvalSteps::new(e, &ctx);
    assert_eq!(steps.eval_last(10), (None, false));
}

#[test]
fn test_subst_self_is_identity() {
    let x = Identifier::new("x");
    let e = expr::l("y", expr::a(expr::v("x"), expr::l("x", expr::v("x"))));
    assert_eq!(subst(&e, &x, &expr::v("x")), e);
}

#[test]
fn test_subst_avoids_capture() {
    // (λy.x)[x := y] renames the binder before substituting
    let x = Identifier::new("x");
    let e = expr::l("y", expr::v("x"));
    assert_eq!(subst(&e, &x, &expr::v("y")), expr::l("y0", expr::v("y")));
}

#[test]
fn test_free_vars() {
    let e = expr::l("x", expr::a(expr::v("x"), expr::a(expr::v("y"), expr::s("z"))));
    let fv = free_vars(&e);
    assert!(fv.contains(&Identifier::new("y")));
    assert!(!fv.contains(&Identifier::new("x")));
    // symbols live in their own namespace and are never free variables
    assert!(!fv.contains(&Identifier::new("z")));
}

#[test]
fn test_arity_of_heads() {
    let ctx = seeded();
    assert_eq!(arity(&ctx, &expr::l("x", expr::v("x"))), Some(1));
    assert_eq!(arity(&ctx, &expr::v("k")), Some(2));
    assert_eq!(arity(&ctx, &expr::v("NIL")), Some(0));
    assert_eq!(arity(&ctx, &expr::v("loose")), None);
    assert_eq!(arity(&ctx, &expr::s("a")), None);
    assert_eq!(arity(&ctx, &expr::a(expr::v("k"), expr::s("a"))), None);
}

#[test]
fn test_apply_checks_arity() {
    let ctx = seeded();

    // a symbol is no redex at all
    let mut e = expr::s("a");
    assert_eq!(apply(&ctx, &mut e, vec![]), Err(CalcError::InternalInvariantViolation));
    assert_eq!(e, expr::s("a"));

    // k wants two arguments, not one
    let mut e = expr::v("k");
    assert_eq!(
        apply(&ctx, &mut e, vec![expr::s("a")]),
        Err(CalcError::InternalInvariantViolation)
    );
    assert_eq!(e, expr::v("k"));

    // with both, the head rewrites to the substituted body
    let mut e = expr::v("k");
    assert_eq!(apply(&ctx, &mut e, vec![expr::s("a"), expr::s("b")]), Ok(()));
    assert_eq!(e, expr::s("a"));

    // a lambda head takes exactly one argument, a beta step
    let mut e = expr::l("x", expr::a(expr::v("x"), expr::v("x")));
    assert_eq!(apply(&ctx, &mut e, vec![expr::s("a")]), Ok(()));
    assert_eq!(e, expr::a(expr::s("a"), expr::s("a")));
}

#[test]
fn test_context_def_del() {
    let mut ctx = Context::new();
    ctx.def(func::new("f", vec!["x"], expr::v("x")));
    ctx.def(func::new("g", Vec::new(), expr::s("a")));
    assert_eq!(ctx.len(), 2);
    assert_eq!(ctx.arity(&Identifier::new("f")), Some(1));

    // replacing by name keeps a single entry
    ctx.def(func::new("f", vec!["x", "y"], expr::v("y")));
    assert_eq!(ctx.len(), 2);
    assert_eq!(ctx.arity(&Identifier::new("f")), Some(2));

    ctx.del(&Identifier::new("f"));
    assert_eq!(ctx.len(), 1);
    assert_eq!(ctx.get(&Identifier::new("f")).map(|f| f.arity()), None);
    assert_eq!(ctx.get(&Identifier::new("g")).map(|f| f.arity()), Some(0));
}

#[test]
fn test_inner_redex_fires_under_right_tree() {
    let ctx = seeded();
    // :a (k :b :c) steps to :a :b: the inner k fires once the head is stuck
    let e = expr::a(
        expr::s("a"),
        expr::a(expr::a(expr::v("k"), expr::s("b")), expr::s("c")),
    );
    let mut steps = EvalSteps::new(e, &ctx);
    assert_eq!(steps.next(), Some(expr::a(expr::s("a"), expr::s("b"))));
    assert_eq!(steps.next(), None);
}
