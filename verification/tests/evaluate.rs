use ski::context::Context;
use ski::evaluate::{EvalSteps, Stack};
use ski::expr::{self, Expr};
use ski::func;

fn setup() -> Context {
    let i = func::new("i", vec!["x"], expr::v("x"));
    let k = func::new("k", vec!["x", "y"], expr::v("x"));
    let s = func::new(
        "s",
        vec!["x", "y", "z"],
        expr::a(expr::a(expr::v("x"), expr::v("z")), expr::a(expr::v("y"), expr::v("z"))),
    );

    let _true = func::new("TRUE", Vec::new(), expr::a(expr::v("k"), expr::v("i")));
    let _false = func::new("FALSE", Vec::new(), expr::v("k"));

    Context::from_vec(vec![i, k, s, _true, _false])
}

#[test]
fn test_eval_steps_lambda_i() {
    let context = Context::new();

    let i = expr::l("x", expr::v("x"));
    let e = expr::a(i, expr::s("a"));

    let mut steps = EvalSteps::new(e, &context);

    assert_eq!(
        steps.next().map(|e| format!("{:?}", e)),
        Some(expr::s("a")).map(|e| format!("{:?}", e))
    );
    assert_eq!(steps.next().map(|e| format!("{:?}", e)), None);
}

#[test]
fn test_eval_steps_lambda_k_1() {
    let context = Context::new();

    let k = expr::l("x", expr::l("y", expr::v("x")));
    let e = expr::a(k, expr::s("a"));

    let mut steps = EvalSteps::new(e, &context);

    assert_eq!(steps.next(), Some(expr::l("y", expr::s("a"))));
    assert_eq!(steps.next(), None);
}

#[test]
fn test_eval_steps_lambda_k_2() {
    let context = Context::new();

    let k = expr::l("x", expr::l("y", expr::v("x")));
    let e = expr::a(expr::a(k, expr::s("a")), expr::s("b"));

    let mut steps = EvalSteps::new(e, &context);

    assert_eq!(steps.next(), Some(expr::a(expr::l("y", expr::s("a")), expr::s("b"))));
    assert_eq!(steps.next(), Some(expr::s("a")));
    assert_eq!(steps.next(), None);
}

#[test]
fn test_eval_steps_func_true_1() {
    let context = setup();

    let e = expr::v("TRUE");

    let mut steps = EvalSteps::new(e, &context);

    assert_eq!(steps.next(), None);
}

#[test]
fn test_eval_steps_func_true_2() {
    let context = setup();

    let e = expr::a(expr::s("a"), expr::v("TRUE"));

    let mut steps = EvalSteps::new(e, &context);

    assert_eq!(steps.next(), None);
}

#[test]
fn test_eval_steps_func_true_3() {
    let context = setup();

    let e = expr::a(expr::a(expr::v("TRUE"), expr::s("a")), expr::s("b"));

    let mut steps = EvalSteps::new(e, &context);

    assert_eq!(
        steps.next(),
        Some(expr::a(
            expr::a(expr::a(expr::v("k"), expr::v("i")), expr::s("a")),
            expr::s("b")
        ))
    );
    assert_eq!(steps.next(), Some(expr::a(expr::v("i"), expr::s("b"))));
    assert_eq!(steps.next(), Some(expr::s("b")));
    assert_eq!(steps.next(), None);
}

#[test]
fn test_eval_steps_func_i() {
    let context = setup();

    let e = expr::a(expr::v("i"), expr::s("a"));

    let mut steps = EvalSteps::new(e, &context);

    assert_eq!(steps.next(), Some(expr::s("a")));
    assert_eq!(steps.next(), None);
}

#[test]
fn test_eval_steps_func_k_1() {
    let context = setup();

    let e = expr::a(expr::v("k"), expr::s("a"));

    let mut steps = EvalSteps::new(e, &context);

    // k has arity 2 and only one argument stands on the spine
    assert_eq!(steps.next(), None);
}

#[test]
fn test_eval_steps_func_k_2() {
    let context = setup();

    let e = expr::a(expr::a(expr::v("k"), expr::s("a")), expr::s("b"));

    let mut steps = EvalSteps::new(e, &context);

    assert_eq!(steps.next(), Some(expr::s("a")));
    assert_eq!(steps.next(), None);
}

#[test]
fn test_eval_steps_func_s_1() {
    let context = setup();

    let e = expr::a(expr::v("s"), expr::s("a"));

    let mut steps = EvalSteps::new(e, &context);

    // s has arity 3 and only one argument stands on the spine
    assert_eq!(steps.next(), None);
}

#[test]
fn test_eval_steps_func_s_2() {
    let context = setup();

    let e = expr::a(expr::a(expr::v("s"), expr::s("a")), expr::s("b"));

    let mut steps = EvalSteps::new(e, &context);

    // s has arity 3 and only two arguments stand on the spine
    assert_eq!(steps.next(), None);
}

#[test]
fn test_eval_steps_func_s_3() {
    let context = setup();

    let e = expr::a(expr::a(expr::a(expr::v("s"), expr::s("a")), expr::s("b")), expr::s("c"));

    let mut steps = EvalSteps::new(e, &context);

    assert_eq!(
        steps.next(),
        Some(expr::a(
            expr::a(expr::s("a"), expr::s("c")),
            expr::a(expr::s("b"), expr::s("c"))
        ))
    );
    assert_eq!(steps.next(), None);
}

#[test]
fn test_eval_steps_skk() {
    let context = setup();

    let e = expr::a(expr::a(expr::a(expr::v("s"), expr::v("k")), expr::v("k")), expr::s("a"));

    let mut steps = EvalSteps::new(e, &context);

    let mut last = None;
    while let Some(step) = steps.next() {
        last = Some(step);
    }
    assert_eq!(last, Some(expr::s("a")));
}

#[test]
fn test_eval_steps_right_tree_1() {
    let context = setup();

    // `:a``k:b:c
    let e = expr::a(expr::s("a"), expr::a(expr::a(expr::v("k"), expr::s("b")), expr::s("c")));

    let mut steps = EvalSteps::new(e, &context);

    assert_eq!(steps.next(), Some(expr::a(expr::s("a"), expr::s("b"))));
    assert_eq!(steps.next(), None);
}

#[test]
fn test_eval_steps_right_tree_2() {
    let context = setup();

    // ```:a`i:b`i:c
    let e = expr::a(
        expr::a(expr::s("a"), expr::a(expr::v("i"), expr::s("b"))),
        expr::a(expr::v("i"), expr::s("c")),
    );

    let mut steps = EvalSteps::new(e, &context);

    assert_eq!(
        steps.next(),
        Some(expr::a(
            expr::a(expr::s("a"), expr::s("b")),
            expr::a(expr::v("i"), expr::s("c"))
        ))
    );
    assert_eq!(steps.next(), Some(expr::a(expr::a(expr::s("a"), expr::s("b")), expr::s("c"))));
    assert_eq!(steps.next(), None);
}

#[test]
fn test_eval_steps() {
    let context = setup();

    // ```s^x.`x:a^x.`x:b:c
    let e = expr::a(
        expr::a(
            expr::a(expr::v("s"), expr::l("x", expr::a(expr::v("x"), expr::s("a")))),
            expr::l("x", expr::a(expr::v("x"), expr::s("b"))),
        ),
        expr::s("c"),
    );

    let mut steps = EvalSteps::new(e, &context);

    assert_eq!(
        steps.next().map(|e| format!("{:?}", e)),
        // ``^x.`x:a:c`^x.`x:b:c
        Some(expr::a(
            expr::a(expr::l("x", expr::a(expr::v("x"), expr::s("a"))), expr::s("c")),
            expr::a(expr::l("x", expr::a(expr::v("x"), expr::s("b"))), expr::s("c"))
        ))
        .map(|e| format!("{:?}", e))
    );
    assert_eq!(
        steps.next().map(|e| format!("{:?}", e)),
        // ``:c:a`^x.`x:b:c
        Some(expr::a(
            expr::a(expr::s("c"), expr::s("a")),
            expr::a(expr::l("x", expr::a(expr::v("x"), expr::s("b"))), expr::s("c"))
        ))
        .map(|e| format!("{:?}", e))
    );
    assert_eq!(
        steps.next().map(|e| format!("{:?}", e)),
        // ``:c:a`:c:b
        Some(expr::a(
            expr::a(expr::s("c"), expr::s("a")),
            expr::a(expr::s("c"), expr::s("b"))
        ))
        .map(|e| format!("{:?}", e))
    );
    assert_eq!(steps.next(), None);
}

#[test]
fn test_stack_pop() {
    let context = Context::new();
    let mut stack = Stack(vec![
        EvalSteps::new(expr::v("x"), &context),
        EvalSteps::new(expr::v("y"), &context),
    ]);

    assert_eq!(stack.len(), 2);

    stack.push(EvalSteps::new(expr::v("z"), &context));

    assert_eq!(stack.len(), 3);

    assert_eq!(
        stack.pop(2),
        Some(vec![
            EvalSteps::new(expr::v("z"), &context),
            EvalSteps::new(expr::v("y"), &context)
        ])
    );

    assert_eq!(stack.len(), 1);

    assert_eq!(stack.pop(1), Some(vec![EvalSteps::new(expr::v("x"), &context)]));

    assert_eq!(stack.len(), 0);

    assert_eq!(stack.pop(1), None);
}

#[test]
fn test_stack_all() {
    let context = Context::new();
    let stack = Stack(vec![
        EvalSteps::new(expr::v("x"), &context),
        EvalSteps::new(expr::v("y"), &context),
        EvalSteps::new(expr::v("z"), &context),
    ]);
    assert_eq!(
        stack.all(),
        vec![
            EvalSteps::new(expr::v("z"), &context),
            EvalSteps::new(expr::v("y"), &context),
            EvalSteps::new(expr::v("x"), &context),
        ]
    );

    let stack0 = Stack(vec![]);
    assert_eq!(stack0.all(), vec![]);
}

#[test]
fn test_stack_nth() {
    let context = Context::new();
    let stack = Stack(vec![
        EvalSteps::new(expr::v("x"), &context),
        EvalSteps::new(expr::v("y"), &context),
        EvalSteps::new(expr::v("z"), &context),
    ]);

    assert_eq!(stack.nth(0), Some(&EvalSteps::new(expr::v("z"), &context)));
    assert_eq!(stack.nth(1), Some(&EvalSteps::new(expr::v("y"), &context)));
    assert_eq!(stack.nth(2), Some(&EvalSteps::new(expr::v("x"), &context)));
    assert_eq!(stack.nth(3), None);
}

#[test]
fn test_eval_last_1() {
    let context = setup();

    let e = expr::s("a");
    let mut steps = EvalSteps::new(e, &context);

    assert_eq!(steps.eval_last(42), (None, false));
}

#[test]
fn test_eval_last_2() {
    let context = setup();

    let e = expr::a(
        expr::v("i"),
        expr::a(expr::v("i"), expr::a(expr::v("i"), expr::a(expr::v("i"), expr::s("a")))),
    );
    let mut steps = EvalSteps::new(e, &context);

    assert_eq!(steps.eval_last(42), (Some(expr::s("a")), false));
}

#[test]
fn test_eval_last_3() {
    let context = setup();

    let e = expr::a(
        expr::v("i"),
        expr::a(expr::v("i"), expr::a(expr::v("i"), expr::a(expr::v("i"), expr::s("a")))),
    );
    let mut steps = EvalSteps::new(e, &context);

    assert_eq!(steps.eval_last(3), (Some(expr::a(expr::v("i"), expr::s("a"))), true));
}
