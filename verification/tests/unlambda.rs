use rand::RngExt;
use ski::expr::{self, Expr, Identifier};
use ski::unlambda::unlambda;
use std::str;

fn setup() -> [Identifier; 3] {
    let mut rng = rand::rng();

    let mut ids: Vec<Identifier> = Vec::new();
    while ids.len() < 3 {
        let c = [rng.random_range(b'a'..=b'z')];
        let s = str::from_utf8(&c).unwrap();
        let id = Identifier::new(s);
        if !ids.contains(&id) {
            ids.push(id);
        }
    }

    ids.try_into().unwrap()
}

#[test]
fn test_unlambda() {
    let ids = setup();
    let ski: [&Identifier; 3] = ids.iter().collect::<Vec<_>>().try_into().unwrap();
    let s: &Identifier = ski[0];
    let k: &Identifier = ski[1];
    let i: &Identifier = ski[2];
    let (s, k, i) = (
        Expr::Variable(s.clone()),
        Expr::Variable(k.clone()),
        Expr::Variable(i.clone()),
    );

    // x == x
    let source = expr::v("x");
    let expected = expr::v("x");
    assert_eq!(unlambda(source, &ski), expected);

    // :x = :x
    let source = expr::s("x");
    let expected = expr::s("x");
    assert_eq!(unlambda(source, &ski), expected);

    // `xy == `xy
    let source = expr::a(expr::v("x"), expr::v("y"));
    let expected = expr::a(expr::v("x"), expr::v("y"));
    assert_eq!(unlambda(source, &ski), expected);

    // ^x.x == i
    let source = expr::l("x", expr::v("x"));
    let expected = i.clone();
    assert_eq!(unlambda(source, &ski), expected);

    // ^x.:x == `k:x
    let source = expr::l("x", expr::s("x"));
    let expected = expr::a(k.clone(), expr::s("x"));
    assert_eq!(unlambda(source, &ski), expected);

    // ^x.y == `ky
    let source = expr::l("x", expr::v("y"));
    let expected = expr::a(k.clone(), expr::v("y"));
    assert_eq!(unlambda(source, &ski), expected);

    // ^x.:y == `k:y
    let source = expr::l("x", expr::s("y"));
    let expected = expr::a(k.clone(), expr::s("y"));
    assert_eq!(unlambda(source, &ski), expected);

    // ^x.`yx == y
    let source = expr::l("x", expr::a(expr::v("y"), expr::v("x")));
    let expected = expr::v("y");
    assert_eq!(unlambda(source, &ski), expected);

    // ^x.`y:x == `k`y:x
    let source = expr::l("x", expr::a(expr::v("y"), expr::s("x")));
    let expected = expr::a(k.clone(), expr::a(expr::v("y"), expr::s("x")));
    assert_eq!(unlambda(source, &ski), expected);

    // ^x.`xy == ``si`ky
    let source = expr::l("x", expr::a(expr::v("x"), expr::v("y")));
    let expected = expr::a(expr::a(s.clone(), i.clone()), expr::a(k.clone(), expr::v("y")));
    assert_eq!(unlambda(source, &ski), expected);

    // ^x.`:xy == `k`:xy
    let source = expr::l("x", expr::a(expr::s("x"), expr::v("y")));
    let expected = expr::a(k.clone(), expr::a(expr::s("x"), expr::v("y")));
    assert_eq!(unlambda(source, &ski), expected);

    // ^x.`yz == `k`yz
    let source = expr::l("x", expr::a(expr::v("y"), expr::v("z")));
    let expected = expr::a(k.clone(), expr::a(expr::v("y"), expr::v("z")));
    assert_eq!(unlambda(source, &ski), expected);

    // ^x.^y.`xy == i
    let source = expr::l("x", expr::l("y", expr::a(expr::v("x"), expr::v("y"))));
    let expected = i.clone();
    assert_eq!(unlambda(source, &ski), expected);
}

#[test]
fn test_unlambda_nested_true() {
    let ids = [Identifier::new("s"), Identifier::new("k"), Identifier::new("i")];
    let ski: [&Identifier; 3] = [&ids[0], &ids[1], &ids[2]];

    // ^x.^y.x: the inner lambda becomes `kx, and the eta rule collapses
    // ^x.`kx to k itself.
    let source = expr::l("x", expr::l("y", expr::v("x")));
    let result = unlambda(source, &ski);
    assert_eq!(result, expr::v("k"));
}

#[test]
fn test_unlambda_keeps_buried_lambda() {
    // A lambda inside a subterm that never mentions the binder is embedded
    // verbatim under K: the translation is shallow.
    let ids = [Identifier::new("s"), Identifier::new("k"), Identifier::new("i")];
    let ski: [&Identifier; 3] = [&ids[0], &ids[1], &ids[2]];

    let buried = expr::a(expr::v("y"), expr::l("z", expr::v("z")));
    let source = expr::l("x", buried.clone());
    let expected = expr::a(expr::v("k"), buried);
    assert_eq!(unlambda(source, &ski), expected);
}
