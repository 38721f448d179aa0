use knuth_bendix::lang::Term;
use knuth_bendix::order::{kbo_cmp, term_weight, Comparison};
use knuth_bendix::parse::Parse;

fn kbo_assert(x: &str) {
    for op in ["~", "<=", ">=", "==", "<", ">"] {
        if x.contains(op) {
            let parts: Vec<&str> = x.split(op).collect();
            assert!(parts.len() == 2);
            let l = Term::parse(parts[0]).unwrap();
            let r = Term::parse(parts[1]).unwrap();
            let c = kbo_cmp(&l, &r);
            match op {
                "~" => assert!(c == Comparison::Inc),
                "<=" => assert!(c == Comparison::Lt || c == Comparison::Eq),
                ">=" => assert!(c == Comparison::Gt || c == Comparison::Eq),
                "==" => {
                    assert!(l == r);
                    assert!(c == Comparison::Eq);
                },
                "<" => assert!(c == Comparison::Lt),
                ">" => assert!(c == Comparison::Gt),
                _ => unreachable!(),
            }
        }
    }
}

#[test]
fn refl() {
    kbo_assert("c == c");
    kbo_assert("X == X");
    kbo_assert("f(X) == f(X)");
    kbo_assert("f(X, Y) == f(X, Y)");
}

#[test]
fn incompat_vars() {
    kbo_assert("f(X) ~ Y");
    kbo_assert("X ~ Y");
    kbo_assert("f(c) ~ X");
    kbo_assert("c ~ X");
}

#[test]
fn weight_chk() {
    kbo_assert("f(X) > X");
    kbo_assert("f(c) > c");
    kbo_assert("f(X) > c");
}

#[test]
fn lex_chk() {
    kbo_assert("c < d");
    kbo_assert("c < c2");
    kbo_assert("c2 < d");
    kbo_assert("f(X, Y) ~ f(Y, X)");
    kbo_assert("g(X) > f(a)");
}

#[test]
fn assoc() {
    kbo_assert("f(f(X, Y), Z) > f(X, f(Y, Z))");
}

#[test]
fn order_refl() {
    kbo_assert("c == c");
    kbo_assert("X == X");
    kbo_assert("f(X) == f(X)");
    kbo_assert("f(X, Y) == f(X, Y)");
}

#[test]
fn order_incompat_vars() {
    kbo_assert("f(X) ~ Y");
    kbo_assert("X ~ Y");
    kbo_assert("f(c) ~ X");
    kbo_assert("c ~ X");
}

#[test]
fn order_weight_chk() {
    kbo_assert("f(X) > X");
    kbo_assert("f(c) > c");
    kbo_assert("f(X) > c");
}

#[test]
fn order_lex_chk() {
    kbo_assert("c < d");
    kbo_assert("c < c2");
    kbo_assert("c2 < d");
    kbo_assert("f(X, Y) ~ f(Y, X)");
    kbo_assert("g(X) > f(a)");
}

#[test]
fn order_assoc() {
    kbo_assert("f(f(X, Y), Z) > f(X, f(Y, Z))");
}

#[test]
fn weight_counts_every_node() {
    let t = Term::parse("m(m(X, Y), Z)").unwrap();
    assert_eq!(term_weight(&t), 5);
    let c = Term::parse("c").unwrap();
    assert_eq!(term_weight(&c), 1);
}

#[test]
fn flip_between_directions() {
    let l = Term::parse("f(X)").unwrap();
    let r = Term::parse("X").unwrap();
    assert!(kbo_cmp(&l, &r) == Comparison::Gt);
    assert!(kbo_cmp(&r, &l) == Comparison::Lt);
}

#[test]
fn strict_partial_order_scenarios() {
    // never both ways
    let c = Term::parse("c").unwrap();
    let c2 = Term::parse("c2").unwrap();
    let d = Term::parse("d").unwrap();
    assert!(kbo_cmp(&c, &c2) == Comparison::Lt);
    assert!(kbo_cmp(&c2, &c) == Comparison::Gt);
    // transitivity along c < c2 < d
    assert!(kbo_cmp(&c2, &d) == Comparison::Lt);
    assert!(kbo_cmp(&c, &d) == Comparison::Lt);
    // incomparability is symmetric
    let x = Term::parse("X").unwrap();
    let y = Term::parse("Y").unwrap();
    assert!(kbo_cmp(&x, &y) == Comparison::Inc);
    assert!(kbo_cmp(&y, &x) == Comparison::Inc);
}

#[test]
fn children_below_parents() {
    // the simplification-order property on immediate children
    let parent = Term::parse("m(f(X), g(Y, c))").unwrap();
    let c1 = Term::parse("f(X)").unwrap();
    let c2 = Term::parse("g(Y, c)").unwrap();
    assert!(kbo_cmp(&parent, &c1) == Comparison::Gt);
    assert!(kbo_cmp(&parent, &c2) == Comparison::Gt);
}
