use knuth_bendix::lang::{Equation, Term};
use knuth_bendix::parse::Parse;
use knuth_bendix::pos::{pos_idx, pos_set, positions};
use knuth_bendix::symbol::{gsymb_add, gsymb_get};

#[test]
fn constructors_match_parser() {
    let built = Term::fun("f", vec![Term::var("X"), Term::fun("c", vec![])]);
    let parsed = Term::parse("f(X, c)").unwrap();
    assert!(built == parsed);
}

#[test]
fn symbol_names_round_trip() {
    let id = gsymb_add("hello7".to_string());
    assert_eq!(gsymb_get(id), "hello7".to_string());
}

#[test]
fn positions_enumerate_all_subterms() {
    let t = Term::parse("m(n(X), c)").unwrap();
    let ps = positions(&t);
    // root, n(X), X, c
    assert_eq!(ps.len(), 4);
    assert!(ps[0].is_empty());
    let mut seen_x = false;
    let mut seen_c = false;
    let x = Term::parse("X").unwrap();
    let c = Term::parse("c").unwrap();
    for p in &ps {
        let sub = pos_idx(&t, p);
        if *sub == x {
            seen_x = true;
        }
        if *sub == c {
            seen_c = true;
        }
    }
    assert!(seen_x && seen_c);
}

#[test]
fn replace_at_position() {
    let t = Term::parse("m(n(X), c)").unwrap();
    let d = Term::parse("d").unwrap();
    let r = pos_set(&t, &vec![0, 0], &d);
    assert!(r == Term::parse("m(n(d), c)").unwrap());
    let r2 = pos_set(&t, &Vec::new(), &d);
    assert!(r2 == d);
}

#[test]
fn parser_refuses_garbage() {
    assert!(Term::parse("f(").is_none());
    assert!(Term::parse("f X").is_none());
    assert!(Term::parse("").is_none());
    assert!(Term::parse("f(X,)").is_none());
    assert!(Term::parse("#").is_none());
}

#[test]
fn parses_the_written_term() {
    // upper-case names are variables, bare names constants
    let t = Term::parse("f(X, g(c))").unwrap();
    let built = Term::fun(
        "f",
        vec![Term::var("X"), Term::fun("g", vec![Term::fun("c", vec![])])],
    );
    assert!(t == built);
}

#[test]
fn whitespace_is_insignificant() {
    let a = Term::parse("f(X, g(c))").unwrap();
    let b = Term::parse("f( X ,g( c ) )").unwrap();
    assert!(a == b);
    let e1 = Equation::parse("m(e, X) = X").unwrap();
    let e2 = Equation::parse("  m( e,X )=X ").unwrap();
    assert!(e1 == e2);
}
