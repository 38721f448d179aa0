use knuth_bendix::lang::{Equation, Term};
use knuth_bendix::parse::Parse;
use knuth_bendix::simplify::{encompassment_gte, ruleorder_gt, simplify_single};

fn rule(s: &str) -> Equation {
    let e = Equation::parse(s).unwrap();
    Equation { lhs: e.lhs, rhs: e.rhs, oriented: true }
}

#[test]
fn single_rule_rewrites_every_position() {
    // one top-down pass: the root first, then the children of whatever now
    // stands there; a replacement is not itself retried
    let r = rule("f(X) = X");
    let t = Term::parse("m(f(c), f(f(d)))").unwrap();
    let out = simplify_single(t, &r);
    assert!(out == Term::parse("m(c, f(d))").unwrap());
    let t2 = Term::parse("f(f(a))").unwrap();
    let out2 = simplify_single(t2, &r);
    assert!(out2 == Term::parse("f(a)").unwrap());
}

#[test]
fn encompassment_on_repeated_subterm() {
    // the rule pattern is applicable inside a term that repeats the redex
    let t = Term::parse("m(f(c), f(c))").unwrap();
    let p = Term::parse("f(X)").unwrap();
    assert!(encompassment_gte(&t, &p));
    let q = Term::parse("g(X)").unwrap();
    assert!(!encompassment_gte(&t, &q));
}

#[test]
fn rule_precedence_by_encompassment_and_similarity() {
    // an encompassed left side may be rewritten
    let se = rule("m(f(c), f(c)) = c");
    let le = rule("f(X) = X");
    assert!(ruleorder_gt(&se, &le));
    // no encompassment, no precedence
    let se2 = rule("g(c) = c");
    assert!(!ruleorder_gt(&se2, &le));
    // literally similar left sides fall back to comparing right sides
    let se3 = rule("f(Y) = d");
    let le3 = rule("f(X) = c");
    assert!(ruleorder_gt(&se3, &le3));
    assert!(!ruleorder_gt(&le3, &se3));
}
