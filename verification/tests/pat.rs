use knuth_bendix::lang::Term;
use knuth_bendix::order::get_vars;
use knuth_bendix::parse::Parse;
use knuth_bendix::pat::{apply_subst, literally_similar, pat_match, v_disjoint, Subst};
use knuth_bendix::symbol::gsymb_add;

#[test]
fn test_match1() {
    let pat = Term::parse("f(X)").unwrap();
    let t = Term::parse("f(a)").unwrap();
    let subst = pat_match(&pat, &t).unwrap();
    let a = Term::parse("a").unwrap();

    let mut correct_subst = Subst::default();
    correct_subst.insert(gsymb_add(format!("X")), a);
    assert!(subst == correct_subst);
}

#[test]
fn test_match2() {
    let pat = Term::parse("A").unwrap();
    let t = Term::parse("f(a, f(X, z))").unwrap();
    let subst = pat_match(&pat, &t).unwrap();

    let mut correct_subst = Subst::default();
    correct_subst.insert(gsymb_add(format!("A")), t.clone());
    assert!(subst == correct_subst);
}

#[test]
fn test_pat_match() {
    let p = Term::parse("m(n(A), A)").unwrap();
    let t = Term::parse("m(n(X), m(X, Y))").unwrap();
    assert_eq!(None, pat_match(&p, &t));
}

#[test]
fn match_round_trip() {
    // a successful match, applied to the pattern, gives the target back
    let p = Term::parse("m(n(A), B)").unwrap();
    let t = Term::parse("m(n(f(c)), m(c, d))").unwrap();
    let s = pat_match(&p, &t).unwrap();
    let back = apply_subst(&p, &s);
    assert!(back == t);
}

#[test]
fn match_consistency_on_repeats() {
    let p = Term::parse("m(A, A)").unwrap();
    let good = Term::parse("m(c, c)").unwrap();
    let bad = Term::parse("m(c, d)").unwrap();
    assert!(pat_match(&p, &good).is_some());
    assert!(pat_match(&p, &bad).is_none());
}

#[test]
fn disjoint_vars() {
    let a = Term::parse("f(X, g(Y))").unwrap();
    let b = Term::parse("f(Z, Y)").unwrap();
    let c = Term::parse("h(W)").unwrap();
    assert!(!v_disjoint(&get_vars(&a), &get_vars(&b)));
    assert!(v_disjoint(&get_vars(&a), &get_vars(&c)));
}

#[test]
fn literal_similarity() {
    let a = Term::parse("m(X, n(Y))").unwrap();
    let b = Term::parse("m(A, n(B))").unwrap();
    let c = Term::parse("m(A, n(A))").unwrap();
    assert!(literally_similar(&a, &b));
    assert!(!literally_similar(&a, &c));
    assert!(!literally_similar(&c, &b));
}

#[test]
fn apply_leaves_unbound_vars() {
    let p = Term::parse("f(X)").unwrap();
    let t = Term::parse("f(a)").unwrap();
    let s = pat_match(&p, &t).unwrap();
    let u = Term::parse("g(X, Y)").unwrap();
    let r = apply_subst(&u, &s);
    let expect = Term::parse("g(a, Y)").unwrap();
    assert!(r == expect);
}

#[test]
fn verified_substitution_equality() {
    let p = Term::parse("f(X)").unwrap();
    let t = Term::parse("f(a)").unwrap();
    let s = pat_match(&p, &t).unwrap();
    let mut expect = Subst::default();
    expect.insert(gsymb_add("X".to_string()), Term::parse("a").unwrap());
    assert!(s.same_mapping(&expect));
    let mut other = Subst::default();
    other.insert(gsymb_add("X".to_string()), Term::parse("b").unwrap());
    assert!(!s.same_mapping(&other));
}
