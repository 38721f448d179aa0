use knuth_bendix::lang::Term;
use knuth_bendix::parse::Parse;
use knuth_bendix::pat::apply_subst;
use knuth_bendix::unify::unify;

#[test]
fn unify_sound_simple() {
    // applying the unifier to both sides gives the same term
    let l = Term::parse("m(X, f(Y))").unwrap();
    let r = Term::parse("m(g(A), B)").unwrap();
    let s = unify(&l, &r).unwrap();
    assert!(apply_subst(&l, &s) == apply_subst(&r, &s));
}

#[test]
fn occurs_check_rejects() {
    // X cannot be unified with f(X)
    let l = Term::parse("X").unwrap();
    let r = Term::parse("f(X)").unwrap();
    assert!(unify(&l, &r).is_none());
    assert!(unify(&r, &l).is_none());
}

#[test]
fn occurs_check_rejects_deep() {
    let l = Term::parse("m(X, X)").unwrap();
    let r = Term::parse("m(Y, f(Y))").unwrap();
    assert!(unify(&l, &r).is_none());
}

#[test]
fn unify_head_mismatch() {
    let l = Term::parse("f(X)").unwrap();
    let r = Term::parse("g(X2)").unwrap();
    assert!(unify(&l, &r).is_none());
}

#[test]
fn unify_arity_mismatch() {
    let l = Term::parse("f(X, Y)").unwrap();
    let r = Term::parse("f(Z)").unwrap();
    assert!(unify(&l, &r).is_none());
}

#[test]
fn unify_through_shared_structure() {
    let l = Term::parse("m(n(A), A)").unwrap();
    let r = Term::parse("m(X, c)").unwrap();
    let s = unify(&l, &r).unwrap();
    let li = apply_subst(&l, &s);
    let ri = apply_subst(&r, &s);
    let expect = Term::parse("m(n(c), c)").unwrap();
    assert!(li == expect);
    assert!(ri == expect);
}

#[test]
fn unify_same_variable() {
    let l = Term::parse("m(X, X)").unwrap();
    let r = Term::parse("m(Y, Y)").unwrap();
    let s = unify(&l, &r).unwrap();
    assert!(apply_subst(&l, &s) == apply_subst(&r, &s));
}
