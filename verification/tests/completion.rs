use knuth_bendix::lang::{Equation, Term};
use knuth_bendix::parse::Parse;
use knuth_bendix::rename::canonize_vars;
use knuth_bendix::simplify::simplify_converge;
use knuth_bendix::state::State;

fn eq(s: &str) -> Equation {
    Equation::parse(s).unwrap()
}

#[test]
fn completes_single_collapse_rule() {
    // f(X) = X orients to f(X) -> X and converges with no critical pairs
    let mut st = State::new(vec![eq("f(X) = X")]);
    let converged = st.run(5);
    assert!(converged);
    let eqs = st.equations();
    assert_eq!(eqs.len(), 1);
    assert!(eqs[0].oriented);
    let expect = eq("f(X) = X");
    assert!(eqs[0].lhs == Term::parse("f(X)").unwrap());
    assert!(eqs[0].rhs == Term::parse("X").unwrap());
    assert!(expect.lhs == eqs[0].lhs);
    // the rule rewrites under the completed system
    let t = Term::parse("f(f(c))").unwrap();
    let nf = st.canonicalize(t);
    assert!(nf == Term::parse("c").unwrap());
}

#[test]
fn completes_group_fragment() {
    // group-with-inverse axioms plus two constant definitions: completion
    // derives, among its rules, equations equivalent to a = b. Under the
    // fixed name precedence the definitions orient towards the constants,
    // so the equivalence shows up as the contexts of a and b agreeing and
    // as the inverse of b cancelling a.
    let mut st = State::new(vec![
        eq("m(e, X) = X"),
        eq("m(n(X), X) = e"),
        eq("m(m(X, Y), Z) = m(X, m(Y, Z))"),
        eq("a = m(d, e)"),
        eq("b = d"),
    ]);
    let _ = st.run(3);
    let l = st.canonicalize(Term::parse("m(b, c)").unwrap());
    let r = st.canonicalize(Term::parse("m(a, c)").unwrap());
    assert!(l == r);
    let l2 = st.canonicalize(Term::parse("m(n(b), a)").unwrap());
    let r2 = st.canonicalize(Term::parse("e").unwrap());
    assert!(l2 == r2);
}

#[test]
fn critical_pair_joins_two_constants() {
    // a critical pair between the collapse rule and a definition derives
    // c = a outright, and the two constants then share one normal form
    let mut st = State::new(vec![
        eq("h(f(X)) = X"),
        eq("f(c) = d"),
        eq("a = h(d)"),
    ]);
    let converged = st.run(6);
    assert!(converged);
    let nc = st.canonicalize(Term::parse("c").unwrap());
    let na = st.canonicalize(Term::parse("a").unwrap());
    assert!(nc == na);
}

#[test]
fn deletion_drops_trivial_equations() {
    // an equation whose sides meet after simplification is absent afterwards
    let mut st = State::new(vec![eq("f(X) = X"), eq("f(c) = c")]);
    let _ = st.run(3);
    for e in st.equations() {
        assert!(!(e.lhs == e.rhs));
    }
}

#[test]
fn canonicalization_merges_renamed_equations() {
    // two equations that differ only by a consistent renaming canonicalize
    // to the identical equation and are deduplicated
    let e1 = eq("m(X, n(Y)) = Y");
    let e2 = eq("m(U, n(W)) = W");
    let c1 = canonize_vars(e1);
    let c2 = canonize_vars(e2);
    assert!(c1 == c2);
    let mut st = State::new(vec![eq("m(X, n(Y)) = Y"), eq("m(U, n(W)) = W")]);
    let converged = st.run(5);
    assert!(converged);
    assert_eq!(st.equations().len(), 1);
}

#[test]
fn converge_is_idempotent() {
    // reducing to a normal form twice equals reducing once
    let mut st = State::new(vec![eq("f(X) = X")]);
    let _ = st.run(3);
    let start = eq("g(f(c)) = f(d)");
    let once = simplify_converge(start, &st);
    let again = simplify_converge(
        Equation { lhs: once.lhs.clone(), rhs: once.rhs.clone(), oriented: once.oriented },
        &st,
    );
    assert!(once == again);
}

#[test]
fn incomparable_equation_stays_unoriented() {
    let mut st = State::new(vec![eq("m(X, Y) = m(Y, X)")]);
    let converged = st.run(4);
    assert!(converged);
    let eqs = st.equations();
    assert_eq!(eqs.len(), 1);
    assert!(!eqs[0].oriented);
}
