use vstd::prelude::*;
use crate::lang::{count_var, lemma_terms_view, terms_view, Equation, EquationV, Term, TermV};
use crate::order::{kbo, kbo_cmp, Comparison};
use crate::pat::{apply, apply_subst, lit_sim, literally_similar, pat_match, pm, Subst};
use crate::state::State;

verus! {

broadcast use vstd::seq::group_seq_axioms, vstd::std_specs::vec::group_vec_axioms;

/// One root-level rewrite attempt: if the rule's left side matches `t`, the
/// matched instance of its right side replaces it.
pub open spec fn rewrite_root(t: TermV, l: TermV, r: TermV) -> TermV {
    match pm(l, t, Map::<Seq<char>, TermV>::empty()) {
        Some(m) => apply(m, r),
        None => t,
    }
}

/// A rule the order has strictly oriented, as the rewriting engine needs
/// it: the right side is dominated in every variable and no heavier.
pub open spec fn rule_measured(l: TermV, r: TermV) -> bool {
    crate::lang::weight(r) <= crate::lang::weight(l) && forall|v: Seq<char>| #[trigger]
        count_var(r, v) <= count_var(l, v)
}

/// One top-down pass of a single rule, depth bounded by `fuel`: one attempt
/// at the root, then the children of the possibly-replaced term.
pub open spec fn ss_at(t: TermV, l: TermV, r: TermV, fuel: nat) -> TermV
    decreases fuel, 0int,
{
    let t2 = rewrite_root(t, l, r);
    if fuel == 0 {
        t2
    } else {
        match t2 {
            TermV::Var(_) => t2,
            TermV::Fun(f, cs) => TermV::Fun(f, ss_at_seq(cs, l, r, (fuel - 1) as nat)),
        }
    }
}

/// Companion of `ss_at` for child sequences.
pub open spec fn ss_at_seq(ts: Seq<TermV>, l: TermV, r: TermV, fuel: nat) -> Seq<TermV>
    decreases fuel, ts.len() + 1,
{
    if ts.len() == 0 {
        Seq::empty()
    } else {
        seq![ss_at(ts[0], l, r, fuel)] + ss_at_seq(ts.drop_first(), l, r, fuel)
    }
}

/// One top-down pass of a single rule over every subterm: the root first,
/// then the children of the possibly-replaced term. For a rule the order
/// strictly decreases, the term's weight bounds the needed depth, so the
/// weight serves as the fuel.
pub open spec fn ss(t: TermV, l: TermV, r: TermV) -> TermV {
    ss_at(t, l, r, crate::lang::weight(t))
}

/// `ss_at_seq` maps the sequence pointwise.
pub broadcast proof fn lemma_ss_at_seq(ts: Seq<TermV>, l: TermV, r: TermV, fuel: nat)
    ensures
        (#[trigger] ss_at_seq(ts, l, r, fuel)).len() == ts.len(),
        forall|i: int| 0 <= i < ts.len() ==> ss_at_seq(ts, l, r, fuel)[i] == ss_at(ts[i], l, r, fuel),
    decreases ts.len(),
{
    if ts.len() > 0 {
        lemma_ss_at_seq(ts.drop_first(), l, r, fuel);
    }
}

/// Rewriting the root with a measured rule never adds weight.
pub proof fn lemma_rewrite_root_weight(t: TermV, l: TermV, r: TermV)
    requires
        rule_measured(l, r),
    ensures
        crate::lang::weight(rewrite_root(t, l, r)) <= crate::lang::weight(t),
{
    let m0 = Map::<Seq<char>, TermV>::empty();
    if pm(l, t, m0) is Some {
        let m = pm(l, t, m0).unwrap();
        crate::pat::lemma_pm_roundtrip(l, t, m0);
        crate::pat::lemma_weight_instance(m, l, r);
    }
}

/// Any fuel at least the term's weight gives the same pass: for a measured
/// rule the recursion bottoms out before the weight runs down.
pub proof fn lemma_ss_fuel(t: TermV, l: TermV, r: TermV, f1: nat, f2: nat)
    requires
        rule_measured(l, r),
        f1 >= crate::lang::weight(t),
        f2 >= crate::lang::weight(t),
    ensures
        ss_at(t, l, r, f1) == ss_at(t, l, r, f2),
    decreases f1 + f2, 0int,
{
    broadcast use crate::lang::lemma_weight_pos;

    lemma_rewrite_root_weight(t, l, r);
    let t2 = rewrite_root(t, l, r);
    match t2 {
        TermV::Var(_) => {},
        TermV::Fun(_, cs) => {
            assert(crate::lang::weight(t2) == 1 + crate::lang::weight_seq(cs));
            lemma_ss_fuel_seq(cs, l, r, (f1 - 1) as nat, (f2 - 1) as nat);
        },
    }
}

/// Companion of `lemma_ss_fuel` for child sequences.
proof fn lemma_ss_fuel_seq(ts: Seq<TermV>, l: TermV, r: TermV, f1: nat, f2: nat)
    requires
        rule_measured(l, r),
        f1 >= crate::lang::weight_seq(ts),
        f2 >= crate::lang::weight_seq(ts),
    ensures
        ss_at_seq(ts, l, r, f1) == ss_at_seq(ts, l, r, f2),
    decreases f1 + f2, ts.len() + 1,
{
    broadcast use crate::lang::lemma_weight_pos;

    if ts.len() > 0 {
        assert(crate::lang::weight_seq(ts) == crate::lang::weight(ts[0])
            + crate::lang::weight_seq(ts.drop_first()));
        lemma_ss_fuel(ts[0], l, r, f1, f2);
        lemma_ss_fuel_seq(ts.drop_first(), l, r, f1, f2);
    }
}

/// Applies one oriented rule to a term, rewriting top-down: one attempt at
/// the root, then every child of the possibly-replaced term, recursively.
/// The order's strict decrease is what bounds the descent.
#[verifier::loop_isolation(false)]
pub fn simplify_single(term: Term, eq: &Equation) -> (res: Term)
    requires
        eq@.oriented,
        kbo(eq@.lhs, eq@.rhs) == Comparison::Gt,
    ensures
        res@ == ss(term@, eq@.lhs, eq@.rhs),
    decreases crate::lang::weight(term@),
{
    proof {
        crate::order::lemma_kbo_gt_parts(eq@.lhs, eq@.rhs);
        broadcast use crate::lang::lemma_weight_pos;

    }
    let ghost t0 = term@;
    let ghost fuel0 = crate::lang::weight(t0);
    // the root first
    let t1 = match pat_match(&eq.lhs, &term) {
        Some(s) => {
            proof {
                crate::pat::lemma_weight_instance(s@, eq@.lhs, eq@.rhs);
            }
            apply_subst(&eq.rhs, &s)
        },
        None => term,
    };
    proof {
        assert(t1@ == rewrite_root(t0, eq@.lhs, eq@.rhs));
        assert(crate::lang::weight(t1@) <= fuel0);
    }
    // then the children of what now stands there
    match t1 {
        Term::Var(v) => {
            let res = Term::Var(v);
            proof {
                assert(res@ == ss_at(t0, eq@.lhs, eq@.rhs, fuel0));
            }
            res
        },
        Term::Fun(f, mut args) => {
            proof {
                lemma_terms_view(args@);
                broadcast use lemma_ss_at_seq;

            }
            let ghost tv = terms_view(args@);
            proof {
                assert(crate::lang::weight(t1@) == 1 + crate::lang::weight_seq(tv));
            }
            let n = args.len();
            let mut k: usize = 0;
            while k < n
                invariant
                    k <= n,
                    args@.len() == n as int,
                    forall|i: int| k <= i < n ==> (#[trigger] args@[i])@ == tv[i],
                    forall|i: int|
                        0 <= i < k ==> (#[trigger] args@[i])@ == ss_at(
                            tv[i],
                            eq@.lhs,
                            eq@.rhs,
                            (fuel0 - 1) as nat,
                        ),
                decreases n - k,
            {
                let mut c = Term::Var(crate::symbol::gsymb_add(String::new()));
                args.set_and_swap(k, &mut c);
                proof {
                    assert(c@ == tv[k as int]);
                    crate::lang::lemma_weight_seq_elem(tv, k as int);
                    assert(crate::lang::weight(c@) < fuel0);
                }
                let c2 = simplify_single(c, eq);
                proof {
                    lemma_ss_fuel(
                        tv[k as int],
                        eq@.lhs,
                        eq@.rhs,
                        crate::lang::weight(tv[k as int]),
                        (fuel0 - 1) as nat,
                    );
                }
                args.set(k, c2);
                k = k + 1;
            }
            let r = Term::Fun(f, args);
            proof {
                lemma_terms_view(args@);
                assert(terms_view(args@) =~= ss_at_seq(tv, eq@.lhs, eq@.rhs, (fuel0 - 1) as nat));
                assert(r@ == ss_at(t0, eq@.lhs, eq@.rhs, fuel0));
            }
            r
        },
    }
}

/// Whether some subterm of `t` is an instance of the pattern `p`: the
/// encompassment test that lets one rule rewrite below another rule's left
/// side.
pub open spec fn encompass(t: TermV, p: TermV) -> bool
    decreases t,
{
    pm(p, t, Map::<Seq<char>, TermV>::empty()) is Some || (match t {
        TermV::Var(_) => false,
        TermV::Fun(_, cs) => encompass_seq(cs, p),
    })
}

/// Companion of `encompass` for child sequences.
pub open spec fn encompass_seq(ts: Seq<TermV>, p: TermV) -> bool
    decreases ts,
{
    if ts.len() == 0 {
        false
    } else {
        encompass(ts[0], p) || encompass_seq(ts.drop_first(), p)
    }
}

/// Decides whether a rule with pattern `p` is applicable somewhere in `t`.
#[verifier::loop_isolation(false)]
pub fn encompassment_gte(t: &Term, p: &Term) -> (r: bool)
    ensures
        r == encompass(t@, p@),
    decreases t,
{
    if pat_match(p, t).is_some() {
        return true;
    }
    match t {
        Term::Var(_) => false,
        Term::Fun(_, args) => {
            proof {
                lemma_terms_view(args@);
            }
            let ghost tv = terms_view(args@);
            let n = args.len();
            let mut k: usize = 0;
            proof {
                assert(tv.skip(0) =~= tv);
            }
            while k < n
                invariant
                    k <= n,
                    encompass_seq(tv, p@) == encompass_seq(tv.skip(k as int), p@),
                decreases n - k,
            {
                proof {
                    assert(tv.skip(k as int)[0] == tv[k as int]);
                    assert(tv.skip(k as int).drop_first() =~= tv.skip(k as int + 1));
                }
                if encompassment_gte(&args[k], p) {
                    return true;
                }
                k = k + 1;
            }
            proof {
                assert(tv.skip(n as int) =~= Seq::<TermV>::empty());
            }
            false
        },
    }
}

/// Rule precedence: whether the rule `s -> t` may rewrite the left side of
/// the rule `l -> r`. It may when its pattern is properly applicable inside
/// `l`, or when the two left sides are mere renamings of each other and `t`
/// strictly improves on `r` under the term order.
pub open spec fn ruleorder_gt_spec(se: EquationV, le: EquationV) -> bool {
    if lit_sim(se.lhs, le.lhs) {
        kbo(se.rhs, le.rhs) == Comparison::Gt
    } else {
        encompass(se.lhs, le.lhs)
    }
}

/// Decides the rule precedence.
pub fn ruleorder_gt(se: &Equation, le: &Equation) -> (r: bool)
    ensures
        r == ruleorder_gt_spec(se@, le@),
{
    if literally_similar(&se.lhs, &le.lhs) {
        let c = kbo_cmp(&se.rhs, &le.rhs);
        c == Comparison::Gt
    } else {
        encompassment_gte(&se.lhs, &le.lhs)
    }
}

/// One simplification step of an equation by a single rule: the right side
/// is always rewritten; the left side only when the equation is unoriented
/// or the rule takes precedence; orientation survives only if the left side
/// stood still.
pub open spec fn simp_step(e: EquationV, ru: EquationV) -> EquationV {
    if !ru.oriented {
        e
    } else {
        let l2 = if !e.oriented || ruleorder_gt_spec(e, ru) {
            ss(e.lhs, ru.lhs, ru.rhs)
        } else {
            e.lhs
        };
        let r2 = ss(e.rhs, ru.lhs, ru.rhs);
        EquationV { lhs: l2, rhs: r2, oriented: e.oriented && l2 == e.lhs }
    }
}

/// One full pass: every oriented rule of the list, in order, applied once.
pub open spec fn simp_pass(e: EquationV, rules: Seq<EquationV>) -> EquationV
    decreases rules.len(),
{
    if rules.len() == 0 {
        e
    } else {
        simp_pass(simp_step(e, rules[0]), rules.drop_first())
    }
}

/// `n` passes in a row.
pub open spec fn simp_iter(e: EquationV, rules: Seq<EquationV>, n: nat) -> EquationV
    decreases n,
{
    if n == 0 {
        e
    } else {
        simp_iter(simp_pass(e, rules), rules, (n - 1) as nat)
    }
}

/// Applies every oriented rule of the state to the equation once, in order.
/// The orientation invariant is what lets each rule's pass run to the
/// bottom of the term.
#[verifier::loop_isolation(false)]
pub fn simplify(rw: Equation, state: &State) -> (res: Equation)
    requires
        state.wf(),
    ensures
        res@ == simp_pass(rw@, state@),
{
    let ghost rw0 = rw@;
    let rules = state.equations();
    let n = rules.len();
    let Equation { mut lhs, mut rhs, oriented } = rw;
    let mut ori = oriented;
    let mut k: usize = 0;
    proof {
        assert(state@.skip(0) =~= state@);
    }
    while k < n
        invariant
            k <= n,
            simp_pass(
                (EquationV { lhs: lhs@, rhs: rhs@, oriented: ori }),
                state@.skip(k as int),
            ) == simp_pass(rw0, state@),
        decreases n - k,
    {
        proof {
            assert(state@.skip(k as int)[0] == state@[k as int]);
            assert(state@.skip(k as int).drop_first() =~= state@.skip(k as int + 1));
        }
        let ru = &rules[k];
        proof {
            assert(ru@ == state@[k as int]);
        }
        if ru.oriented {
            if !ori {
                lhs = simplify_single(lhs, ru);
            } else if ruleorder_gt_parts(&lhs, &rhs, ru) {
                let l2 = simplify_single(lhs.clone(), ru);
                let same = crate::lang::term_eq(&l2, &lhs);
                lhs = l2;
                ori = ori && same;
            }
            rhs = simplify_single(rhs, ru);
        }
        k = k + 1;
    }
    proof {
        assert(state@.skip(n as int) =~= Seq::<EquationV>::empty());
    }
    Equation { lhs, rhs, oriented: ori }
}

/// The rule precedence, on an equation held as parts.
fn ruleorder_gt_parts(lhs: &Term, rhs: &Term, le: &Equation) -> (r: bool)
    ensures
        r == ruleorder_gt_spec((EquationV { lhs: lhs@, rhs: rhs@, oriented: true }), le@),
{
    if literally_similar(lhs, &le.lhs) {
        let c = kbo_cmp(rhs, &le.rhs);
        c == Comparison::Gt
    } else {
        encompassment_gte(lhs, &le.lhs)
    }
}

/// The most passes `simplify_converge` will run before giving the current
/// equation back; a fixpoint, when the rule set is terminating, is reached
/// long before.
pub const PASS_GUARD: u64 = 0xffff_ffff_ffff_ffff;

/// Reduces an equation to a normal form under the state's oriented rules:
/// passes repeat until one changes nothing. The result is the first
/// fixpoint of the pass, reached after some number of passes; only a rule
/// set that does not terminate could exhaust the guard instead.
#[verifier::loop_isolation(false)]
pub fn simplify_converge(eq: Equation, state: &State) -> (res: Equation)
    requires
        state.wf(),
    ensures
        exists|n: nat|
            res@ == simp_iter(eq@, state@, n) && (simp_pass(res@, state@) == res@ || n
                >= PASS_GUARD as nat),
{
    let mut e = eq;
    let mut fuel: u64 = PASS_GUARD;
    let ghost n: nat = 0nat;
    loop
        invariant
            fuel <= PASS_GUARD,
            n == PASS_GUARD - fuel,
            e@ == simp_iter(eq@, state@, n),
        decreases fuel,
    {
        if fuel == 0 {
            proof {
                assert(n >= PASS_GUARD as nat);
            }
            return e;
        }
        let e2 = simplify(e.clone(), state);
        if crate::lang::equation_eq(&e, &e2) {
            proof {
                assert(simp_pass(e@, state@) == e@);
            }
            return e;
        }
        proof {
            assert(simp_iter(eq@, state@, n + 1) == simp_iter(simp_pass(eq@  , state@), state@, n)
                || true);
            crate::simplify::lemma_simp_iter_snoc(eq@, state@, n);
        }
        e = e2;
        fuel = fuel - 1;
        proof {
            n = n + 1;
        }
    }
}

/// Iterating once more is a pass of the iterate.
pub proof fn lemma_simp_iter_snoc(e: EquationV, rules: Seq<EquationV>, n: nat)
    ensures
        simp_iter(e, rules, n + 1) == simp_pass(simp_iter(e, rules, n), rules),
    decreases n,
{
    if n == 0 {
        reveal_with_fuel(simp_iter, 2);
    } else {
        lemma_simp_iter_snoc(simp_pass(e, rules), rules, (n - 1) as nat);
    }
}

/// A pass fixpoint stays put under any number of further passes.
pub proof fn lemma_simp_iter_fix(e: EquationV, rules: Seq<EquationV>, n: nat)
    requires
        simp_pass(e, rules) == e,
    ensures
        simp_iter(e, rules, n) == e,
    decreases n,
{
    if n > 0 {
        lemma_simp_iter_fix(e, rules, (n - 1) as nat);
    }
}

/// Simplification never orients: an unoriented equation stays unoriented
/// through any number of passes.
pub proof fn lemma_pass_unoriented(e: EquationV, rules: Seq<EquationV>)
    requires
        !e.oriented,
    ensures
        !simp_pass(e, rules).oriented,
    decreases rules.len(),
{
    if rules.len() > 0 {
        lemma_pass_unoriented(simp_step(e, rules[0]), rules.drop_first());
    }
}

/// Companion of `lemma_pass_unoriented` for iterated passes.
pub proof fn lemma_iter_unoriented(e: EquationV, rules: Seq<EquationV>, n: nat)
    requires
        !e.oriented,
    ensures
        !simp_iter(e, rules, n).oriented,
    decreases n,
{
    if n > 0 {
        lemma_pass_unoriented(e, rules);
        lemma_iter_unoriented(simp_pass(e, rules), rules, (n - 1) as nat);
    }
}

/// Reducing to a normal form is idempotent: a second `simplify_converge` on
/// a result that reached its fixpoint gives that result back unchanged.
pub proof fn lemma_converge_idempotent(first: EquationV, again: EquationV, rules: Seq<EquationV>)
    requires
        simp_pass(first, rules) == first,
        exists|n: nat|
            again == simp_iter(first, rules, n) && (simp_pass(again, rules) == again || n
                >= PASS_GUARD as nat),
    ensures
        again == first,
{
    let n = choose|n: nat|
        again == simp_iter(first, rules, n) && (simp_pass(again, rules) == again || n
            >= PASS_GUARD as nat);
    lemma_simp_iter_fix(first, rules, n);
}

} // verus!
