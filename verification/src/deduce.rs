use vstd::prelude::*;
use crate::lang::{term_eq, Equation, EquationV, Term, TermV};
use crate::pat::{apply, apply_subst};
use crate::pos::{pos_idx, pos_set, pos_valid, positions, replace_at, subterm_at};
use crate::rename::{canon_spec, canonize_vars, canonize_vars_l, canonize_vars_r, VarScheme};
use crate::simplify::{simp_iter, simplify_converge};
use crate::state::State;
use crate::unify::{unifies, unify};

verus! {

broadcast use vstd::seq::group_seq_axioms, vstd::std_specs::vec::group_vec_axioms;

/// The raw critical pair of two rules overlapped at position `p` of the
/// second rule's left side, under the unifier `m`: the rules are first
/// renamed apart into the left and right namespaces.
pub open spec fn cp_of(li: EquationV, ri: EquationV, p: Seq<usize>, m: Map<Seq<char>, TermV>) -> EquationV {
    let le = canon_spec(li, VarScheme::Left);
    let re = canon_spec(ri, VarScheme::Right);
    EquationV {
        lhs: apply(m, replace_at(re.lhs, p, le.rhs)),
        rhs: apply(m, re.rhs),
        oriented: false,
    }
}

/// What justifies an emitted equation: it is the critical pair of two
/// oriented rules of the state, overlapped at a valid position under a
/// substitution unifying the left rule's side with the subterm there,
/// canonicalized and then reduced to a normal form against the state: the
/// emitted equation is a fixpoint of the simplification pass, unless the
/// pass guard ran out first.
pub open spec fn cp_justified(cp: EquationV, sv: Seq<EquationV>) -> bool {
    exists|i: int, j: int, p: Seq<usize>, m: Map<Seq<char>, TermV>, n: nat|
        #![trigger simp_iter(canon_spec(cp_of(sv[i], sv[j], p, m), VarScheme::Canonical), sv, n)]
        {
            &&& 0 <= i < sv.len()
            &&& 0 <= j < sv.len()
            &&& sv[i].oriented
            &&& sv[j].oriented
            &&& pos_valid(canon_spec(sv[j], VarScheme::Right).lhs, p)
            &&& unifies(
                m,
                canon_spec(sv[i], VarScheme::Left).lhs,
                subterm_at(canon_spec(sv[j], VarScheme::Right).lhs, p),
            )
            &&& cp == simp_iter(canon_spec(cp_of(sv[i], sv[j], p, m), VarScheme::Canonical), sv, n)
            &&& (crate::simplify::simp_pass(cp, sv) == cp || n
                >= crate::simplify::PASS_GUARD as nat)
        }
}

/// Whether an equation with the same model is already listed.
fn holds_equation(v: &Vec<Equation>, e: &Equation) -> (r: bool)
    ensures
        r == exists|i: int| 0 <= i < v@.len() && (#[trigger] v@[i])@ == e@,
{
    let n = v.len();
    let mut i: usize = 0;
    #[verifier::loop_isolation(false)]
    while i < n
        invariant
            i <= n,
            forall|j: int| 0 <= j < i ==> (#[trigger] v@[j])@ != e@,
        decreases n - i,
    {
        if crate::lang::equation_eq(&v[i], e) {
            return true;
        }
        i = i + 1;
    }
    false
}

/// Every unifiable overlap of two oriented rules is accounted for in the
/// output: either no substitution at all unifies the left rule's side with
/// the subterm, or an emitted form of its critical pair is trivial or
/// already listed.
pub open spec fn overlap_covered(
    sv: Seq<EquationV>,
    out: Seq<EquationV>,
    i: int,
    j: int,
    p: Seq<usize>,
) -> bool {
    ||| forall|m: Map<Seq<char>, TermV>|
        !#[trigger] unifies(
            m,
            canon_spec(sv[i], VarScheme::Left).lhs,
            subterm_at(canon_spec(sv[j], VarScheme::Right).lhs, p),
        )
    ||| exists|m: Map<Seq<char>, TermV>, n: nat|
        #![trigger simp_iter(canon_spec(cp_of(sv[i], sv[j], p, m), VarScheme::Canonical), sv, n)]
        {
            &&& unifies(
                m,
                canon_spec(sv[i], VarScheme::Left).lhs,
                subterm_at(canon_spec(sv[j], VarScheme::Right).lhs, p),
            )
            &&& {
                let cp = simp_iter(
                    canon_spec(cp_of(sv[i], sv[j], p, m), VarScheme::Canonical),
                    sv,
                    n,
                );
                cp.lhs == cp.rhs || out.contains(cp)
            }
        }
}

/// Coverage survives extending the output.
proof fn lemma_covered_mono(
    sv: Seq<EquationV>,
    out1: Seq<EquationV>,
    out2: Seq<EquationV>,
    i: int,
    j: int,
    p: Seq<usize>,
)
    requires
        overlap_covered(sv, out1, i, j, p),
        out1.is_prefix_of(out2),
    ensures
        overlap_covered(sv, out2, i, j, p),
{
    if !(forall|m: Map<Seq<char>, TermV>|
        !#[trigger] unifies(
            m,
            canon_spec(sv[i], VarScheme::Left).lhs,
            subterm_at(canon_spec(sv[j], VarScheme::Right).lhs, p),
        )) {
        let (m, n) = choose|m: Map<Seq<char>, TermV>, n: nat|
            #![trigger simp_iter(canon_spec(cp_of(sv[i], sv[j], p, m), VarScheme::Canonical), sv, n)]
            {
                &&& unifies(
                    m,
                    canon_spec(sv[i], VarScheme::Left).lhs,
                    subterm_at(canon_spec(sv[j], VarScheme::Right).lhs, p),
                )
                &&& {
                    let cp = simp_iter(
                        canon_spec(cp_of(sv[i], sv[j], p, m), VarScheme::Canonical),
                        sv,
                        n,
                    );
                    cp.lhs == cp.rhs || out1.contains(cp)
                }
            };
        let cp = simp_iter(canon_spec(cp_of(sv[i], sv[j], p, m), VarScheme::Canonical), sv, n);
        if out1.contains(cp) {
            let k = choose|k: int| 0 <= k < out1.len() && out1[k] == cp;
            assert(out2[k] == cp);
        }
    }
}

/// One deduction sweep: every ordered pair of oriented rules, renamed
/// apart, is overlapped at every position of the second rule's left side;
/// each unifiable overlap yields a critical pair, which is simplified
/// against the state, canonicalized, and appended unoriented unless it is
/// trivial or already stands in the state. Every unifiable overlap is
/// covered by the result.
#[verifier::loop_isolation(false)]
#[verifier::rlimit(100)]
#[verifier::spinoff_prover]
pub fn deduce_step(state: State) -> (res: State)
    requires
        state.wf(),
    ensures
        res.wf(),
        res@.len() >= state@.len(),
        forall|i: int| 0 <= i < state@.len() ==> res@[i] == state@[i],
        forall|i: int|
            state@.len() <= i < res@.len() ==> cp_justified(#[trigger] res@[i], state@)
                && !res@[i].oriented && res@[i].lhs != res@[i].rhs,
        forall|i: int, j: int, p: Seq<usize>|
            0 <= i < state@.len() && 0 <= j < state@.len() && state@[i].oriented
                && state@[j].oriented && pos_valid(canon_spec(state@[j], VarScheme::Right).lhs, p)
                ==> #[trigger] overlap_covered(state@, res@, i, j, p),
        forall|i: int, j: int|
            state@.len() <= i < j < res@.len() ==> (#[trigger] res@[i]) != (#[trigger] res@[j]),
        forall|i: int, j: int|
            0 <= i < state@.len() && state@.len() <= j < res@.len() ==> (#[trigger] res@[j]) != (
            #[trigger] res@[i]),
{
    let ghost sv = state@;
    let mut cps: Vec<Equation> = Vec::new();
    let ghost mut outv = sv;
    let n = state.equations().len();
    let mut i: usize = 0;
    while i < n
        invariant
            i <= n,
            n == sv.len(),
            outv.len() == sv.len() + cps@.len(),
            forall|k: int| 0 <= k < sv.len() ==> outv[k] == sv[k],
            forall|k: int| 0 <= k < cps@.len() ==> outv[sv.len() + k] == (#[trigger] cps@[k])@,
            forall|k: int|
                0 <= k < cps@.len() ==> cp_justified(#[trigger] cps@[k]@, sv) && !cps@[k]@.oriented
                    && cps@[k]@.lhs != cps@[k]@.rhs,
            forall|k1: int, k2: int|
                0 <= k1 < k2 < cps@.len() ==> (#[trigger] cps@[k1])@ != (#[trigger] cps@[k2])@,
            forall|k: int, i2: int|
                0 <= k < cps@.len() && 0 <= i2 < sv.len() ==> (#[trigger] cps@[k])@ != (
                #[trigger] sv[i2]),
            forall|ii: int, jj: int, p: Seq<usize>|
                0 <= ii < i && 0 <= jj < n && sv[ii].oriented && sv[jj].oriented && pos_valid(
                    canon_spec(sv[jj], VarScheme::Right).lhs,
                    p,
                ) ==> #[trigger] overlap_covered(sv, outv, ii, jj, p),
        decreases n - i,
    {
        if state.equations()[i].oriented {
            let le = canonize_vars_l(state.equations()[i].clone());
            let mut j: usize = 0;
            while j < n
                invariant
                    j <= n,
                    i < n,
                    sv[i as int].oriented,
                    le@ == canon_spec(sv[i as int], VarScheme::Left),
                    outv.len() == sv.len() + cps@.len(),
                    forall|k: int| 0 <= k < sv.len() ==> outv[k] == sv[k],
                    forall|k: int|
                        0 <= k < cps@.len() ==> outv[sv.len() + k] == (#[trigger] cps@[k])@,
                    forall|k: int|
                        0 <= k < cps@.len() ==> cp_justified(#[trigger] cps@[k]@, sv)
                            && !cps@[k]@.oriented && cps@[k]@.lhs != cps@[k]@.rhs,
                    forall|k1: int, k2: int|
                        0 <= k1 < k2 < cps@.len() ==> (#[trigger] cps@[k1])@ != (
                        #[trigger] cps@[k2])@,
                    forall|k: int, i2: int|
                        0 <= k < cps@.len() && 0 <= i2 < sv.len() ==> (#[trigger] cps@[k])@ != (
                        #[trigger] sv[i2]),
                    forall|ii: int, jj: int, p: Seq<usize>|
                        0 <= ii < i && 0 <= jj < n && sv[ii].oriented && sv[jj].oriented
                            && pos_valid(canon_spec(sv[jj], VarScheme::Right).lhs, p)
                            ==> #[trigger] overlap_covered(sv, outv, ii, jj, p),
                    forall|jj: int, p: Seq<usize>|
                        0 <= jj < j && sv[jj].oriented && pos_valid(
                            canon_spec(sv[jj], VarScheme::Right).lhs,
                            p,
                        ) ==> #[trigger] overlap_covered(sv, outv, i as int, jj, p),
                decreases n - j,
            {
                if state.equations()[j].oriented {
                    let re = canonize_vars_r(state.equations()[j].clone());
                    let poss = positions(&re.lhs);
                    let np = poss.len();
                    let mut q: usize = 0;
                    while q < np
                        invariant
                            q <= np,
                            i < n,
                            j < n,
                            sv[i as int].oriented,
                            sv[j as int].oriented,
                            le@ == canon_spec(sv[i as int], VarScheme::Left),
                            re@ == canon_spec(sv[j as int], VarScheme::Right),
                            forall|k: int|
                                0 <= k < poss@.len() ==> pos_valid(re@.lhs, #[trigger] poss@[k]@),
                            forall|p: Seq<usize>|
                                pos_valid(re@.lhs, p) ==> exists|k: int|
                                    0 <= k < poss@.len() && #[trigger] poss@[k]@ == p,
                            outv.len() == sv.len() + cps@.len(),
                            forall|k: int| 0 <= k < sv.len() ==> outv[k] == sv[k],
                            forall|k: int|
                                0 <= k < cps@.len() ==> outv[sv.len() + k] == (
                                #[trigger] cps@[k])@,
                            forall|k: int|
                                0 <= k < cps@.len() ==> cp_justified(#[trigger] cps@[k]@, sv)
                                    && !cps@[k]@.oriented && cps@[k]@.lhs != cps@[k]@.rhs,
                            forall|k1: int, k2: int|
                                0 <= k1 < k2 < cps@.len() ==> (#[trigger] cps@[k1])@ != (
                                #[trigger] cps@[k2])@,
                            forall|k: int, i2: int|
                                0 <= k < cps@.len() && 0 <= i2 < sv.len() ==> (#[trigger] cps@[k])@ != (
                                #[trigger] sv[i2]),
                            forall|ii: int, jj: int, p: Seq<usize>|
                                0 <= ii < i && 0 <= jj < n && sv[ii].oriented && sv[jj].oriented
                                    && pos_valid(canon_spec(sv[jj], VarScheme::Right).lhs, p)
                                    ==> #[trigger] overlap_covered(sv, outv, ii, jj, p),
                            forall|jj: int, p: Seq<usize>|
                                0 <= jj < j && sv[jj].oriented && pos_valid(
                                    canon_spec(sv[jj], VarScheme::Right).lhs,
                                    p,
                                ) ==> #[trigger] overlap_covered(sv, outv, i as int, jj, p),
                            forall|qq: int|
                                0 <= qq < q ==> #[trigger] overlap_covered(
                                    sv,
                                    outv,
                                    i as int,
                                    j as int,
                                    poss@[qq]@,
                                ),
                        decreases np - q,
                    {
                        let ghost pcur = poss@[q as int]@;
                        let sub = pos_idx(&re.lhs, &poss[q]);
                        proof {
                            assert(sub@ == subterm_at(canon_spec(sv[j as int], VarScheme::Right).lhs, pcur));
                        }
                        // two applications with clashing heads never unify:
                        // skipping them emits exactly the same pairs
                        let clash = match (&le.lhs, sub) {
                            (Term::Fun(lf, _), Term::Fun(sf, _)) => !crate::symbol::id_eq(lf, sf),
                            _ => false,
                        };
                        if clash {
                            proof {
                                assert forall|m: Map<Seq<char>, TermV>|
                                    !#[trigger] unifies(
                                    m,
                                    canon_spec(sv[i as int], VarScheme::Left).lhs,
                                    subterm_at(canon_spec(sv[j as int], VarScheme::Right).lhs, pcur),
                                ) by {
                                    broadcast use crate::pat::lemma_apply_seq;

                                }
                                assert(overlap_covered(sv, outv, i as int, j as int, pcur));
                            }
                            q = q + 1;
                            continue ;
                        }
                        match unify(&le.lhs, sub) {
                            None => {
                                proof {
                                    assert forall|m: Map<Seq<char>, TermV>|
                                        !#[trigger] unifies(
                                        m,
                                        canon_spec(sv[i as int], VarScheme::Left).lhs,
                                        subterm_at(canon_spec(sv[j as int], VarScheme::Right).lhs, pcur),
                                    ) by {
                                        assert(!unifies(m, le@.lhs, sub@));
                                    }
                                    assert(overlap_covered(sv, outv, i as int, j as int, pcur));
                                }
                            },
                            Some(sig) => {
                                let repl = pos_set(&re.lhs, &poss[q], &le.rhs);
                                let ll = apply_subst(&repl, &sig);
                                let rr = apply_subst(&re.rhs, &sig);
                                let eq = Equation { lhs: ll, rhs: rr, oriented: false };
                                let c0 = canonize_vars(eq);
                                let ghost eq0 = c0@;
                                let c = simplify_converge(c0, &state);
                                let ghost nn = choose|nn: nat|
                                    c@ == simp_iter(eq0, sv, nn) && (crate::simplify::simp_pass(
                                        c@,
                                        sv,
                                    ) == c@ || nn >= crate::simplify::PASS_GUARD as nat);
                                proof {
                                    crate::simplify::lemma_iter_unoriented(eq0, sv, nn);
                                    assert(eq0 == canon_spec(
                                        cp_of(sv[i as int], sv[j as int], pcur, sig@),
                                        VarScheme::Canonical,
                                    ));
                                    assert(c@ == simp_iter(
                                        canon_spec(
                                            cp_of(sv[i as int], sv[j as int], pcur, sig@),
                                            VarScheme::Canonical,
                                        ),
                                        sv,
                                        nn,
                                    ));
                                    assert(unifies(
                                        sig@,
                                        canon_spec(sv[i as int], VarScheme::Left).lhs,
                                        subterm_at(canon_spec(sv[j as int], VarScheme::Right).lhs, pcur),
                                    ));
                                }
                                if !term_eq(&c.lhs, &c.rhs) {
                                    // a consequence already standing teaches nothing new
                                    let eqsref = state.equations();
                                    let instate = holds_equation(eqsref, &c);
                                    let incps = if instate {
                                        true
                                    } else {
                                        holds_equation(&cps, &c)
                                    };
                                    if !incps {
                                        proof {
                                            assert(cp_justified(c@, sv));
                                        }
                                        let ghost out_pre = outv;
                                        let ghost cps_pre = cps@;
                                        cps.push(c);
                                        proof {
                                            assert forall|i2: int|
                                                0 <= i2 < sv.len() implies (#[trigger] sv[i2])
                                                != cps@[cps@.len() - 1]@ by {
                                                assert(eqsref@[i2]@ == sv[i2]);
                                                assert(eqsref@[i2]@ != c@);
                                            }
                                            assert forall|k1: int|
                                                0 <= k1 < cps_pre.len() implies (
                                            #[trigger] cps_pre[k1])@ != c@ by {}
                                            outv = outv.push(cps@[cps@.len() - 1]@);
                                            assert(outv.last() == cps@[cps@.len() - 1]@);
                                            assert(out_pre.is_prefix_of(outv));
                                            assert forall|ii: int, jj: int, p: Seq<usize>|
                                                0 <= ii < i && 0 <= jj < n && sv[ii].oriented
                                                    && sv[jj].oriented && pos_valid(
                                                    canon_spec(sv[jj], VarScheme::Right).lhs,
                                                    p,
                                                ) implies #[trigger] overlap_covered(
                                                sv,
                                                outv,
                                                ii,
                                                jj,
                                                p,
                                            ) by {
                                                lemma_covered_mono(sv, out_pre, outv, ii, jj, p);
                                            }
                                            assert forall|jj: int, p: Seq<usize>|
                                                0 <= jj < j && sv[jj].oriented && pos_valid(
                                                    canon_spec(sv[jj], VarScheme::Right).lhs,
                                                    p,
                                                ) implies #[trigger] overlap_covered(
                                                sv,
                                                outv,
                                                i as int,
                                                jj,
                                                p,
                                            ) by {
                                                lemma_covered_mono(
                                                    sv,
                                                    out_pre,
                                                    outv,
                                                    i as int,
                                                    jj,
                                                    p,
                                                );
                                            }
                                            assert forall|qq: int| 0 <= qq < q implies #[trigger]
                                                overlap_covered(
                                                sv,
                                                outv,
                                                i as int,
                                                j as int,
                                                poss@[qq]@,
                                            ) by {
                                                lemma_covered_mono(
                                                    sv,
                                                    out_pre,
                                                    outv,
                                                    i as int,
                                                    j as int,
                                                    poss@[qq]@,
                                                );
                                            }
                                            assert(outv.contains(c@));
                                            assert(overlap_covered(
                                                sv,
                                                outv,
                                                i as int,
                                                j as int,
                                                pcur,
                                            ));
                                        }
                                    } else {
                                        proof {
                                            if instate {
                                                let k = choose|k: int|
                                                    0 <= k < eqsref@.len() && (
                                                    #[trigger] eqsref@[k])@ == c@;
                                                assert(sv[k] == c@);
                                                assert(outv[k] == c@);
                                            } else {
                                                let k = choose|k: int|
                                                    0 <= k < cps@.len() && (#[trigger] cps@[k])@
                                                        == c@;
                                                assert(outv[sv.len() + k] == c@);
                                            }
                                            assert(outv.contains(c@));
                                            assert(overlap_covered(
                                                sv,
                                                outv,
                                                i as int,
                                                j as int,
                                                pcur,
                                            ));
                                        }
                                    }
                                } else {
                                    proof {
                                        assert(c@.lhs == c@.rhs);
                                        assert(overlap_covered(
                                            sv,
                                            outv,
                                            i as int,
                                            j as int,
                                            pcur,
                                        ));
                                    }
                                }
                            },
                        }
                        q = q + 1;
                    }
                    proof {
                        assert forall|p: Seq<usize>|
                            pos_valid(canon_spec(sv[j as int], VarScheme::Right).lhs, p) implies
                            #[trigger] overlap_covered(sv, outv, i as int, j as int, p) by {
                            let k = choose|k: int| 0 <= k < poss@.len() && #[trigger] poss@[k]@
                                == p;
                            assert(overlap_covered(sv, outv, i as int, j as int, poss@[k]@));
                        }
                    }
                }
                j = j + 1;
            }
        }
        i = i + 1;
    }
    let ghost cpv = cps@;
    let res = state.with_appended(cps);
    proof {
        assert forall|k: int| 0 <= k < res@.len() implies res@[k] == outv[k] by {
            if k >= sv.len() {
                assert(res@[sv.len() + (k - sv.len())] == cpv[k - sv.len()]@);
            }
        }
        assert(res@ =~= outv);
        assert forall|k: int|
            sv.len() <= k < res@.len() implies cp_justified(#[trigger] res@[k], sv)
            && !res@[k].oriented && res@[k].lhs != res@[k].rhs by {
            assert(res@[sv.len() + (k - sv.len())] == cpv[k - sv.len()]@);
        }
        assert forall|i2: int, j2: int|
            sv.len() <= i2 < j2 < res@.len() implies (#[trigger] res@[i2]) != (
        #[trigger] res@[j2]) by {
            assert(res@[sv.len() + (i2 - sv.len())] == cpv[i2 - sv.len()]@);
            assert(res@[sv.len() + (j2 - sv.len())] == cpv[j2 - sv.len()]@);
        }
        assert forall|i2: int, j2: int|
            0 <= i2 < sv.len() && sv.len() <= j2 < res@.len() implies (#[trigger] res@[j2]) != (
        #[trigger] res@[i2]) by {
            assert(res@[sv.len() + (j2 - sv.len())] == cpv[j2 - sv.len()]@);
        }
    }
    res
}

} // verus!
