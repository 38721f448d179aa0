use vstd::prelude::*;
use crate::deduce::cp_justified;
use crate::lang::{equation_eq, term_eq, Equation, EquationV, Term, TermV};
use crate::order::{kbo, kbo_cmp, Comparison};
use crate::rename::{canon_spec, canonize_vars, canonize_vars_d, VarScheme};
use crate::simplify::{simp_iter, simplify_converge, ss, PASS_GUARD};

verus! {

broadcast use vstd::seq::group_seq_axioms, vstd::std_specs::vec::group_vec_axioms;

/// The completion procedure's working set: an ordered collection of
/// equations, oriented rules and unoriented identities mixed. The order is
/// irrelevant for correctness and kept only for determinism.
pub struct State {
    eqs: Vec<Equation>,
}

/// The orientation invariant: an equation may only be marked oriented while
/// its left side is strictly greater than its right side under the
/// Knuth-Bendix order, which is what keeps the rewrite relation
/// terminating.
pub open spec fn state_inv(sv: Seq<EquationV>) -> bool {
    forall|i: int|
        0 <= i < sv.len() ==> ((#[trigger] sv[i]).oriented ==> kbo(sv[i].lhs, sv[i].rhs)
            == Comparison::Gt)
}

impl View for State {
    type V = Seq<EquationV>;

    closed spec fn view(&self) -> Seq<EquationV> {
        Seq::new(self.eqs@.len(), |i: int| self.eqs@[i]@)
    }
}

impl State {
    /// The orientation invariant, over the model.
    pub open spec fn wf(self) -> bool {
        state_inv(self@)
    }

    /// Builds the initial state from the user-supplied equations: all start
    /// unoriented.
    pub fn new(eqs: Vec<Equation>) -> (r: State)
        ensures
            r.wf(),
            r@.len() == eqs@.len(),
            forall|i: int|
                0 <= i < eqs@.len() ==> (#[trigger] r@[i]) == (EquationV {
                    lhs: eqs@[i]@.lhs,
                    rhs: eqs@[i]@.rhs,
                    oriented: false,
                }),
    {
        let mut out: Vec<Equation> = Vec::new();
        let n = eqs.len();
        let mut k: usize = 0;
        #[verifier::loop_isolation(false)]
        while k < n
            invariant
                k <= n,
                out@.len() == k as int,
                forall|i: int|
                    0 <= i < k ==> (#[trigger] out@[i])@ == (EquationV {
                        lhs: eqs@[i]@.lhs,
                        rhs: eqs@[i]@.rhs,
                        oriented: false,
                    }),
            decreases n - k,
        {
            let e = Equation { lhs: eqs[k].lhs.clone(), rhs: eqs[k].rhs.clone(), oriented: false };
            out.push(e);
            k = k + 1;
        }
        let r = State { eqs: out };
        proof {
            assert(r@.len() == eqs@.len());
        }
        r
    }

    /// Appends further unoriented equations at the end.
    pub fn with_appended(self, more: Vec<Equation>) -> (r: State)
        requires
            self.wf(),
            forall|i: int| 0 <= i < more@.len() ==> !(#[trigger] more@[i])@.oriented,
        ensures
            r.wf(),
            r@.len() == self@.len() + more@.len(),
            forall|i: int| 0 <= i < self@.len() ==> r@[i] == self@[i],
            forall|i: int|
                0 <= i < more@.len() ==> r@[self@.len() + i] == (#[trigger] more@[i])@,
    {
        let ghost sv = self@;
        let mut eqs = self.eqs;
        let n = more.len();
        let ghost base = eqs@.len() as int;
        let mut k: usize = 0;
        #[verifier::loop_isolation(false)]
        while k < n
            invariant
                k <= n,
                eqs@.len() == base + k as int,
                forall|i: int| 0 <= i < base ==> (#[trigger] eqs@[i])@ == sv[i],
                forall|i: int| 0 <= i < k ==> (#[trigger] eqs@[base + i])@ == more@[i]@,
            decreases n - k,
        {
            let e = Equation {
                lhs: more[k].lhs.clone(),
                rhs: more[k].rhs.clone(),
                oriented: more[k].oriented,
            };
            eqs.push(e);
            k = k + 1;
        }
        let r = State { eqs };
        proof {
            assert forall|i: int| 0 <= i < sv.len() implies r@[i] == sv[i] by {}
            assert forall|i: int|
                0 <= i < more@.len() implies r@[sv.len() + i] == (#[trigger] more@[i])@ by {
                assert((#[trigger] eqs@[base + i])@ == more@[i]@);
            }
            assert forall|i: int|
                0 <= i < r@.len() implies ((#[trigger] r@[i]).oriented ==> kbo(
                r@[i].lhs,
                r@[i].rhs,
            ) == Comparison::Gt) by {
                if i < sv.len() {
                    assert(r@[i] == sv[i]);
                } else {
                    assert(r@[i] == more@[i - sv.len()]@);
                }
            }
        }
        r
    }

    /// Read access to the equations.
    pub fn equations(&self) -> (r: &Vec<Equation>)
        ensures
            r@.len() == self@.len(),
            forall|i: int| 0 <= i < self@.len() ==> (#[trigger] r@[i])@ == self@[i],
    {
        &self.eqs
    }
}

/// Demotes an equation whose orientation is no longer backed by the term
/// order.
pub open spec fn reorient(e: EquationV) -> EquationV {
    if e.oriented && kbo(e.lhs, e.rhs) == Comparison::Gt {
        e
    } else {
        EquationV { lhs: e.lhs, rhs: e.rhs, oriented: false }
    }
}

/// Orients an unoriented equation when the order allows, swapping the sides
/// when the right one is the greater; an incomparable equation stays as a
/// standing obligation.
pub open spec fn orient_one(e: EquationV) -> EquationV {
    if e.oriented {
        e
    } else if kbo(e.lhs, e.rhs) == Comparison::Gt {
        EquationV { lhs: e.lhs, rhs: e.rhs, oriented: true }
    } else if kbo(e.lhs, e.rhs) == Comparison::Lt {
        EquationV { lhs: e.rhs, rhs: e.lhs, oriented: true }
    } else {
        e
    }
}

/// One equation's fate in the simplify pass: renamed apart, reduced some
/// number of passes against the rules, the orientation kept only while the
/// order still backs it.
pub open spec fn sim_entry(pre: Seq<EquationV>, e: EquationV, i: int) -> bool {
    exists|n: nat|
        #![trigger simp_iter(canon_spec(pre[i], VarScheme::Inner), pre, n)]
        e == reorient(simp_iter(canon_spec(pre[i], VarScheme::Inner), pre, n))
}

/// The simplify pass, equation by equation.
pub open spec fn sim_rel(pre: Seq<EquationV>, post: Seq<EquationV>) -> bool {
    &&& post.len() == pre.len()
    &&& forall|i: int| 0 <= i < pre.len() ==> #[trigger] sim_entry(pre, post[i], i)
}

/// The delete pass: equations whose sides became equal are dropped.
pub open spec fn delete_trivial(s: Seq<EquationV>) -> Seq<EquationV>
    decreases s.len(),
{
    if s.len() == 0 {
        Seq::empty()
    } else {
        (if s[0].lhs != s[0].rhs {
            seq![s[0]]
        } else {
            Seq::empty()
        }) + delete_trivial(s.drop_first())
    }
}

/// Deleting from one more equation at the end.
pub proof fn lemma_delete_snoc(s: Seq<EquationV>, x: EquationV)
    ensures
        delete_trivial(s.push(x)) == delete_trivial(s) + (if x.lhs != x.rhs {
            seq![x]
        } else {
            Seq::<EquationV>::empty()
        }),
    decreases s.len(),
{
    if s.len() == 0 {
        let xpart = if x.lhs != x.rhs {
            seq![x]
        } else {
            Seq::<EquationV>::empty()
        };
        assert(s.push(x).drop_first() =~= Seq::<EquationV>::empty());
        assert(delete_trivial(Seq::<EquationV>::empty()) =~= Seq::<EquationV>::empty());
        assert(delete_trivial(s) =~= Seq::<EquationV>::empty());
        assert(s.push(x)[0] == x);
        assert(delete_trivial(s.push(x)) == xpart + delete_trivial(s.push(x).drop_first()));
        assert(delete_trivial(s.push(x)) =~= delete_trivial(s) + xpart);
    } else {
        let xpart = if x.lhs != x.rhs {
            seq![x]
        } else {
            Seq::<EquationV>::empty()
        };
        let hpart = if s[0].lhs != s[0].rhs {
            seq![s[0]]
        } else {
            Seq::<EquationV>::empty()
        };
        assert(s.push(x).drop_first() =~= s.drop_first().push(x));
        lemma_delete_snoc(s.drop_first(), x);
        assert(s.push(x)[0] == s[0]);
        assert(delete_trivial(s.push(x)) == hpart + delete_trivial(s.drop_first().push(x)));
        assert(delete_trivial(s.drop_first().push(x)) == delete_trivial(s.drop_first()) + xpart);
        assert(hpart + (delete_trivial(s.drop_first()) + xpart) =~= (hpart + delete_trivial(
            s.drop_first(),
        )) + xpart);
        assert(delete_trivial(s) == hpart + delete_trivial(s.drop_first()));
        assert(delete_trivial(s.push(x)) =~= delete_trivial(s) + xpart);
    }
}

/// The orient pass.
pub open spec fn orient_all(s: Seq<EquationV>) -> Seq<EquationV> {
    Seq::new(s.len(), |i: int| orient_one(s[i]))
}

/// The canonicalize pass: every equation renamed into the canonical
/// namespace, any that collapse dropped, duplicates removed.
pub open spec fn canon_rel(sin: Seq<EquationV>, sout: Seq<EquationV>) -> bool {
    let c = Seq::new(sin.len(), |i: int| reorient(canon_spec(sin[i], VarScheme::Canonical)));
    &&& forall|x: EquationV| #[trigger] sout.contains(x) ==> c.contains(x) && x.lhs != x.rhs
    &&& forall|x: EquationV| #[trigger] c.contains(x) && x.lhs != x.rhs ==> sout.contains(x)
    &&& forall|i: int, j: int| 0 <= i < j < sout.len() ==> sout[i] != sout[j]
}

/// The deduce pass: everything appended is a justified critical pair, new
/// to the state and to its fellows, and every unifiable overlap of two
/// oriented rules is covered.
pub open spec fn deduce_rel(sin: Seq<EquationV>, sout: Seq<EquationV>) -> bool {
    &&& sout.len() >= sin.len()
    &&& forall|i: int| 0 <= i < sin.len() ==> sout[i] == sin[i]
    &&& forall|i: int|
        sin.len() <= i < sout.len() ==> cp_justified(#[trigger] sout[i], sin) && !sout[i].oriented
            && sout[i].lhs != sout[i].rhs
    &&& forall|i: int, j: int|
        sin.len() <= i < j < sout.len() ==> (#[trigger] sout[i]) != (#[trigger] sout[j])
    &&& forall|i: int, j: int|
        0 <= i < sin.len() && sin.len() <= j < sout.len() ==> (#[trigger] sout[j]) != (
        #[trigger] sout[i])
    &&& forall|i: int, j: int, p: Seq<usize>|
        0 <= i < sin.len() && 0 <= j < sin.len() && sin[i].oriented && sin[j].oriented
            && crate::pos::pos_valid(canon_spec(sin[j], VarScheme::Right).lhs, p)
            ==> #[trigger] crate::deduce::overlap_covered(sin, sout, i, j, p)
}

/// One full completion step: simplify, delete, orient, canonicalize,
/// deduce, each pass feeding the next.
pub open spec fn tick_rel(pre: Seq<EquationV>, post: Seq<EquationV>) -> bool {
    exists|s1: Seq<EquationV>, s4: Seq<EquationV>|
        #![trigger sim_rel(pre, s1), deduce_rel(s4, post)]
        {
            &&& sim_rel(pre, s1)
            &&& canon_rel(orient_all(delete_trivial(s1)), s4)
            &&& deduce_rel(s4, post)
        }
}

/// Running `k` full steps in a row.
pub open spec fn run_rel(pre: Seq<EquationV>, post: Seq<EquationV>, k: nat) -> bool
    decreases k,
{
    if k == 0 {
        post == pre
    } else {
        exists|mid: Seq<EquationV>|
            #[trigger] tick_rel(pre, mid) && run_rel(mid, post, (k - 1) as nat)
    }
}

/// One more step at the end of a run.
pub proof fn lemma_run_rel_snoc(pre: Seq<EquationV>, mid: Seq<EquationV>, post: Seq<EquationV>, k: nat)
    requires
        run_rel(pre, mid, k),
        tick_rel(mid, post),
    ensures
        run_rel(pre, post, k + 1),
    decreases k,
{
    if k == 0 {
        assert(mid == pre);
        assert(tick_rel(pre, post));
        assert(run_rel(post, post, 0));
        assert(run_rel(pre, post, 1));
    } else {
        let m0 = choose|m0: Seq<EquationV>| #[trigger] tick_rel(pre, m0) && run_rel(m0, mid, (k - 1) as nat);
        lemma_run_rel_snoc(m0, mid, post, (k - 1) as nat);
    }
}

/// One rewriting step of a term by one equation of the state: only an
/// oriented rule rewrites.
pub open spec fn term_step(t: TermV, e: EquationV) -> TermV {
    if e.oriented {
        ss(t, e.lhs, e.rhs)
    } else {
        t
    }
}

/// One full pass of the state's rules over a term.
pub open spec fn term_pass(t: TermV, sv: Seq<EquationV>) -> TermV
    decreases sv.len(),
{
    if sv.len() == 0 {
        t
    } else {
        term_pass(term_step(t, sv[0]), sv.drop_first())
    }
}

/// `n` passes in a row over a term.
pub open spec fn term_iter(t: TermV, sv: Seq<EquationV>, n: nat) -> TermV
    decreases n,
{
    if n == 0 {
        t
    } else {
        term_iter(term_pass(t, sv), sv, (n - 1) as nat)
    }
}

/// Iterating once more is a pass of the iterate.
pub proof fn lemma_term_iter_snoc(t: TermV, sv: Seq<EquationV>, n: nat)
    ensures
        term_iter(t, sv, n + 1) == term_pass(term_iter(t, sv, n), sv),
    decreases n,
{
    if n == 0 {
        reveal_with_fuel(term_iter, 2);
    } else {
        lemma_term_iter_snoc(term_pass(t, sv), sv, (n - 1) as nat);
    }
}

/// Whether an equation with the same model is already listed.
fn vec_contains_eq(v: &Vec<Equation>, e: &Equation) -> (r: bool)
    ensures
        r == exists|i: int| 0 <= i < v@.len() && (#[trigger] v@[i])@ == e@,
{
    let n = v.len();
    let mut i: usize = 0;
    #[verifier::loop_isolation(false)]
    while i < n
        invariant
            i <= n,
            forall|j: int| 0 <= j < i ==> (#[trigger] v@[j])@ != e@,
        decreases n - i,
    {
        if equation_eq(&v[i], e) {
            return true;
        }
        i = i + 1;
    }
    false
}

/// Orients one equation if the order allows it.
fn orient_one_exec(e: Equation) -> (r: Equation)
    ensures
        r@ == orient_one(e@),
        r@.oriented && !e@.oriented ==> kbo(r@.lhs, r@.rhs) == Comparison::Gt,
{
    if e.oriented {
        e
    } else {
        let c = kbo_cmp(&e.lhs, &e.rhs);
        if c == Comparison::Gt {
            Equation { lhs: e.lhs, rhs: e.rhs, oriented: true }
        } else if c == Comparison::Lt {
            let swapped = kbo_cmp(&e.rhs, &e.lhs);
            if swapped == Comparison::Gt {
                Equation { lhs: e.rhs, rhs: e.lhs, oriented: true }
            } else {
                proof {
                    crate::order::lemma_kbo_flip(e@.lhs, e@.rhs);
                }
                Equation { lhs: e.lhs, rhs: e.rhs, oriented: false }
            }
        } else {
            Equation { lhs: e.lhs, rhs: e.rhs, oriented: false }
        }
    }
}

/// Demotes an equation whose orientation the order no longer backs.
fn reorient_exec(e: Equation) -> (r: Equation)
    ensures
        r@ == reorient(e@),
{
    let keep = if e.oriented {
        let c = kbo_cmp(&e.lhs, &e.rhs);
        c == Comparison::Gt
    } else {
        false
    };
    if keep {
        e
    } else {
        Equation { lhs: e.lhs, rhs: e.rhs, oriented: false }
    }
}

impl State {
    /// One full completion step: reduce every equation against the current
    /// rules, drop the trivial ones, orient what the order allows,
    /// canonicalize and deduplicate, then append the surviving critical
    /// pairs. Afterwards no equation of the state has equal sides.
    #[verifier::loop_isolation(false)]
    pub fn tick(&mut self)
        requires
            old(self).wf(),
        ensures
            final(self).wf(),
            tick_rel(old(self)@, final(self)@),
            forall|i: int|
                0 <= i < final(self)@.len() ==> (#[trigger] final(self)@[i]).lhs
                    != final(self)@[i].rhs,
    {
        let ghost pre = self@;
        // simplify pass, the orientation re-checked against the order
        let n = self.eqs.len();
        let mut s1: Vec<Equation> = Vec::new();
        let ghost mut wits = Seq::<nat>::empty();
        let mut k: usize = 0;
        while k < n
            invariant
                k <= n,
                self@ == pre,
                self.wf(),
                n == pre.len(),
                s1@.len() == k as int,
                wits.len() == k as int,
                forall|i: int|
                    0 <= i < k ==> (#[trigger] s1@[i])@ == reorient(
                        simp_iter(canon_spec(pre[i], VarScheme::Inner), pre, wits[i]),
                    ),
            decreases n - k,
        {
            let e = canonize_vars_d(self.eqs[k].clone());
            let ghost eview = e@;
            let e1 = simplify_converge(e, self);
            let e2 = reorient_exec(e1);
            let ghost kk = k as int;
            proof {
                assert(eview == canon_spec(pre[kk], VarScheme::Inner));
                let nn = choose|nn: nat|
                    e1@ == simp_iter(eview, pre, nn) && (crate::simplify::simp_pass(e1@, pre)
                        == e1@ || nn >= PASS_GUARD as nat);
                assert(e1@ == simp_iter(canon_spec(pre[kk], VarScheme::Inner), pre, nn));
                assert(e2@ == reorient(
                    simp_iter(canon_spec(pre[kk], VarScheme::Inner), pre, nn),
                ));
                wits = wits.push(nn);
            }
            s1.push(e2);
            k = k + 1;
        }
        let ghost s1v = Seq::new(s1@.len(), |i: int| s1@[i]@);
        proof {
            assert forall|i: int| 0 <= i < pre.len() implies #[trigger] sim_entry(
                pre,
                s1v[i],
                i,
            ) by {
                assert(s1v[i] == s1@[i]@);
                assert(s1@[i]@ == reorient(
                    simp_iter(canon_spec(pre[i], VarScheme::Inner), pre, wits[i]),
                ));
            }
            assert(sim_rel(pre, s1v));
        }
        // delete and orient passes
        let m1 = s1.len();
        let mut s3: Vec<Equation> = Vec::new();
        let mut k2: usize = 0;
        proof {
            assert(s1v.take(0) =~= Seq::<EquationV>::empty());
            assert(Seq::new(s3@.len(), |i: int| s3@[i]@) =~= orient_all(
                delete_trivial(s1v.take(0)),
            ));
        }
        while k2 < m1
            invariant
                k2 <= m1,
                m1 == s1v.len(),
                s1@.len() == s1v.len(),
                forall|i: int| 0 <= i < s1v.len() ==> (#[trigger] s1@[i])@ == s1v[i],
                Seq::new(s3@.len(), |i: int| s3@[i]@) == orient_all(
                    delete_trivial(s1v.take(k2 as int)),
                ),
                forall|i: int|
                    0 <= i < s3@.len() ==> ((#[trigger] s3@[i])@.oriented ==> kbo(
                        s3@[i]@.lhs,
                        s3@[i]@.rhs,
                    ) == Comparison::Gt),
            decreases m1 - k2,
        {
            proof {
                assert(s1v.take(k2 as int + 1) =~= s1v.take(k2 as int).push(s1v[k2 as int]));
                lemma_delete_snoc(s1v.take(k2 as int), s1v[k2 as int]);
            }
            let ghost dpre = delete_trivial(s1v.take(k2 as int));
            let ghost dpost = delete_trivial(s1v.take(k2 as int + 1));
            let ghost s3v_pre = Seq::new(s3@.len(), |i: int| s3@[i]@);
            let e = Equation {
                lhs: s1[k2].lhs.clone(),
                rhs: s1[k2].rhs.clone(),
                oriented: s1[k2].oriented,
            };
            proof {
                assert(e@ == s1v[k2 as int]);
            }
            if !term_eq(&e.lhs, &e.rhs) {
                let e3 = orient_one_exec(e);
                s3.push(e3);
                proof {
                    assert(dpost == dpre + seq![s1v[k2 as int]]);
                    assert(orient_all(dpost) =~= orient_all(dpre).push(
                        orient_one(s1v[k2 as int]),
                    ));
                    assert(Seq::new(s3@.len(), |i: int| s3@[i]@) =~= s3v_pre.push(e3@));
                    assert(Seq::new(s3@.len(), |i: int| s3@[i]@) == orient_all(dpost));
                }
            } else {
                proof {
                    assert(dpost == dpre + Seq::<EquationV>::empty());
                    assert(dpost =~= dpre);
                    assert(Seq::new(s3@.len(), |i: int| s3@[i]@) =~= s3v_pre);
                    assert(Seq::new(s3@.len(), |i: int| s3@[i]@) == orient_all(dpost));
                }
            }
            k2 = k2 + 1;
        }
        proof {
            assert(s1v.take(m1 as int) =~= s1v);
        }
        let ghost s3v = orient_all(delete_trivial(s1v));
        // canonicalize pass with deduplication
        let ghost cseq = Seq::new(s3v.len(), |i: int| reorient(canon_spec(s3v[i], VarScheme::Canonical)));
        let m3 = s3.len();
        let mut s4: Vec<Equation> = Vec::new();
        let ghost mut s4v = Seq::<EquationV>::empty();
        let mut k3: usize = 0;
        proof {
            assert(s4v =~= Seq::new(s4@.len(), |i: int| s4@[i]@));
        }
        while k3 < m3
            invariant
                k3 <= m3,
                m3 == s3v.len(),
                s3@.len() == s3v.len(),
                forall|i: int| 0 <= i < s3v.len() ==> (#[trigger] s3@[i])@ == s3v[i],
                s4v == Seq::new(s4@.len(), |i: int| s4@[i]@),
                forall|x: EquationV| #[trigger]
                    s4v.contains(x) ==> cseq.contains(x) && x.lhs != x.rhs,
                forall|j: int|
                    0 <= j < k3 && cseq[j].lhs != cseq[j].rhs ==> s4v.contains(#[trigger] cseq[j]),
                forall|i: int, j: int| 0 <= i < j < s4v.len() ==> s4v[i] != s4v[j],
                forall|i: int|
                    0 <= i < s4v.len() ==> ((#[trigger] s4v[i]).oriented ==> kbo(
                        s4v[i].lhs,
                        s4v[i].rhs,
                    ) == Comparison::Gt),
                forall|i: int| 0 <= i < s4v.len() ==> (#[trigger] s4v[i]).lhs != s4v[i].rhs,
            decreases m3 - k3,
        {
            let e = Equation {
                lhs: s3[k3].lhs.clone(),
                rhs: s3[k3].rhs.clone(),
                oriented: s3[k3].oriented,
            };
            let c = canonize_vars(e);
            let c2 = reorient_exec(c);
            proof {
                assert(c2@ == cseq[k3 as int]);
            }
            let ghost s4v_pre = s4v;
            if !term_eq(&c2.lhs, &c2.rhs) {
                if !vec_contains_eq(&s4, &c2) {
                    s4.push(c2);
                    proof {
                        s4v = s4v.push(cseq[k3 as int]);
                        assert(s4v =~= Seq::new(s4@.len(), |i: int| s4@[i]@));
                        assert forall|x: EquationV| #[trigger]
                            s4v.contains(x) implies cseq.contains(x) && x.lhs != x.rhs by {
                            let i = choose|i: int| 0 <= i < s4v.len() && s4v[i] == x;
                            if i < s4v_pre.len() {
                                assert(s4v_pre.contains(x));
                            } else {
                                assert(x == cseq[k3 as int]);
                                assert(cseq.contains(x));
                            }
                        }
                        assert forall|j: int|
                            0 <= j < k3 + 1 && cseq[j].lhs != cseq[j].rhs implies s4v.contains(
                            #[trigger] cseq[j],
                        ) by {
                            if j < k3 {
                                assert(s4v_pre.contains(cseq[j]));
                                let i = choose|i: int| 0 <= i < s4v_pre.len() && s4v_pre[i] == cseq[j];
                                assert(s4v[i] == cseq[j]);
                            } else {
                                assert(s4v[s4v_pre.len() as int] == cseq[j]);
                            }
                        }
                        assert forall|i: int, j: int|
                            0 <= i < j < s4v.len() implies s4v[i] != s4v[j] by {
                            if j == s4v.len() - 1 {
                                assert(!s4v_pre.contains(c2@));
                                assert(s4v_pre[i] == s4v[i]);
                                if s4v[i] == s4v[j] {
                                    assert(s4v_pre.contains(c2@));
                                }
                            }
                        }
                    }
                } else {
                    proof {
                        assert forall|j: int|
                            0 <= j < k3 + 1 && cseq[j].lhs != cseq[j].rhs implies s4v.contains(
                            #[trigger] cseq[j],
                        ) by {
                            if j == k3 {
                                let i = choose|i: int| 0 <= i < s4@.len() && (#[trigger] s4@[i])@ == c2@;
                                assert(s4v[i] == cseq[j]);
                            }
                        }
                    }
                }
            }
            k3 = k3 + 1;
        }
        proof {
            assert(canon_rel(s3v, s4v)) by {
                assert forall|x: EquationV| #[trigger]
                    cseq.contains(x) && x.lhs != x.rhs implies s4v.contains(x) by {
                    let j = choose|j: int| 0 <= j < cseq.len() && cseq[j] == x;
                }
            }
        }
        let st = State { eqs: s4 };
        proof {
            assert(st@ =~= s4v);
            assert(st.wf());
        }
        let st2 = crate::deduce::deduce_step(st);
        proof {
            assert(deduce_rel(s4v, st2@));
        }
        *self = st2;
        proof {
            assert(tick_rel(pre, self@));
            assert forall|i: int|
                0 <= i < self@.len() implies (#[trigger] self@[i]).lhs != self@[i].rhs by {
                if i < s4v.len() {
                    assert(self@[i] == s4v[i]);
                }
            }
        }
    }

    /// Runs full steps until one changes nothing or the bound is spent.
    /// Returns whether a fixpoint was reached: the completed system. A
    /// `false` reports the bound ran out with work left, never silently.
    #[verifier::loop_isolation(false)]
    pub fn run(&mut self, bound: u64) -> (converged: bool)
        requires
            old(self).wf(),
        ensures
            final(self).wf(),
            exists|k: nat|
                k <= bound && #[trigger] run_rel(old(self)@, final(self)@, k) && (converged || k
                    == bound),
            converged ==> tick_rel(final(self)@, final(self)@),
    {
        let ghost pre = self@;
        let mut t: u64 = 0;
        while t < bound
            invariant
                t <= bound,
                self.wf(),
                run_rel(pre, self@, t as nat),
            decreases bound - t,
        {
            let before = self.snapshot();
            let ghost mid = self@;
            self.tick();
            proof {
                lemma_run_rel_snoc(pre, mid, self@, t as nat);
            }
            let same = {
                let cur = self.equations();
                if before.len() != cur.len() {
                    false
                } else {
                    let mut i: usize = 0;
                    let mut eqall = true;
                    let nn = before.len();
                    while i < nn
                        invariant
                            i <= nn,
                            nn == before@.len(),
                            nn == cur@.len(),
                            forall|j: int| 0 <= j < cur@.len() ==> (#[trigger] cur@[j])@ == self@[j],
                            forall|j: int| 0 <= j < before@.len() ==> (#[trigger] before@[j])@ == mid[j],
                            eqall == forall|j: int| 0 <= j < i ==> mid[j] == self@[j],
                        decreases nn - i,
                    {
                        if !equation_eq(&before[i], &cur[i]) {
                            eqall = false;
                        }
                        i = i + 1;
                    }
                    eqall
                }
            };
            if same {
                proof {
                    assert(mid =~= self@);
                    assert(tick_rel(self@, self@));
                }
                return true;
            }
            t = t + 1;
        }
        false
    }

    /// Applies every oriented rule to the term once, in order.
    #[verifier::loop_isolation(false)]
    fn term_pass_exec(&self, t: Term) -> (res: Term)
        requires
            self.wf(),
        ensures
            res@ == term_pass(t@, self@),
    {
        let n = self.eqs.len();
        let mut cur = t;
        let mut k: usize = 0;
        proof {
            assert(self@.skip(0) =~= self@);
        }
        while k < n
            invariant
                k <= n,
                term_pass(cur@, self@.skip(k as int)) == term_pass(t@, self@),
            decreases n - k,
        {
            proof {
                assert(self@.skip(k as int)[0] == self@[k as int]);
                assert(self@.skip(k as int).drop_first() =~= self@.skip(k as int + 1));
            }
            if self.eqs[k].oriented {
                cur = crate::simplify::simplify_single(cur, &self.eqs[k]);
            }
            k = k + 1;
        }
        proof {
            assert(self@.skip(n as int) =~= Seq::<EquationV>::empty());
        }
        cur
    }

    /// Reduces a term to a normal form under the state's oriented rules,
    /// repeating whole passes until one changes nothing.
    #[verifier::loop_isolation(false)]
    pub fn canonicalize(&self, t: Term) -> (res: Term)
        requires
            self.wf(),
        ensures
            exists|n: nat|
                res@ == term_iter(t@, self@, n) && (term_pass(res@, self@) == res@ || n
                    >= PASS_GUARD as nat),
    {
        let mut cur = t;
        let mut fuel: u64 = PASS_GUARD;
        let ghost n: nat = 0nat;
        loop
            invariant
                fuel <= PASS_GUARD,
                n == PASS_GUARD - fuel,
                cur@ == term_iter(t@, self@, n),
            decreases fuel,
        {
            if fuel == 0 {
                return cur;
            }
            let c2 = self.term_pass_exec(cur.clone());
            if term_eq(&cur, &c2) {
                proof {
                    assert(term_pass(cur@, self@) == cur@);
                }
                return cur;
            }
            proof {
                lemma_term_iter_snoc(t@, self@, n);
            }
            cur = c2;
            fuel = fuel - 1;
            proof {
                n = n + 1;
            }
        }
    }

    /// A copy of the equations as they stand.
    fn snapshot(&self) -> (r: Vec<Equation>)
        ensures
            r@.len() == self@.len(),
            forall|i: int| 0 <= i < self@.len() ==> (#[trigger] r@[i])@ == self@[i],
    {
        let mut out: Vec<Equation> = Vec::new();
        let n = self.eqs.len();
        let mut k: usize = 0;
        #[verifier::loop_isolation(false)]
        while k < n
            invariant
                k <= n,
                out@.len() == k as int,
                forall|i: int| 0 <= i < k ==> (#[trigger] out@[i])@ == self@[i],
            decreases n - k,
        {
            out.push(self.eqs[k].clone());
            k = k + 1;
        }
        out
    }
}

} // verus!
