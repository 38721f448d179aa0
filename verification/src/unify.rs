use vstd::prelude::*;
use crate::lang::{
    count_var, count_var_seq, lemma_terms_view, lemma_weight_pos, terms_view, weight, weight_seq,
    Term, TermV,
};
use crate::pat::{apply, apply_seq, apply_subst, lemma_apply_seq, Subst};
use crate::order::count_occ;
use crate::symbol::{id_eq, Id};

verus! {

broadcast use vstd::seq::group_seq_axioms, vstd::std_specs::vec::group_vec_axioms, vstd::set::group_set_axioms;

/// Whether `m` makes the two terms syntactically identical.
pub open spec fn unifies(m: Map<Seq<char>, TermV>, a: TermV, b: TermV) -> bool {
    apply(m, a) == apply(m, b)
}

/// Whether `m` unifies every listed pair.
pub open spec fn unifies_all(m: Map<Seq<char>, TermV>, ps: Seq<(TermV, TermV)>) -> bool {
    forall|i: int| 0 <= i < ps.len() ==> apply(m, (#[trigger] ps[i]).0) == apply(m, ps[i].1)
}

/// Whether `m` subsumes the bindings of `s`: under `m`, each variable bound
/// by `s` equals its `s`-image.
pub open spec fn absorbs(m: Map<Seq<char>, TermV>, s: Map<Seq<char>, TermV>) -> bool {
    forall|k: Seq<char>| #[trigger]
        s.contains_key(k) ==> apply(m, TermV::Var(k)) == apply(m, s[k])
}

/// Whether `s` is fully composed: applying it to any of its own range terms
/// is a no-op.
pub open spec fn composed(s: Map<Seq<char>, TermV>) -> bool {
    forall|k: Seq<char>| #[trigger] s.contains_key(k) ==> apply(s, s[k]) == s[k]
}

/// Applying a mapping none of whose variables occur in `t` leaves `t` as it
/// stands.
pub proof fn lemma_apply_unbound(m: Map<Seq<char>, TermV>, t: TermV)
    requires
        forall|k: Seq<char>| #[trigger] m.contains_key(k) ==> count_var(t, k) == 0,
    ensures
        apply(m, t) == t,
    decreases t,
{
    match t {
        TermV::Var(v) => {
            if m.contains_key(v) {
                assert(count_var(t, v) == 1);
            }
        },
        TermV::Fun(_, cs) => {
            lemma_apply_unbound_seq(m, cs);
            assert(apply(m, t) =~= t);
        },
    }
}

/// Companion of `lemma_apply_unbound` for sequences.
pub proof fn lemma_apply_unbound_seq(m: Map<Seq<char>, TermV>, ts: Seq<TermV>)
    requires
        forall|k: Seq<char>| #[trigger] m.contains_key(k) ==> count_var_seq(ts, k) == 0,
    ensures
        apply_seq(m, ts) =~= ts,
    decreases ts,
{
    broadcast use lemma_apply_seq;

    if ts.len() > 0 {
        assert forall|k: Seq<char>| #[trigger] m.contains_key(k) implies count_var(ts[0], k) == 0
            by {
            assert(count_var_seq(ts, k) == 0);
        }
        assert forall|k: Seq<char>| #[trigger]
            m.contains_key(k) implies count_var_seq(ts.drop_first(), k) == 0 by {
            assert(count_var_seq(ts, k) == 0);
        }
        lemma_apply_unbound(m, ts[0]);
        lemma_apply_unbound_seq(m, ts.drop_first());
        assert forall|i: int| 0 <= i < ts.len() implies apply_seq(m, ts)[i] == ts[i] by {
            if i > 0 {
                assert(apply_seq(m, ts.drop_first())[i - 1] == ts.drop_first()[i - 1]);
            }
        }
    }
}

/// Bounds the variables of an instantiated term: `v` cannot occur in
/// `apply(m, t)` if every way it could get there is closed off.
pub proof fn lemma_count_var_apply(m: Map<Seq<char>, TermV>, t: TermV, v: Seq<char>)
    requires
        count_var(t, v) > 0 ==> m.contains_key(v),
        forall|k: Seq<char>| #[trigger]
            m.contains_key(k) && count_var(t, k) > 0 ==> count_var(m[k], v) == 0,
    ensures
        count_var(apply(m, t), v) == 0,
    decreases t,
{
    match t {
        TermV::Var(w) => {
            if m.contains_key(w) && count_var(t, w) > 0 {
                assert(count_var(m[w], v) == 0);
            }
        },
        TermV::Fun(_, cs) => {
            lemma_count_var_apply_seq(m, cs, v);
        },
    }
}

/// Companion of `lemma_count_var_apply` for sequences.
pub proof fn lemma_count_var_apply_seq(m: Map<Seq<char>, TermV>, ts: Seq<TermV>, v: Seq<char>)
    requires
        count_var_seq(ts, v) > 0 ==> m.contains_key(v),
        forall|k: Seq<char>| #[trigger]
            m.contains_key(k) && count_var_seq(ts, k) > 0 ==> count_var(m[k], v) == 0,
    ensures
        count_var_seq(apply_seq(m, ts), v) == 0,
    decreases ts,
{
    if ts.len() > 0 {
        assert forall|k: Seq<char>| #[trigger]
            m.contains_key(k) && count_var(ts[0], k) > 0 implies count_var(m[k], v) == 0 by {
            assert(count_var_seq(ts, k) > 0);
        }
        assert forall|k: Seq<char>| #[trigger]
            m.contains_key(k) && count_var_seq(ts.drop_first(), k) > 0 implies count_var(
            m[k],
            v,
        ) == 0 by {
            assert(count_var_seq(ts, k) > 0);
        }
        if count_var(ts[0], v) > 0 {
            assert(count_var_seq(ts, v) > 0);
        }
        if count_var_seq(ts.drop_first(), v) > 0 {
            assert(count_var_seq(ts, v) > 0);
        }
        lemma_count_var_apply(m, ts[0], v);
        lemma_count_var_apply_seq(m, ts.drop_first(), v);
        assert(apply_seq(m, ts).drop_first() =~= apply_seq(m, ts.drop_first()));
    }
}

/// The single binding `x -> t` as a mapping.
pub open spec fn single(x: Seq<char>, t: TermV) -> Map<Seq<char>, TermV> {
    Map::<Seq<char>, TermV>::empty().insert(x, t)
}

/// For any `m` under which `x` and `t` agree, first substituting `t` for
/// `x` changes nothing below `m`.
pub proof fn lemma_subst_absorb(m: Map<Seq<char>, TermV>, x: Seq<char>, t: TermV, u: TermV)
    requires
        apply(m, TermV::Var(x)) == apply(m, t),
    ensures
        apply(m, apply(single(x, t), u)) == apply(m, u),
    decreases u,
{
    match u {
        TermV::Var(w) => {
            if w == x {
                assert(apply(single(x, t), u) == t);
            } else {
                assert(apply(single(x, t), u) == u);
            }
        },
        TermV::Fun(_, cs) => {
            lemma_subst_absorb_seq(m, x, t, cs);
            broadcast use lemma_apply_seq;

            assert(apply(m, apply(single(x, t), u)) =~= apply(m, u));
        },
    }
}

/// Companion of `lemma_subst_absorb` for sequences.
pub proof fn lemma_subst_absorb_seq(
    m: Map<Seq<char>, TermV>,
    x: Seq<char>,
    t: TermV,
    us: Seq<TermV>,
)
    requires
        apply(m, TermV::Var(x)) == apply(m, t),
    ensures
        apply_seq(m, apply_seq(single(x, t), us)) =~= apply_seq(m, us),
    decreases us,
{
    broadcast use lemma_apply_seq;

    if us.len() > 0 {
        lemma_subst_absorb(m, x, t, us[0]);
        lemma_subst_absorb_seq(m, x, t, us.drop_first());
        assert forall|i: int|
            0 <= i < us.len() implies apply_seq(m, apply_seq(single(x, t), us))[i] == apply_seq(
            m,
            us,
        )[i] by {
            if i > 0 {
                assert(apply_seq(m, apply_seq(single(x, t), us.drop_first()))[i - 1] == apply_seq(
                    m,
                    us.drop_first(),
                )[i - 1]);
                assert(apply_seq(single(x, t), us).drop_first() =~= apply_seq(
                    single(x, t),
                    us.drop_first(),
                ));
            }
        }
    }
}

/// An instance of a term is at least as heavy as an instance of any of its
/// variables.
pub proof fn lemma_occurs_weight(m: Map<Seq<char>, TermV>, x: Seq<char>, t: TermV)
    requires
        count_var(t, x) > 0,
    ensures
        weight(apply(m, t)) >= weight(apply(m, TermV::Var(x))),
        t != TermV::Var(x) ==> weight(apply(m, t)) > weight(apply(m, TermV::Var(x))),
    decreases t,
{
    match t {
        TermV::Var(w) => {
            assert(w == x);
        },
        TermV::Fun(_, cs) => {
            lemma_occurs_weight_seq(m, x, cs);
        },
    }
}

/// Companion of `lemma_occurs_weight` for sequences.
pub proof fn lemma_occurs_weight_seq(m: Map<Seq<char>, TermV>, x: Seq<char>, ts: Seq<TermV>)
    requires
        count_var_seq(ts, x) > 0,
    ensures
        weight_seq(apply_seq(m, ts)) >= weight(apply(m, TermV::Var(x))),
    decreases ts,
{
    broadcast use lemma_weight_pos;

    if ts.len() > 0 {
        assert(apply_seq(m, ts).drop_first() =~= apply_seq(m, ts.drop_first()));
        assert(weight_seq(apply_seq(m, ts)) == weight(apply(m, ts[0])) + weight_seq(
            apply_seq(m, ts.drop_first()),
        ));
        if count_var(ts[0], x) > 0 {
            lemma_occurs_weight(m, x, ts[0]);
        } else {
            lemma_occurs_weight_seq(m, x, ts.drop_first());
        }
    }
}

/// No mapping identifies a variable with a larger term containing it: the
/// semantic ground of the occurs check.
pub proof fn lemma_occurs_no_unifier(x: Seq<char>, t: TermV)
    requires
        count_var(t, x) > 0,
        t != TermV::Var(x),
    ensures
        forall|m: Map<Seq<char>, TermV>| apply(m, TermV::Var(x)) != #[trigger] apply(m, t),
{
    assert forall|m: Map<Seq<char>, TermV>| apply(m, TermV::Var(x)) != #[trigger] apply(m, t) by {
        lemma_occurs_weight(m, x, t);
    }
}

/// The models of the pending pairs.
pub open spec fn pairs_view(ps: Seq<(Term, Term)>) -> Seq<(TermV, TermV)> {
    Seq::new(ps.len(), |i: int| (ps[i].0@, ps[i].1@))
}

/// Total weight of the pending pairs.
pub open spec fn pairs_weight(ps: Seq<(Term, Term)>) -> nat
    decreases ps,
{
    if ps.len() == 0 {
        0
    } else {
        pairs_weight(ps.drop_last()) + weight(ps.last().0@) + weight(ps.last().1@)
    }
}

/// No variable bound by `s` occurs in any pending pair.
pub open spec fn clean_pairs(ps: Seq<(TermV, TermV)>, s: Map<Seq<char>, TermV>) -> bool {
    forall|k: Seq<char>, i: int|
        #![trigger s.contains_key(k), ps[i]]
        s.contains_key(k) && 0 <= i < ps.len() ==> count_var(ps[i].0, k) == 0 && count_var(
            ps[i].1,
            k,
        ) == 0
}

/// No variable bound by `s` occurs in any of its own range terms.
pub open spec fn clean_ranges(s: Map<Seq<char>, TermV>) -> bool {
    forall|k: Seq<char>, k2: Seq<char>|
        #![trigger s[k2], s.contains_key(k)]
        s.contains_key(k) && s.contains_key(k2) ==> count_var(s[k2], k) == 0
}

/// Every variable of every pending pair is drawn from `avail`.
pub open spec fn pairs_in(ps: Seq<(TermV, TermV)>, avail: Set<Seq<char>>) -> bool {
    forall|v: Seq<char>, i: int|
        #![trigger avail.contains(v), ps[i]]
        !avail.contains(v) && 0 <= i < ps.len() ==> count_var(ps[i].0, v) == 0 && count_var(
            ps[i].1,
            v,
        ) == 0
}

/// A fully composed substitution absorbs itself.
proof fn lemma_clean_composed(s: Map<Seq<char>, TermV>)
    requires
        clean_ranges(s),
    ensures
        composed(s),
        absorbs(s, s),
{
    assert forall|k: Seq<char>| #[trigger] s.contains_key(k) implies apply(s, s[k]) == s[k] by {
        lemma_apply_unbound(s, s[k]);
    }
}

/// Binds `x` to `t`: substitutes `t` for `x` through the pending pairs and
/// the bindings, then records the binding itself.
#[verifier::loop_isolation(false)]
fn bind_var(
    work: &mut Vec<(Term, Term)>,
    sub: &mut Subst,
    x: &Id,
    t: &Term,
    Ghost(l0): Ghost<TermV>,
    Ghost(r0): Ghost<TermV>,
    Ghost(avail): Ghost<Set<Seq<char>>>,
) -> (availr: Ghost<Set<Seq<char>>>)
    requires
        old(sub).wf(),
        clean_pairs(pairs_view(old(work)@), old(sub)@),
        clean_ranges(old(sub)@),
        avail.finite(),
        forall|k: Seq<char>| #[trigger] old(sub)@.contains_key(k) ==> !avail.contains(k),
        pairs_in(pairs_view(old(work)@), avail),
        !old(sub)@.contains_key(x@),
        avail.contains(x@),
        count_var(t@, x@) == 0,
        forall|k: Seq<char>| #[trigger] old(sub)@.contains_key(k) ==> count_var(t@, k) == 0,
        forall|v: Seq<char>| !#[trigger] avail.contains(v) ==> count_var(t@, v) == 0,
        forall|v: Seq<char>| #[trigger]
            avail.contains(v) ==> count_var(l0, v) > 0 || count_var(r0, v) > 0,
        forall|k: Seq<char>| #[trigger]
            old(sub)@.contains_key(k) ==> count_var(l0, k) > 0 || count_var(r0, k) > 0,
        forall|k: Seq<char>| #[trigger]
            old(sub)@.contains_key(k) ==> old(sub)@[k] != TermV::Var(k),
        forall|s: Map<Seq<char>, TermV>| #[trigger]
            absorbs(s, old(sub)@) && unifies_all(s, pairs_view(old(work)@)) && apply(
                s,
                TermV::Var(x@),
            ) == apply(s, t@) ==> unifies(s, l0, r0),
        forall|s: Map<Seq<char>, TermV>| #[trigger]
            unifies(s, l0, r0) ==> unifies_all(s, pairs_view(old(work)@)) && absorbs(s, old(sub)@)
                && apply(s, TermV::Var(x@)) == apply(s, t@),
    ensures
        final(sub).wf(),
        clean_pairs(pairs_view(final(work)@), final(sub)@),
        clean_ranges(final(sub)@),
        availr@.finite(),
        availr@ == avail.remove(x@),
        forall|k: Seq<char>| #[trigger] final(sub)@.contains_key(k) ==> !availr@.contains(k),
        forall|k: Seq<char>| #[trigger]
            final(sub)@.contains_key(k) ==> count_var(l0, k) > 0 || count_var(r0, k) > 0,
        forall|k: Seq<char>| #[trigger]
            final(sub)@.contains_key(k) ==> final(sub)@[k] != TermV::Var(k),
        pairs_in(pairs_view(final(work)@), availr@),
        forall|s: Map<Seq<char>, TermV>| #[trigger]
            absorbs(s, final(sub)@) && unifies_all(s, pairs_view(final(work)@)) ==> unifies(
                s,
                l0,
                r0,
            ),
        forall|s: Map<Seq<char>, TermV>| #[trigger]
            unifies(s, l0, r0) ==> unifies_all(s, pairs_view(final(work)@)) && absorbs(
                s,
                final(sub)@,
            ),
{
    let mut single_s = Subst::new();
    single_s.insert(x.clone(), t.clone());
    proof {
        assert(single_s@ =~= single(x@, t@));
    }
    let ghost worke = work@;
    let n = work.len();
    let mut i: usize = 0;
    while i < n
        invariant
            i <= n,
            work@.len() == n as int,
            forall|j: int| i <= j < n ==> work@[j] == worke[j],
            forall|j: int|
                0 <= j < i ==> (#[trigger] work@[j]).0@ == apply(single(x@, t@), worke[j].0@)
                    && work@[j].1@ == apply(single(x@, t@), worke[j].1@),
        decreases n - i,
    {
        let a2 = apply_subst(&work[i].0, &single_s);
        let b2 = apply_subst(&work[i].1, &single_s);
        work.set(i, (a2, b2));
        i = i + 1;
    }
    let ghost sube = sub@;
    sub.subst_values(&single_s);
    sub.insert(x.clone(), t.clone());
    let ghost availr = avail.remove(x@);
    proof {
        let m = single(x@, t@);
        let subn = sub@;
        let pv0 = pairs_view(worke);
        let pv1 = pairs_view(work@);
        assert(subn =~= Map::new(
            |k: Seq<char>| sube.contains_key(k) || k == x@,
            |k: Seq<char>|
                if k == x@ {
                    t@
                } else {
                    apply(m, sube[k])
                },
        ));
        // the new state carries no occurrence of any bound variable
        assert forall|k: Seq<char>, i2: int|
            #![trigger subn.contains_key(k), pv1[i2]]
            subn.contains_key(k) && 0 <= i2 < pv1.len() implies count_var(pv1[i2].0, k) == 0
            && count_var(pv1[i2].1, k) == 0 by {
            lemma_count_var_apply(m, pv0[i2].0, k);
            lemma_count_var_apply(m, pv0[i2].1, k);
        }
        assert forall|k: Seq<char>, k2: Seq<char>|
            #![trigger subn[k2], subn.contains_key(k)]
            subn.contains_key(k) && subn.contains_key(k2) implies count_var(subn[k2], k) == 0 by {
            if k2 == x@ {
                // the new binding's term avoids x and all old keys
            } else {
                lemma_count_var_apply(m, sube[k2], k);
            }
        }
        // the new bindings name only variables of the two input terms
        assert forall|k: Seq<char>| #[trigger]
            subn.contains_key(k) implies count_var(l0, k) > 0 || count_var(r0, k) > 0 by {
            if k == x@ {
                assert(avail.contains(x@));
            }
        }
        // and none is the trivial binding of a variable to itself
        assert forall|k: Seq<char>| #[trigger]
            subn.contains_key(k) implies subn[k] != TermV::Var(k) by {
            if k == x@ {
                assert(count_var(t@, x@) == 0);
                assert(count_var(TermV::Var(x@), x@) == 1);
            } else {
                match sube[k] {
                    TermV::Var(w) => {
                        if w == x@ {
                            assert(subn[k] == t@);
                            assert(count_var(t@, k) == 0);
                            assert(count_var(TermV::Var(k), k) == 1);
                        } else {
                            assert(subn[k] == TermV::Var(w));
                            assert(sube[k] != TermV::Var(k));
                        }
                    },
                    TermV::Fun(_, _) => {
                        assert(subn[k] is Fun);
                    },
                }
            }
        }
        assert forall|v: Seq<char>, i2: int|
            #![trigger availr.contains(v), pv1[i2]]
            !availr.contains(v) && 0 <= i2 < pv1.len() implies count_var(pv1[i2].0, v) == 0
            && count_var(pv1[i2].1, v) == 0 by {
            if v == x@ {
                lemma_count_var_apply(m, pv0[i2].0, v);
                lemma_count_var_apply(m, pv0[i2].1, v);
            } else {
                lemma_count_var_apply(m, pv0[i2].0, v);
                lemma_count_var_apply(m, pv0[i2].1, v);
            }
        }
        // soundness of the new state
        assert forall|s: Map<Seq<char>, TermV>| #[trigger]
            absorbs(s, subn) && unifies_all(s, pv1) implies unifies(s, l0, r0) by {
            assert(apply(s, TermV::Var(x@)) == apply(s, subn[x@]));
            assert(subn[x@] == t@);
            assert forall|k: Seq<char>| #[trigger]
                sube.contains_key(k) implies apply(s, TermV::Var(k)) == apply(s, sube[k]) by {
                assert(subn.contains_key(k));
                assert(subn[k] == apply(m, sube[k]));
                assert(apply(s, TermV::Var(k)) == apply(s, apply(m, sube[k])));
                lemma_subst_absorb(s, x@, t@, sube[k]);
            }
            assert forall|i2: int| 0 <= i2 < pv0.len() implies apply(s, (#[trigger] pv0[i2]).0)
                == apply(s, pv0[i2].1) by {
                assert(pv1[i2].0 == apply(m, pv0[i2].0));
                assert(pv1[i2].1 == apply(m, pv0[i2].1));
                assert(apply(s, pv1[i2].0) == apply(s, pv1[i2].1));
                lemma_subst_absorb(s, x@, t@, pv0[i2].0);
                lemma_subst_absorb(s, x@, t@, pv0[i2].1);
            }
            assert(absorbs(s, sube));
            assert(unifies_all(s, pv0));
        }
        // completeness of the new state
        assert forall|s: Map<Seq<char>, TermV>| #[trigger]
            unifies(s, l0, r0) implies unifies_all(s, pv1) && absorbs(s, subn) by {
            assert(unifies_all(s, pv0));
            assert(absorbs(s, sube));
            assert(apply(s, TermV::Var(x@)) == apply(s, t@));
            assert forall|i2: int| 0 <= i2 < pv1.len() implies apply(s, (#[trigger] pv1[i2]).0)
                == apply(s, pv1[i2].1) by {
                lemma_subst_absorb(s, x@, t@, pv0[i2].0);
                lemma_subst_absorb(s, x@, t@, pv0[i2].1);
                assert(apply(s, pv0[i2].0) == apply(s, pv0[i2].1));
            }
            assert forall|k: Seq<char>| #[trigger]
                subn.contains_key(k) implies apply(s, TermV::Var(k)) == apply(s, subn[k]) by {
                if k == x@ {
                } else {
                    lemma_subst_absorb(s, x@, t@, sube[k]);
                }
            }
        }
    }
    Ghost(availr)
}

/// Computes a most general unifier of `l` and `r`, maintaining a fully
/// composed substitution and rejecting cyclic bindings through the occurs
/// check. Success is owed exactly on unifiable inputs: on `None` no
/// substitution at all makes the two terms equal.
#[verifier::loop_isolation(false)]
#[verifier::rlimit(60)]
pub fn unify(l: &Term, r: &Term) -> (res: Option<Subst>)
    ensures
        match res {
            Some(s) => {
                &&& s.wf()
                &&& composed(s@)
                &&& apply(s@, l@) == apply(s@, r@)
                &&& forall|m: Map<Seq<char>, TermV>| #[trigger]
                    unifies(m, l@, r@) ==> absorbs(m, s@)
                &&& forall|k: Seq<char>| #[trigger]
                    s@.contains_key(k) ==> count_var(l@, k) > 0 || count_var(r@, k) > 0
                &&& forall|k: Seq<char>| #[trigger] s@.contains_key(k) ==> s@[k] != TermV::Var(k)
            },
            None => forall|m: Map<Seq<char>, TermV>| !#[trigger] unifies(m, l@, r@),
        },
{
    let mut work: Vec<(Term, Term)> = Vec::new();
    work.push((l.clone(), r.clone()));
    let mut sub = Subst::new();
    let lvs = crate::order::get_vars(l);
    let rvs = crate::order::get_vars(r);
    let ghost mut avail = lvs@.map(|i: int, id: Id| id@).to_set() + rvs@.map(
        |i: int, id: Id| id@,
    ).to_set();
    proof {
        broadcast use vstd::seq_lib::seq_to_set_is_finite;

        assert(avail.finite());
        assert forall|v: Seq<char>, i: int|
            #![trigger avail.contains(v), pairs_view(work@)[i]]
            !avail.contains(v) && 0 <= i < pairs_view(work@).len() implies count_var(
            pairs_view(work@)[i].0,
            v,
        ) == 0 && count_var(pairs_view(work@)[i].1, v) == 0 by {
            if count_var(l@, v) > 0 {
                assert(crate::order::id_in(lvs@, v));
                let j = choose|j: int| 0 <= j < lvs@.len() && lvs@[j]@ == v;
                assert(lvs@.map(|i2: int, id: Id| id@)[j] == v);
                assert(lvs@.map(|i2: int, id: Id| id@).contains(v));
            }
            if count_var(r@, v) > 0 {
                assert(crate::order::id_in(rvs@, v));
                let j = choose|j: int| 0 <= j < rvs@.len() && rvs@[j]@ == v;
                assert(rvs@.map(|i2: int, id: Id| id@)[j] == v);
                assert(rvs@.map(|i2: int, id: Id| id@).contains(v));
            }
        }
        assert(pairs_view(work@)[0] == (l@, r@));
        assert forall|v: Seq<char>| #[trigger]
            avail.contains(v) implies count_var(l@, v) > 0 || count_var(r@, v) > 0 by {
            if lvs@.map(|i2: int, id: Id| id@).to_set().contains(v) {
                let j = choose|j: int|
                    #![trigger lvs@[j]]
                    0 <= j < lvs@.len() && lvs@.map(|i2: int, id: Id| id@)[j] == v;
                assert(lvs@[j]@ == v);
                assert(count_var(l@, lvs@[j]@) > 0);
            } else {
                let j = choose|j: int|
                    #![trigger rvs@[j]]
                    0 <= j < rvs@.len() && rvs@.map(|i2: int, id: Id| id@)[j] == v;
                assert(rvs@[j]@ == v);
                assert(count_var(r@, rvs@[j]@) > 0);
            }
        }
    }
    loop
        invariant
            sub.wf(),
            clean_pairs(pairs_view(work@), sub@),
            clean_ranges(sub@),
            avail.finite(),
            forall|k: Seq<char>| #[trigger] sub@.contains_key(k) ==> !avail.contains(k),
            forall|v: Seq<char>| #[trigger]
                avail.contains(v) ==> count_var(l@, v) > 0 || count_var(r@, v) > 0,
            forall|k: Seq<char>| #[trigger]
                sub@.contains_key(k) ==> count_var(l@, k) > 0 || count_var(r@, k) > 0,
            forall|k: Seq<char>| #[trigger] sub@.contains_key(k) ==> sub@[k] != TermV::Var(k),
            pairs_in(pairs_view(work@), avail),
            forall|s: Map<Seq<char>, TermV>| #[trigger]
                absorbs(s, sub@) && unifies_all(s, pairs_view(work@)) ==> unifies(s, l@, r@),
            forall|s: Map<Seq<char>, TermV>| #[trigger]
                unifies(s, l@, r@) ==> unifies_all(s, pairs_view(work@)) && absorbs(s, sub@),
        decreases avail.len(), pairs_weight(work@),
    {
        let ghost workb = work@;
        let popped = work.pop();
        match popped {
            None => {
                proof {
                    lemma_clean_composed(sub@);
                    assert(unifies_all(sub@, pairs_view(work@)));
                    assert(unifies(sub@, l@, r@));
                    assert forall|m: Map<Seq<char>, TermV>| #[trigger]
                        unifies(m, l@, r@) implies absorbs(m, sub@) by {}
                }
                return Some(sub);
            },
            Some((a, b)) => {
                proof {
                    broadcast use lemma_weight_pos;

                    assert(pairs_view(work@) =~= pairs_view(workb).drop_last());
                    assert(pairs_view(workb).last() == (a@, b@));
                    assert(workb.last().0@ == a@ && workb.last().1@ == b@);
                    // the popped pair keeps its own invariants
                    assert forall|s: Map<Seq<char>, TermV>| #[trigger]
                        unifies(s, l@, r@) implies apply(s, a@) == apply(s, b@) by {
                        assert(unifies_all(s, pairs_view(workb)));
                        assert(pairs_view(workb)[workb.len() - 1] == (a@, b@));
                    }
                    assert forall|k: Seq<char>| #[trigger] sub@.contains_key(k) implies count_var(
                        a@,
                        k,
                    ) == 0 && count_var(b@, k) == 0 by {
                        assert(pairs_view(workb)[workb.len() - 1] == (a@, b@));
                    }
                    assert forall|v: Seq<char>| !#[trigger] avail.contains(v) implies count_var(
                        a@,
                        v,
                    ) == 0 && count_var(b@, v) == 0 by {
                        assert(pairs_view(workb)[workb.len() - 1] == (a@, b@));
                    }
                }
                let a_var = match &a {
                    Term::Var(_) => true,
                    Term::Fun(_, _) => false,
                };
                if a_var {
                    let x = match a {
                        Term::Var(x) => x,
                        Term::Fun(_, _) => {
                            proof {
                                assert(false);
                            }
                            return None;
                        },
                    };
                    let same = match &b {
                        Term::Var(y) => id_eq(&x, y),
                        Term::Fun(_, _) => false,
                    };
                    if same {
                        proof {
                            assert(a@ == b@);
                            assert forall|s: Map<Seq<char>, TermV>| #[trigger]
                                absorbs(s, sub@) && unifies_all(s, pairs_view(work@)) implies
                                unifies(s, l@, r@) by {
                                assert forall|i: int|
                                    0 <= i < pairs_view(workb).len() implies apply(
                                    s,
                                    (#[trigger] pairs_view(workb)[i]).0,
                                ) == apply(s, pairs_view(workb)[i].1) by {
                                    if i < pairs_view(workb).len() - 1 {
                                        assert(pairs_view(work@)[i] == pairs_view(workb)[i]);
                                    }
                                }
                            }
                        }
                        continue ;
                    }
                    if count_occ(&b, &x) > 0 {
                        proof {
                            lemma_occurs_no_unifier(x@, b@);
                            assert forall|m: Map<Seq<char>, TermV>| !#[trigger] unifies(
                                m,
                                l@,
                                r@,
                            ) by {
                                if unifies(m, l@, r@) {
                                    assert(apply(m, a@) == apply(m, b@));
                                }
                            }
                        }
                        return None;
                    }
                    proof {
                        assert forall|s: Map<Seq<char>, TermV>| #[trigger]
                            absorbs(s, sub@) && unifies_all(s, pairs_view(work@)) && apply(
                                s,
                                TermV::Var(x@),
                            ) == apply(s, b@) implies unifies(s, l@, r@) by {
                            assert forall|i: int|
                                0 <= i < pairs_view(workb).len() implies apply(
                                s,
                                (#[trigger] pairs_view(workb)[i]).0,
                            ) == apply(s, pairs_view(workb)[i].1) by {
                                if i < pairs_view(workb).len() - 1 {
                                    assert(pairs_view(work@)[i] == pairs_view(workb)[i]);
                                }
                            }
                        }
                    }
                    let availr = bind_var(
                        &mut work,
                        &mut sub,
                        &x,
                        &b,
                        Ghost(l@),
                        Ghost(r@),
                        Ghost(avail),
                    );
                    proof {
                        avail = availr@;
                    }
                } else {
                    let b_var = match &b {
                        Term::Var(_) => true,
                        Term::Fun(_, _) => false,
                    };
                    if b_var {
                        let y = match b {
                            Term::Var(y) => y,
                            Term::Fun(_, _) => {
                                proof {
                                    assert(false);
                                }
                                return None;
                            },
                        };
                        if count_occ(&a, &y) > 0 {
                            proof {
                                lemma_occurs_no_unifier(y@, a@);
                                assert forall|m: Map<Seq<char>, TermV>| !#[trigger] unifies(
                                    m,
                                    l@,
                                    r@,
                                ) by {
                                    if unifies(m, l@, r@) {
                                        assert(apply(m, a@) == apply(m, b@));
                                    }
                                }
                            }
                            return None;
                        }
                        proof {
                            assert forall|s: Map<Seq<char>, TermV>| #[trigger]
                                absorbs(s, sub@) && unifies_all(s, pairs_view(work@)) && apply(
                                    s,
                                    TermV::Var(y@),
                                ) == apply(s, a@) implies unifies(s, l@, r@) by {
                                assert forall|i: int|
                                    0 <= i < pairs_view(workb).len() implies apply(
                                    s,
                                    (#[trigger] pairs_view(workb)[i]).0,
                                ) == apply(s, pairs_view(workb)[i].1) by {
                                    if i < pairs_view(workb).len() - 1 {
                                        assert(pairs_view(work@)[i] == pairs_view(workb)[i]);
                                    }
                                }
                            }
                        }
                        let availr = bind_var(
                            &mut work,
                            &mut sub,
                            &y,
                            &a,
                            Ghost(l@),
                            Ghost(r@),
                            Ghost(avail),
                        );
                        proof {
                            avail = availr@;
                        }
                    } else {
                        // both sides are applications
                        let (f, cs) = match &a {
                            Term::Fun(f, cs) => (f, cs),
                            Term::Var(_) => {
                                proof {
                                    assert(false);
                                }
                                return None;
                            },
                        };
                        let (g, ds) = match &b {
                            Term::Fun(g, ds) => (g, ds),
                            Term::Var(_) => {
                                proof {
                                    assert(false);
                                }
                                return None;
                            },
                        };
                        proof {
                            lemma_terms_view(cs@);
                            lemma_terms_view(ds@);
                            broadcast use lemma_apply_seq;

                        }
                        if !id_eq(f, g) {
                            proof {
                                assert forall|m: Map<Seq<char>, TermV>| !#[trigger] unifies(
                                    m,
                                    l@,
                                    r@,
                                ) by {
                                    if unifies(m, l@, r@) {
                                        assert(apply(m, a@) == apply(m, b@));
                                    }
                                }
                            }
                            return None;
                        }
                        if cs.len() != ds.len() {
                            proof {
                                assert forall|m: Map<Seq<char>, TermV>| !#[trigger] unifies(
                                    m,
                                    l@,
                                    r@,
                                ) by {
                                    if unifies(m, l@, r@) {
                                        assert(apply(m, a@) == apply(m, b@));
                                        assert(apply_seq(m, terms_view(cs@)).len() == apply_seq(
                                            m,
                                            terms_view(ds@),
                                        ).len());
                                    }
                                }
                            }
                            return None;
                        }
                        let ghost cv = terms_view(cs@);
                        let ghost dv = terms_view(ds@);
                        let ghost work1 = work@;
                        let nc = cs.len();
                        let mut k: usize = 0;
                        while k < nc
                            invariant
                                k <= nc,
                                work@.len() == work1.len() + k as int,
                                forall|j: int| 0 <= j < work1.len() ==> work@[j] == work1[j],
                                forall|j: int|
                                    0 <= j < k ==> (#[trigger] work@[work1.len() + j]).0@ == cv[j]
                                        && work@[work1.len() + j].1@ == dv[j],
                                pairs_weight(work@) == pairs_weight(work1) + weight_seq(
                                    cv.take(k as int),
                                ) + weight_seq(dv.take(k as int)),
                            decreases nc - k,
                        {
                            let ghost workp = work@;
                            work.push((cs[k].clone(), ds[k].clone()));
                            proof {
                                assert(work@.drop_last() =~= workp);
                                assert(cv.take(k as int + 1) =~= cv.take(k as int) + seq![cv[k as int]]);
                                assert(dv.take(k as int + 1) =~= dv.take(k as int) + seq![dv[k as int]]);
                                crate::lang::lemma_weight_seq_concat(
                                    cv.take(k as int),
                                    seq![cv[k as int]],
                                );
                                crate::lang::lemma_weight_seq_concat(
                                    dv.take(k as int),
                                    seq![dv[k as int]],
                                );
                                assert(seq![cv[k as int]].drop_first() =~= Seq::<TermV>::empty());
                                assert(seq![dv[k as int]].drop_first() =~= Seq::<TermV>::empty());
                                assert(weight_seq(Seq::<TermV>::empty()) == 0);
                            }
                            k = k + 1;
                        }
                        proof {
                            assert(cv.take(nc as int) =~= cv);
                            assert(dv.take(nc as int) =~= dv);
                            // the measure went down by the two head symbols
                            assert(weight(a@) == 1 + weight_seq(cv));
                            assert(weight(b@) == 1 + weight_seq(dv));
                            assert(pairs_weight(workb) == pairs_weight(work1) + weight(a@)
                                + weight(b@));
                            let pvn = pairs_view(work@);
                            let pv1 = pairs_view(work1);
                            // the pushed pairs hold subterm variables only
                            assert forall|kk: Seq<char>, i2: int|
                                #![trigger sub@.contains_key(kk), pvn[i2]]
                                sub@.contains_key(kk) && 0 <= i2 < pvn.len() implies count_var(
                                pvn[i2].0,
                                kk,
                            ) == 0 && count_var(pvn[i2].1, kk) == 0 by {
                                if i2 < pv1.len() {
                                    assert(pvn[i2] == pv1[i2]);
                                } else {
                                    let j = i2 - pv1.len();
                                    assert(work@[work1.len() + j].0@ == cv[j] && work@[work1.len()
                                        + j].1@ == dv[j]);
                                    assert(pvn[i2].0 == cv[j] && pvn[i2].1 == dv[j]);
                                    crate::lang::lemma_count_var_seq_pos(cv, kk);
                                    crate::lang::lemma_count_var_seq_pos(dv, kk);
                                }
                            }
                            assert forall|v: Seq<char>, i2: int|
                                #![trigger avail.contains(v), pvn[i2]]
                                !avail.contains(v) && 0 <= i2 < pvn.len() implies count_var(
                                pvn[i2].0,
                                v,
                            ) == 0 && count_var(pvn[i2].1, v) == 0 by {
                                if i2 < pv1.len() {
                                    assert(pvn[i2] == pv1[i2]);
                                } else {
                                    let j = i2 - pv1.len();
                                    assert(work@[work1.len() + j].0@ == cv[j] && work@[work1.len()
                                        + j].1@ == dv[j]);
                                    assert(pvn[i2].0 == cv[j] && pvn[i2].1 == dv[j]);
                                    crate::lang::lemma_count_var_seq_pos(cv, v);
                                    crate::lang::lemma_count_var_seq_pos(dv, v);
                                }
                            }
                            // soundness: child equations rebuild the popped pair
                            assert forall|s: Map<Seq<char>, TermV>| #[trigger]
                                absorbs(s, sub@) && unifies_all(s, pvn) implies unifies(
                                s,
                                l@,
                                r@,
                            ) by {
                                assert forall|i2: int|
                                    0 <= i2 < cv.len() implies apply(s, cv[i2]) == apply(
                                    s,
                                    dv[i2],
                                ) by {
                                    assert(work@[work1.len() + i2].0@ == cv[i2] && work@[work1.len()
                                        + i2].1@ == dv[i2]);
                                    assert(pvn[pv1.len() + i2].0 == cv[i2]);
                                    assert(pvn[pv1.len() + i2].1 == dv[i2]);
                                    assert(apply(s, pvn[pv1.len() + i2].0) == apply(
                                        s,
                                        pvn[pv1.len() + i2].1,
                                    ));
                                }
                                lemma_apply_seq(s, cv);
                                lemma_apply_seq(s, dv);
                                assert(apply_seq(s, cv) =~= apply_seq(s, dv));
                                assert(apply(s, a@) == apply(s, b@));
                                assert forall|i2: int|
                                    0 <= i2 < pairs_view(workb).len() implies apply(
                                    s,
                                    (#[trigger] pairs_view(workb)[i2]).0,
                                ) == apply(s, pairs_view(workb)[i2].1) by {
                                    if i2 < pairs_view(workb).len() - 1 {
                                        assert(pairs_view(workb)[i2] == pv1[i2]);
                                        assert(pvn[i2] == pv1[i2]);
                                    }
                                }
                            }
                            // completeness: the popped pair decomposes
                            assert forall|s: Map<Seq<char>, TermV>| #[trigger]
                                unifies(s, l@, r@) implies unifies_all(s, pvn) && absorbs(
                                s,
                                sub@,
                            ) by {
                                assert(apply(s, a@) == apply(s, b@));
                                assert(apply_seq(s, cv) == apply_seq(s, dv));
                                assert forall|i2: int| 0 <= i2 < pvn.len() implies apply(
                                    s,
                                    (#[trigger] pvn[i2]).0,
                                ) == apply(s, pvn[i2].1) by {
                                    if i2 < pv1.len() {
                                        assert(pvn[i2] == pv1[i2]);
                                        assert(pairs_view(workb)[i2] == pv1[i2]);
                                        assert(unifies_all(s, pairs_view(workb)));
                                        assert(apply(s, pairs_view(workb)[i2].0) == apply(
                                            s,
                                            pairs_view(workb)[i2].1,
                                        ));
                                    } else {
                                        let j = i2 - pv1.len();
                                        assert(work@[work1.len() + j].0@ == cv[j] && work@[
                                            work1.len() + j].1@ == dv[j]);
                                        assert(pvn[i2].0 == cv[j] && pvn[i2].1 == dv[j]);
                                        lemma_apply_seq(s, cv);
                                        lemma_apply_seq(s, dv);
                                        assert(apply_seq(s, cv)[j] == apply_seq(s, dv)[j]);
                                    }
                                }
                            }
                        }
                    }
                }
            },
        }
    }
}

} // verus!
