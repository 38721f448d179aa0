use vstd::prelude::*;
use crate::lang::{lemma_terms_view, terms_view, Term, TermV};

verus! {

broadcast use vstd::seq::group_seq_axioms, vstd::std_specs::vec::group_vec_axioms;

/// A position: the address of a subterm, as the sequence of child indices
/// walked from the root. The root is the empty position.
pub type Pos = Vec<usize>;

/// Whether `p` addresses a subterm of `t`.
pub open spec fn pos_valid(t: TermV, p: Seq<usize>) -> bool
    decreases p.len(),
{
    if p.len() == 0 {
        true
    } else {
        match t {
            TermV::Var(_) => false,
            TermV::Fun(_, cs) => p[0] < cs.len() && pos_valid(cs[p[0] as int], p.drop_first()),
        }
    }
}

/// The subterm of `t` at position `p`.
pub open spec fn subterm_at(t: TermV, p: Seq<usize>) -> TermV
    recommends
        pos_valid(t, p),
    decreases p.len(),
{
    if p.len() == 0 {
        t
    } else {
        match t {
            TermV::Var(_) => t,
            TermV::Fun(_, cs) => subterm_at(cs[p[0] as int], p.drop_first()),
        }
    }
}

/// `t` with the subterm at position `p` replaced by `x`.
pub open spec fn replace_at(t: TermV, p: Seq<usize>, x: TermV) -> TermV
    recommends
        pos_valid(t, p),
    decreases p.len(),
{
    if p.len() == 0 {
        x
    } else {
        match t {
            TermV::Var(_) => t,
            TermV::Fun(f, cs) => TermV::Fun(
                f,
                cs.update(p[0] as int, replace_at(cs[p[0] as int], p.drop_first(), x)),
            ),
        }
    }
}

/// The exact listing of a term's positions: the root first, then, for each
/// child in order, the child's own listing prefixed with its index.
pub open spec fn pos_list(t: TermV) -> Seq<Seq<usize>>
    decreases t,
{
    match t {
        TermV::Var(_) => seq![Seq::<usize>::empty()],
        TermV::Fun(_, cs) => seq![Seq::<usize>::empty()] + pos_list_seq(cs, 0),
    }
}

/// The listings of the children from index `k` on, each prefixed with its
/// index.
pub open spec fn pos_list_seq(ts: Seq<TermV>, k: nat) -> Seq<Seq<usize>>
    decreases ts,
{
    if ts.len() == 0 {
        Seq::empty()
    } else {
        Seq::new(pos_list(ts[0]).len(), |i: int| seq![k as usize] + pos_list(ts[0])[i])
            + pos_list_seq(ts.drop_first(), k + 1)
    }
}

/// A term lists as many positions as it weighs: one per node.
pub proof fn lemma_pos_list_len(t: TermV)
    ensures
        pos_list(t).len() == crate::lang::weight(t),
    decreases t,
{
    match t {
        TermV::Var(_) => {},
        TermV::Fun(_, cs) => {
            lemma_pos_list_seq_len(cs, 0);
        },
    }
}

/// Companion of `lemma_pos_list_len` for child sequences.
proof fn lemma_pos_list_seq_len(ts: Seq<TermV>, k: nat)
    ensures
        pos_list_seq(ts, k).len() == crate::lang::weight_seq(ts),
    decreases ts,
{
    if ts.len() > 0 {
        lemma_pos_list_len(ts[0]);
        lemma_pos_list_seq_len(ts.drop_first(), k + 1);
    }
}

/// Listing one more child at the end.
proof fn lemma_pos_list_seq_snoc(ts: Seq<TermV>, x: TermV, k: nat)
    ensures
        pos_list_seq(ts.push(x), k) == pos_list_seq(ts, k) + Seq::new(
            pos_list(x).len(),
            |i: int| seq![(k + ts.len()) as usize] + pos_list(x)[i],
        ),
    decreases ts,
{
    if ts.len() == 0 {
        assert(ts.push(x).drop_first() =~= Seq::<TermV>::empty());
        assert(pos_list_seq(Seq::<TermV>::empty(), k + 1) == Seq::<Seq<usize>>::empty());
        assert(pos_list_seq(ts.push(x), k) =~= pos_list_seq(ts, k) + Seq::new(
            pos_list(x).len(),
            |i: int| seq![(k + ts.len()) as usize] + pos_list(x)[i],
        ));
    } else {
        assert(ts.push(x).drop_first() =~= ts.drop_first().push(x));
        lemma_pos_list_seq_snoc(ts.drop_first(), x, k + 1);
        assert(Seq::new(
            pos_list(x).len(),
            |i: int| seq![((k + 1) + ts.drop_first().len()) as usize] + pos_list(x)[i],
        ) =~= Seq::new(pos_list(x).len(), |i: int| seq![(k + ts.len()) as usize] + pos_list(x)[i]));
        assert(pos_list_seq(ts.push(x), k) =~= pos_list_seq(ts, k) + Seq::new(
            pos_list(x).len(),
            |i: int| seq![(k + ts.len()) as usize] + pos_list(x)[i],
        ));
    }
}

/// Builds the position `[i]` followed by `q`.
fn prepend(i: usize, q: &Vec<usize>) -> (r: Vec<usize>)
    ensures
        r@ == seq![i] + q@,
{
    let mut r: Vec<usize> = Vec::new();
    r.push(i);
    let n = q.len();
    let mut k: usize = 0;
    #[verifier::loop_isolation(false)]
    while k < n
        invariant
            k <= n,
            r@ == seq![i] + q@.take(k as int),
        decreases n - k,
    {
        r.push(q[k]);
        proof {
            assert(seq![i] + q@.take(k as int + 1) =~= (seq![i] + q@.take(k as int)).push(
                q@[k as int],
            ));
        }
        k = k + 1;
    }
    proof {
        assert(q@.take(n as int) =~= q@);
    }
    r
}

/// Lists the positions of `t` in preorder: the root first, then each
/// child's positions in child order, prefixed with the child's index. One
/// position per node, so as many as the term weighs; each listed position
/// is valid, every valid position is listed, and none is listed twice.
#[verifier::loop_isolation(false)]
pub fn positions(t: &Term) -> (r: Vec<Pos>)
    ensures
        Seq::new(r@.len(), |k: int| r@[k]@) == pos_list(t@),
        r@.len() == crate::lang::weight(t@),
        forall|k: int| 0 <= k < r@.len() ==> pos_valid(t@, #[trigger] r@[k]@),
        forall|p: Seq<usize>| pos_valid(t@, p) ==> exists|k: int| 0 <= k < r@.len() && #[trigger] r@[k]@ == p,
        forall|k1: int, k2: int| 0 <= k1 < k2 < r@.len() ==> r@[k1]@ != r@[k2]@,
        r@.len() >= 1 && r@[0]@ == Seq::<usize>::empty(),
    decreases t,
{
    let mut out: Vec<Pos> = Vec::new();
    out.push(Vec::new());
    match t {
        Term::Var(_) => {
            proof {
                assert forall|p: Seq<usize>| pos_valid(t@, p) implies exists|k: int|
                    0 <= k < out@.len() && #[trigger] out@[k]@ == p by {
                    assert(p.len() == 0);
                    assert(p =~= Seq::<usize>::empty());
                    assert(out@[0]@ == p);
                }
                assert(Seq::new(out@.len(), |k: int| out@[k]@) =~= pos_list(t@));
                lemma_pos_list_len(t@);
            }
        },
        Term::Fun(_, args) => {
            proof {
                lemma_terms_view(args@);
            }
            let ghost tv = terms_view(args@);
            let n = args.len();
            let mut i: usize = 0;
            proof {
                assert(tv.take(0) =~= Seq::<TermV>::empty());
                assert(pos_list_seq(tv.take(0), 0) == Seq::<Seq<usize>>::empty());
                assert(Seq::new(out@.len(), |kk: int| out@[kk]@) =~= seq![Seq::<usize>::empty()]
                    + pos_list_seq(tv.take(0), 0));
            }
            while i < n
                invariant
                    i <= n,
                    n == tv.len(),
                    Seq::new(out@.len(), |kk: int| out@[kk]@) == seq![Seq::<usize>::empty()]
                        + pos_list_seq(tv.take(i as int), 0),
                    out@.len() >= 1,
                    out@[0]@ == Seq::<usize>::empty(),
                    forall|k: int|
                        1 <= k < out@.len() ==> (#[trigger] out@[k]@).len() > 0 && out@[k]@[0]
                            < i,
                    forall|k: int| 0 <= k < out@.len() ==> pos_valid(t@, #[trigger] out@[k]@),
                    forall|p: Seq<usize>|
                        #![trigger pos_valid(t@, p)]
                        (pos_valid(t@, p) && p.len() > 0 && p[0] < i) ==> exists|k: int|
                            0 <= k < out@.len() && #[trigger] out@[k]@ == p,
                    forall|k1: int, k2: int| 0 <= k1 < k2 < out@.len() ==> out@[k1]@ != out@[k2]@,
                decreases n - i,
            {
                let cps = positions(&args[i]);
                let m = cps.len();
                let mut j: usize = 0;
                let ghost out_pre = out@;
                while j < m
                    invariant
                        j <= m,
                        out@.len() == out_pre.len() + j,
                        forall|k: int| 0 <= k < out_pre.len() ==> out@[k] == out_pre[k],
                        forall|jj: int|
                            0 <= jj < j ==> out@[out_pre.len() + jj]@ == seq![i] + cps@[jj]@,
                    decreases m - j,
                {
                    let q = prepend(i, &cps[j]);
                    out.push(q);
                    j = j + 1;
                }
                proof {
                    // every new entry is a valid position of t that starts with i
                    assert forall|k: int|
                        0 <= k < out@.len() implies pos_valid(t@, #[trigger] out@[k]@) by {
                        if k >= out_pre.len() {
                            let jj = k - out_pre.len();
                            assert(out@[out_pre.len() + jj]@ == seq![i] + cps@[jj]@);
                            assert(out@[k]@ == seq![i] + cps@[jj]@);
                            assert((seq![i] + cps@[jj]@).drop_first() =~= cps@[jj]@);
                            assert(pos_valid(args@[i as int]@, cps@[jj]@));
                            assert(tv[i as int] == args@[i as int]@);
                        } else {
                            assert(out@[k] == out_pre[k]);
                            assert(pos_valid(t@, out_pre[k]@));
                        }
                    }
                    // completeness for first coordinates up to and including i
                    assert forall|p: Seq<usize>|
                        #![trigger pos_valid(t@, p)]
                        (pos_valid(t@, p) && p.len() > 0 && p[0] < i + 1) implies exists|k: int|
                        0 <= k < out@.len() && #[trigger] out@[k]@ == p by {
                        if p[0] < i {
                            let k = choose|k: int| 0 <= k < out_pre.len() && #[trigger] out_pre[k]@ == p;
                            assert(out@[k]@ == p);
                        } else {
                            assert(p[0] == i);
                            assert(pos_valid(args@[i as int]@, p.drop_first()));
                            let jj = choose|jj: int|
                                0 <= jj < cps@.len() && #[trigger] cps@[jj]@ == p.drop_first();
                            assert(out@[out_pre.len() + jj]@ == seq![i] + cps@[jj]@);
                            assert(out@[out_pre.len() + jj]@ == seq![i] + p.drop_first());
                            assert(seq![i] + p.drop_first() =~= p);
                        }
                    }
                    // distinctness is kept: new entries start with i, differ among
                    // themselves because the child's positions are distinct
                    assert forall|k1: int, k2: int|
                        0 <= k1 < k2 < out@.len() implies out@[k1]@ != out@[k2]@ by {
                        if k2 >= out_pre.len() {
                            let j2 = k2 - out_pre.len();
                            assert(out@[out_pre.len() + j2]@ == seq![i] + cps@[j2]@);
                            assert(out@[k2]@ == seq![i] + cps@[j2]@);
                            if k1 >= out_pre.len() {
                                let j1 = k1 - out_pre.len();
                                assert(out@[out_pre.len() + j1]@ == seq![i] + cps@[j1]@);
                                assert(out@[k1]@ == seq![i] + cps@[j1]@);
                                assert(cps@[j1]@ != cps@[j2]@);
                                assert((seq![i] + cps@[j1]@).drop_first() =~= cps@[j1]@);
                                assert((seq![i] + cps@[j2]@).drop_first() =~= cps@[j2]@);
                            } else {
                                assert(out@[k1] == out_pre[k1]);
                                assert(1 <= k1 < out_pre.len() ==> out_pre[k1]@.len() > 0 && out_pre[k1]@[0] < i);
                                if k1 == 0 {
                                    assert(out@[k1]@.len() == 0);
                                    assert(out@[k2]@.len() > 0);
                                } else {
                                    assert(out@[k1]@[0] < i);
                                    assert(out@[k2]@[0] == i);
                                }
                            }
                        } else {
                            assert(out@[k1] == out_pre[k1]);
                            assert(out@[k2] == out_pre[k2]);
                            assert(out_pre[k1]@ != out_pre[k2]@);
                        }
                    }
                    // first coordinates stay below the next child index
                    assert forall|k: int|
                        1 <= k < out@.len() implies (#[trigger] out@[k]@).len() > 0 && out@[k]@[0]
                        < i + 1 by {
                        if k >= out_pre.len() {
                            let jj = k - out_pre.len();
                            assert(out@[out_pre.len() + jj]@ == seq![i] + cps@[jj]@);
                            assert(out@[k]@ == seq![i] + cps@[jj]@);
                        } else {
                            assert(out@[k] == out_pre[k]);
                        }
                    }
                    // the listing stays the exact preorder one
                    assert(tv.take(i as int + 1) =~= tv.take(i as int).push(tv[i as int]));
                    lemma_pos_list_seq_snoc(tv.take(i as int), tv[i as int], 0);
                    assert(tv[i as int] == args@[i as int]@);
                    assert forall|kk: int|
                        0 <= kk < out@.len() implies out@[kk]@ == (seq![Seq::<usize>::empty()]
                        + pos_list_seq(tv.take(i as int + 1), 0))[kk] by {
                        if kk < out_pre.len() {
                            assert(out@[kk] == out_pre[kk]);
                            assert(Seq::new(out_pre.len(), |x: int| out_pre[x]@)[kk]
                                == out_pre[kk]@);
                        } else {
                            let jj = kk - out_pre.len();
                            assert(out@[out_pre.len() + jj]@ == seq![i] + cps@[jj]@);
                            assert(Seq::new(cps@.len(), |x: int| cps@[x]@)[jj] == cps@[jj]@);
                            assert(pos_list(tv[i as int])[jj] == cps@[jj]@);
                            assert((0 + tv.take(i as int).len()) as usize == i);
                        }
                    }
                    assert(Seq::new(out@.len(), |kk: int| out@[kk]@) =~= seq![
                        Seq::<usize>::empty(),
                    ] + pos_list_seq(tv.take(i as int + 1), 0));
                }
                i = i + 1;
            }
            proof {
                assert forall|p: Seq<usize>| pos_valid(t@, p) implies exists|k: int|
                    0 <= k < out@.len() && #[trigger] out@[k]@ == p by {
                    if p.len() == 0 {
                        assert(p =~= Seq::<usize>::empty());
                        assert(out@[0]@ == p);
                    } else {
                        assert(p[0] < n);
                    }
                }
                assert(tv.take(n as int) =~= tv);
                assert(Seq::new(out@.len(), |kk: int| out@[kk]@) == pos_list(t@));
                lemma_pos_list_len(t@);
            }
        },
    }
    out
}

/// Reads the subterm of `t` at `pos`.
#[verifier::loop_isolation(false)]
pub fn pos_idx<'a>(t: &'a Term, pos: &Pos) -> (r: &'a Term)
    requires
        pos_valid(t@, pos@),
    ensures
        r@ == subterm_at(t@, pos@),
{
    let mut cur: &'a Term = t;
    let n = pos.len();
    let mut k: usize = 0;
    proof {
        assert(pos@.skip(0) =~= pos@);
    }
    while k < n
        invariant
            k <= n,
            pos_valid(cur@, pos@.skip(k as int)),
            subterm_at(t@, pos@) == subterm_at(cur@, pos@.skip(k as int)),
        decreases n - k,
    {
        match cur {
            Term::Fun(_, args) => {
                proof {
                    lemma_terms_view(args@);
                    assert(pos@.skip(k as int).drop_first() =~= pos@.skip(k as int + 1));
                }
                cur = &args[pos[k]];
            },
            Term::Var(_) => {
                proof {
                    assert(false);
                }
            },
        }
        k = k + 1;
    }
    cur
}

/// Builds `t` with the subterm at `pos` replaced by `x`.
pub fn pos_set(t: &Term, pos: &Pos, x: &Term) -> (r: Term)
    requires
        pos_valid(t@, pos@),
    ensures
        r@ == replace_at(t@, pos@, x@),
{
    proof {
        assert(pos@.skip(0) =~= pos@);
    }
    pos_set_from(t, pos, 0, x)
}

/// Replacement below position index `k`.
#[verifier::loop_isolation(false)]
fn pos_set_from(t: &Term, pos: &Pos, k: usize, x: &Term) -> (r: Term)
    requires
        k <= pos.len(),
        pos_valid(t@, pos@.skip(k as int)),
    ensures
        r@ == replace_at(t@, pos@.skip(k as int), x@),
    decreases pos.len() - k,
{
    if k == pos.len() {
        x.clone()
    } else {
        match t {
            Term::Fun(f, args) => {
                proof {
                    lemma_terms_view(args@);
                    assert(pos@.skip(k as int).drop_first() =~= pos@.skip(k as int + 1));
                }
                let ghost tv = terms_view(args@);
                let i = pos[k];
                let sub = pos_set_from(&args[i], pos, k + 1, x);
                let n = args.len();
                let mut newargs: Vec<Term> = Vec::new();
                let mut j: usize = 0;
                while j < n
                    invariant
                        j <= n,
                        newargs@.len() == j as int,
                        forall|jj: int|
                            0 <= jj < j && jj != i ==> (#[trigger] newargs@[jj])@ == tv[jj],
                        i < j ==> newargs@[i as int]@ == sub@,
                    decreases n - j,
                {
                    if j == i {
                        newargs.push(sub.clone());
                    } else {
                        newargs.push(args[j].clone());
                    }
                    j = j + 1;
                }
                let r = Term::Fun(f.clone(), newargs);
                proof {
                    lemma_terms_view(newargs@);
                    assert(terms_view(newargs@) =~= tv.update(
                        i as int,
                        replace_at(tv[i as int], pos@.skip(k as int + 1), x@),
                    ));
                }
                r
            },
            Term::Var(_) => {
                proof {
                    assert(false);
                }
                x.clone()
            },
        }
    }
}

} // verus!
