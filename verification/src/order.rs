use vstd::prelude::*;
use crate::lang::{
    count_var, count_var_seq, lemma_count_var_seq_pos, lemma_terms_view, lemma_weight_pos,
    lemma_weight_seq_concat, lemma_weight_seq_elem, terms_view, weight, weight_seq, Term, TermV,
};
use crate::symbol::{id_eq, id_lt, sym_lt, Id};

verus! {

broadcast use vstd::seq::group_seq_axioms, vstd::std_specs::vec::group_vec_axioms;

/// Outcome of comparing two terms under the Knuth-Bendix order. The order is
/// partial: incomparability is an ordinary result, distinct from equality,
/// and callers must treat it as such.
#[derive(Clone, Copy, Debug, PartialEq, Eq, Structural)]
pub enum Comparison {
    Lt,
    Eq,
    Gt,
    Inc,
}

/// Whether `s` has at least as many occurrences of every variable as `t`.
pub open spec fn var_dominates(s: TermV, t: TermV) -> bool {
    forall|v: Seq<char>| #[trigger] count_var(t, v) <= count_var(s, v)
}

/// Whether every variable occurs equally often in `s` and in `t`.
pub open spec fn counts_eq(s: TermV, t: TermV) -> bool {
    forall|v: Seq<char>| #[trigger] count_var(s, v) == count_var(t, v)
}

/// Stage one of the Knuth-Bendix comparison: the variable-occurrence
/// profiles, compared pointwise. Profiles that each exceed the other in some
/// variable are incomparable, since either term could then be made the
/// larger one by instantiating the variable the other lacks.
pub open spec fn var_verdict(s: TermV, t: TermV) -> Comparison {
    if counts_eq(s, t) {
        Comparison::Eq
    } else if var_dominates(s, t) {
        Comparison::Gt
    } else if var_dominates(t, s) {
        Comparison::Lt
    } else {
        Comparison::Inc
    }
}

/// The fixed total precedence over symbols, as a three-way comparison.
pub open spec fn sym_cmp(a: Seq<char>, b: Seq<char>) -> Comparison {
    if a == b {
        Comparison::Eq
    } else if sym_lt(a, b) {
        Comparison::Lt
    } else {
        Comparison::Gt
    }
}

/// Combines the variable-profile verdict with the one from weight and
/// precedence: the two must agree, or one must be neutral, else the terms
/// are incomparable.
pub open spec fn kbo_combine(a: Comparison, b: Comparison) -> Comparison {
    if a == Comparison::Inc || b == Comparison::Inc {
        Comparison::Inc
    } else if a == b {
        a
    } else if a == Comparison::Eq {
        b
    } else if b == Comparison::Eq {
        a
    } else {
        Comparison::Inc
    }
}

/// The Knuth-Bendix order with every symbol and variable of weight one:
/// first the variable-profile check, then total weight, then the symbol
/// precedence on the heads, then the first differing pair of children,
/// compared recursively, decides.
pub open spec fn kbo(s: TermV, t: TermV) -> Comparison
    decreases weight(s) + weight(t), 0int,
{
    let wl = if weight(s) < weight(t) {
        Comparison::Lt
    } else if weight(s) > weight(t) {
        Comparison::Gt
    } else {
        match (s, t) {
            (TermV::Var(a), TermV::Var(b)) => if a == b {
                Comparison::Eq
            } else {
                Comparison::Inc
            },
            (TermV::Fun(f, cs), TermV::Fun(g, ds)) => if f == g {
                kbo_lex(cs, ds)
            } else {
                sym_cmp(f, g)
            },
            _ => Comparison::Inc,
        }
    };
    kbo_combine(var_verdict(s, t), wl)
}

/// Lexicographic stage of the Knuth-Bendix order: children are compared
/// pairwise left to right, and the first pair that is not equal decides.
pub open spec fn kbo_lex(ss: Seq<TermV>, ts: Seq<TermV>) -> Comparison
    decreases weight_seq(ss) + weight_seq(ts), 1int,
    via kbo_lex_dec
{
    if ss.len() == 0 && ts.len() == 0 {
        Comparison::Eq
    } else if ss.len() == 0 || ts.len() == 0 {
        Comparison::Inc
    } else if kbo(ss[0], ts[0]) == Comparison::Eq {
        kbo_lex(ss.drop_first(), ts.drop_first())
    } else {
        kbo(ss[0], ts[0])
    }
}

#[via_fn]
proof fn kbo_lex_dec(ss: Seq<TermV>, ts: Seq<TermV>) {
    broadcast use lemma_weight_pos;

    if ss.len() > 0 && ts.len() > 0 {
        assert(weight_seq(ss) == weight(ss[0]) + weight_seq(ss.drop_first()));
        assert(weight_seq(ts) == weight(ts[0]) + weight_seq(ts.drop_first()));
    }
}

/// The mirror image of a comparison outcome.
pub open spec fn flip(c: Comparison) -> Comparison {
    match c {
        Comparison::Lt => Comparison::Gt,
        Comparison::Gt => Comparison::Lt,
        Comparison::Eq => Comparison::Eq,
        Comparison::Inc => Comparison::Inc,
    }
}

/// Comparing in the other direction mirrors the outcome: the order never
/// holds both ways, and incomparability is symmetric.
pub proof fn lemma_kbo_flip(s: TermV, t: TermV)
    ensures
        kbo(t, s) == flip(kbo(s, t)),
    decreases weight(s) + weight(t), 0int,
{
    assert(var_verdict(t, s) == flip(var_verdict(s, t))) by {
        if counts_eq(s, t) {
            assert(counts_eq(t, s)) by {
                assert forall|v: Seq<char>| #[trigger] count_var(t, v) == count_var(s, v) by {
                    assert(count_var(s, v) == count_var(t, v));
                }
            }
        }
        if counts_eq(t, s) {
            assert(counts_eq(s, t)) by {
                assert forall|v: Seq<char>| #[trigger] count_var(s, v) == count_var(t, v) by {
                    assert(count_var(t, v) == count_var(s, v));
                }
            }
        }
    }
    match (s, t) {
        (TermV::Fun(f, cs), TermV::Fun(g, ds)) => {
            if weight(s) == weight(t) {
                if f == g {
                    lemma_kbo_lex_flip(cs, ds);
                } else {
                    crate::symbol::lemma_sym_lt_total(f, g);
                }
            }
        },
        _ => {},
    }
}

/// Companion of `lemma_kbo_flip` for the lexicographic stage.
pub proof fn lemma_kbo_lex_flip(ss: Seq<TermV>, ts: Seq<TermV>)
    ensures
        kbo_lex(ts, ss) == flip(kbo_lex(ss, ts)),
    decreases weight_seq(ss) + weight_seq(ts), 1int,
{
    broadcast use lemma_weight_pos;

    if ss.len() > 0 && ts.len() > 0 {
        lemma_kbo_flip(ss[0], ts[0]);
        if kbo(ss[0], ts[0]) == Comparison::Eq {
            assert(weight_seq(ss) == weight(ss[0]) + weight_seq(ss.drop_first()));
            assert(weight_seq(ts) == weight(ts[0]) + weight_seq(ts.drop_first()));
            lemma_kbo_lex_flip(ss.drop_first(), ts.drop_first());
        }
    }
}

/// The order never holds both ways at once.
pub proof fn lemma_kbo_asymmetric(s: TermV, t: TermV)
    ensures
        !(kbo(s, t) == Comparison::Gt && kbo(t, s) == Comparison::Gt),
{
    lemma_kbo_flip(s, t);
}

/// Incomparability is symmetric.
pub proof fn lemma_kbo_inc_symmetric(s: TermV, t: TermV)
    ensures
        kbo(s, t) == Comparison::Inc <==> kbo(t, s) == Comparison::Inc,
{
    lemma_kbo_flip(s, t);
}

/// Every term compares equal to itself.
pub proof fn lemma_kbo_refl(s: TermV)
    ensures
        kbo(s, s) == Comparison::Eq,
    decreases weight(s) + weight(s), 0int,
{
    assert(counts_eq(s, s));
    match s {
        TermV::Var(_) => {},
        TermV::Fun(_, cs) => {
            lemma_kbo_lex_refl(cs);
        },
    }
}

/// Companion of `lemma_kbo_refl` for the lexicographic stage.
proof fn lemma_kbo_lex_refl(ss: Seq<TermV>)
    ensures
        kbo_lex(ss, ss) == Comparison::Eq,
    decreases weight_seq(ss) + weight_seq(ss), 1int,
{
    broadcast use lemma_weight_pos;

    if ss.len() > 0 {
        lemma_kbo_refl(ss[0]);
        assert(weight_seq(ss) == weight(ss[0]) + weight_seq(ss.drop_first()));
        lemma_kbo_lex_refl(ss.drop_first());
    }
}

/// Only identical terms compare equal.
pub proof fn lemma_kbo_eq_terms(s: TermV, t: TermV)
    requires
        kbo(s, t) == Comparison::Eq,
    ensures
        s == t,
    decreases weight(s) + weight(t), 0int,
{
    match (s, t) {
        (TermV::Var(a), TermV::Var(b)) => {
            assert(a == b);
        },
        (TermV::Fun(f, cs), TermV::Fun(g, ds)) => {
            assert(weight(s) == weight(t));
            assert(f == g);
            assert(kbo_lex(cs, ds) == Comparison::Eq);
            lemma_kbo_lex_eq_terms(cs, ds);
            assert(s =~= t);
        },
        _ => {
            assert(false);
        },
    }
}

/// Companion of `lemma_kbo_eq_terms` for the lexicographic stage.
proof fn lemma_kbo_lex_eq_terms(ss: Seq<TermV>, ts: Seq<TermV>)
    requires
        kbo_lex(ss, ts) == Comparison::Eq,
    ensures
        ss == ts,
    decreases weight_seq(ss) + weight_seq(ts), 1int,
{
    broadcast use lemma_weight_pos;

    if ss.len() == 0 && ts.len() == 0 {
        assert(ss =~= ts);
    } else if ss.len() == 0 || ts.len() == 0 {
        assert(false);
    } else {
        assert(kbo(ss[0], ts[0]) == Comparison::Eq);
        lemma_kbo_eq_terms(ss[0], ts[0]);
        assert(weight_seq(ss) == weight(ss[0]) + weight_seq(ss.drop_first()));
        assert(weight_seq(ts) == weight(ts[0]) + weight_seq(ts.drop_first()));
        lemma_kbo_lex_eq_terms(ss.drop_first(), ts.drop_first());
        assert forall|i: int| 0 <= i < ss.len() implies ss[i] == ts[i] by {
            if i > 0 {
                assert(ss[i] == ss.drop_first()[i - 1]);
                assert(ts[i] == ts.drop_first()[i - 1]);
            }
        }
        assert(ss =~= ts);
    }
}

/// The order is transitive.
pub proof fn lemma_kbo_trans(s: TermV, t: TermV, u: TermV)
    requires
        kbo(s, t) == Comparison::Gt,
        kbo(t, u) == Comparison::Gt,
    ensures
        kbo(s, u) == Comparison::Gt,
    decreases weight(s) + weight(t) + weight(u), 0int,
{
    // the variable profiles compose: s dominates u
    assert(var_verdict(s, t) == Comparison::Gt || var_verdict(s, t) == Comparison::Eq);
    assert(var_verdict(t, u) == Comparison::Gt || var_verdict(t, u) == Comparison::Eq);
    assert(var_dominates(s, t)) by {
        if counts_eq(s, t) {
            assert forall|v: Seq<char>| #[trigger] count_var(t, v) <= count_var(s, v) by {
                assert(count_var(s, v) == count_var(t, v));
            }
        }
    }
    assert(var_dominates(t, u)) by {
        if counts_eq(t, u) {
            assert forall|v: Seq<char>| #[trigger] count_var(u, v) <= count_var(t, v) by {
                assert(count_var(t, v) == count_var(u, v));
            }
        }
    }
    assert(var_dominates(s, u)) by {
        assert forall|v: Seq<char>| #[trigger] count_var(u, v) <= count_var(s, v) by {
            assert(count_var(u, v) <= count_var(t, v));
            assert(count_var(t, v) <= count_var(s, v));
        }
    }
    assert(var_verdict(s, u) == Comparison::Gt || var_verdict(s, u) == Comparison::Eq);
    // the weight-and-precedence parts compose
    if weight(s) > weight(u) {
    } else {
        // neither step can drop the weight, so all three weights agree
        assert(weight(s) >= weight(t)) by {
            if weight(s) < weight(t) {
                assert(kbo(s, t) != Comparison::Gt);
            }
        }
        assert(weight(t) >= weight(u)) by {
            if weight(t) < weight(u) {
                assert(kbo(t, u) != Comparison::Gt);
            }
        }
        assert(weight(s) == weight(t) && weight(t) == weight(u));
        match (s, t, u) {
            (TermV::Fun(f, cs), TermV::Fun(g, ds), TermV::Fun(h, es)) => {
                if f == g && g == h {
                    let w1 = kbo_lex(cs, ds);
                    if w1 == Comparison::Eq {
                        lemma_kbo_lex_eq_terms(cs, ds);
                        assert(s =~= t);
                        lemma_kbo_refl(s);
                        assert(false);
                    }
                    assert(w1 == Comparison::Gt);
                    let w2 = kbo_lex(ds, es);
                    if w2 == Comparison::Eq {
                        lemma_kbo_lex_eq_terms(ds, es);
                        assert(t =~= u);
                        lemma_kbo_refl(t);
                        assert(false);
                    }
                    assert(w2 == Comparison::Gt);
                    assert(weight(s) == 1 + weight_seq(cs));
                    assert(weight(t) == 1 + weight_seq(ds));
                    assert(weight(u) == 1 + weight_seq(es));
                    lemma_kbo_lex_trans(cs, ds, es);
                    assert(kbo_lex(cs, es) == Comparison::Gt);
                } else if f == g {
                    assert(sym_cmp(g, h) == Comparison::Gt);
                    crate::symbol::lemma_sym_lt_total(g, h);
                    assert(sym_lt(h, g));
                    assert(sym_cmp(f, h) == Comparison::Gt) by {
                        crate::symbol::lemma_sym_lt_total(f, h);
                    }
                } else if g == h {
                    assert(sym_cmp(f, g) == Comparison::Gt);
                    crate::symbol::lemma_sym_lt_total(f, g);
                    assert(sym_lt(g, f));
                    assert(sym_cmp(f, h) == Comparison::Gt) by {
                        crate::symbol::lemma_sym_lt_total(f, h);
                    }
                } else {
                    assert(sym_cmp(f, g) == Comparison::Gt);
                    assert(sym_cmp(g, h) == Comparison::Gt);
                    crate::symbol::lemma_sym_lt_total(f, g);
                    crate::symbol::lemma_sym_lt_total(g, h);
                    assert(sym_lt(g, f));
                    assert(sym_lt(h, g));
                    crate::symbol::lemma_sym_lt_trans(h, g, f);
                    assert(sym_cmp(f, h) == Comparison::Gt) by {
                        crate::symbol::lemma_sym_lt_total(f, h);
                    }
                }
            },
            _ => {
                // with equal weights a variable on either side of a strict
                // step leaves it without a greater outcome
                assert(false);
            },
        }
    }
}

/// Companion of `lemma_kbo_trans` for the lexicographic stage.
proof fn lemma_kbo_lex_trans(ss: Seq<TermV>, ts: Seq<TermV>, us: Seq<TermV>)
    requires
        kbo_lex(ss, ts) == Comparison::Gt,
        kbo_lex(ts, us) == Comparison::Gt,
    ensures
        kbo_lex(ss, us) == Comparison::Gt,
    decreases weight_seq(ss) + weight_seq(ts) + weight_seq(us), 1int,
{
    broadcast use lemma_weight_pos;

    assert(ss.len() > 0 && ts.len() > 0 && us.len() > 0);
    assert(weight_seq(ss) == weight(ss[0]) + weight_seq(ss.drop_first()));
    assert(weight_seq(ts) == weight(ts[0]) + weight_seq(ts.drop_first()));
    assert(weight_seq(us) == weight(us[0]) + weight_seq(us.drop_first()));
    let c1 = kbo(ss[0], ts[0]);
    let c2 = kbo(ts[0], us[0]);
    assert(c1 == Comparison::Eq || c1 == Comparison::Gt);
    assert(c2 == Comparison::Eq || c2 == Comparison::Gt);
    if c1 == Comparison::Eq && c2 == Comparison::Eq {
        lemma_kbo_eq_terms(ss[0], ts[0]);
        lemma_kbo_eq_terms(ts[0], us[0]);
        lemma_kbo_refl(ss[0]);
        assert(kbo(ss[0], us[0]) == Comparison::Eq);
        lemma_kbo_lex_trans(ss.drop_first(), ts.drop_first(), us.drop_first());
    } else if c1 == Comparison::Eq {
        lemma_kbo_eq_terms(ss[0], ts[0]);
        assert(kbo(ss[0], us[0]) == Comparison::Gt);
    } else if c2 == Comparison::Eq {
        lemma_kbo_eq_terms(ts[0], us[0]);
        assert(kbo(ss[0], us[0]) == Comparison::Gt);
    } else {
        lemma_kbo_trans(ss[0], ts[0], us[0]);
        assert(kbo(ss[0], us[0]) == Comparison::Gt);
    }
}

/// What a strict comparison gives the rewriting engine: the greater side
/// dominates the lesser's variable profile and is at least as heavy.
pub proof fn lemma_kbo_gt_parts(l: TermV, r: TermV)
    requires
        kbo(l, r) == Comparison::Gt,
    ensures
        forall|v: Seq<char>| #[trigger] count_var(r, v) <= count_var(l, v),
        weight(r) <= weight(l),
{
    assert(var_verdict(l, r) == Comparison::Gt || var_verdict(l, r) == Comparison::Eq);
    assert forall|v: Seq<char>| #[trigger] count_var(r, v) <= count_var(l, v) by {
        if counts_eq(l, r) {
            assert(count_var(l, v) == count_var(r, v));
        }
    }
    if weight(r) > weight(l) {
        assert(kbo(l, r) == kbo_combine(var_verdict(l, r), Comparison::Lt));
        assert(false);
    }
}

/// The order is a simplification order on immediate subterms: a function
/// application is strictly greater than each of its children.
pub proof fn lemma_kbo_subterm(f: Seq<char>, cs: Seq<TermV>, k: int)
    requires
        0 <= k < cs.len(),
    ensures
        kbo(TermV::Fun(f, cs), cs[k]) == Comparison::Gt,
{
    broadcast use lemma_weight_pos;

    let s = TermV::Fun(f, cs);
    let t = cs[k];
    assert forall|v: Seq<char>| #[trigger] count_var(t, v) <= count_var(s, v) by {
        crate::lang::lemma_count_var_seq_elem(cs, k, v);
    }
    lemma_weight_seq_elem(cs, k);
    assert(weight(s) > weight(t));
    assert(var_dominates(s, t));
    if counts_eq(s, t) {
        assert(var_verdict(s, t) == Comparison::Eq);
    } else {
        assert(var_verdict(s, t) == Comparison::Gt);
    }
}

/// A bare variable is incomparable to every distinct term in which it does
/// not occur: either term could be instantiated past the other.
pub proof fn lemma_var_incomparable(v: Seq<char>, t: TermV)
    requires
        count_var(t, v) == 0,
        t != TermV::Var(v),
    ensures
        kbo(TermV::Var(v), t) == Comparison::Inc,
{
    broadcast use lemma_weight_pos;

    let s = TermV::Var(v);
    assert(count_var(s, v) == 1);
    if exists|w: Seq<char>| count_var(t, w) > 0 {
        let w = choose|w: Seq<char>| count_var(t, w) > 0;
        assert(w != v);
        assert(count_var(s, w) == 0);
        assert(!counts_eq(s, t)) by {
            assert(count_var(s, v) != count_var(t, v));
        }
        assert(!var_dominates(s, t)) by {
            assert(!(count_var(t, w) <= count_var(s, w)));
        }
        assert(!var_dominates(t, s)) by {
            assert(!(count_var(s, v) <= count_var(t, v)));
        }
        assert(var_verdict(s, t) == Comparison::Inc);
    } else {
        assert forall|u: Seq<char>| #[trigger] count_var(t, u) == 0 by {}
        assert(var_dominates(s, t));
        assert(!counts_eq(s, t)) by {
            assert(count_var(s, v) != count_var(t, v));
        }
        assert(var_verdict(s, t) == Comparison::Gt);
        match t {
            TermV::Var(w) => {
                assert(count_var(t, w) == 1);
                assert(false);
            },
            TermV::Fun(_, _) => {
                if weight(t) == 1 {
                    assert(kbo(s, t) == kbo_combine(Comparison::Gt, Comparison::Inc));
                } else {
                    assert(weight(s) < weight(t));
                    assert(kbo(s, t) == kbo_combine(Comparison::Gt, Comparison::Lt));
                }
            },
        }
    }
}

/// Computes the weight of a term.
pub fn term_weight(t: &Term) -> (r: usize)
    ensures
        r == weight(t@),
{
    let mut acc: Vec<u8> = Vec::new();
    weight_acc(t, &mut acc);
    acc.len()
}

/// Appends one marker for every node of `t`; the markers count the weight,
/// and their number is bounded by the vector they stand in.
#[verifier::loop_isolation(false)]
fn weight_acc(t: &Term, acc: &mut Vec<u8>)
    ensures
        final(acc)@.len() == old(acc)@.len() + weight(t@),
    decreases t,
{
    acc.push(0u8);
    match t {
        Term::Var(_) => {},
        Term::Fun(_, args) => {
            proof {
                lemma_terms_view(args@);
            }
            let ghost tv = terms_view(args@);
            let ghost base = acc@.len() as int;
            let n = args.len();
            let mut k: usize = 0;
            proof {
                assert(tv.take(0) =~= Seq::<TermV>::empty());
            }
            while k < n
                invariant
                    k <= n,
                    acc@.len() == base + weight_seq(tv.take(k as int)),
                decreases n - k,
            {
                weight_acc(&args[k], acc);
                proof {
                    assert(tv.take(k as int + 1) =~= tv.take(k as int) + seq![tv[k as int]]);
                    lemma_weight_seq_concat(tv.take(k as int), seq![tv[k as int]]);
                    assert(seq![tv[k as int]].drop_first() =~= Seq::<TermV>::empty());
                    assert(weight_seq(Seq::<TermV>::empty()) == 0);
                    assert(weight_seq(seq![tv[k as int]]) == weight(tv[k as int]));
                }
                k = k + 1;
            }
            proof {
                assert(tv.take(n as int) =~= tv);
            }
        },
    }
}

/// Counts how often the variable `v` occurs in `t`.
pub fn count_occ(t: &Term, v: &Id) -> (r: usize)
    ensures
        r == count_var(t@, v@),
{
    let mut acc: Vec<u8> = Vec::new();
    count_occ_acc(t, v, &mut acc);
    acc.len()
}

/// Appends one marker for every occurrence of `v` in `t`.
#[verifier::loop_isolation(false)]
fn count_occ_acc(t: &Term, v: &Id, acc: &mut Vec<u8>)
    ensures
        final(acc)@.len() == old(acc)@.len() + count_var(t@, v@),
    decreases t,
{
    match t {
        Term::Var(x) => {
            if id_eq(x, v) {
                acc.push(0u8);
            }
        },
        Term::Fun(_, args) => {
            proof {
                lemma_terms_view(args@);
            }
            let ghost tv = terms_view(args@);
            let ghost base = acc@.len() as int;
            let n = args.len();
            let mut k: usize = 0;
            proof {
                assert(tv.take(0) =~= Seq::<TermV>::empty());
            }
            while k < n
                invariant
                    k <= n,
                    acc@.len() == base + count_var_seq(tv.take(k as int), v@),
                decreases n - k,
            {
                count_occ_acc(&args[k], v, acc);
                proof {
                    assert(tv.take(k as int + 1) =~= tv.take(k as int) + seq![tv[k as int]]);
                    crate::lang::lemma_count_var_seq_concat(
                        tv.take(k as int),
                        seq![tv[k as int]],
                        v@,
                    );
                    assert(seq![tv[k as int]].drop_first() =~= Seq::<TermV>::empty());
                    assert(count_var_seq(Seq::<TermV>::empty(), v@) == 0);
                    assert(count_var_seq(seq![tv[k as int]], v@) == count_var(tv[k as int], v@));
                }
                k = k + 1;
            }
            proof {
                assert(tv.take(n as int) =~= tv);
            }
        },
    }
}

/// Whether the listed symbols are pairwise distinct names.
pub open spec fn distinct_ids(s: Seq<Id>) -> bool {
    forall|i: int, j: int| 0 <= i < j < s.len() ==> s[i]@ != s[j]@
}

/// Whether the name `v` is listed.
pub open spec fn id_in(s: Seq<Id>, v: Seq<char>) -> bool {
    exists|i: int| 0 <= i < s.len() && s[i]@ == v
}

/// Appends every variable of `t` that is not yet listed, each once.
#[verifier::loop_isolation(false)]
fn acc_distinct_vars(t: &Term, acc: &mut Vec<Id>)
    requires
        distinct_ids(old(acc)@),
    ensures
        distinct_ids(final(acc)@),
        old(acc)@.len() <= final(acc)@.len(),
        forall|j: int| 0 <= j < old(acc)@.len() ==> final(acc)@[j] == old(acc)@[j],
        forall|j: int|
            old(acc)@.len() <= j < final(acc)@.len() ==> count_var(t@, final(acc)@[j]@) > 0,
        forall|v: Seq<char>| count_var(t@, v) > 0 ==> id_in(final(acc)@, v),
    decreases t,
{
    match t {
        Term::Var(x) => {
            let mut found = false;
            let n = acc.len();
            let mut i: usize = 0;
            while i < n
                invariant
                    i <= n,
                    found == exists|j: int| 0 <= j < i && acc@[j]@ == x@,
                decreases n - i,
            {
                if id_eq(&acc[i], x) {
                    found = true;
                }
                i = i + 1;
            }
            if !found {
                let ghost pre = acc@;
                acc.push(x.clone());
                proof {
                    assert(acc@[pre.len() as int]@ == x@);
                    assert(id_in(acc@, x@));
                }
            } else {
                proof {
                    assert(id_in(acc@, x@));
                }
            }
        },
        Term::Fun(_, args) => {
            proof {
                lemma_terms_view(args@);
            }
            let ghost tv = terms_view(args@);
            let ghost len0 = acc@.len() as int;
            let ghost acc0 = acc@;
            let n = args.len();
            let mut k: usize = 0;
            proof {
                assert(tv.take(0) =~= Seq::<TermV>::empty());
            }
            while k < n
                invariant
                    k <= n,
                    distinct_ids(acc@),
                    len0 <= acc@.len(),
                    forall|j: int| 0 <= j < len0 ==> acc@[j] == acc0[j],
                    forall|j: int| len0 <= j < acc@.len() ==> count_var(t@, acc@[j]@) > 0,
                    forall|v: Seq<char>|
                        count_var_seq(tv.take(k as int), v) > 0 ==> id_in(acc@, v),
                decreases n - k,
            {
                let ghost acc_pre = acc@;
                acc_distinct_vars(&args[k], acc);
                proof {
                    assert(tv.take(k as int + 1) =~= tv.take(k as int) + seq![tv[k as int]]);
                    assert(seq![tv[k as int]].drop_first() =~= Seq::<TermV>::empty());
                    // new entries of this child are variables of the whole term
                    assert forall|j: int|
                        len0 <= j < acc@.len() implies count_var(t@, acc@[j]@) > 0 by {
                        if j >= acc_pre.len() {
                            lemma_count_var_seq_pos(tv, acc@[j]@);
                            assert(count_var(tv[k as int], acc@[j]@) > 0);
                        }
                    }
                    // membership of all previously covered names survives
                    assert forall|v: Seq<char>|
                        count_var_seq(tv.take(k as int + 1), v) > 0 implies id_in(acc@, v) by {
                        crate::lang::lemma_count_var_seq_concat(
                            tv.take(k as int),
                            seq![tv[k as int]],
                            v,
                        );
                        assert(count_var_seq(Seq::<TermV>::empty(), v) == 0);
                        assert(count_var_seq(seq![tv[k as int]], v) == count_var(tv[k as int], v));
                        if count_var_seq(tv.take(k as int), v) > 0 {
                            assert(id_in(acc_pre, v));
                            let i = choose|i: int| 0 <= i < acc_pre.len() && acc_pre[i]@ == v;
                            assert(acc@[i]@ == v);
                            assert(id_in(acc@, v));
                        } else {
                            assert(count_var(tv[k as int], v) > 0);
                            assert(count_var(args@[k as int]@, v) > 0);
                            assert(id_in(acc@, v));
                        }
                    }
                }
                k = k + 1;
            }
            proof {
                assert(tv.take(n as int) =~= tv);
                assert forall|v: Seq<char>| count_var(t@, v) > 0 implies id_in(acc@, v) by {
                    assert(count_var_seq(tv, v) > 0);
                }
            }
        },
    }
}

/// Lists the distinct variables of `t`, each once, in first-occurrence
/// order of the depth-first walk.
pub fn get_vars(t: &Term) -> (r: Vec<Id>)
    ensures
        distinct_ids(r@),
        forall|j: int| 0 <= j < r@.len() ==> count_var(t@, #[trigger] r@[j]@) > 0,
        forall|v: Seq<char>| count_var(t@, v) > 0 ==> id_in(r@, v),
{
    let mut out: Vec<Id> = Vec::new();
    acc_distinct_vars(t, &mut out);
    out
}

/// Computes the variable-profile verdict between two terms.
fn var_verdict_exec(s: &Term, t: &Term) -> (r: Comparison)
    ensures
        r == var_verdict(s@, t@),
{
    let mut vars: Vec<Id> = Vec::new();
    acc_distinct_vars(s, &mut vars);
    let ghost vars1 = vars@;
    acc_distinct_vars(t, &mut vars);
    proof {
        assert forall|v: Seq<char>| count_var(s@, v) > 0 implies id_in(vars@, v) by {
            assert(id_in(vars1, v));
            let i = choose|i: int| 0 <= i < vars1.len() && vars1[i]@ == v;
            assert(vars@[i]@ == v);
        }
    }
    let n = vars.len();
    let mut gt_seen = false;
    let mut lt_seen = false;
    let mut i: usize = 0;
    #[verifier::loop_isolation(false)]
    while i < n
        invariant
            i <= n,
            gt_seen == exists|j: int|
                0 <= j < i && count_var(s@, #[trigger] vars@[j]@) > count_var(t@, vars@[j]@),
            lt_seen == exists|j: int|
                0 <= j < i && count_var(s@, #[trigger] vars@[j]@) < count_var(t@, vars@[j]@),
        decreases n - i,
    {
        let cs = count_occ(s, &vars[i]);
        let ct = count_occ(t, &vars[i]);
        if cs > ct {
            gt_seen = true;
            proof {
                assert(count_var(s@, vars@[i as int]@) > count_var(t@, vars@[i as int]@));
            }
        }
        if cs < ct {
            lt_seen = true;
            proof {
                assert(count_var(s@, vars@[i as int]@) < count_var(t@, vars@[i as int]@));
            }
        }
        i = i + 1;
    }
    proof {
        assert forall|v: Seq<char>|
            count_var(s@, v) > 0 || count_var(t@, v) > 0 implies (exists|j: int|
                0 <= j < n && #[trigger] vars@[j]@ == v) by {
            assert(id_in(vars@, v));
        }
    }
    if !gt_seen && !lt_seen {
        proof {
            assert forall|v: Seq<char>| #[trigger] count_var(s@, v) == count_var(t@, v) by {
                if count_var(s@, v) > 0 || count_var(t@, v) > 0 {
                    let j = choose|j: int| 0 <= j < n && #[trigger] vars@[j]@ == v;
                    assert(!(count_var(s@, vars@[j]@) > count_var(t@, vars@[j]@)));
                    assert(!(count_var(s@, vars@[j]@) < count_var(t@, vars@[j]@)));
                }
            }
        }
        Comparison::Eq
    } else if gt_seen && !lt_seen {
        proof {
            assert forall|v: Seq<char>| #[trigger] count_var(t@, v) <= count_var(s@, v) by {
                if count_var(t@, v) > 0 {
                    let j = choose|j: int| 0 <= j < n && #[trigger] vars@[j]@ == v;
                    assert(!(count_var(s@, vars@[j]@) < count_var(t@, vars@[j]@)));
                }
            }
            let j = choose|j: int|
                0 <= j < n && count_var(s@, #[trigger] vars@[j]@) > count_var(t@, vars@[j]@);
            assert(!counts_eq(s@, t@));
        }
        Comparison::Gt
    } else if !gt_seen && lt_seen {
        proof {
            assert forall|v: Seq<char>| #[trigger] count_var(s@, v) <= count_var(t@, v) by {
                if count_var(s@, v) > 0 {
                    let j = choose|j: int| 0 <= j < n && #[trigger] vars@[j]@ == v;
                    assert(!(count_var(s@, vars@[j]@) > count_var(t@, vars@[j]@)));
                }
            }
            let j = choose|j: int|
                0 <= j < n && count_var(s@, #[trigger] vars@[j]@) < count_var(t@, vars@[j]@);
            assert(!counts_eq(s@, t@));
            assert(!var_dominates(s@, t@));
        }
        Comparison::Lt
    } else {
        proof {
            let j = choose|j: int|
                0 <= j < n && count_var(s@, #[trigger] vars@[j]@) > count_var(t@, vars@[j]@);
            let j2 = choose|j2: int|
                0 <= j2 < n && count_var(s@, #[trigger] vars@[j2]@) < count_var(t@, vars@[j2]@);
            assert(!counts_eq(s@, t@));
            assert(!var_dominates(s@, t@));
            assert(!var_dominates(t@, s@));
        }
        Comparison::Inc
    }
}

/// Combines the two stage verdicts, as `kbo_combine` does.
fn kbo_combine_exec(a: Comparison, b: Comparison) -> (r: Comparison)
    ensures
        r == kbo_combine(a, b),
{
    if a == Comparison::Inc || b == Comparison::Inc {
        Comparison::Inc
    } else if a == b {
        a
    } else if a == Comparison::Eq {
        b
    } else if b == Comparison::Eq {
        a
    } else {
        Comparison::Inc
    }
}

/// Compares two terms under the Knuth-Bendix order: the executable form of
/// `kbo`.
#[verifier::loop_isolation(false)]
pub fn kbo_cmp(s: &Term, t: &Term) -> (r: Comparison)
    ensures
        r == kbo(s@, t@),
    decreases weight(s@) + weight(t@),
{
    let vc = var_verdict_exec(s, t);
    let ws = term_weight(s);
    let wt = term_weight(t);
    if ws < wt {
        return kbo_combine_exec(vc, Comparison::Lt);
    }
    if ws > wt {
        return kbo_combine_exec(vc, Comparison::Gt);
    }
    match (s, t) {
        (Term::Var(a), Term::Var(b)) => {
            if id_eq(a, b) {
                kbo_combine_exec(vc, Comparison::Eq)
            } else {
                kbo_combine_exec(vc, Comparison::Inc)
            }
        },
        (Term::Fun(f, cs), Term::Fun(g, ds)) => {
            if !id_eq(f, g) {
                if id_lt(f, g) {
                    kbo_combine_exec(vc, Comparison::Lt)
                } else {
                    kbo_combine_exec(vc, Comparison::Gt)
                }
            } else {
                proof {
                    lemma_terms_view(cs@);
                    lemma_terms_view(ds@);
                }
                let ghost cv = terms_view(cs@);
                let ghost dv = terms_view(ds@);
                let nc = cs.len();
                let nd = ds.len();
                let n = if nc < nd {
                    nc
                } else {
                    nd
                };
                let mut k: usize = 0;
                proof {
                    assert(cv.skip(0) =~= cv);
                    assert(dv.skip(0) =~= dv);
                }
                while k < n
                    invariant
                        k <= n,
                        kbo_lex(cv, dv) == kbo_lex(cv.skip(k as int), dv.skip(k as int)),
                    decreases n - k,
                {
                    proof {
                        lemma_weight_seq_elem(cv, k as int);
                        lemma_weight_seq_elem(dv, k as int);
                    }
                    let c = kbo_cmp(&cs[k], &ds[k]);
                    if c != Comparison::Eq {
                        proof {
                            assert(cv.skip(k as int)[0] == cv[k as int]);
                            assert(dv.skip(k as int)[0] == dv[k as int]);
                            assert(kbo_lex(cv, dv) == c);
                        }
                        return kbo_combine_exec(vc, c);
                    }
                    proof {
                        assert(cv.skip(k as int).drop_first() =~= cv.skip(k as int + 1));
                        assert(dv.skip(k as int).drop_first() =~= dv.skip(k as int + 1));
                    }
                    k = k + 1;
                }
                if nc == nd {
                    proof {
                        assert(cv.skip(n as int) =~= Seq::<TermV>::empty());
                        assert(dv.skip(n as int) =~= Seq::<TermV>::empty());
                    }
                    kbo_combine_exec(vc, Comparison::Eq)
                } else {
                    proof {
                        if nc < nd {
                            assert(cv.skip(n as int) =~= Seq::<TermV>::empty());
                            assert(dv.skip(n as int).len() > 0);
                        } else {
                            assert(dv.skip(n as int) =~= Seq::<TermV>::empty());
                            assert(cv.skip(n as int).len() > 0);
                        }
                    }
                    kbo_combine_exec(vc, Comparison::Inc)
                }
            }
        },
        _ => kbo_combine_exec(vc, Comparison::Inc),
    }
}

} // verus!
