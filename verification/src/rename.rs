use vstd::prelude::*;
use crate::lang::{count_var, count_var_seq, lemma_terms_view, terms_view, Equation, EquationV, Term, TermV};
use crate::pat::{apply, apply_seq as apply_seq_spec, apply_subst, Subst};
use crate::symbol::{gsymb_add, id_eq, Id};
use vstd::string::StringExecFns;

verus! {

broadcast use vstd::seq::group_seq_axioms, vstd::std_specs::vec::group_vec_axioms;

/// The fixed naming schemes used to rename an equation's variables apart:
/// one namespace for the left rule and one for the right rule of an
/// overlap, one for the equation being simplified, and the canonical
/// X, Y, W, ... sequence that printed equations use.
#[derive(Clone, Copy, Debug, PartialEq, Eq, Structural)]
pub enum VarScheme {
    Left,
    Right,
    Inner,
    Canonical,
}

/// The decimal digit character for `d`.
pub open spec fn digit_char(d: nat) -> char {
    ((48 + d) as u32) as char
}

/// The decimal digits of `n`, most significant first.
pub open spec fn digits(n: nat) -> Seq<char>
    decreases n,
{
    if n < 10 {
        seq![digit_char(n)]
    } else {
        digits(n / 10).push(digit_char(n % 10))
    }
}

/// The base letter of the `k`-th canonical name.
pub open spec fn canon_letter(k: nat) -> Seq<char> {
    if k == 0 {
        seq!['X']
    } else if k == 1 {
        seq!['Y']
    } else if k == 2 {
        seq!['W']
    } else if k == 3 {
        seq!['V']
    } else if k == 4 {
        seq!['U']
    } else if k == 5 {
        seq!['T']
    } else {
        seq!['S']
    }
}

/// The name given to the `i`-th fresh variable of a scheme.
pub open spec fn scheme_name(s: VarScheme, i: nat) -> Seq<char> {
    match s {
        VarScheme::Left => seq!['L'] + digits(i),
        VarScheme::Right => seq!['R'] + digits(i),
        VarScheme::Inner => seq!['D'] + digits(i),
        VarScheme::Canonical => canon_letter(i % 7) + if i / 7 == 0 {
            Seq::<char>::empty()
        } else {
            digits(i / 7 + 1)
        },
    }
}

/// The digit as a one-character string.
fn digit_str(d: usize) -> (r: &'static str)
    requires
        d < 10,
    ensures
        r@ == seq![digit_char(d as nat)],
{
    proof {
        reveal_strlit("0");
        reveal_strlit("1");
        reveal_strlit("2");
        reveal_strlit("3");
        reveal_strlit("4");
        reveal_strlit("5");
        reveal_strlit("6");
        reveal_strlit("7");
        reveal_strlit("8");
        reveal_strlit("9");
    }
    if d == 0 {
        "0"
    } else if d == 1 {
        "1"
    } else if d == 2 {
        "2"
    } else if d == 3 {
        "3"
    } else if d == 4 {
        "4"
    } else if d == 5 {
        "5"
    } else if d == 6 {
        "6"
    } else if d == 7 {
        "7"
    } else if d == 8 {
        "8"
    } else {
        "9"
    }
}

/// Writes `n` in decimal.
fn digits_exec(n: usize) -> (r: String)
    ensures
        r@ == digits(n as nat),
    decreases n,
{
    if n < 10 {
        digit_str(n).to_owned()
    } else {
        let mut s = digits_exec(n / 10);
        s.append(digit_str(n % 10));
        s
    }
}

/// Builds the `i`-th name of a scheme.
fn scheme_name_exec(s: VarScheme, i: usize) -> (r: String)
    ensures
        r@ == scheme_name(s, i as nat),
{
    proof {
        reveal_strlit("L");
        reveal_strlit("R");
        reveal_strlit("D");
        reveal_strlit("X");
        reveal_strlit("Y");
        reveal_strlit("W");
        reveal_strlit("V");
        reveal_strlit("U");
        reveal_strlit("T");
        reveal_strlit("S");
    }
    match s {
        VarScheme::Left => {
            let d = digits_exec(i);
            "L".to_owned().concat(d.as_str())
        },
        VarScheme::Right => {
            let d = digits_exec(i);
            "R".to_owned().concat(d.as_str())
        },
        VarScheme::Inner => {
            let d = digits_exec(i);
            "D".to_owned().concat(d.as_str())
        },
        VarScheme::Canonical => {
            let k = i % 7;
            let letter: &'static str = if k == 0 {
                "X"
            } else if k == 1 {
                "Y"
            } else if k == 2 {
                "W"
            } else if k == 3 {
                "V"
            } else if k == 4 {
                "U"
            } else if k == 5 {
                "T"
            } else {
                "S"
            };
            let b = i / 7;
            if b == 0 {
                let r = letter.to_owned();
                proof {
                    assert(r@ =~= canon_letter(i as nat % 7) + Seq::<char>::empty());
                }
                r
            } else {
                let d = digits_exec(b + 1);
                letter.to_owned().concat(d.as_str())
            }
        },
    }
}

/// The names of the listed symbols, in order.
pub open spec fn ids_view(s: Seq<Id>) -> Seq<Seq<char>> {
    Seq::new(s.len(), |i: int| s[i]@)
}

/// First-occurrence variable order: the names already seen, extended by the
/// variables of `t` in depth-first order.
pub open spec fn vo(t: TermV, acc: Seq<Seq<char>>) -> Seq<Seq<char>>
    decreases t,
{
    match t {
        TermV::Var(v) => if acc.contains(v) {
            acc
        } else {
            acc.push(v)
        },
        TermV::Fun(_, cs) => vo_seq(cs, acc),
    }
}

/// Companion of `vo` for sequences, threading the accumulator left to
/// right.
pub open spec fn vo_seq(ts: Seq<TermV>, acc: Seq<Seq<char>>) -> Seq<Seq<char>>
    decreases ts,
{
    if ts.len() == 0 {
        acc
    } else {
        vo_seq(ts.drop_first(), vo(ts[0], acc))
    }
}

/// The variables of an equation in first-occurrence order, left side first.
pub open spec fn eq_var_order(e: EquationV) -> Seq<Seq<char>> {
    vo(e.rhs, vo(e.lhs, Seq::empty()))
}

/// Processing one more term at the end.
pub proof fn lemma_vo_seq_snoc(ts: Seq<TermV>, x: TermV, acc: Seq<Seq<char>>)
    ensures
        vo_seq(ts.push(x), acc) == vo(x, vo_seq(ts, acc)),
    decreases ts,
{
    if ts.len() == 0 {
        assert(ts.push(x).drop_first() =~= Seq::<TermV>::empty());
        assert(vo_seq(ts.push(x), acc) == vo_seq(Seq::<TermV>::empty(), vo(x, acc)));
    } else {
        assert(ts.push(x).drop_first() =~= ts.drop_first().push(x));
        lemma_vo_seq_snoc(ts.drop_first(), x, vo(ts[0], acc));
    }
}

/// What `vo` produces: the accumulator as a prefix, no duplicates, and
/// exactly the names of the accumulator and the term.
pub proof fn lemma_vo_props(t: TermV, acc: Seq<Seq<char>>)
    requires
        forall|i: int, j: int| 0 <= i < j < acc.len() ==> acc[i] != acc[j],
    ensures
        acc.is_prefix_of(vo(t, acc)),
        forall|i: int, j: int| 0 <= i < j < vo(t, acc).len() ==> vo(t, acc)[i] != vo(t, acc)[j],
        forall|v: Seq<char>| #[trigger]
            vo(t, acc).contains(v) <==> acc.contains(v) || count_var(t, v) > 0,
    decreases t,
{
    match t {
        TermV::Var(w) => {
            if !acc.contains(w) {
                assert forall|v: Seq<char>| #[trigger]
                    vo(t, acc).contains(v) implies acc.contains(v) || count_var(t, v) > 0 by {
                    let i = choose|i: int| 0 <= i < vo(t, acc).len() && vo(t, acc)[i] == v;
                    if i < acc.len() {
                        assert(acc[i] == v);
                    } else {
                        assert(v == w);
                    }
                }
                assert forall|v: Seq<char>| acc.contains(v) || count_var(t, v) > 0 implies #[trigger]
                    vo(t, acc).contains(v) by {
                    if acc.contains(v) {
                        let i = choose|i: int| 0 <= i < acc.len() && acc[i] == v;
                        assert(vo(t, acc)[i] == v);
                    } else {
                        assert(v == w);
                        assert(vo(t, acc)[acc.len() as int] == v);
                    }
                }
            } else {
                assert forall|v: Seq<char>| acc.contains(v) || count_var(t, v) > 0 implies #[trigger]
                    vo(t, acc).contains(v) by {
                    if !acc.contains(v) {
                        assert(v == w);
                    }
                }
            }
        },
        TermV::Fun(_, cs) => {
            lemma_vo_seq_props(cs, acc);
        },
    }
}

/// Companion of `lemma_vo_props` for sequences.
pub proof fn lemma_vo_seq_props(ts: Seq<TermV>, acc: Seq<Seq<char>>)
    requires
        forall|i: int, j: int| 0 <= i < j < acc.len() ==> acc[i] != acc[j],
    ensures
        acc.is_prefix_of(vo_seq(ts, acc)),
        forall|i: int, j: int|
            0 <= i < j < vo_seq(ts, acc).len() ==> vo_seq(ts, acc)[i] != vo_seq(ts, acc)[j],
        forall|v: Seq<char>| #[trigger]
            vo_seq(ts, acc).contains(v) <==> acc.contains(v) || count_var_seq(ts, v) > 0,
    decreases ts,
{
    if ts.len() == 0 {
        assert forall|v: Seq<char>| #[trigger]
            vo_seq(ts, acc).contains(v) <==> acc.contains(v) || count_var_seq(ts, v) > 0 by {}
    } else {
        lemma_vo_props(ts[0], acc);
        lemma_vo_seq_props(ts.drop_first(), vo(ts[0], acc));
        assert forall|v: Seq<char>| #[trigger]
            vo_seq(ts, acc).contains(v) implies acc.contains(v) || count_var_seq(ts, v) > 0 by {
            if !acc.contains(v) {
                if vo(ts[0], acc).contains(v) {
                    assert(count_var(ts[0], v) > 0);
                } else {
                    assert(count_var_seq(ts.drop_first(), v) > 0);
                }
            }
        }
        assert forall|v: Seq<char>|
            acc.contains(v) || count_var_seq(ts, v) > 0 implies #[trigger] vo_seq(
            ts,
            acc,
        ).contains(v) by {
            if acc.contains(v) || count_var(ts[0], v) > 0 {
                assert(vo(ts[0], acc).contains(v));
            } else {
                assert(count_var_seq(ts.drop_first(), v) > 0);
            }
        }
    }
}

/// The index of the first occurrence of `v` in `l`.
pub open spec fn first_idx(l: Seq<Seq<char>>, v: Seq<char>) -> int
    recommends
        l.contains(v),
    decreases l.len(),
{
    if l.len() == 0 {
        0
    } else if l[0] == v {
        0
    } else {
        1 + first_idx(l.drop_first(), v)
    }
}

/// In a duplicate-free list, each element indexes itself.
pub proof fn lemma_first_idx(l: Seq<Seq<char>>, i: int)
    requires
        forall|i1: int, j1: int| 0 <= i1 < j1 < l.len() ==> l[i1] != l[j1],
        0 <= i < l.len(),
    ensures
        first_idx(l, l[i]) == i,
    decreases l.len(),
{
    if i > 0 {
        assert(l[0] != l[i]);
        lemma_first_idx(l.drop_first(), i - 1);
        assert(l.drop_first()[i - 1] == l[i]);
    }
}

/// The renaming that a variable order and a scheme determine.
pub open spec fn ren_map(l: Seq<Seq<char>>, s: VarScheme) -> Map<Seq<char>, TermV> {
    Map::new(
        |v: Seq<char>| l.contains(v),
        |v: Seq<char>| TermV::Var(scheme_name(s, first_idx(l, v) as nat)),
    )
}

/// The model of renaming an equation's variables into a scheme's namespace,
/// numbering them in first-occurrence order.
pub open spec fn canon_spec(e: EquationV, s: VarScheme) -> EquationV {
    let m = ren_map(eq_var_order(e), s);
    EquationV { lhs: apply(m, e.lhs), rhs: apply(m, e.rhs), oriented: e.oriented }
}

/// Appends the variables of `t` not yet listed, in first-occurrence order.
#[verifier::loop_isolation(false)]
fn acc_var_order(t: &Term, acc: &mut Vec<Id>)
    ensures
        ids_view(final(acc)@) == vo(t@, ids_view(old(acc)@)),
    decreases t,
{
    match t {
        Term::Var(x) => {
            let mut found = false;
            let n = acc.len();
            let mut i: usize = 0;
            while i < n
                invariant
                    i <= n,
                    found == exists|j: int| 0 <= j < i && acc@[j]@ == x@,
                decreases n - i,
            {
                if id_eq(&acc[i], x) {
                    found = true;
                }
                i = i + 1;
            }
            if !found {
                let ghost pre = acc@;
                acc.push(x.clone());
                proof {
                    assert(!ids_view(pre).contains(x@)) by {
                        if ids_view(pre).contains(x@) {
                            let j = choose|j: int|
                                0 <= j < ids_view(pre).len() && ids_view(pre)[j] == x@;
                            assert(pre[j]@ == x@);
                        }
                    }
                    assert(ids_view(acc@) =~= ids_view(pre).push(x@));
                }
            } else {
                proof {
                    let j = choose|j: int| 0 <= j < acc@.len() && acc@[j]@ == x@;
                    assert(ids_view(acc@)[j] == x@);
                    assert(ids_view(acc@).contains(x@));
                }
            }
        },
        Term::Fun(_, args) => {
            proof {
                lemma_terms_view(args@);
            }
            let ghost tv = terms_view(args@);
            let ghost base = ids_view(acc@);
            let n = args.len();
            let mut k: usize = 0;
            proof {
                assert(tv.take(0) =~= Seq::<TermV>::empty());
            }
            while k < n
                invariant
                    k <= n,
                    ids_view(acc@) == vo_seq(tv.take(k as int), base),
                decreases n - k,
            {
                acc_var_order(&args[k], acc);
                proof {
                    assert(tv.take(k as int + 1) =~= tv.take(k as int).push(tv[k as int]));
                    lemma_vo_seq_snoc(tv.take(k as int), tv[k as int], base);
                }
                k = k + 1;
            }
            proof {
                assert(tv.take(n as int) =~= tv);
            }
        },
    }
}

/// The name under a variable term; meaningful only on variables.
pub open spec fn var_name(t: TermV) -> Seq<char> {
    match t {
        TermV::Var(w) => w,
        TermV::Fun(_, _) => Seq::empty(),
    }
}

/// A consistent renaming: every binding is a bare variable, and no two
/// variables share an image.
pub open spec fn var_renaming(m: Map<Seq<char>, TermV>) -> bool {
    &&& forall|k: Seq<char>| #[trigger] m.contains_key(k) ==> m[k] is Var
    &&& forall|k1: Seq<char>, k2: Seq<char>|
        m.contains_key(k1) && m.contains_key(k2) && k1 != k2 ==> #[trigger] m[k1] != #[trigger] m[k2]
}

/// The images of a list of names under a renaming.
pub open spec fn map_names(m: Map<Seq<char>, TermV>, l: Seq<Seq<char>>) -> Seq<Seq<char>> {
    Seq::new(l.len(), |i: int| var_name(m[l[i]]))
}

/// Membership carries over a renaming, in both directions.
proof fn lemma_map_names_contains(m: Map<Seq<char>, TermV>, l: Seq<Seq<char>>, v: Seq<char>)
    requires
        var_renaming(m),
        m.contains_key(v),
        forall|i: int| 0 <= i < l.len() ==> m.contains_key(#[trigger] l[i]),
    ensures
        map_names(m, l).contains(var_name(m[v])) == l.contains(v),
{
    if l.contains(v) {
        let i = choose|i: int| 0 <= i < l.len() && l[i] == v;
        assert(map_names(m, l)[i] == var_name(m[v]));
    }
    if map_names(m, l).contains(var_name(m[v])) {
        let i = choose|i: int| 0 <= i < l.len() && map_names(m, l)[i] == var_name(m[v]);
        assert(var_name(m[l[i]]) == var_name(m[v]));
        assert(m[l[i]] is Var && m[v] is Var);
        assert(m[l[i]] == m[v]);
        if l[i] != v {
            assert(false);
        }
    }
}

/// First-occurrence order is equivariant under a consistent renaming.
proof fn lemma_vo_equivariant(m: Map<Seq<char>, TermV>, t: TermV, acc: Seq<Seq<char>>)
    requires
        var_renaming(m),
        forall|v: Seq<char>| count_var(t, v) > 0 ==> #[trigger] m.contains_key(v),
        forall|i: int| 0 <= i < acc.len() ==> m.contains_key(#[trigger] acc[i]),
    ensures
        vo(apply(m, t), map_names(m, acc)) == map_names(m, vo(t, acc)),
        forall|i: int| 0 <= i < vo(t, acc).len() ==> m.contains_key(#[trigger] vo(t, acc)[i]),
    decreases t,
{
    match t {
        TermV::Var(v) => {
            assert(count_var(t, v) == 1);
            assert(m.contains_key(v));
            assert(apply(m, t) == m[v]);
            lemma_map_names_contains(m, acc, v);
            if acc.contains(v) {
                assert(vo(t, acc) == acc);
            } else {
                assert(vo(t, acc) == acc.push(v));
                assert(map_names(m, acc.push(v)) =~= map_names(m, acc).push(var_name(m[v])));
            }
        },
        TermV::Fun(_, cs) => {
            lemma_vo_seq_equivariant(m, cs, acc);
            broadcast use crate::pat::lemma_apply_seq;

        },
    }
}

/// Companion of `lemma_vo_equivariant` for sequences.
proof fn lemma_vo_seq_equivariant(m: Map<Seq<char>, TermV>, ts: Seq<TermV>, acc: Seq<Seq<char>>)
    requires
        var_renaming(m),
        forall|v: Seq<char>| count_var_seq(ts, v) > 0 ==> #[trigger] m.contains_key(v),
        forall|i: int| 0 <= i < acc.len() ==> m.contains_key(#[trigger] acc[i]),
    ensures
        vo_seq(apply_seq_spec(m, ts), map_names(m, acc)) == map_names(m, vo_seq(ts, acc)),
        forall|i: int|
            0 <= i < vo_seq(ts, acc).len() ==> m.contains_key(#[trigger] vo_seq(ts, acc)[i]),
    decreases ts,
{
    broadcast use crate::pat::lemma_apply_seq;

    if ts.len() == 0 {
        assert(apply_seq_spec(m, ts) =~= Seq::<TermV>::empty());
    } else {
        assert forall|v: Seq<char>| count_var(ts[0], v) > 0 implies #[trigger] m.contains_key(v)
            by {
            assert(count_var_seq(ts, v) > 0);
        }
        assert forall|v: Seq<char>|
            count_var_seq(ts.drop_first(), v) > 0 implies #[trigger] m.contains_key(v) by {
            assert(count_var_seq(ts, v) > 0);
        }
        lemma_vo_equivariant(m, ts[0], acc);
        lemma_vo_seq_equivariant(m, ts.drop_first(), vo(ts[0], acc));
        assert(apply_seq_spec(m, ts)[0] == apply(m, ts[0]));
        assert(apply_seq_spec(m, ts).drop_first() =~= apply_seq_spec(m, ts.drop_first()));
    }
}

/// First indices carry over a renaming.
proof fn lemma_first_idx_mapped(m: Map<Seq<char>, TermV>, l: Seq<Seq<char>>, v: Seq<char>)
    requires
        var_renaming(m),
        m.contains_key(v),
        forall|i: int| 0 <= i < l.len() ==> m.contains_key(#[trigger] l[i]),
        l.contains(v),
    ensures
        first_idx(map_names(m, l), var_name(m[v])) == first_idx(l, v),
    decreases l.len(),
{
    if l.len() > 0 {
        if l[0] == v {
            assert(map_names(m, l)[0] == var_name(m[v]));
        } else {
            assert(m[l[0]] != m[v]);
            assert(map_names(m, l)[0] != var_name(m[v])) by {
                if var_name(m[l[0]]) == var_name(m[v]) {
                    assert(m[l[0]] is Var && m[v] is Var);
                }
            }
            assert(l.drop_first().contains(v)) by {
                let i = choose|i: int| 0 <= i < l.len() && l[i] == v;
                assert(l.drop_first()[i - 1] == v);
            }
            lemma_first_idx_mapped(m, l.drop_first(), v);
            assert(map_names(m, l).drop_first() =~= map_names(m, l.drop_first()));
        }
    }
}

/// Renaming first, then canonical naming, equals canonical naming alone.
proof fn lemma_apply_ren(
    m: Map<Seq<char>, TermV>,
    ren1: Map<Seq<char>, TermV>,
    ren2: Map<Seq<char>, TermV>,
    t: TermV,
)
    requires
        forall|v: Seq<char>|
            #![trigger count_var(t, v)]
            count_var(t, v) > 0 ==> (m.contains_key(v) && m[v] is Var && ren1.contains_key(v)
                && ren2.contains_key(var_name(m[v])) && ren2[var_name(m[v])] == ren1[v]),
    ensures
        apply(ren2, apply(m, t)) == apply(ren1, t),
    decreases t,
{
    match t {
        TermV::Var(v) => {
            assert(count_var(t, v) == 1);
        },
        TermV::Fun(_, cs) => {
            assert forall|v: Seq<char>|
                #![trigger count_var_seq(cs, v)]
                count_var_seq(cs, v) > 0 implies (m.contains_key(v) && m[v] is Var
                && ren1.contains_key(v) && ren2.contains_key(var_name(m[v])) && ren2[var_name(
                m[v],
            )] == ren1[v]) by {
                assert(count_var(t, v) > 0);
            }
            lemma_apply_ren_seq(m, ren1, ren2, cs);
            broadcast use crate::pat::lemma_apply_seq;

            assert(apply(ren2, apply(m, t)) =~= apply(ren1, t));
        },
    }
}

/// Companion of `lemma_apply_ren` for sequences.
proof fn lemma_apply_ren_seq(
    m: Map<Seq<char>, TermV>,
    ren1: Map<Seq<char>, TermV>,
    ren2: Map<Seq<char>, TermV>,
    ts: Seq<TermV>,
)
    requires
        forall|v: Seq<char>|
            #![trigger count_var_seq(ts, v)]
            count_var_seq(ts, v) > 0 ==> (m.contains_key(v) && m[v] is Var && ren1.contains_key(v)
                && ren2.contains_key(var_name(m[v])) && ren2[var_name(m[v])] == ren1[v]),
    ensures
        apply_seq_spec(ren2, apply_seq_spec(m, ts)) =~= apply_seq_spec(ren1, ts),
    decreases ts,
{
    broadcast use crate::pat::lemma_apply_seq;

    if ts.len() > 0 {
        assert forall|v: Seq<char>|
            #![trigger count_var(ts[0], v)]
            count_var(ts[0], v) > 0 implies (m.contains_key(v) && m[v] is Var
            && ren1.contains_key(v) && ren2.contains_key(var_name(m[v])) && ren2[var_name(m[v])]
            == ren1[v]) by {
            assert(count_var_seq(ts, v) > 0);
        }
        assert forall|v: Seq<char>|
            #![trigger count_var_seq(ts.drop_first(), v)]
            count_var_seq(ts.drop_first(), v) > 0 implies (m.contains_key(v) && m[v] is Var
            && ren1.contains_key(v) && ren2.contains_key(var_name(m[v])) && ren2[var_name(m[v])]
            == ren1[v]) by {
            assert(count_var_seq(ts, v) > 0);
        }
        lemma_apply_ren(m, ren1, ren2, ts[0]);
        lemma_apply_ren_seq(m, ren1, ren2, ts.drop_first());
        assert(apply_seq_spec(m, ts).drop_first() =~= apply_seq_spec(m, ts.drop_first()));
        assert forall|i: int|
            0 <= i < ts.len() implies apply_seq_spec(ren2, apply_seq_spec(m, ts))[i]
            == apply_seq_spec(ren1, ts)[i] by {
            if i > 0 {
                assert(apply_seq_spec(ren2, apply_seq_spec(m, ts.drop_first()))[i - 1]
                    == apply_seq_spec(ren1, ts.drop_first())[i - 1]);
            }
        }
    }
}

/// Two equations that differ only by a consistent renaming of variables
/// canonicalize to the identical equation.
pub proof fn lemma_canon_renamed(m: Map<Seq<char>, TermV>, e1: EquationV, e2: EquationV)
    requires
        var_renaming(m),
        forall|v: Seq<char>|
            count_var(e1.lhs, v) > 0 || count_var(e1.rhs, v) > 0 ==> #[trigger] m.contains_key(v),
        e2.lhs == apply(m, e1.lhs),
        e2.rhs == apply(m, e1.rhs),
        e2.oriented == e1.oriented,
    ensures
        canon_spec(e2, VarScheme::Canonical) == canon_spec(e1, VarScheme::Canonical),
{
    let o1 = eq_var_order(e1);
    let o2 = eq_var_order(e2);
    assert forall|v: Seq<char>| count_var(e1.lhs, v) > 0 implies #[trigger] m.contains_key(v)
        by {}
    assert(map_names(m, Seq::<Seq<char>>::empty()) =~= Seq::<Seq<char>>::empty());
    lemma_vo_equivariant(m, e1.lhs, Seq::empty());
    lemma_vo_equivariant(m, e1.rhs, vo(e1.lhs, Seq::empty()));
    assert(o2 == map_names(m, o1));
    lemma_vo_props(e1.lhs, Seq::empty());
    lemma_vo_props(e1.rhs, vo(e1.lhs, Seq::empty()));
    let ren1 = ren_map(o1, VarScheme::Canonical);
    let ren2 = ren_map(o2, VarScheme::Canonical);
    assert forall|v: Seq<char>|
        #![trigger count_var(e1.lhs, v)]
        count_var(e1.lhs, v) > 0 implies (m.contains_key(v) && m[v] is Var && ren1.contains_key(v)
        && ren2.contains_key(var_name(m[v])) && ren2[var_name(m[v])] == ren1[v]) by {
        assert(o1.contains(v));
        lemma_map_names_contains(m, o1, v);
        assert(o2.contains(var_name(m[v])));
        lemma_first_idx_mapped(m, o1, v);
    }
    assert forall|v: Seq<char>|
        #![trigger count_var(e1.rhs, v)]
        count_var(e1.rhs, v) > 0 implies (m.contains_key(v) && m[v] is Var && ren1.contains_key(v)
        && ren2.contains_key(var_name(m[v])) && ren2[var_name(m[v])] == ren1[v]) by {
        assert(o1.contains(v));
        lemma_map_names_contains(m, o1, v);
        assert(o2.contains(var_name(m[v])));
        lemma_first_idx_mapped(m, o1, v);
    }
    lemma_apply_ren(m, ren1, ren2, e1.lhs);
    lemma_apply_ren(m, ren1, ren2, e1.rhs);
    assert(canon_spec(e2, VarScheme::Canonical) =~= canon_spec(e1, VarScheme::Canonical));
}

/// Renames the equation's variables into the given scheme's namespace, the
/// first variable encountered getting the first name.
pub fn canonize_vars_generic(e: Equation, scheme: VarScheme) -> (r: Equation)
    ensures
        r@ == canon_spec(e@, scheme),
{
    let mut v: Vec<Id> = Vec::new();
    acc_var_order(&e.lhs, &mut v);
    acc_var_order(&e.rhs, &mut v);
    let ghost order = eq_var_order(e@);
    proof {
        assert(ids_view(Seq::<Id>::empty()) =~= Seq::<Seq<char>>::empty());
        assert(ids_view(v@) == order);
        lemma_vo_props(e@.lhs, Seq::empty());
        lemma_vo_props(e@.rhs, vo(e@.lhs, Seq::empty()));
    }
    let n = v.len();
    let mut subst = Subst::new();
    let mut i: usize = 0;
    #[verifier::loop_isolation(false)]
    while i < n
        invariant
            i <= n,
            subst.wf(),
            forall|w: Seq<char>| #[trigger]
                subst@.contains_key(w) <==> exists|j: int| 0 <= j < i && order[j] == w,
            forall|j: int|
                0 <= j < i ==> subst@.contains_key(#[trigger] order[j]) && subst@[order[j]]
                    == TermV::Var(scheme_name(scheme, j as nat)),
        decreases n - i,
    {
        let name = scheme_name_exec(scheme, i);
        subst.insert(v[i].clone(), Term::Var(gsymb_add(name)));
        proof {
            lemma_first_idx(order, i as int);
            assert forall|j: int|
                0 <= j < i + 1 implies subst@.contains_key(#[trigger] order[j]) && subst@[order[j]]
                == TermV::Var(scheme_name(scheme, j as nat)) by {
                if j < i {
                    assert(order[j] != order[i as int]);
                }
            }
        }
        i = i + 1;
    }
    proof {
        assert(subst@ =~= ren_map(order, scheme)) by {
            assert forall|w: Seq<char>| #[trigger]
                subst@.contains_key(w) == order.contains(w) by {
                if subst@.contains_key(w) {
                    let j = choose|j: int| 0 <= j < n && order[j] == w;
                    assert(order.contains(w));
                }
                if order.contains(w) {
                    let j = choose|j: int| 0 <= j < order.len() && order[j] == w;
                }
            }
            assert forall|w: Seq<char>| #[trigger]
                subst@.contains_key(w) implies subst@[w] == ren_map(order, scheme)[w] by {
                let j = choose|j: int| 0 <= j < n && order[j] == w;
                lemma_first_idx(order, j);
                assert(subst@[order[j]] == TermV::Var(scheme_name(scheme, j as nat)));
            }
        }
    }
    let lhs2 = apply_subst(&e.lhs, &subst);
    let rhs2 = apply_subst(&e.rhs, &subst);
    Equation { lhs: lhs2, rhs: rhs2, oriented: e.oriented }
}

/// Renames into the left overlap namespace.
pub fn canonize_vars_l(e: Equation) -> (r: Equation)
    ensures
        r@ == canon_spec(e@, VarScheme::Left),
{
    canonize_vars_generic(e, VarScheme::Left)
}

/// Renames into the right overlap namespace.
pub fn canonize_vars_r(e: Equation) -> (r: Equation)
    ensures
        r@ == canon_spec(e@, VarScheme::Right),
{
    canonize_vars_generic(e, VarScheme::Right)
}

/// Renames into the namespace of the equation under simplification.
pub fn canonize_vars_d(e: Equation) -> (r: Equation)
    ensures
        r@ == canon_spec(e@, VarScheme::Inner),
{
    canonize_vars_generic(e, VarScheme::Inner)
}

/// Renames into the canonical display namespace, under which two equations
/// that differ only by a consistent renaming become identical.
pub fn canonize_vars(e: Equation) -> (r: Equation)
    ensures
        r@ == canon_spec(e@, VarScheme::Canonical),
{
    canonize_vars_generic(e, VarScheme::Canonical)
}

} // verus!
