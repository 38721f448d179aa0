use vstd::prelude::*;
use crate::lang::{count_var, count_var_seq, lemma_terms_view, terms_view, Term, TermV};
use crate::symbol::{id_eq, Id};
use vstd::pervasive::VecAdditionalExecFns;

verus! {

broadcast use vstd::seq::group_seq_axioms, vstd::std_specs::vec::group_vec_axioms;

/// A substitution: a finite mapping from variable names to terms, keys
/// unique. The model is the mapping itself.
#[derive(Debug)]
pub struct Subst {
    entries: Vec<(Id, Term)>,
}

/// Whether the listed entries carry pairwise distinct keys.
pub open spec fn keys_distinct(s: Seq<(Id, Term)>) -> bool {
    forall|i: int, j: int| 0 <= i < j < s.len() ==> s[i].0@ != s[j].0@
}

/// The mapping an entry list stands for.
pub closed spec fn map_of(s: Seq<(Id, Term)>) -> Map<Seq<char>, TermV> {
    Map::new(
        |v: Seq<char>| exists|i: int| 0 <= i < s.len() && s[i].0@ == v,
        |v: Seq<char>|
            {
                let i = choose|i: int| 0 <= i < s.len() && s[i].0@ == v;
                s[i].1@
            },
    )
}

/// With distinct keys, each entry gives its key's value.
proof fn lemma_map_of_index(s: Seq<(Id, Term)>, i: int)
    requires
        keys_distinct(s),
        0 <= i < s.len(),
    ensures
        map_of(s).contains_key(s[i].0@),
        map_of(s)[s[i].0@] == s[i].1@,
{
    let j = choose|j: int| 0 <= j < s.len() && s[j].0@ == s[i].0@;
    assert(j == i);
}

impl Subst {
    /// Internal well-formedness: one entry per variable.
    pub closed spec fn wf(self) -> bool {
        keys_distinct(self.entries@)
    }

    /// The model: the mapping itself.
    pub closed spec fn view(self) -> Map<Seq<char>, TermV> {
        map_of(self.entries@)
    }

    /// The empty substitution.
    pub fn new() -> (r: Subst)
        ensures
            r.wf(),
            r@ == Map::<Seq<char>, TermV>::empty(),
    {
        let r = Subst { entries: Vec::new() };
        proof {
            assert(r@ =~= Map::<Seq<char>, TermV>::empty());
        }
        r
    }

    /// Looks a variable up.
    pub fn get(&self, v: &Id) -> (r: Option<&Term>)
        requires
            self.wf(),
        ensures
            match r {
                Some(t) => self@.contains_key(v@) && t@ == self@[v@],
                None => !self@.contains_key(v@),
            },
    {
        let n = self.entries.len();
        let mut i: usize = 0;
        #[verifier::loop_isolation(false)]
        while i < n
            invariant
                i <= n,
                forall|j: int| 0 <= j < i ==> self.entries@[j].0@ != v@,
            decreases n - i,
        {
            if id_eq(&self.entries[i].0, v) {
                proof {
                    assert(self@.contains_key(v@));
                    let j = choose|j: int|
                        0 <= j < self.entries@.len() && self.entries@[j].0@ == v@;
                    assert(j == i);
                }
                return Some(&self.entries[i].1);
            }
            i = i + 1;
        }
        proof {
            assert(!self@.contains_key(v@));
        }
        None
    }

    /// The index of the entry binding `v`, if there is one.
    fn find_key(&self, v: &Id) -> (r: Option<usize>)
        ensures
            match r {
                Some(i) => i < self.entries@.len() && self.entries@[i as int].0@ == v@,
                None => forall|j: int| 0 <= j < self.entries@.len() ==> self.entries@[j].0@ != v@,
            },
    {
        let n = self.entries.len();
        let mut i: usize = 0;
        #[verifier::loop_isolation(false)]
        while i < n
            invariant
                i <= n,
                forall|j: int| 0 <= j < i ==> self.entries@[j].0@ != v@,
            decreases n - i,
        {
            if id_eq(&self.entries[i].0, v) {
                return Some(i);
            }
            i = i + 1;
        }
        None
    }

    /// Binds `v` to `t`, replacing any earlier binding of `v`.
    pub fn insert(&mut self, v: Id, t: Term)
        requires
            old(self).wf(),
        ensures
            final(self).wf(),
            final(self)@ == old(self)@.insert(v@, t@),
    {
        let ghost olde = self.entries@;
        match self.find_key(&v) {
            Some(i) => {
                self.entries.set(i, (v, t));
                proof {
                    let newe = self.entries@;
                    assert forall|j: int| 0 <= j < newe.len() implies newe[j].0@ == olde[j].0@
                        by {}
                    assert(final(self).wf());
                    assert forall|w: Seq<char>|
                        #[trigger] map_of(newe).contains_key(w) implies old(self)@.insert(
                        v@,
                        t@,
                    ).contains_key(w) && map_of(newe)[w] == old(self)@.insert(v@, t@)[w] by {
                        let j = choose|j: int| 0 <= j < newe.len() && newe[j].0@ == w;
                        lemma_map_of_index(newe, j);
                        if w == v@ {
                            assert(j == i as int);
                            assert(map_of(newe)[w] == t@);
                        } else {
                            assert(j != i as int);
                            lemma_map_of_index(olde, j);
                            assert(map_of(newe)[w] == olde[j].1@);
                            assert(map_of(olde).contains_key(w));
                        }
                    }
                    assert forall|w: Seq<char>|
                        #[trigger] old(self)@.insert(v@, t@).contains_key(w) implies map_of(
                        newe,
                    ).contains_key(w) by {
                        if w == v@ {
                            assert(newe[i as int].0@ == w);
                        } else {
                            let j = choose|j: int| 0 <= j < olde.len() && olde[j].0@ == w;
                            assert(newe[j].0@ == w);
                        }
                    }
                    assert(final(self)@ =~= old(self)@.insert(v@, t@));
                }
            },
            None => {
                self.entries.push((v, t));
                proof {
                    let newe = self.entries@;
                    assert forall|j1: int, j2: int|
                        0 <= j1 < j2 < newe.len() implies newe[j1].0@ != newe[j2].0@ by {
                        if j2 == newe.len() - 1 {
                            assert(newe[j1].0@ != v@);
                        }
                    }
                    assert forall|w: Seq<char>|
                        #[trigger] map_of(newe).contains_key(w) implies old(self)@.insert(
                        v@,
                        t@,
                    ).contains_key(w) && map_of(newe)[w] == old(self)@.insert(v@, t@)[w] by {
                        let j = choose|j: int| 0 <= j < newe.len() && newe[j].0@ == w;
                        lemma_map_of_index(newe, j);
                        if w == v@ {
                            assert(j == newe.len() - 1);
                            assert(map_of(newe)[w] == t@);
                        } else {
                            assert(j < newe.len() - 1);
                            lemma_map_of_index(olde, j);
                            assert(map_of(newe)[w] == olde[j].1@);
                            assert(map_of(olde).contains_key(w));
                        }
                    }
                    assert forall|w: Seq<char>|
                        #[trigger] old(self)@.insert(v@, t@).contains_key(w) implies map_of(
                        newe,
                    ).contains_key(w) by {
                        if w == v@ {
                            assert(newe[newe.len() - 1].0@ == w);
                        } else {
                            let j = choose|j: int| 0 <= j < olde.len() && olde[j].0@ == w;
                            assert(newe[j].0@ == w);
                        }
                    }
                    assert(final(self)@ =~= old(self)@.insert(v@, t@));
                }
            },
        }
    }
}

impl Subst {
    /// Rewrites every bound term with `other`, leaving the domain as it is.
    pub fn subst_values(&mut self, other: &Subst)
        requires
            old(self).wf(),
            other.wf(),
        ensures
            final(self).wf(),
            forall|k: Seq<char>| #[trigger]
                final(self)@.contains_key(k) == old(self)@.contains_key(k),
            forall|k: Seq<char>| #[trigger]
                old(self)@.contains_key(k) ==> final(self)@[k] == apply(other@, old(self)@[k]),
    {
        let ghost olde = self.entries@;
        let n = self.entries.len();
        let mut i: usize = 0;
        #[verifier::loop_isolation(false)]
        while i < n
            invariant
                i <= n,
                self.entries@.len() == n as int,
                forall|j: int|
                    0 <= j < n ==> (#[trigger] self.entries@[j]).0@ == olde[j].0@,
                forall|j: int| 0 <= j < i ==> (#[trigger] self.entries@[j]).1@ == apply(
                    other@,
                    olde[j].1@,
                ),
                forall|j: int| i <= j < n ==> (#[trigger] self.entries@[j]).1@ == olde[j].1@,
            decreases n - i,
        {
            let newv = apply_subst(&self.entries[i].1, other);
            let k = self.entries[i].0.clone();
            self.entries.set(i, (k, newv));
            i = i + 1;
        }
        proof {
            let newe = self.entries@;
            assert(final(self).wf());
            assert forall|k: Seq<char>| #[trigger]
                map_of(newe).contains_key(k) == map_of(olde).contains_key(k) by {
                if map_of(newe).contains_key(k) {
                    let j = choose|j: int| 0 <= j < newe.len() && newe[j].0@ == k;
                    assert(olde[j].0@ == k);
                }
                if map_of(olde).contains_key(k) {
                    let j = choose|j: int| 0 <= j < olde.len() && olde[j].0@ == k;
                    assert(newe[j].0@ == k);
                }
            }
            assert forall|k: Seq<char>| #[trigger]
                map_of(olde).contains_key(k) implies map_of(newe)[k] == apply(
                other@,
                map_of(olde)[k],
            ) by {
                let j = choose|j: int| 0 <= j < olde.len() && olde[j].0@ == k;
                lemma_map_of_index(olde, j);
                lemma_map_of_index(newe, j);
                assert(newe[j].0@ == k);
                assert(map_of(newe)[k] == newe[j].1@);
            }
        }
    }
}

impl Subst {
    /// Whether every binding of `self` also stands in `other`.
    fn contained_in(&self, other: &Subst) -> (r: bool)
        requires
            self.wf(),
            other.wf(),
        ensures
            r == forall|k: Seq<char>| #[trigger]
                self@.contains_key(k) ==> other@.contains_key(k) && other@[k] == self@[k],
    {
        let n = self.entries.len();
        let mut i: usize = 0;
        #[verifier::loop_isolation(false)]
        while i < n
            invariant
                i <= n,
                forall|j: int|
                    0 <= j < i ==> other@.contains_key(#[trigger] self.entries@[j].0@)
                        && other@[self.entries@[j].0@] == self.entries@[j].1@,
            decreases n - i,
        {
            proof {
                lemma_map_of_index(self.entries@, i as int);
            }
            match other.get(&self.entries[i].0) {
                None => {
                    proof {
                        assert(self@.contains_key(self.entries@[i as int].0@));
                    }
                    return false;
                },
                Some(t) => {
                    if !crate::lang::term_eq(t, &self.entries[i].1) {
                        proof {
                            assert(self@[self.entries@[i as int].0@]
                                == self.entries@[i as int].1@);
                        }
                        return false;
                    }
                },
            }
            i = i + 1;
        }
        proof {
            assert forall|k: Seq<char>| #[trigger]
                self@.contains_key(k) implies other@.contains_key(k) && other@[k] == self@[k] by {
                let j = choose|j: int|
                    0 <= j < self.entries@.len() && self.entries@[j].0@ == k;
                lemma_map_of_index(self.entries@, j);
            }
        }
        true
    }

    /// Decides whether two substitutions denote the same mapping.
    pub fn same_mapping(&self, other: &Subst) -> (r: bool)
        requires
            self.wf(),
            other.wf(),
        ensures
            r == (self@ == other@),
    {
        let r = self.contained_in(other) && other.contained_in(self);
        proof {
            if r {
                assert(self@ =~= other@);
            }
        }
        r
    }
}

impl PartialEq for Subst {
    /// Compares the two mappings. The verified core never compares
    /// substitutions through `==`; this stands for callers outside it.
    fn eq(&self, other: &Subst) -> bool {
        let n1 = self.entries.len();
        let n2 = other.entries.len();
        let mut ok = true;
        let mut i: usize = 0;
        #[verifier::loop_isolation(false)]
        while i < n1
            invariant
                i <= n1,
            decreases n1 - i,
        {
            let mut hit = false;
            let mut j: usize = 0;
            while j < n2
                invariant
                    j <= n2,
                    i < n1,
                    n1 == self.entries@.len(),
                    n2 == other.entries@.len(),
                decreases n2 - j,
            {
                if id_eq(&other.entries[j].0, &self.entries[i].0) {
                    if crate::lang::term_eq(&other.entries[j].1, &self.entries[i].1) {
                        hit = true;
                    }
                }
                j = j + 1;
            }
            if !hit {
                ok = false;
            }
            i = i + 1;
        }
        let mut i2: usize = 0;
        #[verifier::loop_isolation(false)]
        while i2 < n2
            invariant
                i2 <= n2,
            decreases n2 - i2,
        {
            let mut hit = false;
            let mut j: usize = 0;
            while j < n1
                invariant
                    j <= n1,
                    i2 < n2,
                    n1 == self.entries@.len(),
                    n2 == other.entries@.len(),
                decreases n1 - j,
            {
                if id_eq(&self.entries[j].0, &other.entries[i2].0) {
                    if crate::lang::term_eq(&self.entries[j].1, &other.entries[i2].1) {
                        hit = true;
                    }
                }
                j = j + 1;
            }
            if !hit {
                ok = false;
            }
            i2 = i2 + 1;
        }
        ok
    }
}

impl vstd::std_specs::cmp::PartialEqSpecImpl for Subst {
    open spec fn obeys_eq_spec() -> bool {
        false
    }

    open spec fn eq_spec(&self, other: &Subst) -> bool {
        self@ == other@
    }
}

impl Default for Subst {
    /// The empty substitution.
    fn default() -> (r: Subst)
        ensures
            r.wf(),
            r@ == Map::<Seq<char>, TermV>::empty(),
    {
        Subst::new()
    }
}

/// Applying a mapping to a term: bound variables are replaced by their
/// terms, unbound variables and function symbols stay.
pub open spec fn apply(m: Map<Seq<char>, TermV>, t: TermV) -> TermV
    decreases t,
{
    match t {
        TermV::Var(v) => if m.contains_key(v) {
            m[v]
        } else {
            TermV::Var(v)
        },
        TermV::Fun(f, cs) => TermV::Fun(f, apply_seq(m, cs)),
    }
}

/// Pointwise application to a sequence of terms.
pub open spec fn apply_seq(m: Map<Seq<char>, TermV>, ts: Seq<TermV>) -> Seq<TermV>
    decreases ts,
{
    if ts.len() == 0 {
        Seq::empty()
    } else {
        seq![apply(m, ts[0])] + apply_seq(m, ts.drop_first())
    }
}

/// `apply_seq` maps the sequence pointwise.
pub broadcast proof fn lemma_apply_seq(m: Map<Seq<char>, TermV>, ts: Seq<TermV>)
    ensures
        (#[trigger] apply_seq(m, ts)).len() == ts.len(),
        forall|i: int| 0 <= i < ts.len() ==> apply_seq(m, ts)[i] == apply(m, ts[i]),
    decreases ts.len(),
{
    if ts.len() > 0 {
        lemma_apply_seq(m, ts.drop_first());
    }
}

/// Builds the term `t` under the substitution `subst`.
#[verifier::loop_isolation(false)]
pub fn apply_subst(t: &Term, subst: &Subst) -> (r: Term)
    requires
        subst.wf(),
    ensures
        r@ == apply(subst@, t@),
    decreases t,
{
    match t {
        Term::Var(v) => {
            match subst.get(v) {
                Some(t2) => t2.clone(),
                None => Term::Var(v.clone()),
            }
        },
        Term::Fun(f, args) => {
            proof {
                lemma_terms_view(args@);
                lemma_apply_seq(subst@, terms_view(args@));
            }
            let ghost tv = terms_view(args@);
            let n = args.len();
            let mut out: Vec<Term> = Vec::new();
            let mut k: usize = 0;
            while k < n
                invariant
                    k <= n,
                    out@.len() == k as int,
                    forall|i: int| 0 <= i < k ==> out@[i]@ == apply(subst@, tv[i]),
                decreases n - k,
            {
                let c = apply_subst(&args[k], subst);
                out.push(c);
                k = k + 1;
            }
            let r = Term::Fun(f.clone(), out);
            proof {
                lemma_terms_view(out@);
                assert(terms_view(out@) =~= apply_seq(subst@, tv));
            }
            r
        },
    }
}

/// One-directional pattern match: binds the pattern's variables to the
/// target's subterms, holding repeated occurrences to the same binding.
/// Failure is an ordinary outcome, not an error.
pub open spec fn pm(p: TermV, t: TermV, m: Map<Seq<char>, TermV>) -> Option<
    Map<Seq<char>, TermV>,
>
    decreases p,
{
    match p {
        TermV::Var(v) => if m.contains_key(v) {
            if m[v] == t {
                Some(m)
            } else {
                None
            }
        } else {
            Some(m.insert(v, t))
        },
        TermV::Fun(f, cs) => match t {
            TermV::Var(_) => None,
            TermV::Fun(g, ds) => if f == g && cs.len() == ds.len() {
                pm_seq(cs, ds, m)
            } else {
                None
            },
        },
    }
}

/// Lockstep match of two child sequences of equal length.
pub open spec fn pm_seq(cs: Seq<TermV>, ds: Seq<TermV>, m: Map<Seq<char>, TermV>) -> Option<
    Map<Seq<char>, TermV>,
>
    recommends
        cs.len() == ds.len(),
    decreases cs,
{
    if cs.len() == 0 {
        Some(m)
    } else {
        match pm(cs[0], ds[0], m) {
            None => None,
            Some(m1) => pm_seq(cs.drop_first(), ds.drop_first(), m1),
        }
    }
}

/// A successful match only grows the substitution: earlier bindings stay
/// untouched, and every variable of the pattern ends up bound.
pub proof fn lemma_pm_extends(p: TermV, t: TermV, m: Map<Seq<char>, TermV>)
    requires
        pm(p, t, m) is Some,
    ensures
        forall|k: Seq<char>| #[trigger]
            m.contains_key(k) ==> pm(p, t, m).unwrap().contains_key(k) && pm(p, t, m).unwrap()[k]
                == m[k],
        forall|v: Seq<char>| count_var(p, v) > 0 ==> #[trigger] pm(p, t, m).unwrap().contains_key(
            v,
        ),
        forall|k: Seq<char>| #[trigger]
            pm(p, t, m).unwrap().contains_key(k) ==> m.contains_key(k) || count_var(p, k) > 0,
    decreases p,
{
    match p {
        TermV::Var(_) => {},
        TermV::Fun(_, cs) => {
            match t {
                TermV::Var(_) => {},
                TermV::Fun(_, ds) => {
                    lemma_pm_seq_extends(cs, ds, m);
                },
            }
        },
    }
}

/// Companion of `lemma_pm_extends` for child sequences.
pub proof fn lemma_pm_seq_extends(cs: Seq<TermV>, ds: Seq<TermV>, m: Map<Seq<char>, TermV>)
    requires
        pm_seq(cs, ds, m) is Some,
    ensures
        forall|k: Seq<char>| #[trigger]
            m.contains_key(k) ==> pm_seq(cs, ds, m).unwrap().contains_key(k) && pm_seq(
                cs,
                ds,
                m,
            ).unwrap()[k] == m[k],
        forall|v: Seq<char>|
            count_var_seq(cs, v) > 0 ==> #[trigger] pm_seq(cs, ds, m).unwrap().contains_key(v),
        forall|k: Seq<char>| #[trigger]
            pm_seq(cs, ds, m).unwrap().contains_key(k) ==> m.contains_key(k) || count_var_seq(
                cs,
                k,
            ) > 0,
    decreases cs,
{
    if cs.len() > 0 {
        let m1 = pm(cs[0], ds[0], m).unwrap();
        let mr = pm_seq(cs, ds, m).unwrap();
        lemma_pm_extends(cs[0], ds[0], m);
        lemma_pm_seq_extends(cs.drop_first(), ds.drop_first(), m1);
        assert forall|k: Seq<char>| #[trigger]
            m.contains_key(k) implies mr.contains_key(k) && mr[k] == m[k] by {
            assert(m1.contains_key(k) && m1[k] == m[k]);
        }
        assert forall|v: Seq<char>|
            count_var_seq(cs, v) > 0 implies #[trigger] mr.contains_key(v) by {
            if count_var(cs[0], v) > 0 {
                assert(m1.contains_key(v));
            } else {
                assert(count_var_seq(cs.drop_first(), v) > 0);
            }
        }
        assert forall|k: Seq<char>| #[trigger]
            mr.contains_key(k) implies m.contains_key(k) || count_var_seq(cs, k) > 0 by {
            if !m.contains_key(k) {
                if m1.contains_key(k) {
                    assert(count_var(cs[0], k) > 0);
                } else {
                    assert(count_var_seq(cs.drop_first(), k) > 0);
                }
            }
        }
    }
}

/// Two mappings that agree on every variable of `t` build the same term.
pub proof fn lemma_apply_agree(t: TermV, m1: Map<Seq<char>, TermV>, m2: Map<Seq<char>, TermV>)
    requires
        forall|v: Seq<char>|
            #![trigger count_var(t, v)]
            count_var(t, v) > 0 ==> (m1.contains_key(v) == m2.contains_key(v) && (m1.contains_key(
                v,
            ) ==> m1[v] == m2[v])),
    ensures
        apply(m1, t) == apply(m2, t),
    decreases t,
{
    match t {
        TermV::Var(w) => {
            assert(count_var(t, w) == 1);
        },
        TermV::Fun(_, cs) => {
            assert forall|v: Seq<char>|
                #![trigger count_var_seq(cs, v)]
                count_var_seq(cs, v) > 0 implies (m1.contains_key(v) == m2.contains_key(v)
                && (m1.contains_key(v) ==> m1[v] == m2[v])) by {
                assert(count_var(t, v) > 0);
            }
            lemma_apply_agree_seq(cs, m1, m2);
        },
    }
}

/// Companion of `lemma_apply_agree` for sequences.
pub proof fn lemma_apply_agree_seq(
    ts: Seq<TermV>,
    m1: Map<Seq<char>, TermV>,
    m2: Map<Seq<char>, TermV>,
)
    requires
        forall|v: Seq<char>|
            #![trigger count_var_seq(ts, v)]
            count_var_seq(ts, v) > 0 ==> (m1.contains_key(v) == m2.contains_key(v)
                && (m1.contains_key(v) ==> m1[v] == m2[v])),
    ensures
        apply_seq(m1, ts) == apply_seq(m2, ts),
    decreases ts,
{
    if ts.len() > 0 {
        assert forall|v: Seq<char>|
            #![trigger count_var(ts[0], v)]
            count_var(ts[0], v) > 0 implies (m1.contains_key(v) == m2.contains_key(v)
            && (m1.contains_key(v) ==> m1[v] == m2[v])) by {
            assert(count_var_seq(ts, v) > 0);
        }
        assert forall|v: Seq<char>|
            #![trigger count_var_seq(ts.drop_first(), v)]
            count_var_seq(ts.drop_first(), v) > 0 implies (m1.contains_key(v) == m2.contains_key(
            v,
        ) && (m1.contains_key(v) ==> m1[v] == m2[v])) by {
            assert(count_var_seq(ts, v) > 0);
        }
        lemma_apply_agree(ts[0], m1, m2);
        lemma_apply_agree_seq(ts.drop_first(), m1, m2);
    }
}

/// The match round-trip: a successful match, applied to the pattern, gives
/// back exactly the target.
pub proof fn lemma_pm_roundtrip(p: TermV, t: TermV, m: Map<Seq<char>, TermV>)
    requires
        pm(p, t, m) is Some,
    ensures
        apply(pm(p, t, m).unwrap(), p) == t,
    decreases p,
{
    match p {
        TermV::Var(_) => {},
        TermV::Fun(_, cs) => {
            match t {
                TermV::Var(_) => {},
                TermV::Fun(_, ds) => {
                    lemma_pm_seq_roundtrip(cs, ds, m);
                    assert(apply(pm(p, t, m).unwrap(), p) =~= t);
                },
            }
        },
    }
}

/// Companion of `lemma_pm_roundtrip` for child sequences.
pub proof fn lemma_pm_seq_roundtrip(cs: Seq<TermV>, ds: Seq<TermV>, m: Map<Seq<char>, TermV>)
    requires
        pm_seq(cs, ds, m) is Some,
        cs.len() == ds.len(),
    ensures
        apply_seq(pm_seq(cs, ds, m).unwrap(), cs) =~= ds,
    decreases cs,
{
    broadcast use lemma_apply_seq;

    if cs.len() > 0 {
        let m1 = pm(cs[0], ds[0], m).unwrap();
        let m2 = pm_seq(cs, ds, m).unwrap();
        lemma_pm_roundtrip(cs[0], ds[0], m);
        lemma_pm_seq_roundtrip(cs.drop_first(), ds.drop_first(), m1);
        lemma_pm_extends(cs[0], ds[0], m);
        lemma_pm_seq_extends(cs.drop_first(), ds.drop_first(), m1);
        assert forall|v: Seq<char>|
            #![trigger count_var(cs[0], v)]
            count_var(cs[0], v) > 0 implies (m1.contains_key(v) == m2.contains_key(v)
            && (m1.contains_key(v) ==> m1[v] == m2[v])) by {}
        lemma_apply_agree(cs[0], m1, m2);
        assert(apply(m2, cs[0]) == ds[0]);
        assert(apply_seq(m2, cs)[0] == apply(m2, cs[0]));
        assert forall|i: int| 0 <= i < cs.len() implies apply_seq(m2, cs)[i] == ds[i] by {
            if i > 0 {
                assert(apply_seq(m2, cs.drop_first())[i - 1] == apply(m2, cs.drop_first()[i - 1]));
            }
        }
    }
}

/// The executable match, threading the growing substitution.
#[verifier::loop_isolation(false)]
pub fn pat_match_impl(pat: &Term, t: &Term, subst: &mut Subst) -> (ok: bool)
    requires
        old(subst).wf(),
    ensures
        final(subst).wf(),
        match pm(pat@, t@, old(subst)@) {
            Some(m) => ok && final(subst)@ == m,
            None => !ok,
        },
    decreases pat,
{
    match pat {
        Term::Var(v) => {
            let state: u8 = match subst.get(v) {
                Some(b) => if crate::lang::term_eq(b, t) {
                    1
                } else {
                    2
                },
                None => 0,
            };
            if state == 0 {
                subst.insert(v.clone(), t.clone());
                true
            } else {
                state == 1
            }
        },
        Term::Fun(f, args) => {
            match t {
                Term::Var(_) => false,
                Term::Fun(g, targs) => {
                    proof {
                        lemma_terms_view(args@);
                        lemma_terms_view(targs@);
                    }
                    if !id_eq(f, g) {
                        return false;
                    }
                    if args.len() != targs.len() {
                        return false;
                    }
                    let ghost cv = terms_view(args@);
                    let ghost dv = terms_view(targs@);
                    let ghost m0 = subst@;
                    let n = args.len();
                    let mut k: usize = 0;
                    proof {
                        assert(cv.skip(0) =~= cv);
                        assert(dv.skip(0) =~= dv);
                    }
                    while k < n
                        invariant
                            k <= n,
                            subst.wf(),
                            pm_seq(cv, dv, m0) == pm_seq(
                                cv.skip(k as int),
                                dv.skip(k as int),
                                subst@,
                            ),
                        decreases n - k,
                    {
                        let ghost pre = subst@;
                        let ok = pat_match_impl(&args[k], &targs[k], subst);
                        proof {
                            assert(cv.skip(k as int)[0] == cv[k as int]);
                            assert(dv.skip(k as int)[0] == dv[k as int]);
                            assert(cv.skip(k as int).drop_first() =~= cv.skip(k as int + 1));
                            assert(dv.skip(k as int).drop_first() =~= dv.skip(k as int + 1));
                        }
                        if !ok {
                            proof {
                                assert(pm(cv[k as int], dv[k as int], pre) is None);
                                assert(pm_seq(cv, dv, m0) is None);
                            }
                            return false;
                        }
                        k = k + 1;
                    }
                    proof {
                        assert(cv.skip(n as int) =~= Seq::<TermV>::empty());
                        assert(dv.skip(n as int) =~= Seq::<TermV>::empty());
                    }
                    true
                },
            }
        },
    }
}

/// Matches the pattern against the target. On success, the substitution's
/// domain is the pattern's variables, and applying it to the pattern yields
/// exactly the target. Callers keep pattern and target variable-disjoint by
/// renaming apart; the function itself is a sound generalization and needs
/// no such precondition, since a variable already bound must match its
/// binding exactly on every later occurrence, so a shared variable behaves
/// as a constant rather than rebinding.
pub fn pat_match(pat: &Term, t: &Term) -> (r: Option<Subst>)
    ensures
        match r {
            Some(s) => s.wf() && Some(s@) == pm(pat@, t@, Map::<Seq<char>, TermV>::empty())
                && apply(s@, pat@) == t@,
            None => pm(pat@, t@, Map::<Seq<char>, TermV>::empty()) is None,
        },
{
    let mut subst = Subst::new();
    if pat_match_impl(pat, t, &mut subst) {
        proof {
            lemma_pm_roundtrip(pat@, t@, Map::<Seq<char>, TermV>::empty());
        }
        Some(subst)
    } else {
        None
    }
}

/// The weight a binding adds at each occurrence of its variable.
pub open spec fn delta(m: Map<Seq<char>, TermV>, v: Seq<char>) -> nat {
    if m.contains_key(v) {
        (crate::lang::weight(m[v]) - 1) as nat
    } else {
        0
    }
}

/// The total weight a substitution adds to a term.
pub open spec fn excess(m: Map<Seq<char>, TermV>, t: TermV) -> nat
    decreases t,
{
    match t {
        TermV::Var(v) => delta(m, v),
        TermV::Fun(_, cs) => excess_seq(m, cs),
    }
}

/// Companion of `excess` for sequences.
pub open spec fn excess_seq(m: Map<Seq<char>, TermV>, ts: Seq<TermV>) -> nat
    decreases ts,
{
    if ts.len() == 0 {
        0
    } else {
        excess(m, ts[0]) + excess_seq(m, ts.drop_first())
    }
}

/// An instantiated term weighs its own weight plus the substitution's
/// excess over its variable occurrences.
pub proof fn lemma_weight_apply(m: Map<Seq<char>, TermV>, t: TermV)
    ensures
        crate::lang::weight(apply(m, t)) == crate::lang::weight(t) + excess(m, t),
    decreases t,
{
    broadcast use crate::lang::lemma_weight_pos;

    match t {
        TermV::Var(_) => {},
        TermV::Fun(_, cs) => {
            lemma_weight_apply_seq(m, cs);
        },
    }
}

/// Companion of `lemma_weight_apply` for sequences.
pub proof fn lemma_weight_apply_seq(m: Map<Seq<char>, TermV>, ts: Seq<TermV>)
    ensures
        crate::lang::weight_seq(apply_seq(m, ts)) == crate::lang::weight_seq(ts) + excess_seq(
            m,
            ts,
        ),
    decreases ts,
{
    if ts.len() > 0 {
        lemma_weight_apply(m, ts[0]);
        lemma_weight_apply_seq(m, ts.drop_first());
        assert(apply_seq(m, ts).drop_first() =~= apply_seq(m, ts.drop_first()));
        assert(apply_seq(m, ts)[0] == apply(m, ts[0]));
    }
}

/// Splitting one variable out of the excess.
proof fn lemma_excess_split(m: Map<Seq<char>, TermV>, t: TermV, v: Seq<char>)
    ensures
        excess(m, t) == count_var(t, v) * delta(m, v) + excess(m.remove(v), t),
    decreases t,
{
    match t {
        TermV::Var(w) => {
            if w == v {
                assert(count_var(t, v) == 1);
                assert(!m.remove(v).contains_key(v));
                assert(delta(m.remove(v), v) == 0);
                assert(1 * delta(m, v) == delta(m, v)) by (nonlinear_arith);
            } else {
                assert(count_var(t, v) == 0);
                assert(delta(m.remove(v), w) == delta(m, w));
                assert(0 * delta(m, v) == 0) by (nonlinear_arith);
            }
        },
        TermV::Fun(_, cs) => {
            lemma_excess_split_seq(m, cs, v);
        },
    }
}

/// Companion of `lemma_excess_split` for sequences.
proof fn lemma_excess_split_seq(m: Map<Seq<char>, TermV>, ts: Seq<TermV>, v: Seq<char>)
    ensures
        excess_seq(m, ts) == count_var_seq(ts, v) * delta(m, v) + excess_seq(m.remove(v), ts),
    decreases ts,
{
    if ts.len() > 0 {
        lemma_excess_split(m, ts[0], v);
        lemma_excess_split_seq(m, ts.drop_first(), v);
        let c0 = count_var(ts[0], v);
        let cr = count_var_seq(ts.drop_first(), v);
        let d = delta(m, v);
        assert(excess_seq(m, ts) == excess(m, ts[0]) + excess_seq(m, ts.drop_first()));
        assert(excess_seq(m.remove(v), ts) == excess(m.remove(v), ts[0]) + excess_seq(
            m.remove(v),
            ts.drop_first(),
        ));
        assert(count_var_seq(ts, v) == c0 + cr);
        assert(excess(m, ts[0]) == c0 * d + excess(m.remove(v), ts[0]));
        assert(excess_seq(m, ts.drop_first()) == cr * d + excess_seq(m.remove(v), ts.drop_first()));
        assert((c0 + cr) * d == c0 * d + cr * d) by (nonlinear_arith);
        assert(excess_seq(m, ts) == (c0 + cr) * d + excess_seq(m.remove(v), ts));
    } else {
        assert(excess_seq(m, ts) == 0);
        assert(excess_seq(m.remove(v), ts) == 0);
        assert(count_var_seq(ts, v) == 0);
        assert(count_var_seq(ts, v) * delta(m, v) == 0) by (nonlinear_arith)
            requires
                count_var_seq(ts, v) == 0,
        ;
    }
}

/// A substitution adds nothing to a term none of whose variables it binds.
proof fn lemma_excess_unbound(m: Map<Seq<char>, TermV>, t: TermV)
    requires
        forall|k: Seq<char>| #[trigger] m.contains_key(k) ==> count_var(t, k) == 0,
    ensures
        excess(m, t) == 0,
    decreases t,
{
    match t {
        TermV::Var(v) => {
            if m.contains_key(v) {
                assert(count_var(t, v) == 1);
            }
        },
        TermV::Fun(_, cs) => {
            lemma_excess_unbound_seq(m, cs);
        },
    }
}

/// Companion of `lemma_excess_unbound` for sequences.
proof fn lemma_excess_unbound_seq(m: Map<Seq<char>, TermV>, ts: Seq<TermV>)
    requires
        forall|k: Seq<char>| #[trigger] m.contains_key(k) ==> count_var_seq(ts, k) == 0,
    ensures
        excess_seq(m, ts) == 0,
    decreases ts,
{
    if ts.len() > 0 {
        assert forall|k: Seq<char>| #[trigger] m.contains_key(k) implies count_var(ts[0], k) == 0
            by {
            assert(count_var_seq(ts, k) == 0);
        }
        assert forall|k: Seq<char>| #[trigger]
            m.contains_key(k) implies count_var_seq(ts.drop_first(), k) == 0 by {
            assert(count_var_seq(ts, k) == 0);
        }
        lemma_excess_unbound(m, ts[0]);
        lemma_excess_unbound_seq(m, ts.drop_first());
    }
}

/// The excess summed over a list of variables.
pub open spec fn excess_by(m: Map<Seq<char>, TermV>, t: TermV, vs: Seq<Seq<char>>) -> nat
    decreases vs.len(),
{
    if vs.len() == 0 {
        0
    } else {
        count_var(t, vs[0]) * delta(m, vs[0]) + excess_by(m, t, vs.drop_first())
    }
}

/// Over a duplicate-free list covering every bound variable of the term,
/// the per-variable sum is the excess.
proof fn lemma_excess_by(m: Map<Seq<char>, TermV>, t: TermV, vs: Seq<Seq<char>>)
    requires
        forall|i: int, j: int| 0 <= i < j < vs.len() ==> vs[i] != vs[j],
        forall|k: Seq<char>|
            #![trigger m.contains_key(k)]
            m.contains_key(k) && count_var(t, k) > 0 ==> vs.contains(k),
    ensures
        excess(m, t) == excess_by(m, t, vs),
    decreases vs.len(),
{
    if vs.len() == 0 {
        lemma_excess_unbound(m, t);
    } else {
        let v0 = vs[0];
        lemma_excess_split(m, t, v0);
        let m2 = m.remove(v0);
        assert forall|k: Seq<char>|
            #![trigger m2.contains_key(k)]
            m2.contains_key(k) && count_var(t, k) > 0 implies vs.drop_first().contains(k) by {
            assert(m.contains_key(k));
            assert(vs.contains(k));
            let i = choose|i: int| 0 <= i < vs.len() && vs[i] == k;
            assert(i != 0);
            assert(vs.drop_first()[i - 1] == k);
        }
        lemma_excess_by(m2, t, vs.drop_first());
        assert(excess_by(m2, t, vs.drop_first()) == excess_by(m, t, vs.drop_first())) by {
            lemma_excess_by_congr(m2, m, t, vs.drop_first(), v0);
        }
    }
}

/// Removing a variable outside the list changes no summand.
proof fn lemma_excess_by_congr(
    m2: Map<Seq<char>, TermV>,
    m: Map<Seq<char>, TermV>,
    t: TermV,
    vs: Seq<Seq<char>>,
    v0: Seq<char>,
)
    requires
        m2 == m.remove(v0),
        forall|i: int| 0 <= i < vs.len() ==> vs[i] != v0,
    ensures
        excess_by(m2, t, vs) == excess_by(m, t, vs),
    decreases vs.len(),
{
    if vs.len() > 0 {
        assert(delta(m2, vs[0]) == delta(m, vs[0]));
        lemma_excess_by_congr(m2, m, t, vs.drop_first(), v0);
    }
}

/// Dominated variable counts give a dominated sum.
proof fn lemma_excess_by_mono(
    m: Map<Seq<char>, TermV>,
    r: TermV,
    l: TermV,
    vs: Seq<Seq<char>>,
)
    requires
        forall|v: Seq<char>| #[trigger] count_var(r, v) <= count_var(l, v),
    ensures
        excess_by(m, r, vs) <= excess_by(m, l, vs),
    decreases vs.len(),
{
    if vs.len() > 0 {
        assert(count_var(r, vs[0]) * delta(m, vs[0]) <= count_var(l, vs[0]) * delta(m, vs[0]))
            by (nonlinear_arith)
            requires
                count_var(r, vs[0]) <= count_var(l, vs[0]),
        ;
        lemma_excess_by_mono(m, r, l, vs.drop_first());
    }
}

/// A right side that the order places below the left stays below it under
/// every substitution: weights are dominated instance by instance.
pub proof fn lemma_weight_instance(m: Map<Seq<char>, TermV>, l: TermV, r: TermV)
    requires
        crate::lang::weight(r) <= crate::lang::weight(l),
        forall|v: Seq<char>| #[trigger] count_var(r, v) <= count_var(l, v),
    ensures
        crate::lang::weight(apply(m, r)) <= crate::lang::weight(apply(m, l)),
{
    let vs = crate::rename::vo(l, crate::rename::vo(r, Seq::empty()));
    crate::rename::lemma_vo_props(r, Seq::empty());
    crate::rename::lemma_vo_props(l, crate::rename::vo(r, Seq::empty()));
    assert forall|k: Seq<char>|
        #![trigger m.contains_key(k)]
        m.contains_key(k) && count_var(l, k) > 0 implies vs.contains(k) by {}
    assert forall|k: Seq<char>|
        #![trigger m.contains_key(k)]
        m.contains_key(k) && count_var(r, k) > 0 implies vs.contains(k) by {
        assert(crate::rename::vo(r, Seq::empty()).contains(k));
    }
    lemma_excess_by(m, l, vs);
    lemma_excess_by(m, r, vs);
    lemma_excess_by_mono(m, r, l, vs);
    lemma_weight_apply(m, l);
    lemma_weight_apply(m, r);
}

/// Decides whether two variable lists share no name.
#[verifier::loop_isolation(false)]
pub fn v_disjoint(l1: &Vec<Id>, l2: &Vec<Id>) -> (r: bool)
    ensures
        r == forall|i: int, j: int|
            0 <= i < l1@.len() && 0 <= j < l2@.len() ==> (#[trigger] l1@[i]@) != (
            #[trigger] l2@[j]@),
{
    let n1 = l1.len();
    let n2 = l2.len();
    let mut i: usize = 0;
    while i < n1
        invariant
            i <= n1,
            forall|ii: int, j: int|
                0 <= ii < i && 0 <= j < n2 ==> (#[trigger] l1@[ii]@) != (#[trigger] l2@[j]@),
        decreases n1 - i,
    {
        let mut j: usize = 0;
        while j < n2
            invariant
                j <= n2,
                forall|jj: int| 0 <= jj < j ==> l1@[i as int]@ != (#[trigger] l2@[jj]@),
            decreases n2 - j,
        {
            if id_eq(&l1[i], &l2[j]) {
                proof {
                    assert(l1@[i as int]@ == l2@[j as int]@);
                }
                return false;
            }
            j = j + 1;
        }
        i = i + 1;
    }
    true
}

/// Whether `l` and `r` are the same term up to a consistent renaming of
/// variables: `l` matches `r`, every binding is a bare variable, no two
/// variables share a binding, and every variable of `r` is hit.
pub open spec fn lit_sim(l: TermV, r: TermV) -> bool {
    match pm(l, r, Map::<Seq<char>, TermV>::empty()) {
        None => false,
        Some(m) => {
            &&& forall|v: Seq<char>| #[trigger] m.contains_key(v) ==> m[v] is Var
            &&& forall|v1: Seq<char>, v2: Seq<char>|
                m.contains_key(v1) && m.contains_key(v2) && v1 != v2 ==> #[trigger] m[v1]
                    != #[trigger] m[v2]
            &&& forall|w: Seq<char>|
                count_var(r, w) > 0 ==> exists|v: Seq<char>| #[trigger] m.contains_key(v) && m[v]
                    == TermV::Var(w)
        },
    }
}

/// Decides whether two terms are equal up to a consistent variable
/// renaming.
#[verifier::loop_isolation(false)]
pub fn literally_similar(l: &Term, r: &Term) -> (res: bool)
    ensures
        res == lit_sim(l@, r@),
{
    let s = match pat_match(l, r) {
        None => {
            return false;
        },
        Some(s) => s,
    };
    let ghost m = s@;
    proof {
        lemma_pm_extends(l@, r@, Map::<Seq<char>, TermV>::empty());
        assert(pm(l@, r@, Map::<Seq<char>, TermV>::empty()).unwrap() == m);
        assert forall|v: Seq<char>| #[trigger] m.contains_key(v) implies count_var(l@, v) > 0 by {
            assert(pm(l@, r@, Map::<Seq<char>, TermV>::empty()).unwrap().contains_key(v));
            assert(!Map::<Seq<char>, TermV>::empty().contains_key(v));
        }
        assert forall|v: Seq<char>| count_var(l@, v) > 0 implies #[trigger] m.contains_key(v)
            by {
            assert(pm(l@, r@, Map::<Seq<char>, TermV>::empty()).unwrap().contains_key(v));
        }
    }
    let lvars = crate::order::get_vars(l);
    let n = lvars.len();
    // collect the image variable of each pattern variable
    let mut images: Vec<Id> = Vec::new();
    let mut i: usize = 0;
    while i < n
        invariant
            i <= n,
            images@.len() == i as int,
            forall|k: int|
                0 <= k < i ==> m.contains_key(#[trigger] lvars@[k]@) && m[lvars@[k]@]
                    == TermV::Var(images@[k]@),
        decreases n - i,
    {
        proof {
            assert(count_var(l@, lvars@[i as int]@) > 0);
            assert(m.contains_key(lvars@[i as int]@));
        }
        match s.get(&lvars[i]) {
            Some(b) => {
                match b {
                    Term::Var(w) => {
                        images.push(w.clone());
                    },
                    Term::Fun(_, _) => {
                        return false;
                    },
                }
            },
            None => {
                proof {
                    assert(false);
                }
            },
        }
        i = i + 1;
    }
    proof {
        assert forall|k: int| 0 <= k < n implies m.contains_key(#[trigger] lvars@[k]@)
            && m[lvars@[k]@] == TermV::Var(images@[k]@) by {}
        // the collected pairs describe the whole domain of the match
        assert forall|v: Seq<char>| #[trigger] m.contains_key(v) implies exists|k: int|
            0 <= k < n && lvars@[k]@ == v by {
            assert(count_var(l@, v) > 0);
            assert(crate::order::id_in(lvars@, v));
        }
        assert forall|v: Seq<char>| #[trigger] m.contains_key(v) implies m[v] is Var by {
            let k = choose|k: int| 0 <= k < n && lvars@[k]@ == v;
            assert(m[lvars@[k]@] == TermV::Var(images@[k]@));
        }
    }
    // injectivity: no two pattern variables map to the same image
    let mut a: usize = 0;
    while a < n
        invariant
            a <= n,
            forall|x: int, y: int|
                0 <= x < a && 0 <= y < n && x != y ==> (#[trigger] images@[x]@) != (
                #[trigger] images@[y]@),
        decreases n - a,
    {
        let mut b: usize = 0;
        while b < n
            invariant
                b <= n,
                forall|y: int|
                    0 <= y < b && a as int != y ==> images@[a as int]@ != (#[trigger] images@[y]@),
            decreases n - b,
        {
            if b != a {
                if id_eq(&images[a], &images[b]) {
                    proof {
                        assert(m[lvars@[a as int]@] == m[lvars@[b as int]@]);
                        assert(lvars@[a as int]@ != lvars@[b as int]@);
                    }
                    return false;
                }
            }
            b = b + 1;
        }
        a = a + 1;
    }
    // surjectivity: every variable of the target is some variable's image
    let rvars = crate::order::get_vars(r);
    let nr = rvars.len();
    let mut x: usize = 0;
    while x < nr
        invariant
            x <= nr,
            forall|k: int|
                0 <= k < x ==> exists|v: Seq<char>| #[trigger] m.contains_key(v) && m[v]
                    == TermV::Var(#[trigger] rvars@[k]@),
        decreases nr - x,
    {
        let mut hit = false;
        let mut y: usize = 0;
        while y < n
            invariant
                y <= n,
                hit ==> exists|v: Seq<char>| #[trigger] m.contains_key(v) && m[v] == TermV::Var(
                    rvars@[x as int]@,
                ),
                !hit ==> forall|yy: int| 0 <= yy < y ==> (#[trigger] images@[yy]@) != rvars@[x as int]@,
            decreases n - y,
        {
            if id_eq(&images[y], &rvars[x]) {
                hit = true;
                proof {
                    assert(m.contains_key(lvars@[y as int]@));
                    assert(m[lvars@[y as int]@] == TermV::Var(rvars@[x as int]@));
                }
            }
            y = y + 1;
        }
        if !hit {
            proof {
                if lit_sim(l@, r@) {
                    assert(count_var(r@, rvars@[x as int]@) > 0);
                    let v = choose|v: Seq<char>| #[trigger] m.contains_key(v) && m[v]
                        == TermV::Var(rvars@[x as int]@);
                    let k = choose|k: int| 0 <= k < n && lvars@[k]@ == v;
                    assert(m[lvars@[k]@] == TermV::Var(images@[k]@));
                    assert(images@[k]@ == rvars@[x as int]@);
                }
            }
            return false;
        }
        x = x + 1;
    }
    proof {
        // injectivity over the map follows from injectivity of the images
        assert forall|v1: Seq<char>, v2: Seq<char>|
            m.contains_key(v1) && m.contains_key(v2) && v1 != v2 implies #[trigger] m[v1]
            != #[trigger] m[v2] by {
            let k1 = choose|k: int| 0 <= k < n && lvars@[k]@ == v1;
            let k2 = choose|k: int| 0 <= k < n && lvars@[k]@ == v2;
            assert(k1 != k2);
            assert(m[v1] == TermV::Var(images@[k1]@));
            assert(m[v2] == TermV::Var(images@[k2]@));
        }
        assert forall|w: Seq<char>| count_var(r@, w) > 0 implies exists|v: Seq<char>| #[trigger]
            m.contains_key(v) && m[v] == TermV::Var(w) by {
            assert(crate::order::id_in(rvars@, w));
            let k = choose|k: int| 0 <= k < rvars@.len() && rvars@[k]@ == w;
        }
    }
    true
}

} // verus!
