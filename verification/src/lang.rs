use vstd::prelude::*;
use crate::symbol::Id;

verus! {

broadcast use vstd::seq::group_seq_axioms, vstd::std_specs::vec::group_vec_axioms;

/// Mathematical model of a term: a variable or a function application whose
/// symbols are name character sequences.
#[verifier::ext_equal]
pub enum TermV {
    Var(Seq<char>),
    Fun(Seq<char>, Seq<TermV>),
}

/// A term of the free algebra: either a variable or a function application
/// with an ordered sequence of children. A zero-arity application is a
/// constant. Terms are never mutated; every transformation builds new terms.
#[derive(Debug)]
pub enum Term {
    Var(Id),
    Fun(Id, Vec<Term>),
}

/// The model of a term.
pub open spec fn term_view(t: Term) -> TermV
    decreases t,
{
    match t {
        Term::Var(v) => TermV::Var(v@),
        Term::Fun(f, args) => TermV::Fun(f@, terms_view(args@)),
    }
}

/// The models of a sequence of terms, in order.
pub open spec fn terms_view(ts: Seq<Term>) -> Seq<TermV>
    decreases ts,
{
    if ts.len() == 0 {
        Seq::empty()
    } else {
        seq![term_view(ts[0])] + terms_view(ts.drop_first())
    }
}

/// `terms_view` maps the sequence pointwise.
pub broadcast proof fn lemma_terms_view(ts: Seq<Term>)
    ensures
        (#[trigger] terms_view(ts)).len() == ts.len(),
        forall|i: int| 0 <= i < ts.len() ==> terms_view(ts)[i] == term_view(ts[i]),
    decreases ts.len(),
{
    if ts.len() > 0 {
        lemma_terms_view(ts.drop_first());
    }
}

impl View for Term {
    type V = TermV;

    open spec fn view(&self) -> TermV {
        term_view(*self)
    }
}

impl Term {
    /// Builds a variable term from a name.
    pub fn var(x: &str) -> (r: Term)
        ensures
            r@ == TermV::Var(x@),
    {
        Term::Var(crate::symbol::gsymb_add(x.to_owned()))
    }

    /// Builds a function application from a name and a sequence of children.
    pub fn fun(x: &str, it: Vec<Term>) -> (r: Term)
        ensures
            r@ == TermV::Fun(x@, terms_view(it@)),
    {
        Term::Fun(crate::symbol::gsymb_add(x.to_owned()), it)
    }
}

impl Clone for Term {
    /// Clones a term; the copy has the same model.
    #[verifier::loop_isolation(false)]
    fn clone(&self) -> (r: Self)
        ensures
            r@ == self@,
        decreases self,
    {
        match self {
            Term::Var(v) => Term::Var(v.clone()),
            Term::Fun(f, args) => {
                let mut out: Vec<Term> = Vec::new();
                let n = args.len();
                let mut k: usize = 0;
                while k < n
                    invariant
                        k <= n,
                        n == args@.len(),
                        out@.len() == k as int,
                        forall|i: int| 0 <= i < k ==> out@[i]@ == args@[i]@,
                    decreases n - k,
                {
                    let c = args[k].clone();
                    out.push(c);
                    k = k + 1;
                }
                proof {
                    lemma_terms_view(out@);
                    lemma_terms_view(args@);
                    assert(terms_view(out@) =~= terms_view(args@));
                }
                Term::Fun(f.clone(), out)
            },
        }
    }
}

/// Decides structural equality of two terms.
#[verifier::loop_isolation(false)]
pub fn term_eq(a: &Term, b: &Term) -> (r: bool)
    ensures
        r == (a@ == b@),
    decreases a,
{
    match (a, b) {
        (Term::Var(x), Term::Var(y)) => crate::symbol::id_eq(x, y),
        (Term::Fun(f, xs), Term::Fun(g, ys)) => {
            proof {
                lemma_terms_view(xs@);
                lemma_terms_view(ys@);
            }
            if !crate::symbol::id_eq(f, g) {
                return false;
            }
            if xs.len() != ys.len() {
                return false;
            }
            let n = xs.len();
            let mut k: usize = 0;
            while k < n
                invariant
                    k <= n,
                    n == xs@.len(),
                    n == ys@.len(),
                    forall|i: int| 0 <= i < k ==> terms_view(xs@)[i] == terms_view(ys@)[i],
                    terms_view(xs@).len() == n as int,
                    terms_view(ys@).len() == n as int,
                    forall|i: int|
                        0 <= i < n ==> terms_view(xs@)[i] == xs@[i]@ && terms_view(ys@)[i]
                            == ys@[i]@,
                decreases n - k,
            {
                if !term_eq(&xs[k], &ys[k]) {
                    proof {
                        if a@ == b@ {
                            assert(terms_view(xs@) == terms_view(ys@));
                            assert(terms_view(xs@)[k as int] == terms_view(ys@)[k as int]);
                        }
                    }
                    return false;
                }
                k = k + 1;
            }
            proof {
                assert(terms_view(xs@) =~= terms_view(ys@));
            }
            true
        },
        _ => false,
    }
}

impl PartialEq for Term {
    fn eq(&self, other: &Term) -> (r: bool) {
        term_eq(self, other)
    }
}

impl vstd::std_specs::cmp::PartialEqSpecImpl for Term {
    open spec fn obeys_eq_spec() -> bool {
        true
    }

    open spec fn eq_spec(&self, other: &Term) -> bool {
        self@ == other@
    }
}

/// The weight of a term: one unit for every node, variable or function
/// symbol alike.
pub open spec fn weight(t: TermV) -> nat
    decreases t,
{
    match t {
        TermV::Var(_) => 1,
        TermV::Fun(_, cs) => 1 + weight_seq(cs),
    }
}

/// Total weight of a sequence of terms.
pub open spec fn weight_seq(ts: Seq<TermV>) -> nat
    decreases ts,
{
    if ts.len() == 0 {
        0
    } else {
        weight(ts[0]) + weight_seq(ts.drop_first())
    }
}

/// Every term has positive weight.
pub broadcast proof fn lemma_weight_pos(t: TermV)
    ensures
        #[trigger] weight(t) >= 1,
{
    match t {
        TermV::Var(_) => {},
        TermV::Fun(_, _) => {},
    }
}

/// How often the variable named `v` occurs in `t`.
pub open spec fn count_var(t: TermV, v: Seq<char>) -> nat
    decreases t,
{
    match t {
        TermV::Var(w) => if w == v {
            1
        } else {
            0
        },
        TermV::Fun(_, cs) => count_var_seq(cs, v),
    }
}

/// How often the variable named `v` occurs across a sequence of terms.
pub open spec fn count_var_seq(ts: Seq<TermV>, v: Seq<char>) -> nat
    decreases ts,
{
    if ts.len() == 0 {
        0
    } else {
        count_var(ts[0], v) + count_var_seq(ts.drop_first(), v)
    }
}

/// Weight distributes over concatenation.
pub proof fn lemma_weight_seq_concat(a: Seq<TermV>, b: Seq<TermV>)
    ensures
        weight_seq(a + b) == weight_seq(a) + weight_seq(b),
    decreases a.len(),
{
    if a.len() == 0 {
        assert(a + b =~= b);
    } else {
        assert((a + b).drop_first() =~= a.drop_first() + b);
        lemma_weight_seq_concat(a.drop_first(), b);
    }
}

/// A sequence outweighs each of its elements.
pub proof fn lemma_weight_seq_elem(s: Seq<TermV>, k: int)
    requires
        0 <= k < s.len(),
    ensures
        weight(s[k]) <= weight_seq(s),
    decreases s.len(),
{
    if k > 0 {
        lemma_weight_seq_elem(s.drop_first(), k - 1);
    }
}

/// An element's count never exceeds its sequence's.
pub proof fn lemma_count_var_seq_elem(s: Seq<TermV>, k: int, v: Seq<char>)
    requires
        0 <= k < s.len(),
    ensures
        count_var(s[k], v) <= count_var_seq(s, v),
    decreases s.len(),
{
    if k > 0 {
        lemma_count_var_seq_elem(s.drop_first(), k - 1, v);
    }
}

/// Variable counts distribute over concatenation.
pub proof fn lemma_count_var_seq_concat(a: Seq<TermV>, b: Seq<TermV>, v: Seq<char>)
    ensures
        count_var_seq(a + b, v) == count_var_seq(a, v) + count_var_seq(b, v),
    decreases a.len(),
{
    if a.len() == 0 {
        assert(a + b =~= b);
    } else {
        assert((a + b).drop_first() =~= a.drop_first() + b);
        lemma_count_var_seq_concat(a.drop_first(), b, v);
    }
}

/// A variable occurs in a sequence of terms exactly when it occurs in one of
/// its elements.
pub proof fn lemma_count_var_seq_pos(s: Seq<TermV>, v: Seq<char>)
    ensures
        count_var_seq(s, v) > 0 <==> exists|k: int| 0 <= k < s.len() && count_var(#[trigger] s[k], v) > 0,
    decreases s.len(),
{
    if s.len() > 0 {
        lemma_count_var_seq_pos(s.drop_first(), v);
        if count_var(s[0], v) > 0 {
            assert(count_var_seq(s, v) > 0);
        }
        if exists|k: int| 0 <= k < s.len() && count_var(#[trigger] s[k], v) > 0 {
            let k = choose|k: int| 0 <= k < s.len() && count_var(#[trigger] s[k], v) > 0;
            if k > 0 {
                assert(s.drop_first()[k - 1] == s[k]);
            }
        }
        if count_var_seq(s, v) > 0 && count_var(s[0], v) == 0 {
            let k = choose|k: int|
                0 <= k < s.drop_first().len() && count_var(#[trigger] s.drop_first()[k], v) > 0;
            assert(s[k + 1] == s.drop_first()[k]);
        }
    }
}

/// Model of an equation: two terms and the orientation flag.
#[verifier::ext_equal]
pub struct EquationV {
    pub lhs: TermV,
    pub rhs: TermV,
    pub oriented: bool,
}

/// An equation over terms. Unoriented, it asserts the symmetric identity
/// `lhs = rhs`; oriented, it is a rewrite rule `lhs -> rhs`, and the
/// completion loop only orients it when `lhs` is strictly greater than
/// `rhs` under the Knuth-Bendix order.
#[derive(Debug)]
pub struct Equation {
    pub lhs: Term,
    pub rhs: Term,
    pub oriented: bool,
}

impl View for Equation {
    type V = EquationV;

    open spec fn view(&self) -> EquationV {
        EquationV { lhs: self.lhs@, rhs: self.rhs@, oriented: self.oriented }
    }
}

impl Clone for Equation {
    /// Clones an equation; the copy has the same model.
    fn clone(&self) -> (r: Self)
        ensures
            r@ == self@,
    {
        Equation { lhs: self.lhs.clone(), rhs: self.rhs.clone(), oriented: self.oriented }
    }
}

/// Decides structural equality of two equations, orientation included.
pub fn equation_eq(a: &Equation, b: &Equation) -> (r: bool)
    ensures
        r == (a@ == b@),
{
    let r = term_eq(&a.lhs, &b.lhs) && term_eq(&a.rhs, &b.rhs) && a.oriented == b.oriented;
    proof {
        if r {
            assert(a@ =~= b@);
        }
    }
    r
}

impl PartialEq for Equation {
    fn eq(&self, other: &Equation) -> (r: bool) {
        equation_eq(self, other)
    }
}

impl vstd::std_specs::cmp::PartialEqSpecImpl for Equation {
    open spec fn obeys_eq_spec() -> bool {
        true
    }

    open spec fn eq_spec(&self, other: &Equation) -> bool {
        self@ == other@
    }
}

} // verus!
