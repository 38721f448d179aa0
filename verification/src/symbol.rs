use vstd::prelude::*;

verus! {

broadcast use vstd::seq::group_seq_axioms;

/// A symbol: an interned name, used both for function symbols and for
/// variable names. Two symbols denote the same name exactly when their
/// characters agree; the fixed precedence over symbols is the lexicographic
/// order on character code points (`sym_lt`).
#[derive(Debug)]
pub struct Id {
    name: String,
}

impl View for Id {
    type V = Seq<char>;

    closed spec fn view(&self) -> Seq<char> {
        self.name@
    }
}

impl Clone for Id {
    fn clone(&self) -> (r: Self)
        ensures
            r@ == self@,
    {
        Id { name: self.name.clone() }
    }
}

/// Interns a name as a symbol.
pub fn gsymb_add(x: String) -> (r: Id)
    ensures
        r@ == x@,
{
    Id { name: x }
}

/// Returns the name that a symbol stands for.
pub fn gsymb_get(x: Id) -> (r: String)
    ensures
        r@ == x@,
{
    x.name
}

/// Strict lexicographic order on names by character code point: the empty
/// name comes first, and a proper prefix comes before its extensions.
pub open spec fn sym_lt(a: Seq<char>, b: Seq<char>) -> bool
    decreases a.len(),
{
    if b.len() == 0 {
        false
    } else if a.len() == 0 {
        true
    } else if a[0] == b[0] {
        sym_lt(a.drop_first(), b.drop_first())
    } else {
        (a[0] as u32) < (b[0] as u32)
    }
}

/// Of two distinct names, exactly one comes first: the precedence is total.
pub proof fn lemma_sym_lt_total(a: Seq<char>, b: Seq<char>)
    ensures
        a == b <==> !sym_lt(a, b) && !sym_lt(b, a),
        !(sym_lt(a, b) && sym_lt(b, a)),
    decreases a.len() + b.len(),
{
    if a.len() > 0 && b.len() > 0 && a[0] == b[0] {
        lemma_sym_lt_total(a.drop_first(), b.drop_first());
        if a.drop_first() == b.drop_first() {
            assert forall|i: int| 0 <= i < a.len() implies a[i] == b[i] by {
                if i > 0 {
                    assert(a[i] == a.drop_first()[i - 1]);
                    assert(b[i] == b.drop_first()[i - 1]);
                }
            }
            assert(a =~= b);
        }
        if a == b {
            assert(a.drop_first() =~= b.drop_first());
        }
    } else {
        if a.len() == 0 && b.len() == 0 {
            assert(a =~= b);
        }
        if a.len() > 0 && b.len() > 0 {
            vstd::utf8::char_u32_cast(a[0], a[0] as u32);
            vstd::utf8::char_u32_cast(b[0], b[0] as u32);
            assert((a[0] as u32) != (b[0] as u32));
        }
    }
}

/// Decides the precedence between two symbols.
pub fn id_lt(a: &Id, b: &Id) -> (r: bool)
    ensures
        r == sym_lt(a@, b@),
{
    let an = a.name.as_str();
    let bn = b.name.as_str();
    let alen = an.unicode_len();
    let blen = bn.unicode_len();
    let mut i: usize = 0;
    proof {
        assert(a@.skip(0) =~= a@);
        assert(b@.skip(0) =~= b@);
    }
    loop
        invariant
            i <= alen,
            i <= blen,
            alen == a@.len(),
            blen == b@.len(),
            an@ == a@,
            bn@ == b@,
            sym_lt(a@, b@) == sym_lt(a@.skip(i as int), b@.skip(i as int)),
        decreases alen - i,
    {
        if i == blen {
            return false;
        }
        if i == alen {
            return true;
        }
        let ca = an.get_char(i);
        let cb = bn.get_char(i);
        if ca == cb {
            proof {
                assert(a@.skip(i as int).drop_first() =~= a@.skip(i as int + 1));
                assert(b@.skip(i as int).drop_first() =~= b@.skip(i as int + 1));
            }
            i = i + 1;
        } else {
            proof {
                vstd::utf8::char_u32_cast(ca, ca as u32);
                vstd::utf8::char_u32_cast(cb, cb as u32);
            }
            return (ca as u32) < (cb as u32);
        }
    }
}

/// Decides whether two symbols denote the same name.
pub fn id_eq(a: &Id, b: &Id) -> (r: bool)
    ensures
        r == (a@ == b@),
{
    let r = !id_lt(a, b) && !id_lt(b, a);
    proof {
        lemma_sym_lt_total(a@, b@);
    }
    r
}

/// The precedence is transitive.
pub proof fn lemma_sym_lt_trans(a: Seq<char>, b: Seq<char>, c: Seq<char>)
    requires
        sym_lt(a, b),
        sym_lt(b, c),
    ensures
        sym_lt(a, c),
    decreases a.len() + b.len() + c.len(),
{
    if b.len() == 0 {
    } else if a.len() == 0 {
    } else if c.len() == 0 {
    } else {
        if a[0] == b[0] && b[0] == c[0] {
            lemma_sym_lt_trans(a.drop_first(), b.drop_first(), c.drop_first());
        }
    }
}

} // verus!
