use vstd::prelude::*;
use crate::lang::{Equation, Term};
use crate::symbol::{gsymb_add, Id};
use vstd::string::StrSliceExecFns;

verus! {

broadcast use vstd::seq::group_seq_axioms, vstd::std_specs::vec::group_vec_axioms;

/// A token of the surface syntax. Names are alphanumeric; one that starts
/// with an upper-case letter is a variable, any other is a function symbol.
pub enum Token {
    LParen,
    RParen,
    Equals,
    Comma,
    Var(Id),
    Fun(Id),
}

/// The model of a token: the same shape over plain names.
#[verifier::ext_equal]
pub enum TokenV {
    LParen,
    RParen,
    Equals,
    Comma,
    Var(Seq<char>),
    Fun(Seq<char>),
}

impl View for Token {
    type V = TokenV;

    open spec fn view(&self) -> TokenV {
        match self {
            Token::LParen => TokenV::LParen,
            Token::RParen => TokenV::RParen,
            Token::Equals => TokenV::Equals,
            Token::Comma => TokenV::Comma,
            Token::Var(id) => TokenV::Var(id@),
            Token::Fun(id) => TokenV::Fun(id@),
        }
    }
}

/// The models of a token list, in order.
pub open spec fn tokens_view(ts: Seq<Token>) -> Seq<TokenV> {
    Seq::new(ts.len(), |i: int| ts[i]@)
}

/// Whether `c` is insignificant whitespace.
pub open spec fn is_ws(c: char) -> bool {
    c == ' ' || c == '\t' || c == '\n' || c == '\r'
}

/// Where the name starting at `i` ends: the first position from `i` on that
/// is not alphanumeric.
pub open spec fn name_end(s: Seq<char>, i: int) -> int
    decreases s.len() - i,
{
    if i < 0 || i >= s.len() || !is_alnum(s[i]) {
        i
    } else {
        name_end(s, i + 1)
    }
}

/// The end of a name lies past its start and within the source.
pub proof fn lemma_name_end(s: Seq<char>, i: int)
    requires
        0 <= i <= s.len(),
    ensures
        i <= name_end(s, i) <= s.len(),
        i < s.len() && is_alnum(s[i]) ==> name_end(s, i) > i,
        forall|k: int| i <= k < name_end(s, i) ==> is_alnum(#[trigger] s[k]),
        name_end(s, i) < s.len() ==> !is_alnum(s[name_end(s, i)]),
    decreases s.len() - i,
{
    if i < s.len() && is_alnum(s[i]) {
        lemma_name_end(s, i + 1);
    }
}

/// What the whole source reads as: the exact token stream, or nothing when
/// a character outside the grammar stands anywhere in it.
pub open spec fn tok_spec(s: Seq<char>, i: int) -> Option<Seq<TokenV>>
    decreases s.len() - i,
    via tok_spec_dec
{
    if i < 0 || i >= s.len() {
        Some(Seq::empty())
    } else {
        let c = s[i];
        if is_alnum(c) {
            let j = name_end(s, i);
            let name = s.subrange(i, j);
            let tok = if is_upper(c) {
                TokenV::Var(name)
            } else {
                TokenV::Fun(name)
            };
            match tok_spec(s, j) {
                None => None,
                Some(rest) => Some(seq![tok] + rest),
            }
        } else if c == '=' {
            match tok_spec(s, i + 1) {
                None => None,
                Some(rest) => Some(seq![TokenV::Equals] + rest),
            }
        } else if c == '(' {
            match tok_spec(s, i + 1) {
                None => None,
                Some(rest) => Some(seq![TokenV::LParen] + rest),
            }
        } else if c == ')' {
            match tok_spec(s, i + 1) {
                None => None,
                Some(rest) => Some(seq![TokenV::RParen] + rest),
            }
        } else if c == ',' {
            match tok_spec(s, i + 1) {
                None => None,
                Some(rest) => Some(seq![TokenV::Comma] + rest),
            }
        } else if is_ws(c) {
            tok_spec(s, i + 1)
        } else {
            None
        }
    }
}

#[via_fn]
proof fn tok_spec_dec(s: Seq<char>, i: int) {
    if 0 <= i < s.len() && is_alnum(s[i]) {
        lemma_name_end(s, i);
    }
}

/// Whether `c` is an alphanumeric character of the surface syntax.
pub open spec fn is_alnum(c: char) -> bool {
    (48 <= c as u32 && c as u32 <= 57) || (65 <= c as u32 && c as u32 <= 90) || (97 <= c as u32
        && c as u32 <= 122)
}

/// Whether `c` opens a variable name.
pub open spec fn is_upper(c: char) -> bool {
    65 <= c as u32 && c as u32 <= 90
}

fn is_alnum_exec(c: char) -> (r: bool)
    ensures
        r == is_alnum(c),
{
    let u = c as u32;
    (48 <= u && u <= 57) || (65 <= u && u <= 90) || (97 <= u && u <= 122)
}

/// Joins the tokens already read with what the rest of the source reads as.
pub open spec fn tok_join(pre: Seq<TokenV>, o: Option<Seq<TokenV>>) -> Option<Seq<TokenV>> {
    match o {
        None => None,
        Some(rest) => Some(pre + rest),
    }
}

/// A name run ends exactly where scanning says it does.
proof fn lemma_name_end_at(s: Seq<char>, i: int, j: int)
    requires
        0 <= i <= j <= s.len(),
        forall|k: int| i <= k < j ==> is_alnum(#[trigger] s[k]),
        j < s.len() ==> !is_alnum(s[j]),
    ensures
        name_end(s, i) == j,
    decreases j - i,
{
    if i < j {
        lemma_name_end_at(s, i + 1, j);
    }
}

/// Whether the character at `j` is alphanumeric.
fn alnum_at(s: &str, j: usize) -> (r: bool)
    requires
        j < s@.len(),
    ensures
        r == is_alnum(s@[j as int]),
{
    is_alnum_exec(s.get_char(j))
}

/// Cuts the source into tokens: names, `=`, parentheses and commas, with
/// whitespace insignificant. The result is exactly what `tok_spec` reads,
/// and any other character refuses the whole input.
#[verifier::loop_isolation(false)]
pub fn tokenize(s: &str) -> (r: Option<Vec<Token>>)
    ensures
        match r {
            Some(v) => tok_spec(s@, 0) == Some(tokens_view(v@)),
            None => tok_spec(s@, 0) is None,
        },
{
    let n = s.unicode_len();
    let mut tokens: Vec<Token> = Vec::new();
    let mut i: usize = 0;
    proof {
        assert(tok_join(tokens_view(tokens@), tok_spec(s@, 0)) == tok_spec(s@, 0)) by {
            match tok_spec(s@, 0) {
                None => {},
                Some(rest) => {
                    assert(tokens_view(tokens@) + rest =~= rest);
                },
            }
        }
    }
    while i < n
        invariant
            i <= n,
            n == s@.len(),
            tok_spec(s@, 0) == tok_join(tokens_view(tokens@), tok_spec(s@, i as int)),
        decreases n - i,
    {
        let ghost pre = tokens_view(tokens@);
        let c = s.get_char(i);
        if is_alnum_exec(c) {
            let start = i;
            let mut j = i + 1;
            while j < n && alnum_at(s, j)
                invariant
                    i < j <= n,
                    forall|k: int| i <= k < j ==> is_alnum(#[trigger] s@[k]),
                decreases n - j,
            {
                j = j + 1;
            }
            proof {
                lemma_name_end_at(s@, i as int, j as int);
            }
            let name = s.substring_char(start, j).to_owned();
            let id = gsymb_add(name);
            let ghost tokv = if is_upper(s@[i as int]) {
                TokenV::Var(s@.subrange(i as int, j as int))
            } else {
                TokenV::Fun(s@.subrange(i as int, j as int))
            };
            if (c as u32) >= 65 && (c as u32) <= 90 {
                tokens.push(Token::Var(id));
            } else {
                tokens.push(Token::Fun(id));
            }
            proof {
                assert(tokens_view(tokens@) =~= pre.push(tokv));
                match tok_spec(s@, j as int) {
                    None => {},
                    Some(rest) => {
                        assert(tok_spec(s@, i as int) == Some(seq![tokv] + rest));
                        assert(pre + (seq![tokv] + rest) =~= pre.push(tokv) + rest);
                    },
                }
            }
            i = j;
        } else {
            let punct: Option<Token> = if c == '=' {
                Some(Token::Equals)
            } else if c == '(' {
                Some(Token::LParen)
            } else if c == ')' {
                Some(Token::RParen)
            } else if c == ',' {
                Some(Token::Comma)
            } else {
                None
            };
            match punct {
                Some(tok) => {
                    let ghost tokv = tok@;
                    tokens.push(tok);
                    proof {
                        assert(tokens_view(tokens@) =~= pre.push(tokv));
                        match tok_spec(s@, i as int + 1) {
                            None => {},
                            Some(rest) => {
                                assert(tok_spec(s@, i as int) == Some(seq![tokv] + rest));
                                assert(pre + (seq![tokv] + rest) =~= pre.push(tokv) + rest);
                            },
                        }
                    }
                    i = i + 1;
                },
                None => {
                    if c == ' ' || c == '\t' || c == '\n' || c == '\r' {
                        proof {
                            assert(tok_spec(s@, i as int) == tok_spec(s@, i as int + 1));
                        }
                        i = i + 1;
                    } else {
                        proof {
                            assert(tok_spec(s@, i as int) is None);
                        }
                        return None;
                    }
                },
            }
        }
    }
    proof {
        assert(tok_spec(s@, n as int) == Some(Seq::<TokenV>::empty()));
        assert(tokens_view(tokens@) + Seq::<TokenV>::empty() =~= tokens_view(tokens@));
    }
    Some(tokens)
}

/// What the surface syntax reader builds: a value assembled from a token
/// stream, and the convenience entry that reads a whole source string.
pub trait Parse: Sized {
    /// Assembles one value starting at `pos`, returning the next position.
    fn assemble(tokens: &Vec<Token>, pos: usize) -> (r: Option<(usize, Self)>)
        requires
            pos <= tokens@.len(),
        ensures
            r matches Some(p) ==> pos < p.0 <= tokens@.len(),
    ;

    /// Reads a whole source string, refusing trailing tokens.
    fn parse(s: &str) -> Option<Self>;
}

impl Parse for Term {
    /// A term: a variable, a bare constant, or `name(arg, ...)`.
    #[verifier::loop_isolation(false)]
    fn assemble(tokens: &Vec<Token>, pos: usize) -> (r: Option<(usize, Self)>)
        decreases tokens@.len() - pos,
    {
        if pos >= tokens.len() {
            return None;
        }
        match &tokens[pos] {
            Token::Var(s) => Some((pos + 1, Term::Var(s.clone()))),
            Token::Fun(f) => {
                let is_app = if pos + 1 < tokens.len() {
                    match &tokens[pos + 1] {
                        Token::LParen => true,
                        _ => false,
                    }
                } else {
                    false
                };
                if !is_app {
                    return Some((pos + 1, Term::Fun(f.clone(), Vec::new())));
                }
                let mut children: Vec<Term> = Vec::new();
                let mut p = pos + 2;
                loop
                    invariant
                        pos + 2 <= p,
                        p <= tokens@.len(),
                    decreases tokens@.len() - p,
                {
                    match Term::assemble(tokens, p) {
                        None => {
                            return None;
                        },
                        Some((p2, t)) => {
                            children.push(t);
                            if p2 >= tokens.len() {
                                return None;
                            }
                            match &tokens[p2] {
                                Token::Comma => {
                                    p = p2 + 1;
                                },
                                Token::RParen => {
                                    return Some((p2 + 1, Term::Fun(f.clone(), children)));
                                },
                                _ => {
                                    return None;
                                },
                            }
                        },
                    }
                }
            },
            _ => None,
        }
    }

    fn parse(s: &str) -> Option<Self> {
        match tokenize(s) {
            None => None,
            Some(tokens) => match Term::assemble(&tokens, 0) {
                Some((p, out)) => if p == tokens.len() {
                    Some(out)
                } else {
                    None
                },
                None => None,
            },
        }
    }
}

impl Parse for Equation {
    /// An equation: `<term> = <term>`, read unoriented.
    fn assemble(tokens: &Vec<Token>, pos: usize) -> (r: Option<(usize, Self)>) {
        match Term::assemble(tokens, pos) {
            None => None,
            Some((p1, lhs)) => {
                if p1 >= tokens.len() {
                    return None;
                }
                match &tokens[p1] {
                    Token::Equals => match Term::assemble(tokens, p1 + 1) {
                        None => None,
                        Some((p2, rhs)) => Some((p2, Equation { lhs, rhs, oriented: false })),
                    },
                    _ => None,
                }
            },
        }
    }

    fn parse(s: &str) -> Option<Self> {
        match tokenize(s) {
            None => None,
            Some(tokens) => match Equation::assemble(&tokens, 0) {
                Some((p, out)) => if p == tokens.len() {
                    Some(out)
                } else {
                    None
                },
                None => None,
            },
        }
    }
}

} // verus!
