//! Splits pattern text into raw sub-expressions.
use vstd::prelude::*;
use vstd::slice::{slice_subrange, slice_to_vec};

use crate::syntax::{
    find_byte, find_off, find_opener, is_digit, is_opener, opener_off, parse_count, parse_span,
    read_count, read_span, split_alternatives, split_bar, LBRACE, LBRACKET, LPAREN, RBRACE,
    RBRACKET, RPAREN, SEMI,
};

verus! {

/// A raw sub-expression: a class body, an alternation body, a back-reference
/// digit or literal text. The flag marks optional occurrences.
pub enum TokenModel {
    Class(Seq<u8>, bool),
    Group(Seq<u8>, bool),
    Ref(nat),
    Text(Seq<u8>),
}

/// `mandatory` copies of a class, then `optional` optional ones.
pub open spec fn copies(cls: Seq<u8>, mandatory: nat, optional: nat) -> Seq<TokenModel> {
    Seq::new(mandatory, |_k: int| TokenModel::Class(cls, false)) + Seq::new(
        optional,
        |_k: int| TokenModel::Class(cls, true),
    )
}

/// Mandatory and optional copy counts for the text after `;`.
pub open spec fn repeat_counts(suf: Seq<u8>) -> (nat, nat) {
    match parse_span(suf) {
        Some((m, n)) => (m, if n > m {
            (n - m) as nat
        } else {
            0
        }),
        None => match parse_count(suf) {
            Some(k) => if k == 0 {
                (0, 1)
            } else {
                (k, 0)
            },
            None => (1, 0),
        },
    }
}

/// What `[c]` yields.
pub open spec fn class_tokens(c: Seq<u8>) -> Seq<TokenModel> {
    let semi = find_off(c, 0, SEMI);
    let cls = c.take(semi as int);
    if cls.len() == 0 {
        Seq::empty()
    } else if semi >= c.len() {
        seq![TokenModel::Class(cls, false)]
    } else {
        let counts = repeat_counts(c.subrange(semi + 1int, c.len() as int));
        copies(cls, counts.0, counts.1)
    }
}

/// What `(c)` yields: optional when there is no `|` to split on.
pub open spec fn group_tokens(c: Seq<u8>) -> Seq<TokenModel> {
    if c.len() == 0 {
        Seq::empty()
    } else {
        seq![TokenModel::Group(c, split_bar(c).len() == 1)]
    }
}

/// What `{c}` yields: a reference for a single digit, nothing otherwise.
pub open spec fn ref_tokens(c: Seq<u8>) -> Seq<TokenModel> {
    if c.len() == 1 && is_digit(c[0]) {
        seq![TokenModel::Ref((c[0] - 48) as nat)]
    } else {
        Seq::empty()
    }
}

pub open spec fn closer_of(b: u8) -> u8 {
    if b == LBRACKET {
        RBRACKET
    } else if b == LPAREN {
        RPAREN
    } else {
        RBRACE
    }
}

/// The tokens of the construct that starts at `i`, and where scanning resumes.
/// An opener without its closer makes the rest of the text literal.
pub open spec fn step_at(p: Seq<u8>, i: nat) -> (Seq<TokenModel>, nat) {
    let b = p[i as int];
    if is_opener(b) {
        let j = i + 1 + find_off(p, i + 1, closer_of(b));
        if j >= p.len() {
            (seq![TokenModel::Text(p.subrange(i as int, p.len() as int))], p.len())
        } else {
            let c = p.subrange(i + 1int, j as int);
            (
                if b == LBRACKET {
                    class_tokens(c)
                } else if b == LPAREN {
                    group_tokens(c)
                } else {
                    ref_tokens(c)
                },
                j + 1,
            )
        }
    } else {
        let k = i + 1 + opener_off(p, i + 1);
        (seq![TokenModel::Text(p.subrange(i as int, k as int))], k)
    }
}

/// The tokens of `p` from position `i` on.
pub open spec fn tokens_from(p: Seq<u8>, i: nat) -> Seq<TokenModel>
    decreases (if i < p.len() {
        p.len() - i
    } else {
        0
    }),
{
    if i >= p.len() {
        Seq::empty()
    } else {
        let (e, n) = step_at(p, i);
        e + tokens_from(p, n)
    }
}

/// The tokens of a whole pattern.
pub open spec fn tokens_of(p: Seq<u8>) -> Seq<TokenModel> {
    tokens_from(p, 0)
}

pub enum Token {
    Class(Vec<u8>, bool),
    Group(Vec<u8>, bool),
    Ref(u8),
    Text(Vec<u8>),
}

impl View for Token {
    type V = TokenModel;

    open spec fn view(&self) -> TokenModel {
        match self {
            Token::Class(c, o) => TokenModel::Class(c@, *o),
            Token::Group(c, o) => TokenModel::Group(c@, *o),
            Token::Ref(n) => TokenModel::Ref(*n as nat),
            Token::Text(t) => TokenModel::Text(t@),
        }
    }
}

pub open spec fn token_views(v: Seq<Token>) -> Seq<TokenModel> {
    v.map_values(|t: Token| t@)
}

proof fn lemma_push_view(v: Seq<Token>, t: Token)
    ensures
        token_views(v.push(t)) == token_views(v) + seq![t@],
{
    assert(token_views(v.push(t)) =~= token_views(v) + seq![t@]);
}

fn counts_of(suf: &[u8]) -> (r: (u8, u8))
    ensures
        (r.0 as nat, r.1 as nat) == repeat_counts(suf@),
{
    match read_span(suf) {
        Some((m, n)) => (m, if n > m {
            n - m
        } else {
            0
        }),
        None => match read_count(suf) {
            Some(k) => if k == 0 {
                (0, 1)
            } else {
                (k, 0)
            },
            None => (1, 0),
        },
    }
}

fn push_copies(out: &mut Vec<Token>, cls: &[u8], n: u8, optional: bool)
    ensures
        token_views(final(out)@) == token_views(old(out)@) + Seq::new(
            n as nat,
            |_k: int| TokenModel::Class(cls@, optional),
        ),
{
    let ghost start = token_views(out@);
    let mut k: u8 = 0;
    while k < n
        invariant
            k <= n,
            token_views(out@) == start + Seq::new(
                k as nat,
                |_k: int| TokenModel::Class(cls@, optional),
            ),
        decreases n - k,
    {
        let t = Token::Class(slice_to_vec(cls), optional);
        proof {
            lemma_push_view(out@, t);
        }
        out.push(t);
        k += 1;
        assert(token_views(out@) =~= start + Seq::new(
            k as nat,
            |_k: int| TokenModel::Class(cls@, optional),
        ));
    }
}

fn push_class(out: &mut Vec<Token>, c: &[u8])
    ensures
        token_views(final(out)@) == token_views(old(out)@) + class_tokens(c@),
{
    let semi = find_byte(c, 0, SEMI);
    if semi == 0 {
        assert(class_tokens(c@) =~= Seq::empty());
        assert(token_views(out@) =~= token_views(out@) + class_tokens(c@));
        return ;
    }
    let cls = slice_subrange(c, 0, semi);
    if semi >= c.len() {
        let t = Token::Class(slice_to_vec(cls), false);
        proof {
            lemma_push_view(out@, t);
        }
        out.push(t);
    } else {
        let counts = counts_of(slice_subrange(c, semi + 1, c.len()));
        let ghost start = token_views(out@);
        push_copies(out, cls, counts.0, false);
        push_copies(out, cls, counts.1, true);
        assert(token_views(out@) =~= start + copies(cls@, counts.0 as nat, counts.1 as nat));
    }
}

fn push_group(out: &mut Vec<Token>, c: &[u8])
    ensures
        token_views(final(out)@) == token_views(old(out)@) + group_tokens(c@),
{
    if c.len() == 0 {
        assert(token_views(out@) =~= token_views(out@) + group_tokens(c@));
        return ;
    }
    let pieces = split_alternatives(c);
    proof {
        assert(pieces@.len() == split_bar(c@).len());
    }
    let t = Token::Group(slice_to_vec(c), pieces.len() == 1);
    proof {
        lemma_push_view(out@, t);
    }
    out.push(t);
}

fn push_ref(out: &mut Vec<Token>, c: &[u8])
    ensures
        token_views(final(out)@) == token_views(old(out)@) + ref_tokens(c@),
{
    if c.len() == 1 && 48 <= c[0] && c[0] <= 57 {
        let t = Token::Ref(c[0] - 48);
        proof {
            lemma_push_view(out@, t);
        }
        out.push(t);
    } else {
        assert(token_views(out@) =~= token_views(out@) + ref_tokens(c@));
    }
}

/// Splits pattern bytes into raw sub-expressions, in order.
pub fn tokenize(p: &[u8]) -> (r: Vec<Token>)
    ensures
        token_views(r@) == tokens_of(p@),
{
    let mut out: Vec<Token> = Vec::new();
    let mut i: usize = 0;
    while i < p.len()
        invariant
            0 <= i <= p@.len(),
            token_views(out@) + tokens_from(p@, i as nat) == tokens_of(p@),
        decreases p@.len() - i,
    {
        let ghost before = token_views(out@);
        let ghost step = step_at(p@, i as nat);
        assert(tokens_from(p@, i as nat) == step.0 + tokens_from(p@, step.1));
        let b = p[i];
        let next: usize;
        if b == LBRACKET || b == LPAREN || b == LBRACE {
            let close = if b == LBRACKET {
                RBRACKET
            } else if b == LPAREN {
                RPAREN
            } else {
                RBRACE
            };
            let j = find_byte(p, i + 1, close);
            if j >= p.len() {
                let t = Token::Text(slice_to_vec(slice_subrange(p, i, p.len())));
                proof {
                    lemma_push_view(out@, t);
                }
                out.push(t);
                next = p.len();
            } else {
                let c = slice_subrange(p, i + 1, j);
                if b == LBRACKET {
                    push_class(&mut out, c);
                } else if b == LPAREN {
                    push_group(&mut out, c);
                } else {
                    push_ref(&mut out, c);
                }
                next = j + 1;
            }
        } else {
            let k = find_opener(p, i + 1);
            let t = Token::Text(slice_to_vec(slice_subrange(p, i, k)));
            proof {
                lemma_push_view(out@, t);
            }
            out.push(t);
            next = k;
        }
        assert(token_views(out@) == before + step.0);
        assert(next as nat == step.1);
        assert(token_views(out@) + tokens_from(p@, next as nat) =~= before + tokens_from(
            p@,
            i as nat,
        ));
        i = next;
    }
    assert(tokens_from(p@, i as nat) =~= Seq::empty());
    assert(token_views(out@) =~= tokens_of(p@));
    out
}

} // verus!
