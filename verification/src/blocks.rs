//! The bracket resolver: every matched pair of parentheses, with what it
//! encloses, becomes one `BLOCK` token.
//!
//! A parenthesis without a partner stays in place as it is.
use crate::token::{
    clone_tokens, group_token, lemma_tokens_model_push, tokens_model, Token, TokenModel, TokenType,
};
use vstd::prelude::*;

verus! {

/// The position, at or after `from`, of the `)` that closes the parenthesis
/// opened `depth` levels up; the length of the sequence if there is none.
pub open spec fn closing(s: Seq<TokenModel>, from: int, depth: int) -> int
    decreases s.len() - from,
{
    if !(0 <= from < s.len()) {
        s.len() as int
    } else if s[from].kind == TokenType::LPAREN {
        closing(s, from + 1, depth + 1)
    } else if s[from].kind == TokenType::RPAREN {
        if depth <= 1 {
            from
        } else {
            closing(s, from + 1, depth - 1)
        }
    } else {
        closing(s, from + 1, depth)
    }
}

/// The closing parenthesis lies at or after the start of the search.
pub proof fn lemma_closing_bounds(s: Seq<TokenModel>, from: int, depth: int)
    requires
        0 <= from <= s.len(),
    ensures
        from <= closing(s, from, depth) <= s.len(),
        closing(s, from, depth) < s.len() ==> s[closing(s, from, depth)].kind == TokenType::RPAREN,
    decreases s.len() - from,
{
    if from < s.len() {
        if s[from].kind == TokenType::LPAREN {
            lemma_closing_bounds(s, from + 1, depth + 1);
        } else if s[from].kind == TokenType::RPAREN {
            if depth > 1 {
                lemma_closing_bounds(s, from + 1, depth - 1);
            }
        } else {
            lemma_closing_bounds(s, from + 1, depth);
        }
    }
}

/// The sequence from position `i` on, with every matched pair of
/// parentheses collapsed: the `BLOCK` token of a pair spans from the start
/// of `(` to the end of `)` and owns the resolved sequence between them.
pub open spec fn resolve_from(s: Seq<TokenModel>, i: int) -> Seq<TokenModel>
    decreases s.len(), s.len() - i,
{
    if !(0 <= i < s.len()) {
        Seq::empty()
    } else if s[i].kind == TokenType::LPAREN && closing(s, i + 1, 1) < s.len() {
        let j = closing(s, i + 1, 1);
        proof {
            lemma_closing_bounds(s, i + 1, 1);
        }
        seq![
            group_token(
                TokenType::BLOCK,
                resolve_from(s.subrange(i + 1, j), 0),
                s[i].start,
                s[j].end,
            ),
        ] + resolve_from(s, j + 1)
    } else {
        seq![s[i]] + resolve_from(s, i + 1)
    }
}

/// The whole sequence with every matched pair of parentheses collapsed.
pub open spec fn resolved(s: Seq<TokenModel>) -> Seq<TokenModel> {
    resolve_from(s, 0)
}

/// Looks for the partner of the `(` at `entryPoint`. If there is one,
/// returns the `BLOCK` token of the pair and the position of the `)`.
fn getBlock(entryPoint: usize, expression: &Vec<Token>) -> (found: Option<(Token, usize)>)
    requires
        entryPoint < expression@.len(),
    ensures
        match found {
            Some((block, close)) => {
                &&& entryPoint < close < expression@.len()
                &&& close == closing(tokens_model(expression@), entryPoint + 1, 1)
                &&& block@ == group_token(
                    TokenType::BLOCK,
                    resolved(
                        tokens_model(expression@).subrange(entryPoint + 1, close as int),
                    ),
                    expression@[entryPoint as int].start as int,
                    expression@[close as int].end as int,
                )
            },
            None => closing(tokens_model(expression@), entryPoint + 1, 1) >= expression@.len(),
        },
    decreases expression@.len(), 0int,
{
    let ghost s = tokens_model(expression@);
    let n = expression.len();
    let mut exprStack: Vec<Token> = Vec::new();
    let mut i: usize = entryPoint + 1;
    let mut open: usize = 1;
    assert(tokens_model(exprStack@) =~= s.subrange(entryPoint + 1, i as int));
    while i < n
        invariant
            n == expression@.len(),
            entryPoint < i <= n,
            s == tokens_model(expression@),
            1 <= open <= i - entryPoint,
            closing(s, i as int, open as int) == closing(s, entryPoint + 1, 1),
            tokens_model(exprStack@) == s.subrange(entryPoint + 1, i as int),
        decreases expression@.len() - i,
    {
        let kind = expression[i].tType;
        assert(kind == s[i as int].kind);
        if kind == TokenType::RPAREN && open == 1 {
            let mut inner = exprStack;
            assert(inner@.len() == tokens_model(inner@).len());
            let resolved_inner = parseBlocks(&mut inner);
            let block = Token::group(
                TokenType::BLOCK,
                resolved_inner,
                expression[entryPoint].start,
                expression[i].end,
            );
            return Some((block, i));
        }
        if kind == TokenType::LPAREN {
            open += 1;
        } else if kind == TokenType::RPAREN {
            open -= 1;
        }
        let copy = expression[i].clone();
        proof {
            lemma_tokens_model_push(exprStack@, copy);
            assert(s.subrange(entryPoint + 1, i as int).push(s[i as int]) =~= s.subrange(
                entryPoint + 1,
                i + 1,
            ));
        }
        exprStack.push(copy);
        i += 1;
    }
    None
}

/// Collapses every matched pair of parentheses of `expression`, in place,
/// and returns a copy of the result.
pub fn parseBlocks(expression: &mut Vec<Token>) -> (result: Vec<Token>)
    ensures
        tokens_model(final(expression)@) == resolved(tokens_model(old(expression)@)),
        tokens_model(result@) == resolved(tokens_model(old(expression)@)),
    decreases old(expression)@.len(), 1int,
{
    let ghost s = tokens_model(expression@);
    let mut out: Vec<Token> = Vec::new();
    let mut i: usize = 0;
    assert(tokens_model(out@) + resolve_from(s, 0) =~= resolved(s));
    while i < expression.len()
        invariant
            i <= expression@.len(),
            expression == old(expression),
            s == tokens_model(expression@),
            tokens_model(out@) + resolve_from(s, i as int) == resolved(s),
        decreases expression@.len() - i,
    {
        let ghost before = tokens_model(out@);
        let ghost token: TokenModel;
        let ghost at = i as int;
        assert(expression@[at].tType == s[at].kind);
        let mut next = i + 1;
        let mut block: Option<Token> = None;
        if expression[i].tType == TokenType::LPAREN {
            if let Some((found, close)) = getBlock(i, expression) {
                block = Some(found);
                next = close + 1;
            }
        }
        let item = match block {
            Some(found) => found,
            None => expression[i].clone(),
        };
        proof {
            token = item@;
            lemma_tokens_model_push(out@, item);
            assert(resolve_from(s, at) == seq![token] + resolve_from(s, next as int));
            assert(before.push(token) + resolve_from(s, next as int) =~= before + (seq![token]
                + resolve_from(s, next as int)));
        }
        out.push(item);
        i = next;
    }
    proof {
        assert(tokens_model(out@) + resolve_from(s, i as int) =~= tokens_model(out@));
    }
    let result = clone_tokens(&out);
    *expression = out;
    result
}

} // verus!
