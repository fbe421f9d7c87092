//! The grammar validator: which kind of token may follow which.
//!
//! The rules are pairwise: they look at each token before the first `EOL`
//! and at the token after it; past the end of the sequence an `EOL` is
//! assumed. Nothing is asked of the sequence as a whole: a formula may start
//! with a binary operator, and its parentheses need not match.
use crate::token::{tokens_model, Token, TokenModel, TokenType};
use vstd::prelude::*;

verus! {

/// The kind of the token at position `i`, or `EOL` past the sequence.
pub open spec fn kind_at(s: Seq<TokenModel>, i: int) -> TokenType {
    if 0 <= i < s.len() {
        s[i].kind
    } else {
        TokenType::EOL
    }
}

/// The first position at or after `from` that holds an `EOL` token, or the
/// length of the sequence if there is none.
pub open spec fn end_from(s: Seq<TokenModel>, from: int) -> int
    decreases s.len() - from,
{
    if 0 <= from < s.len() && s[from].kind != TokenType::EOL {
        end_from(s, from + 1)
    } else {
        from
    }
}

/// The position of the first `EOL` token, or the length of the sequence if
/// there is none.
pub open spec fn end_position(s: Seq<TokenModel>) -> int {
    end_from(s, 0)
}

/// The tokens before the first `EOL`: the formula itself.
pub open spec fn before_end(s: Seq<TokenModel>) -> Seq<TokenModel> {
    s.subrange(0, end_position(s))
}

/// The adjacency rules: whether a token of kind `next` may stand directly
/// after a token of kind `current`.
pub open spec fn spec_may_follow(current: TokenType, next: TokenType) -> bool {
    match current {
        TokenType::BOOL(_) | TokenType::IDENTIFIER => {
            next == TokenType::EOL || next.spec_is_operator() || next == TokenType::RPAREN
        },
        TokenType::NOT => {
            next is BOOL || next == TokenType::IDENTIFIER || next == TokenType::LPAREN
        },
        TokenType::AND
        | TokenType::OR
        | TokenType::IMPLIES
        | TokenType::CONVERSE
        | TokenType::EQUIVALENCE
        | TokenType::XOR
        | TokenType::NAND
        | TokenType::NOR => {
            next is BOOL || next == TokenType::IDENTIFIER || next.spec_is_operator() || next
                == TokenType::LPAREN
        },
        TokenType::LPAREN => {
            next == TokenType::LPAREN || next is BOOL || next == TokenType::IDENTIFIER || next
                == TokenType::NOT
        },
        TokenType::RPAREN => {
            next.spec_is_binary_operator() || next == TokenType::RPAREN || next == TokenType::EOL
        },
        _ => false,
    }
}

/// Whether the token at position `i` may be followed by what follows it.
pub open spec fn pair_ok(s: Seq<TokenModel>, i: int) -> bool {
    spec_may_follow(s[i].kind, kind_at(s, i + 1))
}

/// A sequence is grammatical if every token before its end is of a kind
/// that the rules know and is followed by a kind that the rules allow.
pub open spec fn syntax_ok(s: Seq<TokenModel>) -> bool {
    forall|i: int| 0 <= i < end_position(s) ==> #[trigger] pair_ok(s, i)
}

/// The end lies within the sequence, no token before it is an `EOL`, and
/// the token at it, if there is one, is an `EOL`.
pub proof fn lemma_end_from(s: Seq<TokenModel>, from: int)
    requires
        0 <= from <= s.len(),
    ensures
        from <= end_from(s, from) <= s.len(),
        forall|k: int| from <= k < end_from(s, from) ==> (#[trigger] s[k]).kind != TokenType::EOL,
        end_from(s, from) < s.len() ==> s[end_from(s, from)].kind == TokenType::EOL,
    decreases s.len() - from,
{
    if from < s.len() && s[from].kind != TokenType::EOL {
        lemma_end_from(s, from + 1);
    }
}

/// A position that no `EOL` token precedes, and that holds one or is the
/// length of the sequence, is the end position.
pub proof fn lemma_end_position_is(s: Seq<TokenModel>, e: int)
    requires
        0 <= e <= s.len(),
        forall|k: int| 0 <= k < e ==> (#[trigger] s[k]).kind != TokenType::EOL,
        e < s.len() ==> s[e].kind == TokenType::EOL,
    ensures
        end_position(s) == e,
{
    lemma_end_from(s, 0);
    let p = end_position(s);
    if p < e {
        assert(s[p].kind != TokenType::EOL);
    } else if e < p {
        assert(s[e].kind != TokenType::EOL);
    }
}

/// Whether a token of kind `next` may stand directly after a token of kind
/// `current`.
#[verifier::when_used_as_spec(spec_may_follow)]
pub fn may_follow(current: TokenType, next: TokenType) -> (r: bool)
    ensures
        r == spec_may_follow(current, next),
{
    match current {
        TokenType::BOOL(_) | TokenType::IDENTIFIER => {
            next == TokenType::EOL || next.is_operator() || next == TokenType::RPAREN
        },
        TokenType::NOT => {
            next.is_literal() || next == TokenType::IDENTIFIER || next == TokenType::LPAREN
        },
        TokenType::AND
        | TokenType::OR
        | TokenType::IMPLIES
        | TokenType::CONVERSE
        | TokenType::EQUIVALENCE
        | TokenType::XOR
        | TokenType::NAND
        | TokenType::NOR => {
            next.is_literal() || next == TokenType::IDENTIFIER || next.is_operator() || next
                == TokenType::LPAREN
        },
        TokenType::LPAREN => {
            next == TokenType::LPAREN || next.is_literal() || next == TokenType::IDENTIFIER || next
                == TokenType::NOT
        },
        TokenType::RPAREN => {
            next.is_binary_operator() || next == TokenType::RPAREN || next == TokenType::EOL
        },
        _ => false,
    }
}

/// The position of the first `EOL` token of `tokens`, or their number if
/// there is none.
pub fn end_index(tokens: &Vec<Token>) -> (e: usize)
    ensures
        e == end_position(tokens_model(tokens@)),
        e <= tokens@.len(),
{
    let ghost s = tokens_model(tokens@);
    let mut i: usize = 0;
    while i < tokens.len() && tokens[i].tType != TokenType::EOL
        invariant
            i <= tokens.len(),
            s == tokens_model(tokens@),
            forall|k: int| 0 <= k < i ==> (#[trigger] s[k]).kind != TokenType::EOL,
        decreases tokens.len() - i,
    {
        i += 1;
    }
    proof {
        lemma_end_position_is(s, i as int);
    }
    i
}

/// Checks a token sequence against the adjacency rules.
pub fn checkSyntax(expression: &Vec<Token>) -> (ok: bool)
    ensures
        ok == syntax_ok(tokens_model(expression@)),
{
    let ghost s = tokens_model(expression@);
    let mut i: usize = 0;
    while i < expression.len()
        invariant
            i <= expression.len(),
            s == tokens_model(expression@),
            forall|k: int| 0 <= k < i ==> (#[trigger] s[k]).kind != TokenType::EOL,
            forall|k: int| 0 <= k < i ==> #[trigger] pair_ok(s, k),
        decreases expression.len() - i,
    {
        let curr = expression[i].tType;
        if curr == TokenType::EOL {
            proof {
                lemma_end_position_is(s, i as int);
            }
            return true;
        }
        let next = if i + 1 < expression.len() {
            expression[i + 1].tType
        } else {
            TokenType::EOL
        };
        assert(curr == s[i as int].kind && next == kind_at(s, i + 1));
        if !may_follow(curr, next) {
            proof {
                lemma_end_from(s, 0);
                if end_position(s) <= i {
                    assert(s[end_position(s)].kind == TokenType::EOL);
                }
                assert(!pair_ok(s, i as int));
            }
            return false;
        }
        i += 1;
    }
    proof {
        lemma_end_position_is(s, i as int);
    }
    true
}

/// A sequence in which an operator stands directly before the end is not
/// grammatical.
pub proof fn lemma_dangling_operator_rejected(s: Seq<TokenModel>, i: int)
    requires
        0 <= i < end_position(s),
        s[i].kind.spec_is_operator(),
        kind_at(s, i + 1) == TokenType::EOL,
    ensures
        !syntax_ok(s),
{
    assert(!pair_ok(s, i));
}

/// A sequence in which two literals stand side by side, with no operator
/// between them, is not grammatical.
pub proof fn lemma_adjacent_literals_rejected(s: Seq<TokenModel>, i: int)
    requires
        0 <= i < end_position(s),
        s[i].kind is BOOL,
        kind_at(s, i + 1) is BOOL,
    ensures
        !syntax_ok(s),
{
    assert(!pair_ok(s, i));
}

/// The sequence with the token at `p` between the two parentheses `open`
/// and `close`.
pub open spec fn parenthesized(
    s: Seq<TokenModel>,
    p: int,
    open: TokenModel,
    close: TokenModel,
) -> Seq<TokenModel> {
    s.subrange(0, p) + seq![open, s[p], close] + s.subrange(p + 1, s.len() as int)
}

/// Parentheses around a literal or a variable change nothing for the
/// grammar, unless a `NOT` follows: it may follow an operand, and may not
/// follow a closing parenthesis.
pub proof fn lemma_parenthesized_syntax(
    s: Seq<TokenModel>,
    p: int,
    open: TokenModel,
    close: TokenModel,
)
    requires
        0 <= p < end_position(s),
        s[p].kind is BOOL || s[p].kind == TokenType::IDENTIFIER,
        open.kind == TokenType::LPAREN,
        close.kind == TokenType::RPAREN,
        kind_at(s, p + 1) != TokenType::NOT,
    ensures
        syntax_ok(parenthesized(s, p, open, close)) == syntax_ok(s),
{
    let w = parenthesized(s, p, open, close);
    let e = end_position(s);
    lemma_end_from(s, 0);
    assert(w.len() == s.len() + 2);
    assert forall|i: int| 0 <= i < w.len() implies #[trigger] w[i] == (if i < p {
        s[i]
    } else if i == p {
        open
    } else if i == p + 1 {
        s[p]
    } else if i == p + 2 {
        close
    } else {
        s[i - 2]
    }) by {}
    assert forall|k: int| 0 <= k < e + 2 implies (#[trigger] w[k]).kind != TokenType::EOL by {
        if k < p {
            assert(s[k].kind != TokenType::EOL);
        } else if k > p + 2 {
            assert(s[k - 2].kind != TokenType::EOL);
        }
    }
    if e < s.len() {
        assert(w[e + 2] == s[e]);
    }
    lemma_end_position_is(w, e + 2);
    if syntax_ok(s) {
        assert forall|i: int| 0 <= i < e + 2 implies #[trigger] pair_ok(w, i) by {
            if i < p {
                assert(pair_ok(s, i));
                if i + 1 < p {
                    assert(w[i + 1] == s[i + 1]);
                }
            } else if i == p {
                assert(w[p + 1] == s[p]);
            } else if i == p + 1 {
                assert(w[p + 2] == close);
            } else if i == p + 2 {
                assert(pair_ok(s, p));
                if p + 3 < w.len() {
                    assert(w[p + 3] == s[p + 1]);
                }
            } else {
                assert(pair_ok(s, i - 2));
                if i + 1 < w.len() {
                    assert(w[i + 1] == s[i - 1]);
                }
            }
        }
    }
    if syntax_ok(w) {
        assert forall|i: int| 0 <= i < e implies #[trigger] pair_ok(s, i) by {
            if i < p {
                assert(pair_ok(w, i));
                if i + 1 < p {
                    assert(w[i + 1] == s[i + 1]);
                } else {
                    assert(w[i + 1] == open);
                }
            } else if i == p {
                assert(pair_ok(w, p + 2));
                if p + 3 < w.len() {
                    assert(w[p + 3] == s[p + 1]);
                }
            } else {
                assert(pair_ok(w, i + 2));
                if i + 3 < w.len() {
                    assert(w[i + 3] == s[i + 1]);
                }
            }
        }
    }
}

} // verus!
