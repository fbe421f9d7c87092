//! Token sequences up to their positions.
//!
//! The shape of a token is the token with its span set to zero, and so for
//! the tokens it owns. Grouping and tree building look at kinds only, so
//! they do to shapes what they do to tokens.
use crate::blocks::{closing, lemma_closing_bounds, resolve_from, resolved};
use crate::evaluator::{build, is_peak, lemma_peak, lemma_peak_is, peak, strength, tree_of};
use crate::syntax::{before_end, end_position, lemma_end_from, lemma_end_position_is};
use crate::token::{group_token, TokenModel, TokenType};
use vstd::prelude::*;

verus! {

/// The token without its position.
pub open spec fn shape(t: TokenModel) -> TokenModel
    decreases t,
{
    TokenModel {
        kind: t.kind,
        content: t.content,
        expression: shapes(t.expression),
        start: 0,
        end: 0,
    }
}

/// The tokens without their positions.
pub open spec fn shapes(s: Seq<TokenModel>) -> Seq<TokenModel>
    decreases s,
{
    Seq::new(
        s.len(),
        |i: int|
            if 0 <= i < s.len() {
                shape(s[i])
            } else {
                arbitrary()
            },
    )
}

/// Two sequences that differ in positions only.
pub open spec fn same_shape(a: Seq<TokenModel>, b: Seq<TokenModel>) -> bool {
    shapes(a) == shapes(b)
}

/// The shape of two sequences in a row is their shapes in a row.
pub proof fn lemma_shapes_add(a: Seq<TokenModel>, b: Seq<TokenModel>)
    ensures
        shapes(a + b) == shapes(a) + shapes(b),
{
    assert(shapes(a + b) =~= shapes(a) + shapes(b));
}

/// The shape of a part is that part of the shape.
pub proof fn lemma_shapes_subrange(s: Seq<TokenModel>, lo: int, hi: int)
    requires
        0 <= lo <= hi <= s.len(),
    ensures
        shapes(s.subrange(lo, hi)) == shapes(s).subrange(lo, hi),
{
    assert(shapes(s.subrange(lo, hi)) =~= shapes(s).subrange(lo, hi));
}

/// The shape of a shape is the shape.
pub proof fn lemma_shapes_twice(s: Seq<TokenModel>)
    ensures
        shapes(shapes(s)) == shapes(s),
    decreases s,
{
    assert forall|i: int| 0 <= i < s.len() implies shapes(shapes(s))[i] == shapes(s)[i] by {
        lemma_shapes_twice(s[i].expression);
    }
    assert(shapes(shapes(s)) =~= shapes(s));
}

/// The end of a sequence is the end of its shape.
pub proof fn lemma_end_shapes(s: Seq<TokenModel>)
    ensures
        end_position(shapes(s)) == end_position(s),
        before_end(shapes(s)) == shapes(before_end(s)),
{
    lemma_end_from(s, 0);
    let e = end_position(s);
    let g = shapes(s);
    assert forall|k: int| 0 <= k < e implies (#[trigger] g[k]).kind != TokenType::EOL by {
        assert(s[k].kind != TokenType::EOL);
    }
    lemma_end_position_is(g, e);
    lemma_shapes_subrange(s, 0, e);
}

/// The partner of a parenthesis is found by kinds alone.
pub proof fn lemma_closing_shapes(s: Seq<TokenModel>, from: int, depth: int)
    ensures
        closing(shapes(s), from, depth) == closing(s, from, depth),
    decreases s.len() - from,
{
    if 0 <= from < s.len() {
        assert(shapes(s)[from].kind == s[from].kind);
        if s[from].kind == TokenType::LPAREN {
            lemma_closing_shapes(s, from + 1, depth + 1);
        } else if s[from].kind == TokenType::RPAREN {
            if depth > 1 {
                lemma_closing_shapes(s, from + 1, depth - 1);
            }
        } else {
            lemma_closing_shapes(s, from + 1, depth);
        }
    }
}

/// Resolving the shape gives the shape of what resolving gives.
pub proof fn lemma_resolve_shapes(s: Seq<TokenModel>, i: int)
    ensures
        resolve_from(shapes(s), i) == shapes(resolve_from(s, i)),
    decreases s.len(), s.len() - i,
{
    let g = shapes(s);
    if 0 <= i < s.len() {
        assert(g[i] == shape(s[i]));
        lemma_closing_shapes(s, i + 1, 1);
        let j = closing(s, i + 1, 1);
        if s[i].kind == TokenType::LPAREN && j < s.len() {
            lemma_closing_bounds(s, i + 1, 1);
            let inner = s.subrange(i + 1, j);
            lemma_resolve_shapes(inner, 0);
            lemma_shapes_subrange(s, i + 1, j);
            lemma_resolve_shapes(s, j + 1);
            let block = group_token(TokenType::BLOCK, resolve_from(inner, 0), s[i].start, s[j].end);
            let shaped = group_token(
                TokenType::BLOCK,
                resolve_from(g.subrange(i + 1, j), 0),
                g[i].start,
                g[j].end,
            );
            assert(shape(block) == shaped);
            lemma_shapes_add(seq![block], resolve_from(s, j + 1));
            assert(shapes(seq![block]) =~= seq![shaped]);
        } else {
            lemma_resolve_shapes(s, i + 1);
            lemma_shapes_add(seq![s[i]], resolve_from(s, i + 1));
            assert(shapes(seq![s[i]]) =~= seq![g[i]]);
        }
    } else {
        assert(shapes(Seq::<TokenModel>::empty()) =~= Seq::<TokenModel>::empty());
    }
}

/// The split position of a formula is that of its shape.
pub proof fn lemma_peak_shapes(f: Seq<TokenModel>)
    ensures
        peak(shapes(f)) == peak(f),
{
    let g = shapes(f);
    if f.len() > 0 {
        lemma_peak(f);
        let p = peak(f);
        assert forall|j: int| 0 <= j < f.len() implies strength(g, j) == strength(f, j) by {}
        assert(is_peak(g, p)) by {
            assert forall|j: int| 0 <= j < g.len() implies #[trigger] strength(g, j) <= strength(
                g,
                p,
            ) by {
                assert(strength(f, j) <= strength(f, p));
            }
            assert forall|j: int| 0 <= j < p implies #[trigger] strength(g, j) < strength(g, p) by {
                assert(strength(f, j) < strength(f, p));
            }
        }
        lemma_peak_is(g, p);
    }
}

/// The tree of a formula is the tree of its shape.
pub proof fn lemma_build_shapes(f: Seq<TokenModel>)
    ensures
        build(shapes(f)) == build(f),
    decreases f,
{
    let g = shapes(f);
    if f.len() > 0 {
        lemma_peak(f);
        lemma_peak_shapes(f);
        let p = peak(f);
        let n = f.len() as int;
        assert(g[p] == shape(f[p]));
        if f[p].kind.spec_is_group() {
            if n == 1 {
                let inner = f[p].expression;
                lemma_end_from(inner, 0);
                assert(end_position(inner) == inner.len() ==> before_end(inner) =~= inner);
                lemma_end_shapes(inner);
                lemma_build_shapes(before_end(inner));
            }
        } else if f[p].kind == TokenType::NOT {
            lemma_shapes_subrange(f, p + 1, n);
            lemma_build_shapes(f.subrange(p + 1, n));
        } else if f[p].kind.spec_is_binary_operator() {
            lemma_shapes_subrange(f, 0, p);
            lemma_shapes_subrange(f, p + 1, n);
            lemma_build_shapes(f.subrange(0, p));
            lemma_build_shapes(f.subrange(p + 1, n));
        }
    }
}

/// The tree of a token sequence is the tree of its shape.
pub proof fn lemma_tree_shapes(s: Seq<TokenModel>)
    ensures
        tree_of(shapes(s)) == tree_of(s),
{
    lemma_end_shapes(s);
    lemma_build_shapes(before_end(s));
}

/// Sequences of one shape have one tree, and resolve to sequences of one
/// shape.
pub proof fn lemma_same_shape(a: Seq<TokenModel>, b: Seq<TokenModel>)
    requires
        same_shape(a, b),
    ensures
        tree_of(a) == tree_of(b),
        same_shape(resolved(a), resolved(b)),
{
    lemma_tree_shapes(a);
    lemma_tree_shapes(b);
    lemma_resolve_shapes(a, 0);
    lemma_resolve_shapes(b, 0);
}

} // verus!
