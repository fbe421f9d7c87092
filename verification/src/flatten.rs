//! The way back from groups to parentheses.
//!
//! The flat tokens of a resolved sequence are its tokens with every group
//! written out between two parentheses. Resolving them gives the groups
//! back, however deep they nest.
use crate::blocks::{closing, lemma_closing_bounds, resolve_from, resolved};
use crate::evaluator::{is_operand, lemma_nesting_depth, tree_of, wrapped};
use crate::shape::{
    lemma_resolve_shapes, lemma_shapes_add, lemma_shapes_subrange, lemma_shapes_twice,
    lemma_tree_shapes, same_shape, shape, shapes,
};
use crate::syntax::{before_end, end_position, lemma_end_from, lemma_end_position_is};
use crate::token::{plain_token, TokenModel, TokenType};
use vstd::prelude::*;

verus! {

/// The parenthesis token of the given kind, without a position.
pub open spec fn paren_token(kind: TokenType) -> TokenModel {
    plain_token(
        kind,
        if kind == TokenType::LPAREN {
            seq!['(']
        } else {
            seq![')']
        },
        0,
        0,
    )
}

/// The flat tokens of a token: a group of parentheses gives its tokens
/// between two parentheses, any other token itself.
pub open spec fn flat_token(t: TokenModel) -> Seq<TokenModel>
    decreases t,
{
    if t.kind == TokenType::BLOCK {
        seq![paren_token(TokenType::LPAREN)] + flat(t.expression) + seq![
            paren_token(TokenType::RPAREN),
        ]
    } else {
        seq![t]
    }
}

/// The flat tokens of a resolved sequence: what the resolver must have been
/// given.
pub open spec fn flat(s: Seq<TokenModel>) -> Seq<TokenModel>
    decreases s,
{
    if s.len() == 0 {
        Seq::empty()
    } else {
        flat_token(s[0]) + flat(s.subrange(1, s.len() as int))
    }
}

/// A token as the resolver leaves it when every parenthesis has a partner:
/// no parenthesis; a group of parentheses has no text and owns such tokens.
pub open spec fn grouped_token(t: TokenModel) -> bool
    decreases t,
{
    if t.kind == TokenType::BLOCK {
        t.content.len() == 0 && grouped(t.expression)
    } else {
        t.kind != TokenType::LPAREN && t.kind != TokenType::RPAREN
    }
}

/// A sequence of such tokens.
pub open spec fn grouped(s: Seq<TokenModel>) -> bool
    decreases s,
{
    forall|i: int| 0 <= i < s.len() ==> grouped_token(#[trigger] s[i])
}

/// What is grouped stays so without its positions.
pub proof fn lemma_grouped_shapes(s: Seq<TokenModel>)
    requires
        grouped(s),
    ensures
        grouped(shapes(s)),
    decreases s,
{
    let g = shapes(s);
    assert forall|i: int| 0 <= i < g.len() implies grouped_token(#[trigger] g[i]) by {
        assert(grouped_token(s[i]));
        assert(g[i] == shape(s[i]));
        if s[i].kind == TokenType::BLOCK {
            lemma_grouped_shapes(s[i].expression);
        }
    }
}

/// The rest of a grouped sequence is grouped.
pub proof fn lemma_grouped_rest(s: Seq<TokenModel>)
    requires
        grouped(s),
        s.len() > 0,
    ensures
        grouped_token(s[0]),
        grouped(s.subrange(1, s.len() as int)),
{
    let rest = s.subrange(1, s.len() as int);
    assert forall|i: int| 0 <= i < rest.len() implies grouped_token(#[trigger] rest[i]) by {
        assert(rest[i] == s[i + 1]);
    }
}

/// The flat tokens of the shape are the shape of the flat tokens.
pub proof fn lemma_flat_shapes(s: Seq<TokenModel>)
    ensures
        flat(shapes(s)) == shapes(flat(s)),
    decreases s,
{
    let g = shapes(s);
    if s.len() == 0 {
        assert(shapes(flat(s)) =~= Seq::<TokenModel>::empty());
    } else {
        let n = s.len() as int;
        let rest = s.subrange(1, n);
        lemma_flat_shapes(rest);
        lemma_shapes_subrange(s, 1, n);
        lemma_shapes_add(flat_token(s[0]), flat(rest));
        assert(g[0] == shape(s[0]));
        assert(flat(g) == flat_token(g[0]) + flat(g.subrange(1, n)));
        assert(flat(s) == flat_token(s[0]) + flat(rest));
        lemma_flat_token_shape(s[0]);
    }
}

/// The flat tokens of the shape of a token are the shape of its flat
/// tokens.
pub proof fn lemma_flat_token_shape(t: TokenModel)
    ensures
        flat_token(shape(t)) == shapes(flat_token(t)),
    decreases t,
{
    if t.kind == TokenType::BLOCK {
        let inner = t.expression;
        lemma_flat_shapes(inner);
        let l = seq![paren_token(TokenType::LPAREN)];
        let r = seq![paren_token(TokenType::RPAREN)];
        lemma_shapes_add(l + flat(inner), r);
        lemma_shapes_add(l, flat(inner));
        assert(shapes(paren_token(TokenType::LPAREN).expression) =~= Seq::empty());
        assert(shapes(paren_token(TokenType::RPAREN).expression) =~= Seq::empty());
        assert(shape(paren_token(TokenType::LPAREN)) == paren_token(TokenType::LPAREN));
        assert(shape(paren_token(TokenType::RPAREN)) == paren_token(TokenType::RPAREN));
        assert(shapes(l) =~= l);
        assert(shapes(r) =~= r);
        assert(shape(t).expression == shapes(inner));
        assert(flat_token(shape(t)) == l + flat(shapes(inner)) + r);
    } else {
        assert(shapes(seq![t]) =~= seq![shape(t)]);
    }
}

/// The search for the partner of a parenthesis passes over the flat tokens
/// of a grouped sequence: they open no parenthesis that they do not close.
pub proof fn lemma_closing_passes(g: Seq<TokenModel>, a: int, s: Seq<TokenModel>, depth: int)
    requires
        grouped(s),
        depth >= 1,
        0 <= a,
        a + flat(s).len() <= g.len(),
        g.subrange(a, a + flat(s).len()) == flat(s),
    ensures
        closing(g, a, depth) == closing(g, a + flat(s).len(), depth),
    decreases s,
{
    if s.len() > 0 {
        let n = s.len() as int;
        let rest = s.subrange(1, n);
        let head = flat_token(s[0]);
        let all = flat(s);
        assert(all == head + flat(rest));
        lemma_grouped_rest(s);
        assert forall|k: int| 0 <= k < all.len() implies g[a + k] == all[k] by {
            assert(g.subrange(a, a + all.len())[k] == g[a + k]);
        }
        let b = a + head.len();
        assert(g.subrange(b, b + flat(rest).len()) =~= flat(rest)) by {
            assert forall|k: int| 0 <= k < flat(rest).len() implies g[b + k] == flat(rest)[k] by {
                assert(all[head.len() + k] == flat(rest)[k]);
            }
        }
        if s[0].kind == TokenType::BLOCK {
            let inner = s[0].expression;
            let m = flat(inner).len() as int;
            assert(head.len() == m + 2);
            assert(g[a] == all[0]);
            assert(g[a].kind == TokenType::LPAREN);
            assert(g.subrange(a + 1, a + 1 + m) =~= flat(inner)) by {
                assert forall|k: int| 0 <= k < m implies g[a + 1 + k] == flat(inner)[k] by {
                    assert(all[1 + k] == flat(inner)[k]);
                }
            }
            lemma_closing_passes(g, a + 1, inner, depth + 1);
            assert(g[a + 1 + m] == all[1 + m]);
            assert(g[a + 1 + m].kind == TokenType::RPAREN);
        } else {
            assert(g[a] == all[0]);
            assert(g[a] == s[0]);
        }
        lemma_closing_passes(g, b, rest, depth);
    }
}

/// Where the flat tokens of a grouped sequence without positions stand,
/// the resolver gives the sequence back and goes on behind them.
pub proof fn lemma_resolve_flat(g: Seq<TokenModel>, a: int, s: Seq<TokenModel>)
    requires
        grouped(s),
        s == shapes(s),
        0 <= a,
        a + flat(s).len() <= g.len(),
        g.subrange(a, a + flat(s).len()) == flat(s),
    ensures
        resolve_from(g, a) == s + resolve_from(g, a + flat(s).len()),
    decreases s,
{
    if s.len() == 0 {
        assert(s + resolve_from(g, a) =~= resolve_from(g, a));
    } else {
        let n = s.len() as int;
        let rest = s.subrange(1, n);
        let head = flat_token(s[0]);
        let all = flat(s);
        assert(all == head + flat(rest));
        lemma_grouped_rest(s);
        lemma_shapes_subrange(s, 1, n);
        assert(rest == shapes(rest));
        assert(s[0] == shape(s[0])) by {
            assert(shapes(s)[0] == shape(s[0]));
        }
        assert forall|k: int| 0 <= k < all.len() implies g[a + k] == all[k] by {
            assert(g.subrange(a, a + all.len())[k] == g[a + k]);
        }
        let b = a + head.len();
        assert(g.subrange(b, b + flat(rest).len()) =~= flat(rest)) by {
            assert forall|k: int| 0 <= k < flat(rest).len() implies g[b + k] == flat(rest)[k] by {
                assert(all[head.len() + k] == flat(rest)[k]);
            }
        }
        lemma_resolve_flat(g, b, rest);
        assert(g[a] == all[0]);
        if s[0].kind == TokenType::BLOCK {
            let inner = s[0].expression;
            let m = flat(inner).len() as int;
            let j = a + 1 + m;
            assert(inner == shapes(inner));
            assert(g.subrange(a + 1, j) =~= flat(inner)) by {
                assert forall|k: int| 0 <= k < m implies g[a + 1 + k] == flat(inner)[k] by {
                    assert(all[1 + k] == flat(inner)[k]);
                }
            }
            lemma_closing_passes(g, a + 1, inner, 1);
            assert(g[j] == all[1 + m]);
            assert(g[j].kind == TokenType::RPAREN);
            assert(closing(g, a + 1, 1) == j);
            let sub = g.subrange(a + 1, j);
            assert(sub.subrange(0, m) =~= flat(inner));
            lemma_resolve_flat(sub, 0, inner);
            assert(resolve_from(sub, 0) =~= inner);
            assert(g[a] == paren_token(TokenType::LPAREN));
            assert(g[j] == paren_token(TokenType::RPAREN));
            assert(s[0].content =~= Seq::<char>::empty());
            assert(resolve_from(g, a) == seq![s[0]] + resolve_from(g, j + 1));
        } else {
            assert(g[a] == s[0]);
            assert(resolve_from(g, a) == seq![s[0]] + resolve_from(g, a + 1));
        }
        assert(seq![s[0]] + (rest + resolve_from(g, b + flat(rest).len())) =~= s + resolve_from(
            g,
            a + all.len(),
        ));
    }
}

/// The flat tokens of a grouped sequence resolve to the sequence, up to
/// positions, however deep its groups nest.
pub proof fn lemma_flat_resolves(s: Seq<TokenModel>)
    requires
        grouped(s),
    ensures
        same_shape(resolved(flat(s)), s),
{
    let plain = shapes(s);
    lemma_grouped_shapes(s);
    lemma_flat_shapes(s);
    lemma_shapes_twice(s);
    let g = flat(plain);
    assert(g.subrange(0, g.len() as int) =~= g);
    lemma_resolve_flat(g, 0, plain);
    assert(plain + resolve_from(g, g.len() as int) =~= plain);
    lemma_resolve_shapes(flat(s), 0);
}

/// An operand in parentheses is grouped if the operand is.
pub proof fn lemma_wrapped_grouped(t: TokenModel, depth: nat)
    requires
        grouped_token(t),
    ensures
        grouped_token(wrapped(t, depth)),
    decreases depth,
{
    if depth > 0 {
        let inner = wrapped(t, (depth - 1) as nat);
        lemma_wrapped_grouped(t, (depth - 1) as nat);
        assert(wrapped(t, depth).expression == seq![inner]);
        assert(grouped(seq![inner]));
    }
}

/// Parentheses around an operand change no tree, however deep they nest
/// and wherever in the sequence the operand stands.
pub proof fn lemma_wrapped_tree(s: Seq<TokenModel>, p: int, depth: nat)
    requires
        0 <= p < s.len(),
        is_operand(s[p]),
    ensures
        tree_of(s.update(p, wrapped(s[p], depth))) == tree_of(s),
{
    let t = wrapped(s[p], depth);
    let w = s.update(p, t);
    let e = end_position(s);
    lemma_end_from(s, 0);
    assert(t.kind != TokenType::EOL);
    assert forall|k: int| 0 <= k < e implies (#[trigger] w[k]).kind != TokenType::EOL by {
        if k != p {
            assert(s[k].kind != TokenType::EOL);
        }
    }
    lemma_end_position_is(w, e);
    if p < e {
        let f = before_end(s);
        assert(f[p] == s[p]);
        lemma_nesting_depth(f, p, depth);
        assert(before_end(w) =~= f.update(p, t));
    } else {
        assert(before_end(w) =~= before_end(s));
    }
}

/// Parentheses written around an operand change nothing: the flat tokens
/// of a sequence, with `depth` pairs of parentheses around the operand at
/// `p`, resolve to a sequence with the tree of the sequence itself.
pub proof fn lemma_redundant_parentheses(s: Seq<TokenModel>, p: int, depth: nat)
    requires
        grouped(s),
        0 <= p < s.len(),
        is_operand(s[p]),
    ensures
        tree_of(resolved(flat(s.update(p, wrapped(s[p], depth))))) == tree_of(s),
        tree_of(resolved(flat(s))) == tree_of(s),
{
    let w = s.update(p, wrapped(s[p], depth));
    assert(grouped_token(s[p]));
    lemma_wrapped_grouped(s[p], depth);
    assert forall|i: int| 0 <= i < w.len() implies grouped_token(#[trigger] w[i]) by {
        if i != p {
            assert(w[i] == s[i]);
            assert(grouped_token(s[i]));
        }
    }
    lemma_flat_resolves(w);
    lemma_flat_resolves(s);
    lemma_tree_shapes(resolved(flat(w)));
    lemma_tree_shapes(resolved(flat(s)));
    lemma_tree_shapes(w);
    lemma_tree_shapes(s);
    lemma_wrapped_tree(s, p, depth);
}

/// A sequence as the lexer gives it: no token is a group of parentheses.
pub open spec fn is_flat(s: Seq<TokenModel>) -> bool {
    forall|i: int| 0 <= i < s.len() ==> (#[trigger] s[i]).kind != TokenType::BLOCK
}

/// Whether a parenthesis stands in `s` itself, groups not entered.
pub open spec fn has_paren(s: Seq<TokenModel>) -> bool {
    exists|i: int|
        0 <= i < s.len() && ((#[trigger] s[i]).kind == TokenType::LPAREN || s[i].kind
            == TokenType::RPAREN)
}

/// The depth of open parentheses at the end of `s`, counted from position
/// `from` on and from `depth` up; 0 if a `)` closes the last of them before
/// the end.
pub open spec fn level(s: Seq<TokenModel>, from: int, depth: int) -> int
    decreases s.len() - from,
{
    if !(0 <= from < s.len()) {
        depth
    } else if s[from].kind == TokenType::LPAREN {
        level(s, from + 1, depth + 1)
    } else if s[from].kind == TokenType::RPAREN {
        if depth <= 1 {
            0
        } else {
            level(s, from + 1, depth - 1)
        }
    } else {
        level(s, from + 1, depth)
    }
}

/// Counting from a greater depth: up to the `)` that closes the lesser
/// depth, the two counts run side by side.
pub proof fn lemma_level_shift(s: Seq<TokenModel>, from: int, c: int, d: int)
    requires
        0 <= from <= s.len(),
        c >= 1,
        d >= 1,
    ensures
        closing(s, from, c) < s.len() ==> level(s, from, c + d) == level(
            s,
            closing(s, from, c) + 1,
            d,
        ),
        closing(s, from, c) >= s.len() ==> level(s, from, c + d) == level(s, from, c) + d && level(
            s,
            from,
            c,
        ) >= 1,
    decreases s.len() - from,
{
    if from < s.len() {
        if s[from].kind == TokenType::LPAREN {
            lemma_level_shift(s, from + 1, c + 1, d);
        } else if s[from].kind == TokenType::RPAREN {
            if c > 1 {
                lemma_level_shift(s, from + 1, c - 1, d);
            }
        } else {
            lemma_level_shift(s, from + 1, c, d);
        }
    }
}

/// What a pair of parentheses encloses leaves the depth as it is.
pub proof fn lemma_level_inner(s: Seq<TokenModel>, a: int, from: int, j: int, depth: int)
    requires
        0 <= a <= from <= j < s.len(),
        depth >= 1,
        closing(s, from, depth) == j,
    ensures
        level(s.subrange(a, j), from - a, depth) == 1,
    decreases j - from,
{
    let sub = s.subrange(a, j);
    if from == j {
        lemma_closing_bounds(s, j + 1, depth + 1);
        lemma_closing_bounds(s, j + 1, depth - 1);
        lemma_closing_bounds(s, j + 1, depth);
    } else {
        assert(sub[from - a] == s[from]);
        if s[from].kind == TokenType::LPAREN {
            lemma_level_inner(s, a, from + 1, j, depth + 1);
        } else if s[from].kind == TokenType::RPAREN {
            if depth > 1 {
                lemma_level_inner(s, a, from + 1, j, depth - 1);
            }
        } else {
            lemma_level_inner(s, a, from + 1, j, depth);
        }
    }
}

/// A sequence and what follows it are grouped if both are.
pub proof fn lemma_grouped_add(a: Seq<TokenModel>, b: Seq<TokenModel>)
    requires
        grouped(a),
        grouped(b),
    ensures
        grouped(a + b),
{
    let s = a + b;
    assert forall|i: int| 0 <= i < s.len() implies grouped_token(#[trigger] s[i]) by {
        if i < a.len() {
            assert(s[i] == a[i]);
        } else {
            assert(s[i] == b[i - a.len()]);
        }
    }
}

/// A part of a flat sequence is flat.
pub proof fn lemma_flat_subrange(s: Seq<TokenModel>, lo: int, hi: int)
    requires
        is_flat(s),
        0 <= lo <= hi <= s.len(),
    ensures
        is_flat(s.subrange(lo, hi)),
{
    let sub = s.subrange(lo, hi);
    assert forall|i: int| 0 <= i < sub.len() implies (#[trigger] sub[i]).kind
        != TokenType::BLOCK by {
        assert(sub[i] == s[lo + i]);
    }
}

/// Where the parentheses of a flat sequence match, the resolver leaves
/// none: what it gives is grouped.
pub proof fn lemma_resolve_balanced(s: Seq<TokenModel>, k: int)
    requires
        is_flat(s),
        0 <= k <= s.len(),
        level(s, k, 1) == 1,
    ensures
        grouped(resolve_from(s, k)),
    decreases s.len(), s.len() - k,
{
    if k < s.len() {
        assert(s[k].kind != TokenType::BLOCK);
        if s[k].kind == TokenType::LPAREN {
            lemma_level_shift(s, k + 1, 1, 1);
            let m = closing(s, k + 1, 1);
            lemma_closing_bounds(s, k + 1, 1);
            let sub = s.subrange(k + 1, m);
            lemma_flat_subrange(s, k + 1, m);
            lemma_level_inner(s, k + 1, k + 1, m, 1);
            lemma_resolve_balanced(sub, 0);
            lemma_resolve_balanced(s, m + 1);
            let block = resolve_from(s, k)[0];
            assert(grouped_token(block));
            assert(grouped(seq![block]));
            lemma_grouped_add(seq![block], resolve_from(s, m + 1));
        } else {
            lemma_resolve_balanced(s, k + 1);
            assert(grouped(seq![s[k]]));
            lemma_grouped_add(seq![s[k]], resolve_from(s, k + 1));
        }
    }
}

/// If the resolver leaves no parenthesis of a flat sequence in place, what
/// it gives is grouped: no parenthesis is left in a group either.
pub proof fn lemma_resolve_grouped(s: Seq<TokenModel>, k: int)
    requires
        is_flat(s),
        0 <= k <= s.len(),
        !has_paren(resolve_from(s, k)),
    ensures
        grouped(resolve_from(s, k)),
    decreases s.len() - k,
{
    if k < s.len() {
        let r = resolve_from(s, k);
        assert(s[k].kind != TokenType::BLOCK);
        let m = closing(s, k + 1, 1);
        if s[k].kind == TokenType::LPAREN && m < s.len() {
            lemma_closing_bounds(s, k + 1, 1);
            let rest = resolve_from(s, m + 1);
            assert(r == seq![r[0]] + rest);
            if has_paren(rest) {
                let i = choose|i: int|
                    0 <= i < rest.len() && ((#[trigger] rest[i]).kind == TokenType::LPAREN
                        || rest[i].kind == TokenType::RPAREN);
                assert(r[i + 1] == rest[i]);
            }
            lemma_resolve_grouped(s, m + 1);
            let sub = s.subrange(k + 1, m);
            lemma_flat_subrange(s, k + 1, m);
            lemma_level_inner(s, k + 1, k + 1, m, 1);
            lemma_resolve_balanced(sub, 0);
            assert(grouped_token(r[0]));
            assert(grouped(seq![r[0]]));
            lemma_grouped_add(seq![r[0]], rest);
        } else {
            let rest = resolve_from(s, k + 1);
            assert(r == seq![s[k]] + rest);
            assert(r[0] == s[k]);
            if has_paren(rest) {
                let i = choose|i: int|
                    0 <= i < rest.len() && ((#[trigger] rest[i]).kind == TokenType::LPAREN
                        || rest[i].kind == TokenType::RPAREN);
                assert(r[i + 1] == rest[i]);
            }
            lemma_resolve_grouped(s, k + 1);
            assert(grouped(seq![s[k]]));
            lemma_grouped_add(seq![s[k]], rest);
        }
    }
}

} // verus!
