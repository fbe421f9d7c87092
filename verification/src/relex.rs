//! The way of a whole line back through the lexer.
//!
//! What the lexer reads off a line holds the text it was read from: the
//! tokens of a line without a lexical error are renderable, and lexing
//! their text gives them back, up to positions.
use crate::chars::{
    classified, lemma_characters_classified, lemma_run_end, run_end, symbol_of, CharClass,
};
use crate::blocks::{closing, lemma_closing_bounds, parseBlocks, resolve_from, resolved};
use crate::evaluator::tree_of;
use crate::flatten::{grouped, is_flat};
use crate::formula::{contains_error, error_from, formula_of, has_error};
use crate::render::{
    classes_agree, classes_checked, ends_plainly, lemma_render_flat_round_trip, lex_at,
    no_bracket, relex, render, render_token, render_tokens, renderable, renderable_token,
    spec_is_word_shaped, spec_lexeme,
};
use crate::shape::{lemma_same_shape, lemma_shapes_add, same_shape, shape, shapes};
use crate::syntax::{before_end, end_position, lemma_end_from, lemma_end_position_is};
use crate::token::{tokens_model, Token, TokenModel, TokenType};
use crate::tokenizer::{end_token, lex, spec_operator_kind, text_at, Tokenizer};
use vstd::prelude::*;
use vstd::string::*;

verus! {

/// A sequence as the lexer gives it for a line without a lexical error: it
/// ends with its end token, and what stands before is renderable and flat.
pub open spec fn faithful(s: Seq<TokenModel>) -> bool {
    &&& ends_plainly(s)
    &&& renderable(before_end(s))
    &&& is_flat(before_end(s))
}

/// The position behind the token that the lexer reads at `i`, where no
/// whitespace stands.
pub open spec fn behind(text: Seq<char>, i: int) -> int {
    let y = classified(text);
    if y[i].alphabetic {
        run_end(y, i + 1, CharClass::Alphanumeric)
    } else if CharClass::Digit.spec_contains(y[i]) {
        run_end(y, i + 1, CharClass::Digit)
    } else if y[i].character == '[' {
        let k = run_end(y, i + 1, CharClass::Bracketed);
        if k < y.len() {
            k + 1
        } else {
            k
        }
    } else if CharClass::Operator.spec_contains(y[i]) {
        run_end(y, i + 1, CharClass::Operator)
    } else {
        i + 1
    }
}

/// Where no whitespace stands, the lexer reads one token and goes on behind
/// it.
pub proof fn lemma_lex_step(text: Seq<char>, i: int)
    requires
        0 <= i < text.len(),
        !classified(text)[i].whitespace,
    ensures
        i < behind(text, i) <= text.len(),
        lex_at(text, i).len() > 0,
        lex_at(text, i) == seq![lex_at(text, i)[0]] + lex_at(text, behind(text, i)),
{
    let y = classified(text);
    lemma_run_end(y, i + 1, CharClass::Alphanumeric);
    lemma_run_end(y, i + 1, CharClass::Digit);
    lemma_run_end(y, i + 1, CharClass::Bracketed);
    lemma_run_end(y, i + 1, CharClass::Operator);
    let rest = lex_at(text, behind(text, i));
    assert(lex_at(text, i) =~= seq![lex_at(text, i)[0]] + rest);
}

/// An error behind the first token is an error of what follows it.
pub proof fn lemma_error_shift(tok: TokenModel, rest: Seq<TokenModel>, k: int)
    requires
        0 <= k,
    ensures
        error_from(seq![tok] + rest, k + 1) == error_from(rest, k),
    decreases rest.len() - k,
{
    let s = seq![tok] + rest;
    if k < rest.len() {
        assert(s[k + 1] == rest[k]);
        lemma_error_shift(tok, rest, k + 1);
    }
}

/// What stands before the end of a sequence that starts with a token that
/// is no end token is that token and what stands before the end of the
/// rest.
pub proof fn lemma_before_end_cons(tok: TokenModel, rest: Seq<TokenModel>)
    requires
        tok.kind != TokenType::EOL,
    ensures
        end_position(seq![tok] + rest) == end_position(rest) + 1,
        before_end(seq![tok] + rest) == seq![tok] + before_end(rest),
{
    let s = seq![tok] + rest;
    let e = end_position(rest);
    lemma_end_from(rest, 0);
    assert forall|k: int| 0 <= k < e + 1 implies (#[trigger] s[k]).kind != TokenType::EOL by {
        if k > 0 {
            assert(s[k] == rest[k - 1]);
        }
    }
    if e < rest.len() {
        assert(s[e + 1] == rest[e]);
    }
    lemma_end_position_is(s, e + 1);
    assert(before_end(s) =~= seq![tok] + before_end(rest));
}

/// A renderable, flat token before a faithful sequence gives a faithful
/// sequence.
pub proof fn lemma_faithful_cons(tok: TokenModel, rest: Seq<TokenModel>)
    requires
        faithful(rest),
        renderable_token(tok),
        tok.kind != TokenType::BLOCK,
        tok.kind != TokenType::EOL,
    ensures
        faithful(seq![tok] + rest),
{
    let s = seq![tok] + rest;
    lemma_before_end_cons(tok, rest);
    let f = before_end(s);
    let g = before_end(rest);
    assert(s[s.len() - 1] == rest[rest.len() - 1]);
    assert forall|i: int| 0 <= i < f.len() implies renderable_token(#[trigger] f[i]) && f[i].kind
        != TokenType::BLOCK by {
        if i > 0 {
            assert(f[i] == g[i - 1]);
            assert(renderable_token(g[i - 1]));
        }
    }
}

/// The text of a token before a sequence.
pub proof fn lemma_render_cons(tok: TokenModel, rest: Seq<TokenModel>)
    ensures
        render(seq![tok] + rest) == render_token(tok) + render(rest),
{
    let s = seq![tok] + rest;
    assert(s.subrange(1, s.len() as int) =~= rest);
    assert(s[0] == tok);
}

/// The text between two positions of a text, read off its symbols.
pub proof fn lemma_text_between(text: Seq<char>, i: int, j: int)
    requires
        0 <= i <= j <= text.len(),
    ensures
        text_at(classified(text), i, j) == text.subrange(i, j),
        classified(text.subrange(i, j)) == classified(text).subrange(i, j),
{
    assert(text_at(classified(text), i, j) =~= text.subrange(i, j));
    assert(classified(text.subrange(i, j)) =~= classified(text).subrange(i, j));
}

/// A text without `]` is lexed into tokens whose text holds no `]`.
pub proof fn lemma_lexed_no_bracket(text: Seq<char>, i: int)
    requires
        0 <= i,
        forall|k: int| i <= k < text.len() ==> #[trigger] text[k] != ']',
    ensures
        no_bracket(render(before_end(lex_at(text, i)))),
    decreases text.len() - i,
{
    let y = classified(text);
    let ts = lex_at(text, i);
    if i >= text.len() {
        lemma_end_position_is(ts, 0);
        assert(before_end(ts) =~= Seq::<TokenModel>::empty());
    } else if y[i].whitespace {
        lemma_lexed_no_bracket(text, i + 1);
    } else {
        lemma_lex_step(text, i);
        let j = behind(text, i);
        let tok = ts[0];
        let rest = lex_at(text, j);
        lemma_lexed_no_bracket(text, j);
        lemma_run_end(y, i + 1, CharClass::Alphanumeric);
        lemma_run_end(y, i + 1, CharClass::Digit);
        lemma_run_end(y, i + 1, CharClass::Bracketed);
        lemma_run_end(y, i + 1, CharClass::Operator);
        // `]` stands nowhere, so no bracket literal is closed
        if run_end(y, i + 1, CharClass::Bracketed) < y.len() {
            let k = run_end(y, i + 1, CharClass::Bracketed);
            assert(y[k] == symbol_of(text[k]));
            assert(text[k] != ']');
        }
        assert(tok.kind != TokenType::EOL);
        assert(tok.kind != TokenType::BLOCK && tok.kind != TokenType::EXPRESSION);
        lemma_before_end_cons(tok, rest);
        lemma_render_cons(tok, before_end(rest));
        let hi = if y[i].alphabetic || CharClass::Digit.spec_contains(y[i]) {
            j
        } else if y[i].character == '[' {
            text.len() as int
        } else if CharClass::Operator.spec_contains(y[i]) {
            j
        } else {
            i + 1
        };
        let lo = if !y[i].alphabetic && !CharClass::Digit.spec_contains(y[i]) && y[i].character
            == '[' {
            i + 1
        } else {
            i
        };
        lemma_text_between(text, lo, hi);
        assert(y[i] == symbol_of(text[i]));
        assert(tok.content =~= text.subrange(lo, hi)) by {
            assert(seq![text[i]] =~= text.subrange(i, i + 1));
        }
        let head = render_token(tok);
        assert forall|k: int| 0 <= k < head.len() implies #[trigger] head[k] != ']' by {
            if k < tok.content.len() {
                assert(head[k] == text[lo + k]);
            }
        }
        let all = head + render(before_end(rest));
        assert forall|k: int| 0 <= k < all.len() implies #[trigger] all[k] != ']' by {
            if k >= head.len() {
                assert(all[k] == render(before_end(rest))[k - head.len()]);
            }
        }
    }
}

/// The last token of what the lexer gives is an end token without text.
pub proof fn lemma_lex_ends(text: Seq<char>, i: int)
    requires
        0 <= i,
    ensures
        ends_plainly(lex_at(text, i)),
    decreases text.len() - i,
{
    let y = classified(text);
    let ts = lex_at(text, i);
    if i >= text.len() {
        lemma_end_position_is(ts, 0);
    } else if y[i].whitespace {
        lemma_lex_ends(text, i + 1);
    } else {
        lemma_lex_step(text, i);
        let rest = lex_at(text, behind(text, i));
        lemma_lex_ends(text, behind(text, i));
        lemma_run_end(y, i + 1, CharClass::Bracketed);
        assert(ts[0].kind != TokenType::EOL);
        lemma_before_end_cons(ts[0], rest);
        assert(ts[ts.len() - 1] == rest[rest.len() - 1]);
    }
}

/// The tokens of a line without a lexical error are faithful: each holds
/// the text it was read from.
pub proof fn lemma_lexed_faithful(text: Seq<char>, i: int)
    requires
        0 <= i,
        !has_error(lex_at(text, i)),
    ensures
        faithful(lex_at(text, i)),
    decreases text.len(), text.len() - i,
{
    let y = classified(text);
    let ts = lex_at(text, i);
    lemma_lex_ends(text, i);
    if i >= text.len() {
        lemma_end_position_is(ts, 0);
        assert(before_end(ts) =~= Seq::<TokenModel>::empty());
    } else if y[i].whitespace {
        lemma_lexed_faithful(text, i + 1);
    } else {
        lemma_lex_step(text, i);
        let j = behind(text, i);
        let tok = ts[0];
        let rest = lex_at(text, j);
        lemma_error_shift(tok, rest, 0);
        assert(!has_error(rest));
        lemma_lexed_faithful(text, j);
        lemma_run_end(y, i + 1, CharClass::Alphanumeric);
        lemma_run_end(y, i + 1, CharClass::Digit);
        lemma_run_end(y, i + 1, CharClass::Bracketed);
        lemma_run_end(y, i + 1, CharClass::Operator);
        assert(tok.kind != TokenType::ERROR);
        assert(y[i] == symbol_of(text[i]));
        if y[i].alphabetic {
            lemma_text_between(text, i, j);
            let word = text.subrange(i, j);
            lemma_characters_classified(word);
            let w = classified(word);
            assert(w[0] == y[i]);
            assert forall|k: int| 1 <= k < w.len() implies (#[trigger] w[k]).alphanumeric by {
                assert(w[k] == y[i + k]);
            }
            assert(spec_is_word_shaped(w));
            assert(tok.expression =~= Seq::<TokenModel>::empty());
        } else if CharClass::Digit.spec_contains(y[i]) {
            lemma_text_between(text, i, j);
            assert(j == i + 1);
            assert(text.subrange(i, j) =~= seq![text[i]]);
            assert(tok.expression =~= Seq::<TokenModel>::empty());
        } else if y[i].character == '[' {
            let k = run_end(y, i + 1, CharClass::Bracketed);
            assert(k < y.len());
            let part = text.subrange(i + 1, k);
            lemma_text_between(text, i + 1, k);
            let payload = lex_at(part, 0);
            assert(tok.expression == payload);
            assert(!has_error(payload));
            lemma_lexed_faithful(part, 0);
            assert forall|m: int| 0 <= m < part.len() implies #[trigger] part[m] != ']' by {
                assert(y[i + 1 + m] == symbol_of(text[i + 1 + m]));
                assert(CharClass::Bracketed.spec_contains(y[i + 1 + m]));
            }
            lemma_lexed_no_bracket(part, 0);
            assert(tok.content =~= Seq::<char>::empty());
        } else if CharClass::Operator.spec_contains(y[i]) {
            lemma_text_between(text, i, j);
            let run = text.subrange(i, j);
            let kind = spec_operator_kind(run)->Some_0;
            assert(tok.kind == kind);
            assert(run =~= spec_lexeme(kind));
            assert(tok.expression =~= Seq::<TokenModel>::empty());
        } else {
            assert(tok.expression =~= Seq::<TokenModel>::empty());
        }
        assert(renderable_token(tok));
        lemma_faithful_cons(tok, rest);
    }
}

/// A line without a lexical error, written again from its tokens and lexed
/// again, gives the same tokens, up to positions.
pub proof fn lemma_line_round_trip(text: Seq<char>)
    requires
        classes_agree(),
        !has_error(lex(text)),
    ensures
        faithful(lex(text)),
        same_shape(lex(render(before_end(lex(text)))), lex(text)),
        same_shape(resolved(lex(render(before_end(lex(text))))), resolved(lex(text))),
        tree_of(resolved(lex(render(before_end(lex(text)))))) == tree_of(resolved(lex(text))),
{
    let ts = lex(text);
    assert(ts == lex_at(text, 0));
    lemma_lexed_faithful(text, 0);
    let f = before_end(ts);
    lemma_render_flat_round_trip(f);
    let last = ts[ts.len() - 1];
    assert(ts =~= f + seq![last]);
    assert(last.kind == TokenType::EOL) by {
        lemma_end_from(ts, 0);
    }
    assert(shapes(last.expression) =~= Seq::empty());
    assert(shapes(end_token(0).expression) =~= Seq::empty());
    assert(last.content =~= Seq::<char>::empty());
    assert(shape(last) == shape(end_token(0)));
    lemma_shapes_add(f, seq![last]);
    lemma_shapes_add(f, seq![end_token(0)]);
    assert(shapes(seq![last]) =~= shapes(seq![end_token(0)]));
    assert(f.push(end_token(0)) =~= f + seq![end_token(0)]);
    let back = lex(render(f));
    lemma_same_shape(back, ts);
    lemma_same_shape(resolved(back), resolved(ts));
}

/// Resolving the parentheses of a renderable sequence gives a renderable
/// sequence.
pub proof fn lemma_resolve_renderable(s: Seq<TokenModel>, k: int)
    requires
        renderable(s),
        0 <= k <= s.len(),
    ensures
        renderable(resolve_from(s, k)),
    decreases s.len(), s.len() - k,
{
    if k < s.len() {
        let r = resolve_from(s, k);
        let m = closing(s, k + 1, 1);
        assert(renderable_token(s[k]));
        if s[k].kind == TokenType::LPAREN && m < s.len() {
            lemma_closing_bounds(s, k + 1, 1);
            let sub = s.subrange(k + 1, m);
            assert forall|i: int| 0 <= i < sub.len() implies renderable_token(
                #[trigger] sub[i],
            ) by {
                assert(sub[i] == s[k + 1 + i]);
            }
            lemma_resolve_renderable(sub, 0);
            lemma_resolve_renderable(s, m + 1);
            let rest = resolve_from(s, m + 1);
            assert(r == seq![r[0]] + rest);
            assert(r[0].content =~= Seq::<char>::empty());
            assert forall|i: int| 0 <= i < r.len() implies renderable_token(#[trigger] r[i]) by {
                if i > 0 {
                    assert(r[i] == rest[i - 1]);
                }
            }
        } else {
            lemma_resolve_renderable(s, k + 1);
            let rest = resolve_from(s, k + 1);
            assert(r == seq![s[k]] + rest);
            assert forall|i: int| 0 <= i < r.len() implies renderable_token(#[trigger] r[i]) by {
                if i > 0 {
                    assert(r[i] == rest[i - 1]);
                }
            }
        }
    }
}

/// Lexes a line, writes its tokens as text and lexes the text. If the line
/// has no lexical error, the result is the tokens of the line, up to
/// positions, as long as the character classes are what the text rests on.
pub fn relex_line(line: &str) -> (result: Option<Vec<Token>>)
    ensures
        result is Some <==> classes_agree() && !has_error(lex(line@)),
        match result {
            Some(back) => {
                &&& tokens_model(back@) == lex(render(before_end(lex(line@))))
                &&& same_shape(tokens_model(back@), lex(line@))
            },
            None => true,
        },
{
    let mut first = Tokenizer::new(String::from_str(line));
    first.tokenize();
    proof {
        assert(tokens_model(Seq::<Token>::empty()) + lex(line@) =~= lex(line@));
    }
    if !classes_checked() || contains_error(&first.tokens) {
        return None;
    }
    proof {
        lemma_line_round_trip(line@);
    }
    let formula = formula_of(&first.tokens);
    let mut second = Tokenizer::new(render_tokens(&formula));
    second.tokenize();
    proof {
        let text = render(before_end(lex(line@)));
        assert(tokens_model(Seq::<Token>::empty()) + lex(text) =~= lex(text));
    }
    Some(second.tokens)
}

/// Lexes a line and resolves its parentheses; writes the result as text,
/// lexes the text and resolves its parentheses again. If the line has no
/// lexical error and each of its parentheses has a partner, the second
/// result is the first and an end token, up to positions, and has the tree
/// of the first, as long as the character classes are what the text rests
/// on.
pub fn relex_formula(line: &str) -> (result: Option<Vec<Token>>)
    ensures
        result is Some <==> classes_agree() && !has_error(lex(line@)) && grouped(
            resolved(before_end(lex(line@))),
        ),
        match result {
            Some(back) => {
                &&& same_shape(
                    tokens_model(back@),
                    resolved(before_end(lex(line@))).push(end_token(0)),
                )
                &&& tree_of(tokens_model(back@)) == tree_of(resolved(before_end(lex(line@))))
            },
            None => true,
        },
{
    let mut first = Tokenizer::new(String::from_str(line));
    first.tokenize();
    proof {
        assert(tokens_model(Seq::<Token>::empty()) + lex(line@) =~= lex(line@));
    }
    if !classes_checked() || contains_error(&first.tokens) {
        return None;
    }
    let mut formula = formula_of(&first.tokens);
    let groups = parseBlocks(&mut formula);
    proof {
        lemma_lexed_faithful(line@, 0);
        lemma_resolve_renderable(before_end(lex(line@)), 0);
    }
    relex(&groups)
}

} // verus!
