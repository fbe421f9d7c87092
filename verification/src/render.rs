//! The text of a token sequence, and its way back through the lexer.
//!
//! A sequence is written token by token, each followed by one space; a
//! group of parentheses is written as its tokens between parentheses, a
//! bracket literal as its formula between square brackets.
use crate::binding::spec_bit_text;
use crate::blocks::{parseBlocks, resolve_from, resolved};
use crate::chars::{
    char_is_alphabetic, char_is_alphanumeric, char_is_whitespace, characters, classified,
    classify, classify_char, lemma_characters_classified, lemma_run_end_is, text_of,
    spec_is_operator_char, symbol_of, CharClass, Symbol,
};
use crate::evaluator::tree_of;
use crate::flatten::{
    flat, flat_token, grouped, grouped_token, is_flat, lemma_flat_shapes, lemma_grouped_shapes,
    lemma_resolve_flat, paren_token,
};
use crate::shape::{
    lemma_build_shapes, lemma_end_shapes, lemma_resolve_shapes, lemma_shapes_add,
    lemma_shapes_subrange, lemma_shapes_twice, lemma_tree_shapes, same_shape, shape, shapes,
};
use crate::syntax::{
    before_end, end_index, end_position, lemma_end_from, lemma_end_position_is,
};
use crate::token::{
    group_token, lemma_token_model_expression, plain_token, tokens_model, Token, TokenModel,
    TokenType,
};
use crate::tokenizer::{
    end_token, is_command, lex, lex_from, number_token, operator_token, single_token,
    spec_is_command, spec_operator_kind, str_eq, text_at, word_token, Tokenizer,
};
use vstd::prelude::*;
use vstd::string::*;

verus! {

/// The text that a literal or an operator is written as.
pub open spec fn spec_lexeme(kind: TokenType) -> Seq<char> {
    match kind {
        TokenType::BOOL(bit) => spec_bit_text(bit),
        TokenType::NOT => seq!['!'],
        TokenType::AND => seq!['&', '&'],
        TokenType::OR => seq!['|', '|'],
        TokenType::IMPLIES => seq!['-', '>'],
        TokenType::CONVERSE => seq!['<', '-'],
        TokenType::EQUIVALENCE => seq!['<', '-', '>'],
        TokenType::XOR => seq!['^'],
        TokenType::NAND => seq!['!', '&', '&'],
        TokenType::NOR => seq!['!', '|', '|'],
        _ => Seq::empty(),
    }
}

/// Symbols that the lexer reads as one word: a letter that is no
/// whitespace, then letters and digits.
pub open spec fn spec_is_word_shaped(symbols: Seq<Symbol>) -> bool {
    &&& symbols.len() > 0
    &&& !symbols[0].whitespace
    &&& symbols[0].alphabetic
    &&& forall|k: int| 1 <= k < symbols.len() ==> (#[trigger] symbols[k]).alphanumeric
}

/// Symbols that the lexer reads as one identifier: a word that is no
/// command keyword.
pub open spec fn spec_is_word(symbols: Seq<Symbol>) -> bool {
    spec_is_word_shaped(symbols) && !spec_is_command(characters(symbols))
}

/// Symbols that the lexer reads as one command: a word that is a command
/// keyword.
pub open spec fn spec_is_keyword(symbols: Seq<Symbol>) -> bool {
    spec_is_word_shaped(symbols) && spec_is_command(characters(symbols))
}

/// Whether no `]` stands in `text`.
pub open spec fn no_bracket(text: Seq<char>) -> bool {
    forall|k: int| 0 <= k < text.len() ==> #[trigger] text[k] != ']'
}

/// Whether `s` ends with its one end token, which has no text and owns
/// nothing.
pub open spec fn ends_plainly(s: Seq<TokenModel>) -> bool {
    &&& s.len() > 0
    &&& end_position(s) == s.len() - 1
    &&& s[s.len() - 1].content.len() == 0
    &&& s[s.len() - 1].expression.len() == 0
}

/// A token that holds the text it is written as: a literal, an operator,
/// an identifier, a command, a single parenthesis, a group of parentheses
/// that owns such tokens, or a bracket literal that owns such tokens as the
/// lexer gives them, and an end token.
pub open spec fn renderable_token(t: TokenModel) -> bool
    decreases t,
{
    proof {
        lemma_end_from(t.expression, 0);
    }
    if t.kind == TokenType::IDENTIFIER {
        spec_is_word(classified(t.content)) && t.expression.len() == 0
    } else if t.kind == TokenType::COMMAND {
        spec_is_keyword(classified(t.content)) && t.expression.len() == 0
    } else if t.kind is BOOL || t.kind.spec_is_operator() {
        t.content == spec_lexeme(t.kind) && t.expression.len() == 0
    } else if t.kind == TokenType::LPAREN {
        t.content == seq!['('] && t.expression.len() == 0
    } else if t.kind == TokenType::RPAREN {
        t.content == seq![')'] && t.expression.len() == 0
    } else if t.kind == TokenType::BLOCK {
        t.content.len() == 0 && renderable(t.expression)
    } else if t.kind == TokenType::EXPRESSION {
        &&& t.content.len() == 0
        &&& ends_plainly(t.expression)
        &&& renderable(before_end(t.expression))
        &&& is_flat(before_end(t.expression))
        &&& no_bracket(render(before_end(t.expression)))
    } else {
        false
    }
}

/// A sequence of such tokens.
pub open spec fn renderable(s: Seq<TokenModel>) -> bool
    decreases s,
{
    forall|i: int| 0 <= i < s.len() ==> renderable_token(#[trigger] s[i])
}

/// The text of a token: its own text and a space; for a group of
/// parentheses, its tokens between parentheses; for a bracket literal, its
/// formula between square brackets.
pub open spec fn render_token(t: TokenModel) -> Seq<char>
    decreases t,
{
    proof {
        lemma_end_from(t.expression, 0);
        assert(end_position(t.expression) == t.expression.len() ==> before_end(t.expression)
            =~= t.expression);
    }
    if t.kind == TokenType::BLOCK {
        seq!['(', ' '] + render(t.expression) + seq![')', ' ']
    } else if t.kind == TokenType::EXPRESSION {
        seq!['[', ' '] + render(before_end(t.expression)) + seq![']', ' ']
    } else {
        t.content + seq![' ']
    }
}

/// The text of a formula, token by token.
pub open spec fn render(s: Seq<TokenModel>) -> Seq<char>
    decreases s,
{
    if s.len() == 0 {
        Seq::empty()
    } else {
        render_token(s[0]) + render(s.subrange(1, s.len() as int))
    }
}

/// The text of a sequence is the text of its shape.
pub proof fn lemma_render_shapes(s: Seq<TokenModel>)
    ensures
        render(shapes(s)) == render(s),
    decreases s,
{
    let g = shapes(s);
    if s.len() > 0 {
        let n = s.len() as int;
        lemma_shapes_subrange(s, 1, n);
        lemma_render_shapes(s.subrange(1, n));
        assert(g[0] == shape(s[0]));
        let inner = s[0].expression;
        lemma_end_from(inner, 0);
        assert(end_position(inner) == inner.len() ==> before_end(inner) =~= inner);
        assert(g[0].expression == shapes(inner));
        if s[0].kind == TokenType::BLOCK {
            lemma_render_shapes(inner);
        } else if s[0].kind == TokenType::EXPRESSION {
            lemma_end_shapes(inner);
            lemma_render_shapes(before_end(inner));
        }
        assert(render_token(g[0]) == render_token(s[0]));
        assert(render(g) == render_token(g[0]) + render(g.subrange(1, n)));
        assert(render(s) == render_token(s[0]) + render(s.subrange(1, n)));
    } else {
        assert(render(shapes(s)) =~= render(s));
    }
}

/// The shape of a flat sequence is flat.
pub proof fn lemma_flat_shapes_flat(s: Seq<TokenModel>)
    requires
        is_flat(s),
    ensures
        is_flat(shapes(s)),
{
    let g = shapes(s);
    assert forall|i: int| 0 <= i < g.len() implies (#[trigger] g[i]).kind != TokenType::BLOCK by {
        assert(g[i] == shape(s[i]));
        assert(s[i].kind != TokenType::BLOCK);
    }
}

/// What is renderable stays so without its positions.
pub proof fn lemma_renderable_shapes(s: Seq<TokenModel>)
    requires
        renderable(s),
    ensures
        renderable(shapes(s)),
    decreases s,
{
    let g = shapes(s);
    assert forall|i: int| 0 <= i < g.len() implies renderable_token(#[trigger] g[i]) by {
        assert(renderable_token(s[i]));
        assert(g[i] == shape(s[i]));
        let inner = s[i].expression;
        if s[i].kind == TokenType::BLOCK {
            lemma_renderable_shapes(inner);
        } else if s[i].kind == TokenType::EXPRESSION {
            let f = before_end(inner);
            lemma_end_from(inner, 0);
            lemma_end_shapes(inner);
            lemma_renderable_shapes(f);
            lemma_flat_shapes_flat(f);
            lemma_render_shapes(f);
            let last = inner[inner.len() - 1];
            assert(shapes(inner)[inner.len() - 1] == shape(last));
            assert(shapes(last.expression).len() == 0);
        } else {
            assert(shapes(inner).len() == 0);
        }
    }
}

/// No token of a renderable sequence is an end token.
pub proof fn lemma_renderable_kinds(s: Seq<TokenModel>, i: int)
    requires
        renderable(s),
        0 <= i < s.len(),
    ensures
        s[i].kind != TokenType::EOL,
{
    assert(renderable_token(s[i]));
}

/// Whether `c` is read as the start of a token that is no word: it is
/// neither whitespace nor a letter.
pub open spec fn is_mark(c: char) -> bool {
    !char_is_whitespace(c) && !char_is_alphabetic(c)
}

/// What the way back through the lexer rests on: the space is whitespace
/// and ends a word, and the parentheses, the two bits and the operator
/// characters are neither whitespace nor letters.
pub open spec fn classes_agree() -> bool {
    &&& char_is_whitespace(' ')
    &&& !char_is_alphanumeric(' ')
    &&& is_mark('(')
    &&& is_mark(')')
    &&& is_mark('0')
    &&& is_mark('1')
    &&& is_mark('&')
    &&& is_mark('|')
    &&& is_mark('!')
    &&& is_mark('-')
    &&& is_mark('^')
    &&& is_mark('<')
    &&& is_mark('>')
    &&& is_mark('[')
}

/// The tokens of a text from position `p` on.
pub open spec fn lex_at(text: Seq<char>, p: int) -> Seq<TokenModel> {
    lex_from(classified(text), p)
}

/// Whether `part` stands in `text` at position `p`.
pub open spec fn matches_at(text: Seq<char>, p: int, part: Seq<char>) -> bool {
    &&& 0 <= p
    &&& p + part.len() <= text.len()
    &&& forall|k: int| 0 <= k < part.len() ==> text[p + k] == #[trigger] part[k]
}

/// A text that stands at a position stands there part by part.
pub proof fn lemma_matches_split(text: Seq<char>, p: int, a: Seq<char>, b: Seq<char>)
    requires
        matches_at(text, p, a + b),
    ensures
        matches_at(text, p, a),
        matches_at(text, p + a.len(), b),
{
    let ab = a + b;
    assert forall|k: int| 0 <= k < a.len() implies text[p + k] == #[trigger] a[k] by {
        assert(ab[k] == a[k]);
    }
    assert forall|k: int| 0 <= k < b.len() implies text[p + a.len() + k] == #[trigger] b[k] by {
        assert(ab[a.len() + k] == b[k]);
    }
}

/// A space is skipped.
pub proof fn lemma_lex_space(text: Seq<char>, q: int)
    requires
        classes_agree(),
        0 <= q < text.len(),
        text[q] == ' ',
    ensures
        lex_at(text, q) == lex_at(text, q + 1),
{
    assert(classified(text)[q] == symbol_of(text[q]));
}

/// The text of the symbols of a part of a text is that part.
pub proof fn lemma_text_at(text: Seq<char>, p: int, part: Seq<char>)
    requires
        matches_at(text, p, part),
    ensures
        text_at(classified(text), p, p + part.len()) == part,
{
    assert(text_at(classified(text), p, p + part.len()) =~= part);
}

/// A word followed by a space is lexed as one command or identifier.
pub proof fn lemma_lex_word(text: Seq<char>, p: int, word: Seq<char>)
    requires
        classes_agree(),
        spec_is_word_shaped(classified(word)),
        matches_at(text, p, word + seq![' ']),
    ensures
        lex_at(text, p) == seq![
            plain_token(
                if spec_is_command(word) {
                    TokenType::COMMAND
                } else {
                    TokenType::IDENTIFIER
                },
                word,
                p,
                p + word.len(),
            ),
        ] + lex_at(text, p + word.len() + 1),
{
    let y = classified(text);
    let w = classified(word);
    let n = word.len() as int;
    let space = seq![' '];
    lemma_matches_split(text, p, word, space);
    assert(text[p + n] == space[0]);
    assert(text[p] == word[0]);
    assert(y[p] == w[0]);
    assert(y[p + n] == symbol_of(' '));
    assert forall|k: int| p + 1 <= k < p + n implies CharClass::Alphanumeric.spec_contains(
        #[trigger] y[k],
    ) by {
        assert(text[p + (k - p)] == word[k - p]);
        assert(y[k] == w[k - p]);
    }
    lemma_run_end_is(y, p + 1, p + n, CharClass::Alphanumeric);
    lemma_text_at(text, p, word);
    lemma_characters_classified(word);
    lemma_lex_space(text, p + n);
    assert(lex_at(text, p) == seq![word_token(y, p, p + n)] + lex_at(text, p + n));
}

/// A digit `0` or `1` followed by a space is lexed as one literal.
pub proof fn lemma_lex_literal(text: Seq<char>, p: int, bit: bool)
    requires
        classes_agree(),
        matches_at(text, p, spec_bit_text(bit) + seq![' ']),
    ensures
        lex_at(text, p) == seq![plain_token(TokenType::BOOL(bit), spec_bit_text(bit), p, p)]
            + lex_at(text, p + 2),
{
    let y = classified(text);
    let digit = spec_bit_text(bit);
    let space = seq![' '];
    lemma_matches_split(text, p, digit, space);
    assert(text[p + 1] == space[0]);
    assert(text[p] == digit[0]);
    assert(y[p] == symbol_of(text[p]));
    assert(y[p + 1] == symbol_of(' '));
    lemma_run_end_is(y, p + 1, p + 1, CharClass::Digit);
    lemma_text_at(text, p, digit);
    lemma_lex_space(text, p + 1);
    assert(is_mark(text[p]));
    assert(CharClass::Digit.spec_contains(y[p]));
    assert(lex_at(text, p) == seq![number_token(y, p, p + 1)] + lex_at(text, p + 1));
}

/// The characters of an operator are operator characters, and the operator
/// table reads them as the operator.
pub proof fn lemma_lexeme(kind: TokenType)
    requires
        kind.spec_is_operator(),
    ensures
        spec_lexeme(kind).len() > 0,
        forall|k: int|
            0 <= k < spec_lexeme(kind).len() ==> spec_is_operator_char(
                #[trigger] spec_lexeme(kind)[k],
            ),
        spec_operator_kind(spec_lexeme(kind)) == Some(kind),
{
}

/// An operator followed by a space is lexed as that operator.
pub proof fn lemma_lex_operator(text: Seq<char>, p: int, kind: TokenType)
    requires
        classes_agree(),
        kind.spec_is_operator(),
        matches_at(text, p, spec_lexeme(kind) + seq![' ']),
    ensures
        lex_at(text, p) == seq![
            plain_token(kind, spec_lexeme(kind), p, p + spec_lexeme(kind).len() - 1),
        ] + lex_at(text, p + spec_lexeme(kind).len() + 1),
{
    let y = classified(text);
    let run = spec_lexeme(kind);
    let n = run.len() as int;
    let space = seq![' '];
    lemma_lexeme(kind);
    lemma_matches_split(text, p, run, space);
    assert(text[p + n] == space[0]);
    assert(text[p] == run[0]);
    assert(spec_is_operator_char(run[0]));
    assert(y[p] == symbol_of(text[p]));
    assert(y[p + n] == symbol_of(' '));
    assert forall|k: int| p + 1 <= k < p + n implies CharClass::Operator.spec_contains(
        #[trigger] y[k],
    ) by {
        assert(text[p + (k - p)] == run[k - p]);
        assert(y[k] == symbol_of(text[k]));
        assert(spec_is_operator_char(run[k - p]));
    }
    lemma_run_end_is(y, p + 1, p + n, CharClass::Operator);
    lemma_text_at(text, p, run);
    assert(is_mark(text[p]));
    assert(!CharClass::Digit.spec_contains(y[p]));
    assert(text[p] != '[');
    lemma_lex_space(text, p + n);
    assert(lex_at(text, p) == seq![operator_token(y, p, p + n)] + lex_at(text, p + n));
}

/// A parenthesis followed by a space is lexed as that parenthesis.
pub proof fn lemma_lex_paren(text: Seq<char>, p: int, c: char)
    requires
        classes_agree(),
        c == '(' || c == ')',
        matches_at(text, p, seq![c, ' ']),
    ensures
        lex_at(text, p) == seq![single_token(c, p)] + lex_at(text, p + 2),
{
    let y = classified(text);
    let part = seq![c, ' '];
    assert(text[p + 0] == part[0]);
    assert(text[p + 1] == part[1]);
    assert(y[p] == symbol_of(text[p]));
    assert(is_mark(text[p]));
    assert(!CharClass::Digit.spec_contains(y[p]));
    assert(!CharClass::Operator.spec_contains(y[p]));
    lemma_lex_space(text, p + 1);
    assert(lex_at(text, p) == seq![single_token(c, p)] + lex_at(text, p + 1));
}

/// Lexing the text of a renderable bracket literal gives the bracket
/// literal, up to positions, and goes on behind the text.
pub proof fn lemma_lex_bracket(text: Seq<char>, p: int, t: TokenModel)
    requires
        classes_agree(),
        t.kind == TokenType::EXPRESSION,
        renderable_token(t),
        matches_at(text, p, render_token(t)),
    ensures
        shapes(lex_at(text, p)) == shapes(seq![t]) + shapes(
            lex_at(text, p + render_token(t).len()),
        ),
    decreases t, 0int,
{
    let after = lex_at(text, p + render_token(t).len());
    let y = classified(text);
    let payload = t.expression;
    let inner = before_end(payload);
    let open = seq!['[', ' '];
    let close = seq![']', ' '];
    let body = render(inner);
    let q = p + 2 + body.len();
    lemma_end_from(payload, 0);
    lemma_matches_split(text, p, open + body, close);
    lemma_matches_split(text, p, open, body);
    assert(text[p + 0] == open[0] && text[p + 1] == open[1]);
    assert(text[q + 0] == close[0] && text[q + 1] == close[1]);
    assert forall|k: int| p + 2 <= k < q implies text[k] != ']' by {
        assert(text[p + 2 + (k - p - 2)] == body[k - p - 2]);
    }
    assert(y[p] == symbol_of(text[p]));
    assert(is_mark(text[p]));
    assert(!CharClass::Digit.spec_contains(y[p]));
    assert forall|k: int| p + 1 <= k < q implies CharClass::Bracketed.spec_contains(
        #[trigger] y[k],
    ) by {
        assert(y[k] == symbol_of(text[k]));
    }
    assert(y[q] == symbol_of(text[q]));
    lemma_run_end_is(y, p + 1, q, CharClass::Bracketed);
    // what stands between the brackets
    let part = text.subrange(p + 1, q);
    assert(y.subrange(p + 1, q) =~= classified(part));
    assert(part[0] == ' ');
    lemma_lex_space(part, 0);
    assert(matches_at(part, 1, body)) by {
        assert forall|k: int| 0 <= k < body.len() implies part[1 + k] == #[trigger] body[k] by {
            assert(text[p + 2 + k] == body[k]);
        }
    }
    lemma_lex_render(part, 1, inner);
    let rest = end_token(part.len() as int);
    assert(lex_at(part, part.len() as int) == seq![rest]);
    lemma_flat_of_flat(inner);
    let lexed = lex_at(part, 0);
    assert(shapes(lexed) == shapes(inner) + shapes(seq![rest]));
    let last = payload[payload.len() - 1];
    assert(last.kind == TokenType::EOL);
    assert(shapes(rest.expression) =~= Seq::empty());
    assert(shapes(last.expression) =~= Seq::empty());
    assert(last.content =~= Seq::<char>::empty());
    assert(shapes(seq![rest]) =~= seq![shape(last)]);
    assert(payload =~= inner + seq![last]);
    lemma_shapes_add(inner, seq![last]);
    assert(shapes(seq![last]) =~= seq![shape(last)]);
    assert(shapes(lexed) == shapes(payload));
    // the token and what follows it
    let x = group_token(TokenType::EXPRESSION, lexed, p, q);
    lemma_lex_space(text, q + 1);
    assert(lex_at(text, p) == seq![x] + lex_at(text, q + 1));
    assert(t.content =~= Seq::<char>::empty());
    assert(shape(x) == shape(t));
    lemma_shapes_add(seq![x], after);
    assert(shapes(seq![x]) =~= shapes(seq![t]));
}

/// Lexing the text of a renderable token gives its flat tokens, up to
/// positions, and goes on behind the text.
pub proof fn lemma_lex_render_token(text: Seq<char>, p: int, t: TokenModel)
    requires
        classes_agree(),
        renderable_token(t),
        matches_at(text, p, render_token(t)),
    ensures
        shapes(lex_at(text, p)) == shapes(flat_token(t)) + shapes(
            lex_at(text, p + render_token(t).len()),
        ),
    decreases t, 1int,
{
    let after = lex_at(text, p + render_token(t).len());
    if t.kind == TokenType::EXPRESSION {
        lemma_lex_bracket(text, p, t);
    } else if t.kind == TokenType::BLOCK {
        let inner = t.expression;
        let open = seq!['(', ' '];
        let close = seq![')', ' '];
        let body = render(inner);
        let q = p + 2 + body.len();
        lemma_matches_split(text, p, open + body, close);
        lemma_matches_split(text, p, open, body);
        lemma_lex_paren(text, p, '(');
        lemma_lex_render(text, p + 2, inner);
        lemma_lex_paren(text, q, ')');
        let l = seq![single_token('(', p)];
        let r = seq![single_token(')', q)];
        lemma_shapes_add(l, lex_at(text, p + 2));
        lemma_shapes_add(r, after);
        let pl = seq![paren_token(TokenType::LPAREN)];
        let pr = seq![paren_token(TokenType::RPAREN)];
        assert(shapes(single_token('(', p).expression) =~= Seq::empty());
        assert(shapes(single_token(')', q).expression) =~= Seq::empty());
        assert(shapes(l) =~= pl);
        assert(shapes(r) =~= pr);
        lemma_shapes_add(pl + flat(inner), pr);
        lemma_shapes_add(pl, flat(inner));
        assert(shapes(paren_token(TokenType::LPAREN).expression) =~= Seq::empty());
        assert(shapes(paren_token(TokenType::RPAREN).expression) =~= Seq::empty());
        assert(shapes(pl) =~= pl);
        assert(shapes(pr) =~= pr);
        assert(shapes(lex_at(text, p)) =~= pl + shapes(flat(inner)) + pr + shapes(after));
    } else {
        let c = t.content;
        let x = plain_token(
            t.kind,
            c,
            p,
            if t.kind == TokenType::IDENTIFIER || t.kind == TokenType::COMMAND {
                p + c.len()
            } else if t.kind is BOOL || t.kind == TokenType::LPAREN || t.kind
                == TokenType::RPAREN {
                p
            } else {
                p + c.len() - 1
            },
        );
        if t.kind == TokenType::IDENTIFIER || t.kind == TokenType::COMMAND {
            lemma_characters_classified(c);
            lemma_lex_word(text, p, c);
        } else if t.kind is BOOL {
            lemma_lex_literal(text, p, t.kind->BOOL_0);
        } else if t.kind == TokenType::LPAREN {
            assert(c + seq![' '] =~= seq!['(', ' ']);
            lemma_lex_paren(text, p, '(');
        } else if t.kind == TokenType::RPAREN {
            assert(c + seq![' '] =~= seq![')', ' ']);
            lemma_lex_paren(text, p, ')');
        } else {
            lemma_lex_operator(text, p, t.kind);
        }
        assert(lex_at(text, p) == seq![x] + after);
        lemma_shapes_add(seq![x], after);
        assert(t.expression =~= Seq::<TokenModel>::empty());
        assert(shapes(x.expression) =~= shapes(t.expression));
        assert(shapes(seq![x]) =~= shapes(seq![t]));
    }
}

/// Lexing the text of a renderable formula gives its flat tokens, up to
/// positions, and goes on behind the text.
pub proof fn lemma_lex_render(text: Seq<char>, p: int, s: Seq<TokenModel>)
    requires
        classes_agree(),
        renderable(s),
        matches_at(text, p, render(s)),
    ensures
        shapes(lex_at(text, p)) == shapes(flat(s)) + shapes(lex_at(text, p + render(s).len())),
    decreases s, 0int,
{
    if s.len() == 0 {
        assert(shapes(flat(s)) =~= Seq::<TokenModel>::empty());
        assert(shapes(flat(s)) + shapes(lex_at(text, p)) =~= shapes(lex_at(text, p)));
    } else {
        let n = s.len() as int;
        let rest = s.subrange(1, n);
        let head = render_token(s[0]);
        assert(renderable_token(s[0]));
        assert(renderable(rest)) by {
            assert forall|i: int| 0 <= i < rest.len() implies renderable_token(
                #[trigger] rest[i],
            ) by {
                assert(rest[i] == s[i + 1]);
            }
        }
        lemma_matches_split(text, p, head, render(rest));
        lemma_lex_render_token(text, p, s[0]);
        lemma_lex_render(text, p + head.len(), rest);
        lemma_shapes_add(flat_token(s[0]), flat(rest));
        assert(shapes(lex_at(text, p)) =~= shapes(flat(s)) + shapes(
            lex_at(text, p + render(s).len()),
        ));
    }
}

/// The way back through the lexer: the text of a renderable sequence is
/// lexed as the flat tokens of the sequence and an end token, up to
/// positions.
pub proof fn lemma_render_lexes(s: Seq<TokenModel>)
    requires
        classes_agree(),
        renderable(s),
    ensures
        shapes(lex(render(s))) == shapes(flat(s)) + seq![shape(end_token(0))],
{
    let text = render(s);
    let end = end_token(text.len() as int);
    assert(shapes(end.expression) =~= Seq::empty());
    assert(shapes(end_token(0).expression) =~= Seq::empty());
    lemma_lex_render(text, 0, s);
    assert(lex_at(text, text.len() as int) == seq![end]);
    assert(lex(text) == lex_at(text, 0));
    assert(shapes(seq![end]) =~= seq![shape(end_token(0))]);
}

/// A sequence as the lexer gives it, written and lexed again, is the
/// sequence and an end token, up to positions.
pub proof fn lemma_render_flat_round_trip(s: Seq<TokenModel>)
    requires
        classes_agree(),
        renderable(s),
        is_flat(s),
    ensures
        same_shape(lex(render(s)), s.push(end_token(0))),
{
    lemma_render_lexes(s);
    lemma_flat_of_flat(s);
    lemma_shapes_add(s, seq![end_token(0)]);
    assert(shapes(seq![end_token(0)]) =~= seq![shape(end_token(0))]);
    assert(s.push(end_token(0)) =~= s + seq![end_token(0)]);
}

/// The flat tokens of a flat sequence are the sequence.
pub proof fn lemma_flat_of_flat(s: Seq<TokenModel>)
    requires
        is_flat(s),
    ensures
        flat(s) == s,
    decreases s.len(),
{
    if s.len() > 0 {
        let rest = s.subrange(1, s.len() as int);
        assert forall|i: int| 0 <= i < rest.len() implies (#[trigger] rest[i]).kind
            != TokenType::BLOCK by {
            assert(rest[i] == s[i + 1]);
        }
        lemma_flat_of_flat(rest);
        assert(s[0].kind != TokenType::BLOCK);
        assert(flat_token(s[0]) == seq![s[0]]);
        assert(flat(s) == flat_token(s[0]) + flat(rest));
        assert(seq![s[0]] + rest =~= s);
    } else {
        assert(flat(s) =~= s);
    }
}

/// The way back: the text of a renderable sequence in which no parenthesis
/// stands outside a group, lexed and resolved again, is the sequence and
/// its end token, up to positions, and has the tree of the sequence.
pub proof fn lemma_render_round_trip(s: Seq<TokenModel>)
    requires
        classes_agree(),
        renderable(s),
        grouped(s),
    ensures
        same_shape(resolved(lex(render(s))), s.push(end_token(0))),
        tree_of(resolved(lex(render(s)))) == tree_of(s),
{
    let text = render(s);
    let tokens = lex(text);
    let e = shape(end_token(0));
    assert(shapes(end_token(0).expression) =~= Seq::empty());
    lemma_render_lexes(s);
    let plain = shapes(s);
    lemma_renderable_shapes(s);
    lemma_grouped_shapes(s);
    lemma_flat_shapes(s);
    lemma_shapes_twice(s);
    let g = shapes(tokens);
    let m = flat(plain).len() as int;
    assert(g == flat(plain) + seq![e]);
    assert(g.subrange(0, m) =~= flat(plain));
    lemma_resolve_flat(g, 0, plain);
    assert(g[m] == e);
    assert(resolve_from(g, m) == seq![e] + resolve_from(g, m + 1));
    assert(resolve_from(g, m) =~= seq![e]);
    lemma_resolve_shapes(tokens, 0);
    let back = resolved(tokens);
    assert(shapes(back) == plain + seq![e]);
    lemma_shapes_add(s, seq![end_token(0)]);
    assert(shapes(seq![end_token(0)]) =~= seq![e]);
    assert(s.push(end_token(0)) =~= s + seq![end_token(0)]);
    // the trees
    lemma_tree_shapes(back);
    let all = plain + seq![e];
    assert forall|k: int| 0 <= k < plain.len() implies (#[trigger] all[k]).kind
        != TokenType::EOL by {
        lemma_renderable_kinds(plain, k);
    }
    lemma_end_position_is(all, plain.len() as int);
    assert(before_end(all) =~= plain);
    lemma_build_shapes(s);
    assert forall|k: int| 0 <= k < s.len() implies (#[trigger] s[k]).kind != TokenType::EOL by {
        lemma_renderable_kinds(s, k);
    }
    lemma_end_position_is(s, s.len() as int);
    assert(before_end(s) =~= s);
}

/// The text that a literal or an operator is written as.
pub fn lexeme(kind: TokenType) -> (text: &'static str)
    ensures
        text@ == spec_lexeme(kind),
{
    proof {
        reveal_strlit("1");
        reveal_strlit("0");
        reveal_strlit("!");
        reveal_strlit("&&");
        reveal_strlit("||");
        reveal_strlit("->");
        reveal_strlit("<-");
        reveal_strlit("<->");
        reveal_strlit("^");
        reveal_strlit("!&&");
        reveal_strlit("!||");
        reveal_strlit("");
        assert("1"@ =~= seq!['1']);
        assert("0"@ =~= seq!['0']);
        assert("!"@ =~= seq!['!']);
        assert("&&"@ =~= seq!['&', '&']);
        assert("||"@ =~= seq!['|', '|']);
        assert("->"@ =~= seq!['-', '>']);
        assert("<-"@ =~= seq!['<', '-']);
        assert("<->"@ =~= seq!['<', '-', '>']);
        assert("^"@ =~= seq!['^']);
        assert("!&&"@ =~= seq!['!', '&', '&']);
        assert("!||"@ =~= seq!['!', '|', '|']);
        assert(""@ =~= Seq::<char>::empty());
    }
    match kind {
        TokenType::BOOL(bit) => if bit {
            "1"
        } else {
            "0"
        },
        TokenType::NOT => "!",
        TokenType::AND => "&&",
        TokenType::OR => "||",
        TokenType::IMPLIES => "->",
        TokenType::CONVERSE => "<-",
        TokenType::EQUIVALENCE => "<->",
        TokenType::XOR => "^",
        TokenType::NAND => "!&&",
        TokenType::NOR => "!||",
        _ => "",
    }
}

/// Whether the lexer reads `symbols` as one identifier.
pub fn is_word(symbols: &Vec<Symbol>) -> (r: bool)
    ensures
        r == spec_is_word(symbols@),
{
    if !is_word_shaped(symbols) {
        return false;
    }
    let n = symbols.len();
    assert(symbols@.subrange(0, n as int) =~= symbols@);
    let word = text_of(symbols, 0, n);
    !is_command(word.as_str())
}

/// Whether the lexer reads `symbols` as one command.
pub fn is_keyword(symbols: &Vec<Symbol>) -> (r: bool)
    ensures
        r == spec_is_keyword(symbols@),
{
    if !is_word_shaped(symbols) {
        return false;
    }
    let n = symbols.len();
    assert(symbols@.subrange(0, n as int) =~= symbols@);
    let word = text_of(symbols, 0, n);
    is_command(word.as_str())
}

/// Whether the lexer reads `symbols` as one word.
pub fn is_word_shaped(symbols: &Vec<Symbol>) -> (r: bool)
    ensures
        r == spec_is_word_shaped(symbols@),
{
    let n = symbols.len();
    if n == 0 {
        return false;
    }
    if symbols[0].whitespace || !symbols[0].alphabetic {
        return false;
    }
    let mut k: usize = 1;
    while k < n
        invariant
            1 <= k <= n,
            n == symbols@.len(),
            forall|j: int| 1 <= j < k ==> (#[trigger] symbols@[j]).alphanumeric,
        decreases n - k,
    {
        if !symbols[k].alphanumeric {
            return false;
        }
        k += 1;
    }
    true
}

/// Whether no `]` stands in `text`.
pub fn has_no_bracket(text: &str) -> (r: bool)
    ensures
        r == no_bracket(text@),
{
    let n = text.unicode_len();
    let mut k: usize = 0;
    while k < n
        invariant
            k <= n,
            n == text@.len(),
            forall|j: int| 0 <= j < k ==> #[trigger] text@[j] != ']',
        decreases n - k,
    {
        if text.get_char(k) == ']' {
            return false;
        }
        k += 1;
    }
    true
}

/// Whether no token of `tokens[..hi]` is a group of parentheses.
fn is_flat_within(tokens: &Vec<Token>, hi: usize) -> (r: bool)
    requires
        hi <= tokens@.len(),
    ensures
        r == is_flat(tokens_model(tokens@).subrange(0, hi as int)),
{
    let ghost f = tokens_model(tokens@).subrange(0, hi as int);
    let mut i: usize = 0;
    while i < hi
        invariant
            i <= hi <= tokens@.len(),
            f == tokens_model(tokens@).subrange(0, hi as int),
            forall|j: int| 0 <= j < i ==> (#[trigger] f[j]).kind != TokenType::BLOCK,
        decreases hi - i,
    {
        assert(f[i as int].kind == tokens@[i as int].tType);
        if tokens[i].tType == TokenType::BLOCK {
            return false;
        }
        i += 1;
    }
    true
}

/// Whether `token` holds the text it is written as.
pub fn is_renderable_token(token: &Token) -> (r: bool)
    ensures
        r == renderable_token(token@),
    decreases token, 0int,
{
    proof {
        lemma_token_model_expression(*token);
        reveal_strlit("(");
        reveal_strlit(")");
        assert("("@ =~= seq!['(']);
        assert(")"@ =~= seq![')']);
    }
    if token.tType == TokenType::IDENTIFIER {
        is_word(&classify(token.content.as_str())) && token.expression.len() == 0
    } else if token.tType == TokenType::COMMAND {
        is_keyword(&classify(token.content.as_str())) && token.expression.len() == 0
    } else if token.tType.is_literal() || token.tType.is_operator() {
        str_eq(token.content.as_str(), lexeme(token.tType)) && token.expression.len() == 0
    } else if token.tType == TokenType::LPAREN {
        str_eq(token.content.as_str(), "(") && token.expression.len() == 0
    } else if token.tType == TokenType::RPAREN {
        str_eq(token.content.as_str(), ")") && token.expression.len() == 0
    } else if token.tType == TokenType::BLOCK {
        let inner = &token.expression;
        assert(tokens_model(inner@).subrange(0, inner@.len() as int) =~= tokens_model(inner@));
        token.content.as_str().unicode_len() == 0 && is_renderable_within(inner, inner.len())
    } else if token.tType == TokenType::EXPRESSION {
        let payload = &token.expression;
        let n = payload.len();
        if token.content.as_str().unicode_len() != 0 || n == 0 {
            return false;
        }
        let end = end_index(payload);
        if end != n - 1 {
            return false;
        }
        let last = &payload[n - 1];
        proof {
            lemma_token_model_expression(*last);
            assert(tokens_model(payload@)[n - 1] == last@);
        }
        if last.content.as_str().unicode_len() != 0 || last.expression.len() != 0 {
            return false;
        }
        if !is_renderable_within(payload, end) || !is_flat_within(payload, end) {
            return false;
        }
        has_no_bracket(render_within(payload, end).as_str())
    } else {
        false
    }
}

/// Whether every token of `tokens[..hi]` holds the text it is written as.
fn is_renderable_within(tokens: &Vec<Token>, hi: usize) -> (r: bool)
    requires
        hi <= tokens@.len(),
    ensures
        r == renderable(tokens_model(tokens@).subrange(0, hi as int)),
    decreases tokens, 1int,
{
    let ghost f = tokens_model(tokens@).subrange(0, hi as int);
    let mut i: usize = 0;
    while i < hi
        invariant
            i <= hi <= tokens@.len(),
            f == tokens_model(tokens@).subrange(0, hi as int),
            forall|j: int| 0 <= j < i ==> renderable_token(#[trigger] f[j]),
        decreases hi - i,
    {
        assert(f[i as int] == tokens@[i as int]@);
        if !is_renderable_token(&tokens[i]) {
            return false;
        }
        i += 1;
    }
    true
}

/// Whether every token of `tokens` holds the text it is written as.
pub fn is_renderable(tokens: &Vec<Token>) -> (r: bool)
    ensures
        r == renderable(tokens_model(tokens@)),
{
    assert(tokens_model(tokens@).subrange(0, tokens@.len() as int) =~= tokens_model(tokens@));
    is_renderable_within(tokens, tokens.len())
}

/// The text of `token`.
pub fn render_token_text(token: &Token) -> (text: String)
    ensures
        text@ == render_token(token@),
    decreases token, 0int,
{
    proof {
        lemma_token_model_expression(*token);
        reveal_strlit("( ");
        reveal_strlit(") ");
        reveal_strlit("[ ");
        reveal_strlit("] ");
        reveal_strlit(" ");
        assert("( "@ =~= seq!['(', ' ']);
        assert(") "@ =~= seq![')', ' ']);
        assert("[ "@ =~= seq!['[', ' ']);
        assert("] "@ =~= seq![']', ' ']);
        assert(" "@ =~= seq![' ']);
    }
    if token.tType == TokenType::BLOCK {
        let inner = &token.expression;
        assert(tokens_model(inner@).subrange(0, inner@.len() as int) =~= tokens_model(inner@));
        let mut text = String::from_str("( ");
        text.append(render_within(inner, inner.len()).as_str());
        text.append(") ");
        text
    } else if token.tType == TokenType::EXPRESSION {
        let payload = &token.expression;
        let end = end_index(payload);
        let mut text = String::from_str("[ ");
        text.append(render_within(payload, end).as_str());
        text.append("] ");
        text
    } else {
        let mut text = token.content.clone();
        text.append(" ");
        text
    }
}

/// The text of `tokens[..hi]`.
fn render_within(tokens: &Vec<Token>, hi: usize) -> (text: String)
    requires
        hi <= tokens@.len(),
    ensures
        text@ == render(tokens_model(tokens@).subrange(0, hi as int)),
    decreases tokens, 1int,
{
    let ghost f = tokens_model(tokens@).subrange(0, hi as int);
    let mut text = String::new();
    let mut i: usize = 0;
    assert(f.subrange(0, hi as int) =~= f);
    assert(text@ + render(f) =~= render(f));
    while i < hi
        invariant
            i <= hi <= tokens@.len(),
            f == tokens_model(tokens@).subrange(0, hi as int),
            text@ + render(f.subrange(i as int, hi as int)) == render(f),
        decreases hi - i,
    {
        let ghost before = text@;
        let ghost here = f.subrange(i as int, hi as int);
        let part = render_token_text(&tokens[i]);
        proof {
            assert(here[0] == tokens@[i as int]@);
            assert(here.subrange(1, here.len() as int) =~= f.subrange(i + 1, hi as int));
            assert(render(here) == render_token(here[0]) + render(f.subrange(i + 1, hi as int)));
        }
        text.append(part.as_str());
        proof {
            assert(text@ + render(f.subrange(i + 1, hi as int)) =~= before + render(here));
        }
        i += 1;
    }
    proof {
        assert(text@ + render(f.subrange(hi as int, hi as int)) =~= text@);
    }
    text
}

/// The text of `tokens`: each token's text and a space; of a group of
/// parentheses, its tokens between parentheses; of a bracket literal, its
/// formula between square brackets.
pub fn render_tokens(tokens: &Vec<Token>) -> (text: String)
    ensures
        text@ == render(tokens_model(tokens@)),
{
    assert(tokens_model(tokens@).subrange(0, tokens@.len() as int) =~= tokens_model(tokens@));
    render_within(tokens, tokens.len())
}

/// Asks the character classes what the way back through the lexer rests
/// on.
pub fn classes_checked() -> (ok: bool)
    ensures
        ok == classes_agree(),
{
    let space = classify_char(' ');
    space.whitespace && !space.alphanumeric && mark_checked('(') && mark_checked(')')
        && mark_checked('0') && mark_checked('1') && mark_checked('&') && mark_checked('|')
        && mark_checked('!') && mark_checked('-') && mark_checked('^') && mark_checked('<')
        && mark_checked('>') && mark_checked('[')
}

/// Whether `c` is neither whitespace nor a letter.
pub fn mark_checked(c: char) -> (ok: bool)
    ensures
        ok == is_mark(c),
{
    let symbol = classify_char(c);
    !symbol.whitespace && !symbol.alphabetic
}

/// Whether no parenthesis stands in `tokens` outside a group, and every
/// group of parentheses has no text and owns such tokens.
pub fn is_grouped(tokens: &Vec<Token>) -> (r: bool)
    ensures
        r == grouped(tokens_model(tokens@)),
    decreases tokens,
{
    let ghost s = tokens_model(tokens@);
    let mut i: usize = 0;
    while i < tokens.len()
        invariant
            i <= tokens.len(),
            s == tokens_model(tokens@),
            forall|j: int| 0 <= j < i ==> grouped_token(#[trigger] s[j]),
        decreases tokens.len() - i,
    {
        let token = &tokens[i];
        proof {
            lemma_token_model_expression(*token);
            assert(s[i as int] == token@);
        }
        let ok = if token.tType == TokenType::BLOCK {
            token.content.as_str().unicode_len() == 0 && is_grouped(&token.expression)
        } else {
            token.tType != TokenType::LPAREN && token.tType != TokenType::RPAREN
        };
        if !ok {
            return false;
        }
        i += 1;
    }
    true
}

/// Writes a token sequence as text and lexes the text. The result is the
/// flat tokens of the sequence and an end token, up to positions. There is
/// a result for every renderable sequence, as long as the character classes
/// are what the text rests on.
pub fn lex_rendered(tokens: &Vec<Token>) -> (result: Option<Vec<Token>>)
    ensures
        result is Some <==> classes_agree() && renderable(tokens_model(tokens@)),
        match result {
            Some(back) => {
                &&& tokens_model(back@) == lex(render(tokens_model(tokens@)))
                &&& shapes(tokens_model(back@)) == shapes(flat(tokens_model(tokens@))) + seq![
                    shape(end_token(0)),
                ]
                &&& is_flat(tokens_model(tokens@)) ==> same_shape(
                    tokens_model(back@),
                    tokens_model(tokens@).push(end_token(0)),
                )
            },
            None => true,
        },
{
    if !classes_checked() || !is_renderable(tokens) {
        return None;
    }
    let mut tokenizer = Tokenizer::new(render_tokens(tokens));
    tokenizer.tokenize();
    proof {
        let s = tokens_model(tokens@);
        let text = render(s);
        assert(tokens_model(Seq::<Token>::empty()) + lex(text) =~= lex(text));
        lemma_render_lexes(s);
        if is_flat(s) {
            lemma_render_flat_round_trip(s);
        }
    }
    Some(tokenizer.tokens)
}

/// Writes a resolved sequence as text, lexes the text and resolves its
/// parentheses. The result is the sequence and its end token, up to
/// positions, and has the tree of the sequence. There is a result for every
/// renderable sequence in which no parenthesis stands outside a group, as
/// long as the character classes are what the text rests on.
pub fn relex(tokens: &Vec<Token>) -> (result: Option<Vec<Token>>)
    ensures
        result is Some <==> classes_agree() && renderable(tokens_model(tokens@)) && grouped(
            tokens_model(tokens@),
        ),
        match result {
            Some(back) => {
                &&& tokens_model(back@) == resolved(lex(render(tokens_model(tokens@))))
                &&& same_shape(tokens_model(back@), tokens_model(tokens@).push(end_token(0)))
                &&& tree_of(tokens_model(back@)) == tree_of(tokens_model(tokens@))
            },
            None => true,
        },
{
    if !is_grouped(tokens) {
        return None;
    }
    let mut lexed = match lex_rendered(tokens) {
        Some(lexed) => lexed,
        None => {
            return None;
        },
    };
    let back = parseBlocks(&mut lexed);
    proof {
        lemma_render_round_trip(tokens_model(tokens@));
    }
    Some(back)
}

} // verus!
