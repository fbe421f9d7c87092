//! The evaluation of a formula: from its tokens, or from its text, to its
//! bit.
//!
//! The formula of a token sequence is what stands before its first `EOL`
//! token. It is checked for lexical errors and against the grammar, its
//! variables are replaced by their bits, its parentheses are resolved, its
//! tree is built and the tree is evaluated. The first step that fails
//! decides the error.
//!
//! A variable that the binding leaves unbound is a binding error; it is
//! raised before the parentheses are resolved, and the tree builder would
//! refuse the formula too. A parenthesis that the resolver leaves in place
//! has no partner and is a structural error.
use crate::binding::{mapToBool, substitute, Binding};
use crate::blocks::{closing, lemma_closing_bounds, parseBlocks, resolve_from, resolved};
use crate::flatten::{grouped, grouped_token, has_paren, is_flat, lemma_resolve_grouped};
use crate::error::FormulaError;
use crate::evaluator::{
    built, has_identifier, identifier_from, node_value, tree_of, Evaluator,
};
use crate::syntax::{
    before_end, checkSyntax, end_index, end_position, lemma_end_from, lemma_end_position_is,
    pair_ok, syntax_ok,
};
use crate::token::{
    lemma_token_model_expression, lemma_tokens_model_push, tokens_model, Token, TokenModel,
    TokenType,
};
use crate::tokenizer::{lex, Tokenizer};
use vstd::prelude::*;
use vstd::string::*;

verus! {

/// Whether a token of kind `kind` stands in `s` itself, groups not entered.
pub open spec fn has_kind(s: Seq<TokenModel>, kind: TokenType) -> bool {
    exists|i: int| 0 <= i < s.len() && (#[trigger] s[i]).kind == kind
}

/// Whether a lexical error stands in `s` from position `i` on, or in a
/// group that stands there.
pub open spec fn error_from(s: Seq<TokenModel>, i: int) -> bool
    decreases s, s.len() - i,
{
    if !(0 <= i < s.len()) {
        false
    } else {
        s[i].kind == TokenType::ERROR || (s[i].kind.spec_is_group() && error_from(
            s[i].expression,
            0,
        )) || error_from(s, i + 1)
    }
}

/// Whether a lexical error stands in `s` or in one of its groups.
pub open spec fn has_error(s: Seq<TokenModel>) -> bool {
    error_from(s, 0)
}

/// The result of evaluating the formula of `tokens` under `binding`:
///
/// - a lexical error, if the formula holds an error token;
/// - else a syntax error, if it breaks the adjacency rules;
/// - else a binding error, if an identifier is left after substitution;
/// - else a structural error, if a parenthesis is left after resolution;
/// - else the bit that its tree evaluates to, or an evaluation error if
///   the tree is malformed.
pub open spec fn formula_value(tokens: Seq<TokenModel>, binding: Map<Seq<char>, bool>) -> Result<
    bool,
    FormulaError,
> {
    let formula = before_end(tokens);
    if has_error(formula) {
        Err(FormulaError::LexError)
    } else if !syntax_ok(formula) {
        Err(FormulaError::SyntaxError)
    } else {
        let bound = substitute(formula, binding);
        if has_kind(bound, TokenType::IDENTIFIER) {
            Err(FormulaError::BindingError)
        } else {
            let groups = resolved(bound);
            if has_kind(groups, TokenType::LPAREN) || has_kind(groups, TokenType::RPAREN) {
                Err(FormulaError::StructuralError)
            } else {
                match node_value(tree_of(groups)) {
                    Some(bit) => Ok(bit),
                    None => Err(FormulaError::EvaluationError),
                }
            }
        }
    }
}

/// A formula with a variable that the binding does not bind has no result;
/// if it is free of lexical errors and grammatical, the failure is a
/// binding error.
pub proof fn lemma_unbound_variable(
    tokens: Seq<TokenModel>,
    binding: Map<Seq<char>, bool>,
    i: int,
)
    requires
        0 <= i < end_position(tokens),
        tokens[i].kind == TokenType::IDENTIFIER,
        !binding.contains_key(tokens[i].content),
    ensures
        formula_value(tokens, binding) is Err,
        !has_error(before_end(tokens)) && syntax_ok(before_end(tokens)) ==> formula_value(
            tokens,
            binding,
        ) == Err::<bool, FormulaError>(FormulaError::BindingError),
{
    lemma_end_from(tokens, 0);
    let formula = before_end(tokens);
    let bound = substitute(formula, binding);
    assert(formula[i] == tokens[i]);
    assert(bound[i] == formula[i]);
    assert(bound[i].kind == TokenType::IDENTIFIER);
}

/// A token that the tree builder is made for: a literal, an operator, or a
/// group of parentheses that owns such tokens.
pub open spec fn buildable_token(t: TokenModel) -> bool
    decreases t,
{
    t.kind is BOOL || t.kind.spec_is_operator() || (t.kind == TokenType::BLOCK && buildable(
        t.expression,
    ))
}

/// A sequence of such tokens.
pub open spec fn buildable(s: Seq<TokenModel>) -> bool
    decreases s,
{
    forall|i: int| 0 <= i < s.len() ==> buildable_token(#[trigger] s[i])
}

/// A literal, an operator or a parenthesis.
pub open spec fn is_simple(kind: TokenType) -> bool {
    kind is BOOL || kind.spec_is_operator() || kind == TokenType::LPAREN || kind
        == TokenType::RPAREN
}

/// A token that is a literal, an operator or a parenthesis, or a group of
/// parentheses that owns such tokens.
pub open spec fn simple_token(t: TokenModel) -> bool
    decreases t,
{
    is_simple(t.kind) || (t.kind == TokenType::BLOCK && simple(t.expression))
}

/// A sequence of such tokens.
pub open spec fn simple(s: Seq<TokenModel>) -> bool
    decreases s,
{
    forall|i: int| 0 <= i < s.len() ==> simple_token(#[trigger] s[i])
}

/// Resolving literals, operators and parentheses gives literals,
/// operators, parentheses and groups of them.
pub proof fn lemma_resolve_simple(s: Seq<TokenModel>, k: int)
    requires
        forall|i: int| 0 <= i < s.len() ==> is_simple((#[trigger] s[i]).kind),
        0 <= k <= s.len(),
    ensures
        simple(resolve_from(s, k)),
    decreases s.len(), s.len() - k,
{
    if k < s.len() {
        let r = resolve_from(s, k);
        let m = closing(s, k + 1, 1);
        assert(is_simple(s[k].kind));
        if s[k].kind == TokenType::LPAREN && m < s.len() {
            lemma_closing_bounds(s, k + 1, 1);
            let sub = s.subrange(k + 1, m);
            assert forall|i: int| 0 <= i < sub.len() implies is_simple(
                (#[trigger] sub[i]).kind,
            ) by {
                assert(sub[i] == s[k + 1 + i]);
            }
            lemma_resolve_simple(sub, 0);
            lemma_resolve_simple(s, m + 1);
            let rest = resolve_from(s, m + 1);
            assert(r == seq![r[0]] + rest);
            assert forall|i: int| 0 <= i < r.len() implies simple_token(#[trigger] r[i]) by {
                if i > 0 {
                    assert(r[i] == rest[i - 1]);
                }
            }
        } else {
            lemma_resolve_simple(s, k + 1);
            let rest = resolve_from(s, k + 1);
            assert(r == seq![s[k]] + rest);
            assert forall|i: int| 0 <= i < r.len() implies simple_token(#[trigger] r[i]) by {
                if i > 0 {
                    assert(r[i] == rest[i - 1]);
                }
            }
        }
    }
}

/// What is made of literals, operators, parentheses and groups, and is
/// grouped, is buildable.
pub proof fn lemma_simple_grouped(s: Seq<TokenModel>)
    requires
        simple(s),
        grouped(s),
    ensures
        buildable(s),
    decreases s,
{
    assert forall|i: int| 0 <= i < s.len() implies buildable_token(#[trigger] s[i]) by {
        assert(simple_token(s[i]));
        assert(grouped_token(s[i]));
        if s[i].kind == TokenType::BLOCK {
            lemma_simple_grouped(s[i].expression);
        }
    }
}

/// A buildable sequence holds no identifier, in no group either, and no
/// end token: the tree builder builds its tree.
pub proof fn lemma_buildable_built(s: Seq<TokenModel>)
    requires
        buildable(s),
    ensures
        !has_identifier(s),
        before_end(s) == s,
        built(s) == Ok::<crate::evaluator::ASTNode, FormulaError>(tree_of(s)),
{
    lemma_buildable_clean(s, 0);
    assert forall|k: int| 0 <= k < s.len() implies (#[trigger] s[k]).kind != TokenType::EOL by {
        assert(buildable_token(s[k]));
    }
    lemma_end_position_is(s, s.len() as int);
    assert(before_end(s) =~= s);
}

/// No identifier stands in a buildable sequence, from any position on.
pub proof fn lemma_buildable_clean(s: Seq<TokenModel>, i: int)
    requires
        buildable(s),
        0 <= i,
    ensures
        !identifier_from(s, i),
    decreases s, s.len() - i,
{
    if i < s.len() {
        assert(buildable_token(s[i]));
        if s[i].kind == TokenType::BLOCK {
            lemma_buildable_clean(s[i].expression, 0);
        }
        lemma_buildable_clean(s, i + 1);
    }
}

/// Whatever reaches the tree builder is buildable: where a formula passes
/// the steps before it, the tree is built of literals, operators and groups
/// of them, and of nothing else.
pub proof fn lemma_tree_input(tokens: Seq<TokenModel>, binding: Map<Seq<char>, bool>)
    requires
        formula_value(tokens, binding) is Ok || formula_value(tokens, binding) == Err::<
            bool,
            FormulaError,
        >(FormulaError::EvaluationError),
    ensures
        buildable(resolved(substitute(before_end(tokens), binding))),
{
    let formula = before_end(tokens);
    let bound = substitute(formula, binding);
    let groups = resolved(bound);
    lemma_end_from(tokens, 0);
    assert forall|k: int| 0 <= k < formula.len() implies (#[trigger] formula[k]).kind
        != TokenType::EOL by {
        assert(formula[k] == tokens[k]);
    }
    lemma_end_position_is(formula, formula.len() as int);
    assert forall|i: int| 0 <= i < bound.len() implies is_simple((#[trigger] bound[i]).kind) by {
        assert(pair_ok(formula, i));
        if bound[i].kind == TokenType::IDENTIFIER {
            assert(has_kind(bound, TokenType::IDENTIFIER));
        }
    }
    assert(is_flat(bound)) by {
        assert forall|i: int| 0 <= i < bound.len() implies (#[trigger] bound[i]).kind
            != TokenType::BLOCK by {
            assert(is_simple(bound[i].kind));
        }
    }
    if has_paren(groups) {
        let i = choose|i: int|
            0 <= i < groups.len() && ((#[trigger] groups[i]).kind == TokenType::LPAREN
                || groups[i].kind == TokenType::RPAREN);
        assert(has_kind(groups, TokenType::LPAREN) || has_kind(groups, TokenType::RPAREN));
    }
    lemma_resolve_grouped(bound, 0);
    lemma_resolve_simple(bound, 0);
    lemma_simple_grouped(groups);
}

/// Whether a token of kind `kind` stands in `tokens` itself.
pub fn contains_kind(tokens: &Vec<Token>, kind: TokenType) -> (found: bool)
    ensures
        found == has_kind(tokens_model(tokens@), kind),
{
    let ghost s = tokens_model(tokens@);
    let mut i: usize = 0;
    while i < tokens.len()
        invariant
            i <= tokens.len(),
            s == tokens_model(tokens@),
            forall|k: int| 0 <= k < i ==> (#[trigger] s[k]).kind != kind,
        decreases tokens.len() - i,
    {
        if tokens[i].tType == kind {
            assert(s[i as int].kind == kind);
            return true;
        }
        i += 1;
    }
    false
}

/// Whether a lexical error stands in `tokens` or in one of their groups.
pub fn contains_error(tokens: &Vec<Token>) -> (found: bool)
    ensures
        found == has_error(tokens_model(tokens@)),
    decreases tokens,
{
    let ghost s = tokens_model(tokens@);
    let mut i: usize = tokens.len();
    while i > 0
        invariant
            i <= tokens.len(),
            s == tokens_model(tokens@),
            !error_from(s, i as int),
        decreases i,
    {
        i -= 1;
        let token = &tokens[i];
        proof {
            lemma_token_model_expression(*token);
            assert(s[i as int] == token@);
        }
        if token.tType == TokenType::ERROR {
            proof {
                lemma_error_found(s, 0, i as int);
            }
            return true;
        }
        if token.tType.is_group() && contains_error(&token.expression) {
            proof {
                lemma_error_found(s, 0, i as int);
            }
            return true;
        }
    }
    false
}

/// An error at position `i` is found from every position up to `i`.
pub proof fn lemma_error_found(s: Seq<TokenModel>, from: int, i: int)
    requires
        0 <= from <= i < s.len(),
        s[i].kind == TokenType::ERROR || (s[i].kind.spec_is_group() && has_error(s[i].expression)),
    ensures
        error_from(s, from),
    decreases i - from,
{
    if from < i {
        lemma_error_found(s, from + 1, i);
    }
}

/// A copy of the formula of `tokens`: of what stands before the first `EOL`
/// token.
pub fn formula_of(tokens: &Vec<Token>) -> (formula: Vec<Token>)
    ensures
        tokens_model(formula@) == before_end(tokens_model(tokens@)),
{
    let ghost s = tokens_model(tokens@);
    let end = end_index(tokens);
    let mut formula: Vec<Token> = Vec::new();
    let mut i: usize = 0;
    assert(tokens_model(formula@) =~= s.subrange(0, 0));
    while i < end
        invariant
            i <= end <= tokens.len(),
            s == tokens_model(tokens@),
            tokens_model(formula@) == s.subrange(0, i as int),
        decreases end - i,
    {
        let copy = tokens[i].clone();
        proof {
            lemma_tokens_model_push(formula@, copy);
            assert(s.subrange(0, i as int).push(s[i as int]) =~= s.subrange(0, i + 1));
        }
        formula.push(copy);
        i += 1;
    }
    formula
}

/// Evaluates the formula of `tokens` under `binding`.
pub fn evaluate_tokens(tokens: &Vec<Token>, binding: Binding) -> (result: Result<
    bool,
    FormulaError,
>)
    ensures
        result == formula_value(tokens_model(tokens@), binding@),
{
    let mut formula = formula_of(tokens);
    if contains_error(&formula) {
        return Err(FormulaError::LexError);
    }
    if !checkSyntax(&formula) {
        return Err(FormulaError::SyntaxError);
    }
    mapToBool(&mut formula, binding);
    if contains_kind(&formula, TokenType::IDENTIFIER) {
        return Err(FormulaError::BindingError);
    }
    let groups = parseBlocks(&mut formula);
    if contains_kind(&groups, TokenType::LPAREN) || contains_kind(&groups, TokenType::RPAREN) {
        return Err(FormulaError::StructuralError);
    }
    proof {
        lemma_tree_input(tokens_model(tokens@), binding@);
        lemma_buildable_built(tokens_model(groups@));
    }
    let mut evaluator = Evaluator::new(groups);
    match evaluator.buildAST() {
        Ok(()) => {},
        Err(error) => {
            return Err(error);
        },
    }
    let tree = evaluator.getAST();
    match tree.root {
        Some(root) => evaluator.evaluate(&*root),
        None => Err(FormulaError::EvaluationError),
    }
}

/// Lexes a line. The result is the tokens of the line, or a lexical error
/// if one of them, or one in a bracket literal, is an error token.
pub fn tokenize_line(line: &str) -> (result: Result<Vec<Token>, FormulaError>)
    ensures
        match result {
            Ok(tokens) => tokens_model(tokens@) == lex(line@) && !has_error(lex(line@)),
            Err(error) => error == FormulaError::LexError && has_error(lex(line@)),
        },
{
    let mut tokenizer = Tokenizer::new(String::from_str(line));
    tokenizer.tokenize();
    proof {
        assert(tokens_model(Seq::<Token>::empty()) + lex(line@) =~= lex(line@));
    }
    if contains_error(&tokenizer.tokens) {
        Err(FormulaError::LexError)
    } else {
        Ok(tokenizer.tokens)
    }
}

/// Lexes the text of a formula and evaluates it under `binding`.
pub fn evaluate_formula(formula: &str, binding: Binding) -> (result: Result<bool, FormulaError>)
    ensures
        result == formula_value(lex(formula@), binding@),
{
    let mut tokenizer = Tokenizer::new(String::from_str(formula));
    tokenizer.tokenize();
    proof {
        assert(tokens_model(Seq::<Token>::empty()) + lex(formula@) =~= lex(formula@));
    }
    evaluate_tokens(&tokenizer.tokens, binding)
}

} // verus!
