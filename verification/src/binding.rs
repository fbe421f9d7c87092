//! Variable bindings and the substitution of bound variables by their bits.
use crate::token::{lemma_token_model_expression, tokens_model, Token, TokenModel, TokenType};
use vstd::hash_map::StringHashMap;
use vstd::prelude::*;
use vstd::string::*;

verus! {

/// A binding of variable names to bits. Each name is bound at most once; a
/// second binding of a name replaces the first.
pub struct Binding {
    bits: StringHashMap<bool>,
}

impl View for Binding {
    type V = Map<Seq<char>, bool>;

    closed spec fn view(&self) -> Map<Seq<char>, bool> {
        self.bits@
    }
}

impl Binding {
    /// The binding that binds no name.
    pub fn new() -> (binding: Binding)
        ensures
            binding@ == Map::<Seq<char>, bool>::empty(),
    {
        Binding { bits: StringHashMap::new() }
    }

    /// Binds `name` to `bit`.
    pub fn insert(&mut self, name: String, bit: bool)
        ensures
            final(self)@ == old(self)@.insert(name@, bit),
    {
        self.bits.insert(name, bit);
    }

    /// The bit that `name` is bound to, if it is bound.
    pub fn get(&self, name: &str) -> (bit: Option<bool>)
        ensures
            bit == if self@.contains_key(name@) {
                Some(self@[name@])
            } else {
                None
            },
    {
        match self.bits.get(name) {
            Some(bit) => Some(*bit),
            None => None,
        }
    }

    /// Whether `name` is bound.
    pub fn contains(&self, name: &str) -> (bound: bool)
        ensures
            bound == self@.contains_key(name@),
    {
        self.bits.contains_key(name)
    }
}

/// The text of a bit: `1` or `0`.
pub open spec fn spec_bit_text(bit: bool) -> Seq<char> {
    if bit {
        seq!['1']
    } else {
        seq!['0']
    }
}

/// The text of a bit: `1` or `0`.
pub fn bit_text(bit: bool) -> (text: String)
    ensures
        text@ == spec_bit_text(bit),
{
    proof {
        reveal_strlit("1");
        reveal_strlit("0");
        assert("1"@ =~= seq!['1']);
        assert("0"@ =~= seq!['0']);
    }
    if bit {
        String::from_str("1")
    } else {
        String::from_str("0")
    }
}

/// A token after substitution: an identifier that `binding` binds becomes
/// the literal of its bit, a group has its nested tokens substituted, and
/// every other token stays as it is.
pub open spec fn substitute_token(t: TokenModel, binding: Map<Seq<char>, bool>) -> TokenModel
    decreases t,
{
    if t.kind == TokenType::IDENTIFIER && binding.contains_key(t.content) {
        TokenModel {
            kind: TokenType::BOOL(binding[t.content]),
            content: spec_bit_text(binding[t.content]),
            expression: t.expression,
            start: t.start,
            end: t.end,
        }
    } else if t.kind.spec_is_group() {
        TokenModel {
            kind: t.kind,
            content: t.content,
            expression: substitute(t.expression, binding),
            start: t.start,
            end: t.end,
        }
    } else {
        t
    }
}

/// A sequence after substitution, token by token.
pub open spec fn substitute(s: Seq<TokenModel>, binding: Map<Seq<char>, bool>) -> Seq<TokenModel>
    decreases s,
{
    Seq::new(
        s.len(),
        |i: int|
            if 0 <= i < s.len() {
                substitute_token(s[i], binding)
            } else {
                arbitrary()
            },
    )
}

/// A copy of `token` after substitution.
pub fn substitute_in_token(token: &Token, binding: &Binding) -> (r: Token)
    ensures
        r@ == substitute_token(token@, binding@),
    decreases token, 0int,
{
    proof {
        lemma_token_model_expression(*token);
    }
    if token.tType == TokenType::IDENTIFIER {
        if let Some(bit) = binding.get(token.content.as_str()) {
            let r = Token {
                tType: TokenType::BOOL(bit),
                content: bit_text(bit),
                expression: crate::token::clone_tokens(&token.expression),
                start: token.start,
                end: token.end,
            };
            proof {
                lemma_token_model_expression(r);
            }
            return r;
        }
    }
    if token.tType.is_group() {
        let r = Token {
            tType: token.tType,
            content: token.content.clone(),
            expression: substitute_in_tokens(&token.expression, binding),
            start: token.start,
            end: token.end,
        };
        proof {
            lemma_token_model_expression(r);
        }
        return r;
    }
    token.clone()
}

/// A copy of `tokens` after substitution.
pub fn substitute_in_tokens(tokens: &Vec<Token>, binding: &Binding) -> (r: Vec<Token>)
    ensures
        tokens_model(r@) == substitute(tokens_model(tokens@), binding@),
    decreases tokens, 1int,
{
    let mut r: Vec<Token> = Vec::new();
    let mut i: usize = 0;
    while i < tokens.len()
        invariant
            i <= tokens.len(),
            r@.len() == i,
            forall|j: int| 0 <= j < i ==> r@[j]@ == substitute_token(tokens@[j]@, binding@),
        decreases tokens.len() - i,
    {
        r.push(substitute_in_token(&tokens[i], binding));
        i += 1;
    }
    proof {
        assert(tokens_model(r@) =~= substitute(tokens_model(tokens@), binding@));
    }
    r
}

/// Replaces, in place, every identifier that `idToBool` binds by the
/// literal of its bit. Identifiers that it does not bind stay identifiers.
pub fn mapToBool(expression: &mut Vec<Token>, idToBool: Binding)
    ensures
        tokens_model(final(expression)@) == substitute(tokens_model(old(expression)@), idToBool@),
{
    let bound = substitute_in_tokens(expression, &idToBool);
    *expression = bound;
}

} // verus!
