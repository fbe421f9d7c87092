//! Tokens: the lexical units of a formula, and their mathematical model.
use vstd::prelude::*;

verus! {

/// The kind of a token. A literal carries its bit.
#[derive(Clone, Copy, PartialEq, Eq, Structural, Debug, Hash)]
pub enum TokenType {
    /// End of the token sequence.
    EOL,
    /// A lexical error.
    ERROR,
    /// A variable name.
    IDENTIFIER,
    /// A command keyword.
    COMMAND,
    /// A literal bit.
    BOOL(bool),
    /// A bracket literal `[ ... ]`; the token owns the lexed inner formula.
    EXPRESSION,
    LPAREN,
    RPAREN,
    /// A resolved parenthesis group; the token owns the enclosed sequence.
    BLOCK,
    NOT,
    AND,
    OR,
    IMPLIES,
    CONVERSE,
    EQUIVALENCE,
    XOR,
    NAND,
    NOR,
}

impl TokenType {
    /// One of the nine operators.
    pub open spec fn spec_is_operator(self) -> bool {
        self == TokenType::NOT || self.spec_is_binary_operator()
    }

    /// One of the eight operators with two operands.
    pub open spec fn spec_is_binary_operator(self) -> bool {
        match self {
            TokenType::AND
            | TokenType::OR
            | TokenType::IMPLIES
            | TokenType::CONVERSE
            | TokenType::EQUIVALENCE
            | TokenType::XOR
            | TokenType::NAND
            | TokenType::NOR => true,
            _ => false,
        }
    }

    /// A literal bit.
    pub open spec fn spec_is_literal(self) -> bool {
        self is BOOL
    }

    /// A bracket literal or a resolved parenthesis group.
    pub open spec fn spec_is_group(self) -> bool {
        self == TokenType::EXPRESSION || self == TokenType::BLOCK
    }

    /// How loosely a token binds: the tree is split at the greatest value.
    /// Operands and every kind that is no operator have the value 0.
    pub open spec fn spec_precedence(self) -> u8 {
        match self {
            TokenType::NOT => 1,
            TokenType::XOR | TokenType::NAND | TokenType::NOR => 2,
            TokenType::AND => 3,
            TokenType::OR => 4,
            TokenType::IMPLIES | TokenType::CONVERSE => 5,
            TokenType::EQUIVALENCE => 6,
            _ => 0,
        }
    }

    /// Whether the kind is one of the nine operators.
    #[verifier::when_used_as_spec(spec_is_operator)]
    pub fn is_operator(self) -> (r: bool)
        ensures
            r == self.spec_is_operator(),
    {
        match self {
            TokenType::NOT => true,
            _ => self.is_binary_operator(),
        }
    }

    /// Whether the kind is one of the eight operators with two operands.
    #[verifier::when_used_as_spec(spec_is_binary_operator)]
    pub fn is_binary_operator(self) -> (r: bool)
        ensures
            r == self.spec_is_binary_operator(),
    {
        match self {
            TokenType::AND
            | TokenType::OR
            | TokenType::IMPLIES
            | TokenType::CONVERSE
            | TokenType::EQUIVALENCE
            | TokenType::XOR
            | TokenType::NAND
            | TokenType::NOR => true,
            _ => false,
        }
    }

    /// Whether the kind is a literal bit.
    #[verifier::when_used_as_spec(spec_is_literal)]
    pub fn is_literal(self) -> (r: bool)
        ensures
            r == self.spec_is_literal(),
    {
        match self {
            TokenType::BOOL(_) => true,
            _ => false,
        }
    }

    /// Whether the kind is a bracket literal or a group of parentheses.
    #[verifier::when_used_as_spec(spec_is_group)]
    pub fn is_group(self) -> (r: bool)
        ensures
            r == self.spec_is_group(),
    {
        match self {
            TokenType::EXPRESSION | TokenType::BLOCK => true,
            _ => false,
        }
    }

    /// How loosely a token of the kind binds.
    #[verifier::when_used_as_spec(spec_precedence)]
    pub fn precedence(self) -> (r: u8)
        ensures
            r == self.spec_precedence(),
    {
        match self {
            TokenType::NOT => 1,
            TokenType::XOR | TokenType::NAND | TokenType::NOR => 2,
            TokenType::AND => 3,
            TokenType::OR => 4,
            TokenType::IMPLIES | TokenType::CONVERSE => 5,
            TokenType::EQUIVALENCE => 6,
            _ => 0,
        }
    }

    /// The upper-case name of the kind.
    pub open spec fn spec_name(self) -> Seq<char> {
        match self {
            TokenType::EOL => "EOL"@,
            TokenType::ERROR => "ERROR"@,
            TokenType::IDENTIFIER => "IDENTIFIER"@,
            TokenType::COMMAND => "COMMAND"@,
            TokenType::BOOL(_) => "BOOL"@,
            TokenType::EXPRESSION => "EXPRESSION"@,
            TokenType::LPAREN => "LPAREN"@,
            TokenType::RPAREN => "RPAREN"@,
            TokenType::BLOCK => "BLOCK"@,
            TokenType::NOT => "NOT"@,
            TokenType::AND => "AND"@,
            TokenType::OR => "OR"@,
            TokenType::IMPLIES => "IMPLIES"@,
            TokenType::CONVERSE => "CONVERSE"@,
            TokenType::EQUIVALENCE => "EQUIVALENCE"@,
            TokenType::XOR => "XOR"@,
            TokenType::NAND => "NAND"@,
            TokenType::NOR => "NOR"@,
        }
    }

    /// The upper-case name of the kind, as shown to the user.
    pub fn name(self) -> (r: &'static str)
        ensures
            r@ == self.spec_name(),
    {
        match self {
            TokenType::EOL => "EOL",
            TokenType::ERROR => "ERROR",
            TokenType::IDENTIFIER => "IDENTIFIER",
            TokenType::COMMAND => "COMMAND",
            TokenType::BOOL(_) => "BOOL",
            TokenType::EXPRESSION => "EXPRESSION",
            TokenType::LPAREN => "LPAREN",
            TokenType::RPAREN => "RPAREN",
            TokenType::BLOCK => "BLOCK",
            TokenType::NOT => "NOT",
            TokenType::AND => "AND",
            TokenType::OR => "OR",
            TokenType::IMPLIES => "IMPLIES",
            TokenType::CONVERSE => "CONVERSE",
            TokenType::EQUIVALENCE => "EQUIVALENCE",
            TokenType::XOR => "XOR",
            TokenType::NAND => "NAND",
            TokenType::NOR => "NOR",
        }
    }
}

/// A token: its kind, its text, the nested sequence of a group, and its
/// position in the line.
#[derive(Debug, PartialEq, Eq)]
pub struct Token {
    pub tType: TokenType,
    pub content: String,
    pub expression: Vec<Token>,
    pub start: usize,
    pub end: usize,
}

/// The mathematical model of a token.
pub struct TokenModel {
    pub kind: TokenType,
    pub content: Seq<char>,
    pub expression: Seq<TokenModel>,
    pub start: int,
    pub end: int,
}

/// The model of a token, with the models of the tokens it owns.
pub open spec fn token_model(t: Token) -> TokenModel
    decreases t,
{
    TokenModel {
        kind: t.tType,
        content: t.content@,
        expression: Seq::new(
            t.expression@.len(),
            |i: int|
                if 0 <= i < t.expression@.len() {
                    token_model(t.expression@[i])
                } else {
                    arbitrary()
                },
        ),
        start: t.start as int,
        end: t.end as int,
    }
}

impl View for Token {
    type V = TokenModel;

    open spec fn view(&self) -> TokenModel {
        token_model(*self)
    }
}

/// The models of a sequence of tokens.
pub open spec fn tokens_model(s: Seq<Token>) -> Seq<TokenModel> {
    Seq::new(s.len(), |i: int| s[i]@)
}

/// A token without nested tokens.
pub open spec fn plain_token(kind: TokenType, content: Seq<char>, start: int, end: int)
    -> TokenModel {
    TokenModel { kind, content, expression: Seq::empty(), start, end }
}

/// A token that owns a nested sequence and has no text of its own.
pub open spec fn group_token(kind: TokenType, expression: Seq<TokenModel>, start: int, end: int)
    -> TokenModel {
    TokenModel { kind, content: Seq::empty(), expression, start, end }
}

/// The nested tokens of a token's model are the models of its nested tokens.
pub proof fn lemma_token_model_expression(t: Token)
    ensures
        t@.expression == tokens_model(t.expression@),
{
    assert(t@.expression =~= tokens_model(t.expression@));
}

/// The models of a sequence with one more token.
pub proof fn lemma_tokens_model_push(s: Seq<Token>, t: Token)
    ensures
        tokens_model(s.push(t)) == tokens_model(s).push(t@),
{
    assert(tokens_model(s.push(t)) =~= tokens_model(s).push(t@));
}

/// The models of two sequences in a row.
pub proof fn lemma_tokens_model_add(a: Seq<Token>, b: Seq<Token>)
    ensures
        tokens_model(a + b) == tokens_model(a) + tokens_model(b),
{
    assert(tokens_model(a + b) =~= tokens_model(a) + tokens_model(b));
}

impl Token {
    /// A token without nested tokens.
    pub fn new(tType: TokenType, content: String, start: usize, end: usize) -> (t: Token)
        ensures
            t@ == plain_token(tType, content@, start as int, end as int),
    {
        let t = Token { tType, content, expression: Vec::new(), start, end };
        proof {
            lemma_token_model_expression(t);
            assert(t@.expression =~= Seq::empty());
        }
        t
    }

    /// A token that owns `expression` and has no text of its own.
    pub fn group(tType: TokenType, expression: Vec<Token>, start: usize, end: usize) -> (t: Token)
        ensures
            t@ == group_token(tType, tokens_model(expression@), start as int, end as int),
    {
        let t = Token { tType, content: String::new(), expression, start, end };
        proof {
            lemma_token_model_expression(t);
        }
        t
    }
}

impl Clone for Token {
    /// A deep copy: the copy has the same model.
    fn clone(&self) -> (r: Token)
        ensures
            r@ == self@,
        decreases self,
    {
        let mut nested: Vec<Token> = Vec::new();
        let mut i: usize = 0;
        while i < self.expression.len()
            invariant
                i <= self.expression.len(),
                nested@.len() == i,
                forall|j: int| 0 <= j < i ==> nested@[j]@ == self.expression@[j]@,
            decreases self.expression.len() - i,
        {
            let copy = self.expression[i].clone();
            nested.push(copy);
            i += 1;
        }
        let r = Token {
            tType: self.tType,
            content: self.content.clone(),
            expression: nested,
            start: self.start,
            end: self.end,
        };
        proof {
            assert(r@.expression =~= self@.expression);
        }
        r
    }
}

/// A deep copy of a token sequence.
pub fn clone_tokens(tokens: &Vec<Token>) -> (r: Vec<Token>)
    ensures
        tokens_model(r@) == tokens_model(tokens@),
{
    let mut r: Vec<Token> = Vec::new();
    let mut i: usize = 0;
    while i < tokens.len()
        invariant
            i <= tokens.len(),
            r@.len() == i,
            forall|j: int| 0 <= j < i ==> r@[j]@ == tokens@[j]@,
        decreases tokens.len() - i,
    {
        r.push(tokens[i].clone());
        i += 1;
    }
    proof {
        assert(tokens_model(r@) =~= tokens_model(tokens@));
    }
    r
}

} // verus!
