//! The lexer: from a line of text to a flat sequence of tokens.
//!
//! The line is first turned into symbols, which hold the class of each
//! character; the tokens are then read off the symbols. Scanning goes from
//! left to right and always takes the longest match.
//!
//! Positions count characters, from 0. An identifier, a command and a run
//! that is a lexical error end at the position after their last character;
//! every other token ends at the position of its last character.
use crate::chars::{
    characters, classified, classify, lemma_run_end, run_end, skip_run, text_of, CharClass, Symbol,
};
use crate::syntax::{end_position, lemma_end_from, lemma_end_position_is};
use crate::token::{
    group_token, lemma_tokens_model_add, lemma_tokens_model_push, plain_token, tokens_model, Token,
    TokenModel, TokenType,
};
use vstd::prelude::*;
use vstd::string::*;

verus! {

/// The character at position `i`, or NUL past the end of the text.
pub open spec fn char_at(text: Seq<char>, i: int) -> char {
    if 0 <= i < text.len() {
        text[i]
    } else {
        '\0'
    }
}

/// The fixed command keywords: `exit`, `table`, `valid`, `satis`,
/// `semcons`, `cnf`, `dnf`, `latex` and `tree`.
pub open spec fn spec_is_command(word: Seq<char>) -> bool {
    ||| word == seq!['e', 'x', 'i', 't']
    ||| word == seq!['t', 'a', 'b', 'l', 'e']
    ||| word == seq!['v', 'a', 'l', 'i', 'd']
    ||| word == seq!['s', 'a', 't', 'i', 's']
    ||| word == seq!['s', 'e', 'm', 'c', 'o', 'n', 's']
    ||| word == seq!['c', 'n', 'f']
    ||| word == seq!['d', 'n', 'f']
    ||| word == seq!['l', 'a', 't', 'e', 'x']
    ||| word == seq!['t', 'r', 'e', 'e']
}

/// Whether `run` is the one character `a`.
pub open spec fn spells_one(run: Seq<char>, a: char) -> bool {
    run.len() == 1 && run[0] == a
}

/// Whether `run` is the two characters `a`, `b`.
pub open spec fn spells_two(run: Seq<char>, a: char, b: char) -> bool {
    run.len() == 2 && run[0] == a && run[1] == b
}

/// Whether `run` is the three characters `a`, `b`, `c`.
pub open spec fn spells_three(run: Seq<char>, a: char, b: char, c: char) -> bool {
    run.len() == 3 && run[0] == a && run[1] == b && run[2] == c
}

/// The fixed operator table: the kind that a run of operator characters
/// spells, if it spells one of `&&`, `||`, `!`, `->`, `<-`, `<->`, `^`,
/// `!&&` and `!||`.
pub open spec fn spec_operator_kind(run: Seq<char>) -> Option<TokenType> {
    if spells_two(run, '&', '&') {
        Some(TokenType::AND)
    } else if spells_two(run, '|', '|') {
        Some(TokenType::OR)
    } else if spells_one(run, '!') {
        Some(TokenType::NOT)
    } else if spells_two(run, '-', '>') {
        Some(TokenType::IMPLIES)
    } else if spells_two(run, '<', '-') {
        Some(TokenType::CONVERSE)
    } else if spells_three(run, '<', '-', '>') {
        Some(TokenType::EQUIVALENCE)
    } else if spells_one(run, '^') {
        Some(TokenType::XOR)
    } else if spells_three(run, '!', '&', '&') {
        Some(TokenType::NAND)
    } else if spells_three(run, '!', '|', '|') {
        Some(TokenType::NOR)
    } else {
        None
    }
}

/// The text that the symbols at the positions `i` up to `j` spell.
pub open spec fn text_at(symbols: Seq<Symbol>, i: int, j: int) -> Seq<char> {
    characters(symbols.subrange(i, j))
}

/// The token of the word at `i` up to `j`: a command if it is a keyword,
/// else an identifier.
pub open spec fn word_token(symbols: Seq<Symbol>, i: int, j: int) -> TokenModel {
    let word = text_at(symbols, i, j);
    plain_token(
        if spec_is_command(word) {
            TokenType::COMMAND
        } else {
            TokenType::IDENTIFIER
        },
        word,
        i,
        j,
    )
}

/// The token of the run of digits at `i` up to `j`: a literal bit for a
/// lone `0` or `1`, else a lexical error.
pub open spec fn number_token(symbols: Seq<Symbol>, i: int, j: int) -> TokenModel {
    let run = text_at(symbols, i, j);
    if j == i + 1 && symbols[i].character == '0' {
        plain_token(TokenType::BOOL(false), run, i, i)
    } else if j == i + 1 && symbols[i].character == '1' {
        plain_token(TokenType::BOOL(true), run, i, i)
    } else if j == i + 1 {
        plain_token(TokenType::ERROR, run, i, i)
    } else {
        plain_token(TokenType::ERROR, run, i, j)
    }
}

/// The token of the run of operator characters at `i` up to `j`: the
/// operator it spells, else a lexical error.
pub open spec fn operator_token(symbols: Seq<Symbol>, i: int, j: int) -> TokenModel {
    let run = text_at(symbols, i, j);
    match spec_operator_kind(run) {
        Some(kind) => plain_token(kind, run, i, j - 1),
        None => plain_token(TokenType::ERROR, run, i, j),
    }
}

/// The token of a character that stands alone: a parenthesis, else a lexical
/// error.
pub open spec fn single_token(c: char, i: int) -> TokenModel {
    plain_token(
        if c == '(' {
            TokenType::LPAREN
        } else if c == ')' {
            TokenType::RPAREN
        } else {
            TokenType::ERROR
        },
        seq![c],
        i,
        i,
    )
}

/// The token that ends a sequence, at position `i`.
pub open spec fn end_token(i: int) -> TokenModel {
    plain_token(TokenType::EOL, Seq::empty(), i, i)
}

/// The token of an unterminated bracket literal opened at `i`: a lexical
/// error that holds the rest of the text.
pub open spec fn open_bracket_token(symbols: Seq<Symbol>, i: int) -> TokenModel {
    plain_token(
        TokenType::ERROR,
        text_at(symbols, i + 1, symbols.len() as int),
        i,
        symbols.len() as int,
    )
}

/// The tokens of the symbols from position `i` on. The sequence ends with
/// the one `EOL` token.
///
/// Whitespace is skipped. A letter starts a word, which goes on over
/// letters and digits. A digit starts a run of digits. `[` opens a bracket
/// literal, which goes up to the next `]` and becomes one `EXPRESSION`
/// token; it owns the tokens of the symbols between the brackets, with
/// positions counted from the symbol after `[`. An operator character
/// starts a run of operator characters. Any other character stands alone.
pub open spec fn lex_from(symbols: Seq<Symbol>, i: int) -> Seq<TokenModel>
    decreases symbols.len(), symbols.len() - i,
{
    if !(0 <= i < symbols.len()) {
        seq![end_token(i)]
    } else if symbols[i].whitespace {
        lex_from(symbols, i + 1)
    } else if symbols[i].alphabetic {
        let j = run_end(symbols, i + 1, CharClass::Alphanumeric);
        proof {
            lemma_run_end(symbols, i + 1, CharClass::Alphanumeric);
        }
        seq![word_token(symbols, i, j)] + lex_from(symbols, j)
    } else if CharClass::Digit.spec_contains(symbols[i]) {
        let j = run_end(symbols, i + 1, CharClass::Digit);
        proof {
            lemma_run_end(symbols, i + 1, CharClass::Digit);
        }
        seq![number_token(symbols, i, j)] + lex_from(symbols, j)
    } else if symbols[i].character == '[' {
        let k = run_end(symbols, i + 1, CharClass::Bracketed);
        proof {
            lemma_run_end(symbols, i + 1, CharClass::Bracketed);
        }
        if k < symbols.len() {
            seq![
                group_token(TokenType::EXPRESSION, lex_from(symbols.subrange(i + 1, k), 0), i, k),
            ] + lex_from(symbols, k + 1)
        } else {
            seq![open_bracket_token(symbols, i)] + lex_from(symbols, k)
        }
    } else if CharClass::Operator.spec_contains(symbols[i]) {
        let j = run_end(symbols, i + 1, CharClass::Operator);
        proof {
            lemma_run_end(symbols, i + 1, CharClass::Operator);
        }
        seq![operator_token(symbols, i, j)] + lex_from(symbols, j)
    } else {
        seq![single_token(symbols[i].character, i)] + lex_from(symbols, i + 1)
    }
}

/// The tokens of a whole line.
pub open spec fn lex(text: Seq<char>) -> Seq<TokenModel> {
    lex_from(classified(text), 0)
}

/// A sequence that ends with its one `EOL` token, and in which every
/// bracket literal owns such a sequence.
pub open spec fn well_formed(s: Seq<TokenModel>) -> bool
    decreases s,
{
    &&& s.len() > 0
    &&& end_position(s) == s.len() - 1
    &&& forall|k: int|
        0 <= k < s.len() && (#[trigger] s[k]).kind == TokenType::EXPRESSION ==> well_formed(
            s[k].expression,
        )
}

/// What the lexer produces is well-formed.
pub proof fn lemma_lex_well_formed(symbols: Seq<Symbol>, i: int)
    requires
        0 <= i,
    ensures
        well_formed(lex_from(symbols, i)),
    decreases symbols.len(), symbols.len() - i,
{
    let s = lex_from(symbols, i);
    if !(0 <= i < symbols.len()) {
        lemma_end_position_is(s, 0);
    } else if symbols[i].whitespace {
        lemma_lex_well_formed(symbols, i + 1);
    } else {
        let bracket = !symbols[i].alphabetic && !CharClass::Digit.spec_contains(symbols[i])
            && symbols[i].character == '[';
        let k = run_end(symbols, i + 1, CharClass::Bracketed);
        let next = if symbols[i].alphabetic {
            run_end(symbols, i + 1, CharClass::Alphanumeric)
        } else if CharClass::Digit.spec_contains(symbols[i]) {
            run_end(symbols, i + 1, CharClass::Digit)
        } else if bracket {
            if k < symbols.len() {
                k + 1
            } else {
                k
            }
        } else if CharClass::Operator.spec_contains(symbols[i]) {
            run_end(symbols, i + 1, CharClass::Operator)
        } else {
            i + 1
        };
        lemma_run_end(symbols, i + 1, CharClass::Alphanumeric);
        lemma_run_end(symbols, i + 1, CharClass::Digit);
        lemma_run_end(symbols, i + 1, CharClass::Bracketed);
        lemma_run_end(symbols, i + 1, CharClass::Operator);
        let rest = lex_from(symbols, next);
        lemma_lex_well_formed(symbols, next);
        assert(s == seq![s[0]] + rest);
        assert(s[0].kind != TokenType::EOL);
        lemma_end_from(rest, 0);
        assert forall|k: int| 0 <= k < s.len() - 1 implies (#[trigger] s[k]).kind
            != TokenType::EOL by {
            if k > 0 {
                assert(s[k] == rest[k - 1]);
            }
        }
        assert(s[s.len() - 1] == rest[rest.len() - 1]);
        lemma_end_position_is(s, s.len() - 1);
        if bracket && k < symbols.len() {
            lemma_lex_well_formed(symbols.subrange(i + 1, k), 0);
        }
        assert forall|k: int|
            0 <= k < s.len() && (#[trigger] s[k]).kind == TokenType::EXPRESSION implies well_formed(
            s[k].expression,
        ) by {
            if k > 0 {
                assert(s[k] == rest[k - 1]);
            }
        }
    }
}

/// Whether `word` is one of the command keywords.
pub fn is_command(word: &str) -> (r: bool)
    ensures
        r == spec_is_command(word@),
{
    proof {
        reveal_strlit("exit");
        reveal_strlit("table");
        reveal_strlit("valid");
        reveal_strlit("satis");
        reveal_strlit("semcons");
        reveal_strlit("cnf");
        reveal_strlit("dnf");
        reveal_strlit("latex");
        reveal_strlit("tree");
        assert("exit"@ =~= seq!['e', 'x', 'i', 't']);
        assert("table"@ =~= seq!['t', 'a', 'b', 'l', 'e']);
        assert("valid"@ =~= seq!['v', 'a', 'l', 'i', 'd']);
        assert("satis"@ =~= seq!['s', 'a', 't', 'i', 's']);
        assert("semcons"@ =~= seq!['s', 'e', 'm', 'c', 'o', 'n', 's']);
        assert("cnf"@ =~= seq!['c', 'n', 'f']);
        assert("dnf"@ =~= seq!['d', 'n', 'f']);
        assert("latex"@ =~= seq!['l', 'a', 't', 'e', 'x']);
        assert("tree"@ =~= seq!['t', 'r', 'e', 'e']);
    }
    str_eq(word, "exit") || str_eq(word, "table") || str_eq(word, "valid") || str_eq(word, "satis")
        || str_eq(word, "semcons") || str_eq(word, "cnf") || str_eq(word, "dnf") || str_eq(
        word,
        "latex",
    ) || str_eq(word, "tree")
}

/// The operator that `run` spells, if it spells one.
pub fn operator_kind(run: &str) -> (r: Option<TokenType>)
    ensures
        r == spec_operator_kind(run@),
{
    let n = run.unicode_len();
    if n == 1 {
        let a = run.get_char(0);
        if a == '!' {
            Some(TokenType::NOT)
        } else if a == '^' {
            Some(TokenType::XOR)
        } else {
            None
        }
    } else if n == 2 {
        let a = run.get_char(0);
        let b = run.get_char(1);
        if a == '&' && b == '&' {
            Some(TokenType::AND)
        } else if a == '|' && b == '|' {
            Some(TokenType::OR)
        } else if a == '-' && b == '>' {
            Some(TokenType::IMPLIES)
        } else if a == '<' && b == '-' {
            Some(TokenType::CONVERSE)
        } else {
            None
        }
    } else if n == 3 {
        let a = run.get_char(0);
        let b = run.get_char(1);
        let c = run.get_char(2);
        if a == '<' && b == '-' && c == '>' {
            Some(TokenType::EQUIVALENCE)
        } else if a == '!' && b == '&' && c == '&' {
            Some(TokenType::NAND)
        } else if a == '!' && b == '|' && c == '|' {
            Some(TokenType::NOR)
        } else {
            None
        }
    } else {
        None
    }
}

/// Whether two strings hold the same characters.
pub fn str_eq(a: &str, b: &str) -> (r: bool)
    ensures
        r == (a@ == b@),
{
    let n = a.unicode_len();
    if n != b.unicode_len() {
        return false;
    }
    let mut i: usize = 0;
    while i < n
        invariant
            i <= n,
            n == a@.len(),
            n == b@.len(),
            forall|k: int| 0 <= k < i ==> a@[k] == b@[k],
        decreases n - i,
    {
        if a.get_char(i) != b.get_char(i) {
            return false;
        }
        i += 1;
    }
    assert(a@ =~= b@);
    true
}

/// The state of the lexer: the line, the position reached, the tokens found
/// so far, and the character at the position (NUL at the end of the line).
pub struct Tokenizer {
    pub line: String,
    pub index: usize,
    pub tokens: Vec<Token>,
    pub current: char,
}

impl Tokenizer {
    /// A lexer at the start of `line`, with no tokens yet.
    pub fn new(line: String) -> (t: Tokenizer)
        ensures
            t.line == line,
            t.index == 0,
            t.tokens@ == Seq::<Token>::empty(),
            t.current == char_at(line@, 0),
    {
        let current = if 0 < line.as_str().unicode_len() {
            line.as_str().get_char(0)
        } else {
            '\0'
        };
        Tokenizer { line, index: 0, tokens: Vec::new(), current }
    }

    /// Moves one character on, unless the end of the line is reached.
    pub fn forward(&mut self)
        ensures
            final(self).line == old(self).line,
            final(self).tokens == old(self).tokens,
            old(self).index < old(self).line@.len() ==> final(self).index == old(self).index + 1,
            old(self).index >= old(self).line@.len() ==> final(self).index == old(self).index,
            final(self).current == char_at(final(self).line@, final(self).index as int),
    {
        let n = self.line.as_str().unicode_len();
        if self.index < n {
            self.index += 1;
        }
        self.current = if self.index < n {
            self.line.as_str().get_char(self.index)
        } else {
            '\0'
        };
    }

    /// Scans the identifier or command that starts at `start`. Returns the
    /// token and the position behind it.
    fn makeIdentifier(symbols: &Vec<Symbol>, start: usize) -> (found: (Token, usize))
        requires
            start < symbols@.len(),
        ensures
            found.1 == run_end(symbols@, start + 1, CharClass::Alphanumeric),
            start < found.1 <= symbols@.len(),
            found.0@ == word_token(symbols@, start as int, found.1 as int),
    {
        assert(start < symbols.len());
        let end = skip_run(symbols, start + 1, CharClass::Alphanumeric);
        let identifier = text_of(symbols, start, end);
        let kind = if is_command(identifier.as_str()) {
            TokenType::COMMAND
        } else {
            TokenType::IDENTIFIER
        };
        (Token::new(kind, identifier, start, end), end)
    }

    /// Scans the run of digits that starts at `start`. Returns the token and
    /// the position behind it.
    fn makeNumber(symbols: &Vec<Symbol>, start: usize) -> (found: (Token, usize))
        requires
            start < symbols@.len(),
        ensures
            found.1 == run_end(symbols@, start + 1, CharClass::Digit),
            start < found.1 <= symbols@.len(),
            found.0@ == number_token(symbols@, start as int, found.1 as int),
    {
        let first = symbols[start].character;
        assert(start < symbols.len());
        let end = skip_run(symbols, start + 1, CharClass::Digit);
        let run = text_of(symbols, start, end);
        let token = if end == start + 1 && first == '0' {
            Token::new(TokenType::BOOL(false), run, start, start)
        } else if end == start + 1 && first == '1' {
            Token::new(TokenType::BOOL(true), run, start, start)
        } else if end == start + 1 {
            Token::new(TokenType::ERROR, run, start, start)
        } else {
            Token::new(TokenType::ERROR, run, start, end)
        };
        (token, end)
    }

    /// Scans the run of operator characters that starts at `start`. Returns
    /// the token and the position behind it.
    fn makeOperator(symbols: &Vec<Symbol>, start: usize) -> (found: (Token, usize))
        requires
            start < symbols@.len(),
        ensures
            found.1 == run_end(symbols@, start + 1, CharClass::Operator),
            start < found.1 <= symbols@.len(),
            found.0@ == operator_token(symbols@, start as int, found.1 as int),
    {
        assert(start < symbols.len());
        let end = skip_run(symbols, start + 1, CharClass::Operator);
        let operator = text_of(symbols, start, end);
        let token = match operator_kind(operator.as_str()) {
            Some(kind) => Token::new(kind, operator, start, end - 1),
            None => Token::new(TokenType::ERROR, operator, start, end),
        };
        (token, end)
    }

    /// Scans the bracket literal that opens at `start`. Returns the token
    /// and the position of its closing bracket, or the number of symbols if
    /// there is none.
    fn makeExpression(symbols: &Vec<Symbol>, start: usize) -> (found: (Token, usize))
        requires
            start < symbols@.len(),
        ensures
            found.1 == run_end(symbols@, start + 1, CharClass::Bracketed),
            start < found.1 <= symbols@.len(),
            found.1 < symbols@.len() ==> found.0@ == group_token(
                TokenType::EXPRESSION,
                lex_from(symbols@.subrange(start + 1, found.1 as int), 0),
                start as int,
                found.1 as int,
            ),
            found.1 >= symbols@.len() ==> found.0@ == open_bracket_token(symbols@, start as int),
        decreases symbols@.len(), 0int,
    {
        let n = symbols.len();
        let close = skip_run(symbols, start + 1, CharClass::Bracketed);
        if close >= n {
            let rest = text_of(symbols, start + 1, n);
            return (Token::new(TokenType::ERROR, rest, start, n), close);
        }
        let mut inner: Vec<Symbol> = Vec::new();
        let mut i: usize = start + 1;
        while i < close
            invariant
                start < i <= close < symbols@.len(),
                inner@ == symbols@.subrange(start + 1, i as int),
            decreases close - i,
        {
            inner.push(symbols[i]);
            assert(inner@ =~= symbols@.subrange(start + 1, i + 1));
            i += 1;
        }
        let expression = tokenize_symbols(&inner, 0);
        (Token::group(TokenType::EXPRESSION, expression, start, close), close)
    }

    /// Lexes the line from the position to its end and appends the tokens,
    /// the closing `EOL` token included, to `tokens`.
    pub fn tokenize(&mut self)
        ensures
            final(self).line == old(self).line,
            tokens_model(final(self).tokens@) == tokens_model(old(self).tokens@) + lex_from(
                classified(old(self).line@),
                old(self).index as int,
            ),
            final(self).index == if old(self).index <= old(self).line@.len() {
                old(self).line@.len()
            } else {
                old(self).index as nat
            },
            final(self).current == '\0',
    {
        let symbols = classify(self.line.as_str());
        let mut found = tokenize_symbols(&symbols, self.index);
        proof {
            lemma_tokens_model_add(self.tokens@, found@);
        }
        self.tokens.append(&mut found);
        if self.index < symbols.len() {
            self.index = symbols.len();
        }
        self.current = '\0';
    }
}

/// The tokens of `symbols` from the position `from` on, the closing `EOL`
/// token included.
pub fn tokenize_symbols(symbols: &Vec<Symbol>, from: usize) -> (tokens: Vec<Token>)
    ensures
        tokens_model(tokens@) == lex_from(symbols@, from as int),
        well_formed(tokens_model(tokens@)),
    decreases symbols@.len(), 1int,
{
    proof {
        lemma_lex_well_formed(symbols@, from as int);
    }
    let n = symbols.len();
    let ghost text = symbols@;
    let mut tokens: Vec<Token> = Vec::new();
    let mut index: usize = from;
    assert(tokens_model(tokens@) + lex_from(text, from as int) =~= lex_from(text, from as int));
    while index < n
        invariant
            text == symbols@,
            n == text.len(),
            from <= index,
            index <= n || index == from,
            tokens_model(tokens@) + lex_from(text, index as int) == lex_from(text, from as int),
        decreases n - index,
    {
        let ghost i = index as int;
        let ghost before = tokens_model(tokens@);
        let symbol = symbols[index];
        if symbol.whitespace {
            index += 1;
            continue ;
        }
        let (token, next) = if symbol.alphabetic {
            Tokenizer::makeIdentifier(symbols, index)
        } else if CharClass::Digit.contains(symbol) {
            Tokenizer::makeNumber(symbols, index)
        } else if symbol.character == '[' {
            let (expression, close) = Tokenizer::makeExpression(symbols, index);
            (
                expression,
                if close < n {
                    close + 1
                } else {
                    close
                },
            )
        } else if CharClass::Operator.contains(symbol) {
            Tokenizer::makeOperator(symbols, index)
        } else {
            let kind = if symbol.character == '(' {
                TokenType::LPAREN
            } else if symbol.character == ')' {
                TokenType::RPAREN
            } else {
                TokenType::ERROR
            };
            proof {
                assert(text_at(text, i, i + 1) =~= seq![text[i].character]);
            }
            (Token::new(kind, text_of(symbols, index, index + 1), index, index), index + 1)
        };
        proof {
            lemma_tokens_model_push(tokens@, token);
            assert(lex_from(text, i) == seq![token@] + lex_from(text, next as int));
            assert(before.push(token@) + lex_from(text, next as int) =~= before + (seq![token@]
                + lex_from(text, next as int)));
        }
        tokens.push(token);
        index = next;
    }
    let end = Token::new(TokenType::EOL, String::new(), index, index);
    proof {
        lemma_tokens_model_push(tokens@, end);
        assert(tokens_model(tokens@).push(end@) =~= tokens_model(tokens@) + lex_from(
            text,
            index as int,
        ));
    }
    tokens.push(end);
    tokens
}

} // verus!
