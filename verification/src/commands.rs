//! The commands: what a line of tokens asks for, and the reply to it.
//!
//! A line is a bracket literal that holds a formula, followed by pairs of a
//! variable and its bit; or it starts with a command keyword.
use crate::binding::{bit_text, spec_bit_text, Binding};
use crate::error::FormulaError;
use crate::formula::{contains_error, evaluate_tokens, formula_value, has_error};
use crate::token::{lemma_token_model_expression, tokens_model, Token, TokenModel, TokenType};
use vstd::prelude::*;
use vstd::string::*;

verus! {

/// The text that explains the commands.
pub const HELP: &'static str =
    "Diese Terminal-Applikation soll zum evaluieren von booleschen Formeln dienen. Zudem gibt es nützliche Befehle, welche z.B. die konjunktive oder disjunktive Normalform einer Formel wiedergeben. \r\nWird in einem Befehl nach <AUSDRUCK> gefragt, handelt es sich hierbei, um eine boolesche Formel innerhalb von Rechtecksklammern (also die hier: [])\r\n\nBEFEHLE:\r\t\n<AUSDRUCK> <VARIABLE1> <0/1> <VARIABLE2> <0/1> ... <VARIABLEn> <0/1>                 Evaluiert den gegebenen Ausdruck mit den gegebenen Variablenbelegungen\r\t\ntable <AUSDRUCK>                                                                     Gibt die Wahrheitswertetabelle der Formel wieder";

/// What stands before the result of a formula.
pub const RESULT: &'static str = "Ergebnis: ";

/// The message for a lexical error.
pub const LEX_ERROR: &'static str =
    "Die Eingabe enthält ein unbekanntes Zeichen, eine mehrstellige Zahl oder eine eckige Klammer, die nicht geschlossen wird!";

/// The message for a parenthesis without a partner.
pub const STRUCTURAL_ERROR: &'static str =
    "Im Ausdruck steht eine runde Klammer, zu der es kein Gegenstück gibt!";

/// The message for a formula that is not grammatical.
pub const SYNTAX_ERROR: &'static str = "Es ist etwas mit der Syntax des Ausdruckes falsch!";

/// The message for a variable without a bit.
pub const BINDING_ERROR: &'static str =
    "Im Ausdruck steht eine Variable, für die kein Wert übergeben wurde!";

/// The message for a malformed tree.
pub const EVALUATION_ERROR: &'static str = "Der Ausdruck lässt sich nicht auswerten!";

/// The message for a command that is not available.
pub const UNSUPPORTED_COMMAND: &'static str = "Dieser Befehl steht noch nicht zur Verfügung!";

/// The message for a line that is neither a formula nor a command.
pub const UNKNOWN_COMMAND: &'static str =
    "Das ist ein unbekannter Befehl. Nutze einen der gegebenen";

/// The message for a line without tokens.
pub const EMPTY_LINE: &'static str = "Es wurde nichts übergeben!";

/// What stands before the position in the messages on the binding.
pub const POSITION_HEAD: &'static str = "Es ist ein Fehler an der Stelle ";

/// What stands behind the position, where a bit is missing.
pub const MISSING_BIT_TAIL: &'static str =
    " aufgetreten. Vielleicht fehlt hier ein boolean für die korrespondierende Variable";

/// What stands between the position and the text of an unexpected token.
pub const UNEXPECTED_TOKEN_MID: &'static str = " aufgetreten (Inhalt: ";

/// What stands behind the text of an unexpected token.
pub const UNEXPECTED_TOKEN_TAIL: &'static str =
    "). Vielleicht wurde die Reihenfolge von <VARIABLE> <0/1> nicht eingehalten oder es wurde irgendwas unerwartetes gefunden";

/// The text of a decimal digit.
pub open spec fn spec_digit_text(d: int) -> Seq<char> {
    if d == 0 {
        seq!['0']
    } else if d == 1 {
        seq!['1']
    } else if d == 2 {
        seq!['2']
    } else if d == 3 {
        seq!['3']
    } else if d == 4 {
        seq!['4']
    } else if d == 5 {
        seq!['5']
    } else if d == 6 {
        seq!['6']
    } else if d == 7 {
        seq!['7']
    } else if d == 8 {
        seq!['8']
    } else {
        seq!['9']
    }
}

/// The decimal text of a number, without leading zeros.
pub open spec fn spec_decimal_text(n: nat) -> Seq<char>
    decreases n,
{
    if n < 10 {
        spec_digit_text(n as int)
    } else {
        spec_decimal_text(n / 10) + spec_digit_text((n % 10) as int)
    }
}

fn digit_text(d: usize) -> (text: &'static str)
    requires
        d < 10,
    ensures
        text@ == spec_digit_text(d as int),
{
    proof {
        reveal_strlit("0");
        reveal_strlit("1");
        reveal_strlit("2");
        reveal_strlit("3");
        reveal_strlit("4");
        reveal_strlit("5");
        reveal_strlit("6");
        reveal_strlit("7");
        reveal_strlit("8");
        reveal_strlit("9");
        assert("0"@ =~= seq!['0']);
        assert("1"@ =~= seq!['1']);
        assert("2"@ =~= seq!['2']);
        assert("3"@ =~= seq!['3']);
        assert("4"@ =~= seq!['4']);
        assert("5"@ =~= seq!['5']);
        assert("6"@ =~= seq!['6']);
        assert("7"@ =~= seq!['7']);
        assert("8"@ =~= seq!['8']);
        assert("9"@ =~= seq!['9']);
    }
    if d == 0 {
        "0"
    } else if d == 1 {
        "1"
    } else if d == 2 {
        "2"
    } else if d == 3 {
        "3"
    } else if d == 4 {
        "4"
    } else if d == 5 {
        "5"
    } else if d == 6 {
        "6"
    } else if d == 7 {
        "7"
    } else if d == 8 {
        "8"
    } else {
        "9"
    }
}

/// The decimal text of a number, without leading zeros.
pub fn decimal_text(n: usize) -> (text: String)
    ensures
        text@ == spec_decimal_text(n as nat),
    decreases n,
{
    if n < 10 {
        String::from_str(digit_text(n))
    } else {
        decimal_text(n / 10).concat(digit_text(n % 10))
    }
}

/// The binding that the pairs of a variable and its bit spell, read from
/// position `i` of the line up to its `EOL` token, on top of `binding`. A
/// later pair of a variable replaces an earlier one.
pub open spec fn bindings_from(
    line: Seq<TokenModel>,
    i: int,
    binding: Map<Seq<char>, bool>,
) -> Result<Map<Seq<char>, bool>, FormulaError>
    decreases line.len() - i,
{
    if !(0 <= i < line.len()) || line[i].kind == TokenType::EOL {
        Ok(binding)
    } else if i + 1 == line.len() {
        Err(FormulaError::MissingBit { position: i as usize })
    } else {
        match (line[i].kind, line[i + 1].kind) {
            (TokenType::IDENTIFIER, TokenType::BOOL(bit)) => bindings_from(
                line,
                i + 2,
                binding.insert(line[i].content, bit),
            ),
            _ => Err(FormulaError::UnexpectedToken { position: (i + 1) as usize }),
        }
    }
}

/// The tokens that the first token of the line owns: the formula of the
/// line.
pub open spec fn formula_tokens(line: Seq<TokenModel>) -> Seq<TokenModel> {
    if line.len() > 0 {
        line[0].expression
    } else {
        Seq::empty()
    }
}

/// The result of evaluating the formula that the first token of the line
/// owns, under the binding that the rest of the line spells.
pub open spec fn evaluation_value(line: Seq<TokenModel>) -> Result<bool, FormulaError> {
    match bindings_from(line, 1, Map::empty()) {
        Ok(binding) => formula_value(formula_tokens(line), binding),
        Err(e) => Err(e),
    }
}

/// The result of a line. A line with a lexical error has none; a line that
/// starts with a bracket literal has the result of its formula; commands
/// are not available.
pub open spec fn line_value(line: Seq<TokenModel>) -> Result<bool, FormulaError> {
    if line.len() == 0 {
        Err(FormulaError::EmptyLine)
    } else if has_error(line) {
        Err(FormulaError::LexError)
    } else if line[0].kind == TokenType::EXPRESSION {
        evaluation_value(line)
    } else if line[0].kind == TokenType::COMMAND {
        Err(FormulaError::UnsupportedCommand)
    } else {
        Err(FormulaError::UnknownCommand)
    }
}

/// The text of the token at `position` of the line.
pub open spec fn content_at(line: Seq<TokenModel>, position: int) -> Seq<char> {
    if 0 <= position < line.len() {
        line[position].content
    } else {
        Seq::empty()
    }
}

/// The message for an error, found on `line`.
pub open spec fn error_text(error: FormulaError, line: Seq<TokenModel>) -> Seq<char> {
    match error {
        FormulaError::LexError => LEX_ERROR@,
        FormulaError::StructuralError => STRUCTURAL_ERROR@,
        FormulaError::SyntaxError => SYNTAX_ERROR@,
        FormulaError::BindingError => BINDING_ERROR@,
        FormulaError::EvaluationError => EVALUATION_ERROR@,
        FormulaError::UnsupportedCommand => UNSUPPORTED_COMMAND@,
        FormulaError::UnknownCommand => UNKNOWN_COMMAND@,
        FormulaError::EmptyLine => EMPTY_LINE@,
        FormulaError::MissingBit { position } => POSITION_HEAD@ + spec_decimal_text(
            position as nat,
        ) + MISSING_BIT_TAIL@,
        FormulaError::UnexpectedToken { position } => POSITION_HEAD@ + spec_decimal_text(
            position as nat,
        ) + UNEXPECTED_TOKEN_MID@ + content_at(line, position as int) + UNEXPECTED_TOKEN_TAIL@,
    }
}

/// The reply to a line with the result `outcome`.
pub open spec fn reply_text(outcome: Result<bool, FormulaError>, line: Seq<TokenModel>) -> Seq<
    char,
> {
    match outcome {
        Ok(bit) => RESULT@ + spec_bit_text(bit),
        Err(error) => error_text(error, line),
    }
}

/// Reads the pairs of a variable and its bit that follow the first token of
/// the line.
pub fn read_bindings(line: &Vec<Token>) -> (result: Result<Binding, FormulaError>)
    ensures
        match result {
            Ok(binding) => bindings_from(tokens_model(line@), 1, Map::empty()) == Ok::<
                Map<Seq<char>, bool>,
                FormulaError,
            >(binding@),
            Err(error) => bindings_from(tokens_model(line@), 1, Map::empty()) == Err::<
                Map<Seq<char>, bool>,
                FormulaError,
            >(error),
        },
{
    let ghost s = tokens_model(line@);
    let n = line.len();
    let mut idToBool = Binding::new();
    let mut i: usize = 1;
    while i < n && line[i].tType != TokenType::EOL
        invariant
            1 <= i,
            n == line@.len(),
            s == tokens_model(line@),
            bindings_from(s, i as int, idToBool@) == bindings_from(s, 1, Map::empty()),
        decreases n - i,
    {
        assert(s[i as int].kind == line@[i as int].tType);
        assert(s[i as int].content == line@[i as int].content@);
        if i + 1 == n {
            return Err(FormulaError::MissingBit { position: i });
        }
        assert(s[i + 1].kind == line@[i + 1].tType);
        match (line[i].tType, line[i + 1].tType) {
            (TokenType::IDENTIFIER, TokenType::BOOL(bit)) => {
                idToBool.insert(line[i].content.clone(), bit);
                i += 2;
            },
            _ => {
                return Err(FormulaError::UnexpectedToken { position: i + 1 });
            },
        }
    }
    assert(i < n ==> s[i as int].kind == line@[i as int].tType);
    Ok(idToBool)
}

/// The result of evaluating the formula that the first token of the line
/// owns, under the binding that the rest of the line spells.
pub fn evaluate_line_formula(line: &Vec<Token>) -> (result: Result<bool, FormulaError>)
    ensures
        result == evaluation_value(tokens_model(line@)),
{
    let binding = match read_bindings(line) {
        Ok(binding) => binding,
        Err(error) => {
            return Err(error);
        },
    };
    if line.len() > 0 {
        proof {
            lemma_token_model_expression(line@[0]);
        }
        evaluate_tokens(&line[0].expression, binding)
    } else {
        let none: Vec<Token> = Vec::new();
        assert(tokens_model(none@) =~= Seq::<TokenModel>::empty());
        evaluate_tokens(&none, binding)
    }
}

/// The result of a line.
pub fn evaluate_line(line: &Vec<Token>) -> (result: Result<bool, FormulaError>)
    ensures
        result == line_value(tokens_model(line@)),
{
    if line.len() == 0 {
        return Err(FormulaError::EmptyLine);
    }
    if contains_error(line) {
        return Err(FormulaError::LexError);
    }
    match line[0].tType {
        TokenType::EXPRESSION => evaluate_line_formula(line),
        TokenType::COMMAND => Err(FormulaError::UnsupportedCommand),
        _ => Err(FormulaError::UnknownCommand),
    }
}

/// The message for an error, found on `line`.
pub fn error_message(error: FormulaError, line: &Vec<Token>) -> (text: String)
    ensures
        text@ == error_text(error, tokens_model(line@)),
{
    match error {
        FormulaError::LexError => String::from_str(LEX_ERROR),
        FormulaError::StructuralError => String::from_str(STRUCTURAL_ERROR),
        FormulaError::SyntaxError => String::from_str(SYNTAX_ERROR),
        FormulaError::BindingError => String::from_str(BINDING_ERROR),
        FormulaError::EvaluationError => String::from_str(EVALUATION_ERROR),
        FormulaError::UnsupportedCommand => String::from_str(UNSUPPORTED_COMMAND),
        FormulaError::UnknownCommand => String::from_str(UNKNOWN_COMMAND),
        FormulaError::EmptyLine => String::from_str(EMPTY_LINE),
        FormulaError::MissingBit { position } => {
            let mut text = String::from_str(POSITION_HEAD);
            text.append(decimal_text(position).as_str());
            text.append(MISSING_BIT_TAIL);
            text
        },
        FormulaError::UnexpectedToken { position } => {
            let mut text = String::from_str(POSITION_HEAD);
            text.append(decimal_text(position).as_str());
            text.append(UNEXPECTED_TOKEN_MID);
            if position < line.len() {
                assert(tokens_model(line@)[position as int].content == line@[position as int].content@);
                text.append(line[position].content.as_str());
            } else {
                assert(text@ + Seq::<char>::empty() =~= text@);
            }
            text.append(UNEXPECTED_TOKEN_TAIL);
            text
        },
    }
}

/// The reply to a line with the result `outcome`.
pub fn reply(outcome: Result<bool, FormulaError>, line: &Vec<Token>) -> (text: String)
    ensures
        text@ == reply_text(outcome, tokens_model(line@)),
{
    match outcome {
        Ok(bit) => String::from_str(RESULT).concat(bit_text(bit).as_str()),
        Err(error) => error_message(error, line),
    }
}

/// The reply to a line: the result of its formula, or what is wrong with
/// the line.
pub fn commandFinder(line: &Vec<Token>) -> (text: String)
    ensures
        text@ == reply_text(line_value(tokens_model(line@)), tokens_model(line@)),
{
    if line.len() == 0 {
        return reply(Err(FormulaError::EmptyLine), line);
    }
    if contains_error(line) {
        return reply(Err(FormulaError::LexError), line);
    }
    match line[0].tType {
        TokenType::EXPRESSION => commandEvaluate(line),
        TokenType::COMMAND => commandTable(line),
        _ => reply(Err(FormulaError::UnknownCommand), line),
    }
}

/// The text that explains the commands.
pub fn commandHelp() -> (text: String)
    ensures
        text@ == HELP@,
{
    String::from_str(HELP)
}

/// The reply to a line that starts with a bracket literal: the result of
/// the formula under the binding that the line spells, or what is wrong
/// with either.
pub fn commandEvaluate(line: &Vec<Token>) -> (text: String)
    ensures
        text@ == reply_text(evaluation_value(tokens_model(line@)), tokens_model(line@)),
{
    reply(evaluate_line_formula(line), line)
}

/// The reply to a line that starts with a command keyword: no command is
/// available.
pub fn commandTable(line: &Vec<Token>) -> (text: String)
    ensures
        text@ == reply_text(Err(FormulaError::UnsupportedCommand), tokens_model(line@)),
{
    reply(Err(FormulaError::UnsupportedCommand), line)
}

} // verus!
