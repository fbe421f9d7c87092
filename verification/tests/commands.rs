use bool_formula::binding::Binding;
use bool_formula::commands::{
    commandEvaluate, commandFinder, commandHelp, commandTable, decimal_text, error_message,
    evaluate_line, evaluate_line_formula, read_bindings, reply,
};
use bool_formula::error::FormulaError;
use bool_formula::formula::{contains_error, contains_kind, evaluate_tokens, formula_of};
use bool_formula::token::{Token, TokenType};
use bool_formula::tokenizer::Tokenizer;

fn lex(line: &str) -> Vec<Token> {
    let mut tokenizer = Tokenizer::new(line.to_string());
    tokenizer.tokenize();
    tokenizer.tokens
}

fn answer(line: &str) -> String {
    commandFinder(&lex(line))
}

const SYNTAX: &str = "Es ist etwas mit der Syntax des Ausdruckes falsch!";
const UNKNOWN: &str = "Das ist ein unbekannter Befehl. Nutze einen der gegebenen";
const LEX: &str = "Die Eingabe enthält ein unbekanntes Zeichen, eine mehrstellige Zahl oder eine eckige Klammer, die nicht geschlossen wird!";
const STRUCTURAL: &str = "Im Ausdruck steht eine runde Klammer, zu der es kein Gegenstück gibt!";
const BINDING: &str = "Im Ausdruck steht eine Variable, für die kein Wert übergeben wurde!";
const EVALUATION: &str = "Der Ausdruck lässt sich nicht auswerten!";
const UNSUPPORTED: &str = "Dieser Befehl steht noch nicht zur Verfügung!";
const EMPTY: &str = "Es wurde nichts übergeben!";

#[test]
fn a_formula_gets_its_result() {
    assert_eq!(answer("[1 && 0]"), "Ergebnis: 0");
    assert_eq!(answer("[1 || 0]"), "Ergebnis: 1");
    assert_eq!(answer("[(1 || 0) && 1]"), "Ergebnis: 1");
    assert_eq!(answer("  [ !1 ]  "), "Ergebnis: 0");
}

#[test]
fn a_formula_is_evaluated_under_the_binding_of_the_line() {
    assert_eq!(answer("[a && b] a 1 b 0"), "Ergebnis: 0");
    assert_eq!(answer("[a && b] a 1 b 1"), "Ergebnis: 1");
    assert_eq!(answer("[a -> b] b 0 a 0"), "Ergebnis: 1");
    assert_eq!(answer("[a] a 0 a 1"), "Ergebnis: 1");
    assert_eq!(answer("[1] a 0"), "Ergebnis: 1");
}

#[test]
fn an_unbound_variable_is_reported() {
    assert_eq!(answer("[a && b] a 1"), BINDING);
    assert_eq!(answer("[a]"), BINDING);
    assert_eq!(evaluate_line(&lex("[a && b] a 1")), Err(FormulaError::BindingError));
}

#[test]
fn a_malformed_binding_is_reported() {
    assert_eq!(
        answer("[a] a"),
        "Es ist ein Fehler an der Stelle 2 aufgetreten (Inhalt: ). Vielleicht wurde die Reihenfolge von <VARIABLE> <0/1> nicht eingehalten oder es wurde irgendwas unerwartetes gefunden"
    );
    assert_eq!(
        answer("[a] a b"),
        "Es ist ein Fehler an der Stelle 2 aufgetreten (Inhalt: b). Vielleicht wurde die Reihenfolge von <VARIABLE> <0/1> nicht eingehalten oder es wurde irgendwas unerwartetes gefunden"
    );
    assert_eq!(
        answer("[a] a 1 0 1"),
        "Es ist ein Fehler an der Stelle 4 aufgetreten (Inhalt: 1). Vielleicht wurde die Reihenfolge von <VARIABLE> <0/1> nicht eingehalten oder es wurde irgendwas unerwartetes gefunden"
    );
    assert_eq!(evaluate_line(&lex("[a] a b")), Err(FormulaError::UnexpectedToken { position: 2 }));
    let mut line = lex("[a] a 1 b");
    line.pop();
    assert_eq!(
        commandFinder(&line),
        "Es ist ein Fehler an der Stelle 3 aufgetreten. Vielleicht fehlt hier ein boolean für die korrespondierende Variable"
    );
    assert_eq!(evaluate_line(&line), Err(FormulaError::MissingBit { position: 3 }));
}

#[test]
fn a_malformed_binding_comes_before_the_formula() {
    assert_eq!(evaluate_line(&lex("[1 &&] a b")), Err(FormulaError::UnexpectedToken { position: 2 }));
}

#[test]
fn errors_of_the_formula_are_reported() {
    assert_eq!(answer("[1 &&]"), SYNTAX);
    assert_eq!(answer("[1 1]"), SYNTAX);
    assert_eq!(answer("[(1]"), STRUCTURAL);
    assert_eq!(answer("[1)]"), STRUCTURAL);
    assert_eq!(answer("[]"), EVALUATION);
    assert_eq!(answer("[&& 1]"), EVALUATION);
}

#[test]
fn lexical_errors_are_reported_first() {
    assert_eq!(answer("[1 # 0]"), LEX);
    assert_eq!(answer("[1 && 0"), LEX);
    assert_eq!(answer("[1 & 0]"), LEX);
    assert_eq!(answer("[1 && 10]"), LEX);
    assert_eq!(answer("[a] a 2"), LEX);
    assert_eq!(answer("table #"), LEX);
    assert_eq!(answer("#"), LEX);
    assert_eq!(answer("[1 &&] #"), LEX);
}

#[test]
fn commands_are_not_available() {
    for line in ["table [a && b]", "exit now", "valid", "satis", "semcons", "cnf", "dnf", "latex", "tree"]
    {
        assert_eq!(answer(line), UNSUPPORTED, "{}", line);
        assert_eq!(evaluate_line(&lex(line)), Err(FormulaError::UnsupportedCommand));
    }
    assert_eq!(commandTable(&lex("table [a]")), UNSUPPORTED);
}

#[test]
fn other_lines_are_unknown_commands() {
    for line in ["", "  ", "help", "1 && 0", "a [1]", "(1)", "&&"] {
        assert_eq!(answer(line), UNKNOWN, "{}", line);
        assert_eq!(evaluate_line(&lex(line)), Err(FormulaError::UnknownCommand));
    }
}

#[test]
fn a_line_without_tokens_is_empty() {
    assert_eq!(commandFinder(&Vec::new()), EMPTY);
    assert_eq!(evaluate_line(&Vec::new()), Err(FormulaError::EmptyLine));
}

#[test]
fn help_text() {
    let help = commandHelp();
    assert!(help.starts_with("Diese Terminal-Applikation soll zum evaluieren von booleschen Formeln dienen."));
    assert!(help.contains("nützliche Befehle"));
    assert!(help.contains("(also die hier: [])\r\n\nBEFEHLE:\r\t\n<AUSDRUCK> <VARIABLE1> <0/1>"));
    assert!(help.ends_with("\r\t\ntable <AUSDRUCK>                                                                     Gibt die Wahrheitswertetabelle der Formel wieder"));
    assert_eq!(
        help,
        "Diese Terminal-Applikation soll zum evaluieren von booleschen Formeln dienen. Zudem gibt es nützliche Befehle, welche z.B. die konjunktive oder disjunktive Normalform einer Formel wiedergeben. \r\nWird in einem Befehl nach <AUSDRUCK> gefragt, handelt es sich hierbei, um eine boolesche Formel innerhalb von Rechtecksklammern (also die hier: [])\r\n\nBEFEHLE:\r\t\n<AUSDRUCK> <VARIABLE1> <0/1> <VARIABLE2> <0/1> ... <VARIABLEn> <0/1>                 Evaluiert den gegebenen Ausdruck mit den gegebenen Variablenbelegungen\r\t\ntable <AUSDRUCK>                                                                     Gibt die Wahrheitswertetabelle der Formel wieder"
    );
}

#[test]
fn command_evaluate_takes_the_first_token_as_the_formula() {
    assert_eq!(commandEvaluate(&lex("[a || b] a 0 b 1")), "Ergebnis: 1");
    assert_eq!(commandEvaluate(&lex("[a || b] a 0 b 0")), "Ergebnis: 0");
    assert_eq!(commandEvaluate(&lex("[a || b] a 0 b")), answer("[a || b] a 0 b"));
    // a token that owns nothing holds the empty formula
    assert_eq!(commandEvaluate(&lex("1")), EVALUATION);
    assert_eq!(commandEvaluate(&Vec::new()), EVALUATION);
    assert_eq!(evaluate_line_formula(&lex("[1 <-> 1]")), Ok(true));
    assert_eq!(evaluate_line_formula(&Vec::new()), Err(FormulaError::EvaluationError));
}

#[test]
fn bindings_are_read_pair_by_pair() {
    let binding = read_bindings(&lex("[x] a 1 b 0 a 0")).ok().unwrap();
    assert_eq!(binding.get("a"), Some(false));
    assert_eq!(binding.get("b"), Some(false));
    assert_eq!(binding.get("x"), None);
    let binding = read_bindings(&lex("[x]")).ok().unwrap();
    assert_eq!(binding.get("x"), None);
    let binding = read_bindings(&Vec::new()).ok().unwrap();
    assert_eq!(binding.get(""), None);
    assert_eq!(read_bindings(&lex("[x] 1 a")).err(), Some(FormulaError::UnexpectedToken { position: 2 }));
    assert_eq!(read_bindings(&lex("[x] a 1 (")).err(), Some(FormulaError::UnexpectedToken { position: 4 }));
}

#[test]
fn decimal_texts() {
    assert_eq!(decimal_text(0), "0");
    assert_eq!(decimal_text(7), "7");
    assert_eq!(decimal_text(9), "9");
    assert_eq!(decimal_text(10), "10");
    assert_eq!(decimal_text(99), "99");
    assert_eq!(decimal_text(100), "100");
    assert_eq!(decimal_text(1234567890), "1234567890");
    assert_eq!(decimal_text(usize::MAX), usize::MAX.to_string());
}

#[test]
fn every_error_has_its_message() {
    let line = lex("[a] a b");
    assert_eq!(error_message(FormulaError::LexError, &line), LEX);
    assert_eq!(error_message(FormulaError::StructuralError, &line), STRUCTURAL);
    assert_eq!(error_message(FormulaError::SyntaxError, &line), SYNTAX);
    assert_eq!(error_message(FormulaError::BindingError, &line), BINDING);
    assert_eq!(error_message(FormulaError::EvaluationError, &line), EVALUATION);
    assert_eq!(error_message(FormulaError::UnsupportedCommand, &line), UNSUPPORTED);
    assert_eq!(error_message(FormulaError::UnknownCommand, &line), UNKNOWN);
    assert_eq!(error_message(FormulaError::EmptyLine, &line), EMPTY);
    assert_eq!(
        error_message(FormulaError::MissingBit { position: 12 }, &line),
        "Es ist ein Fehler an der Stelle 12 aufgetreten. Vielleicht fehlt hier ein boolean für die korrespondierende Variable"
    );
    assert_eq!(
        error_message(FormulaError::UnexpectedToken { position: 1 }, &line),
        "Es ist ein Fehler an der Stelle 1 aufgetreten (Inhalt: a). Vielleicht wurde die Reihenfolge von <VARIABLE> <0/1> nicht eingehalten oder es wurde irgendwas unerwartetes gefunden"
    );
    assert_eq!(
        error_message(FormulaError::UnexpectedToken { position: 40 }, &line),
        "Es ist ein Fehler an der Stelle 40 aufgetreten (Inhalt: ). Vielleicht wurde die Reihenfolge von <VARIABLE> <0/1> nicht eingehalten oder es wurde irgendwas unerwartetes gefunden"
    );
    assert_eq!(reply(Ok(true), &line), "Ergebnis: 1");
    assert_eq!(reply(Ok(false), &line), "Ergebnis: 0");
    assert_eq!(reply(Err(FormulaError::SyntaxError), &line), SYNTAX);
}

#[test]
fn tokens_are_searched_for_kinds_and_errors() {
    let tokens = lex("(a) [b #]");
    assert!(contains_kind(&tokens, TokenType::LPAREN));
    assert!(contains_kind(&tokens, TokenType::EXPRESSION));
    assert!(contains_kind(&tokens, TokenType::EOL));
    assert!(!contains_kind(&tokens, TokenType::ERROR));
    assert!(!contains_kind(&tokens, TokenType::BOOL(true)));
    assert!(contains_error(&tokens));
    assert!(contains_error(&lex("1 #")));
    assert!(contains_error(&lex("# 1")));
    assert!(!contains_error(&lex("(a) [b]")));
    assert!(!contains_error(&Vec::new()));
    assert!(contains_kind(&lex("1"), TokenType::BOOL(true)));
    assert!(!contains_kind(&lex("1"), TokenType::BOOL(false)));
}

#[test]
fn the_formula_stands_before_the_end_token() {
    let mut tokens = lex("1 && 0");
    assert_eq!(formula_of(&tokens), tokens[..3].to_vec_copy());
    tokens.extend(lex("|| #"));
    assert_eq!(formula_of(&tokens).len(), 3);
    assert_eq!(evaluate_tokens(&tokens, Binding::new()), Ok(false));
    assert_eq!(formula_of(&Vec::new()), Vec::<Token>::new());
}

trait CopyTokens {
    fn to_vec_copy(&self) -> Vec<Token>;
}

impl CopyTokens for [Token] {
    fn to_vec_copy(&self) -> Vec<Token> {
        self.iter().map(|t| t.clone()).collect()
    }
}
