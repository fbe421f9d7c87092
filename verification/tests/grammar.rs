use bool_formula::syntax::{checkSyntax, end_index, may_follow};
use bool_formula::token::{Token, TokenType};
use bool_formula::tokenizer::Tokenizer;

fn lex(line: &str) -> Vec<Token> {
    let mut tokenizer = Tokenizer::new(line.to_string());
    tokenizer.tokenize();
    tokenizer.tokens
}

fn of_kinds(kinds: &[TokenType]) -> Vec<Token> {
    kinds.iter().map(|kind| Token::new(*kind, String::new(), 0, 0)).collect()
}

const BINARY: [TokenType; 8] = [
    TokenType::AND,
    TokenType::OR,
    TokenType::IMPLIES,
    TokenType::CONVERSE,
    TokenType::EQUIVALENCE,
    TokenType::XOR,
    TokenType::NAND,
    TokenType::NOR,
];

const ALL: [TokenType; 19] = [
    TokenType::EOL,
    TokenType::ERROR,
    TokenType::IDENTIFIER,
    TokenType::COMMAND,
    TokenType::BOOL(false),
    TokenType::BOOL(true),
    TokenType::EXPRESSION,
    TokenType::LPAREN,
    TokenType::RPAREN,
    TokenType::BLOCK,
    TokenType::NOT,
    TokenType::AND,
    TokenType::OR,
    TokenType::IMPLIES,
    TokenType::CONVERSE,
    TokenType::EQUIVALENCE,
    TokenType::XOR,
    TokenType::NAND,
    TokenType::NOR,
];

fn allowed(current: TokenType, next: &[TokenType]) {
    for kind in ALL {
        assert_eq!(may_follow(current, kind), next.contains(&kind), "{:?} {:?}", current, kind);
    }
}

#[test]
fn rejects_dangling_operator() {
    assert!(!checkSyntax(&lex("1 &&")));
    assert!(!checkSyntax(&lex("1 && 0 ||")));
    assert!(!checkSyntax(&lex("!")));
    assert!(!checkSyntax(&lex("a ->")));
    assert!(!checkSyntax(&of_kinds(&[TokenType::BOOL(true), TokenType::AND])));
}

#[test]
fn rejects_adjacent_literals() {
    assert!(!checkSyntax(&lex("1 1")));
    assert!(!checkSyntax(&lex("1 && 0 1")));
    assert!(!checkSyntax(&lex("0 1 && 1")));
}

#[test]
fn accepts_well_formed_formulas() {
    for line in [
        "1",
        "a",
        "1 && 0",
        "!1",
        "a -> b",
        "(1 || 0) && 1",
        "((a))",
        "!(a && b) <-> !a || !b",
        "a && !b",
        "a !&& b !|| c ^ d <- e",
    ] {
        assert!(checkSyntax(&lex(line)), "{}", line);
    }
}

#[test]
fn rejects_malformed_formulas() {
    for line in ["a b", "1 (0)", "(1) 0", "()", "( && 1)", "!!1", "! && 1", "(1) ! 0", "(a)(b)", "1 && )"]
    {
        assert!(!checkSyntax(&lex(line)), "{}", line);
    }
}

#[test]
fn rejects_kinds_that_the_rules_do_not_know() {
    assert!(!checkSyntax(&lex("exit")));
    assert!(!checkSyntax(&lex("1 # 0")));
    assert!(!checkSyntax(&lex("[1]")));
    assert!(!checkSyntax(&of_kinds(&[TokenType::BLOCK, TokenType::EOL])));
    assert!(!checkSyntax(&of_kinds(&[TokenType::BOOL(true), TokenType::AND, TokenType::BLOCK])));
}

#[test]
fn the_check_is_pairwise_only() {
    assert!(checkSyntax(&lex("")));
    assert!(checkSyntax(&lex("&& 1")));
    assert!(checkSyntax(&lex("(1")));
    assert!(checkSyntax(&lex("1)")));
    assert!(checkSyntax(&lex(") && 1")));
    assert!(checkSyntax(&lex("1 ! 0")));
    assert!(checkSyntax(&lex("1 && || 0")));
}

#[test]
fn the_check_stops_at_the_end_token() {
    assert!(checkSyntax(&Vec::new()));
    assert!(checkSyntax(&of_kinds(&[TokenType::EOL, TokenType::ERROR, TokenType::AND])));
    assert!(checkSyntax(&of_kinds(&[
        TokenType::BOOL(true),
        TokenType::EOL,
        TokenType::BOOL(true),
        TokenType::BOOL(true)
    ])));
    // without an end token, the end of the sequence counts as one
    assert!(checkSyntax(&of_kinds(&[TokenType::BOOL(true)])));
    assert!(checkSyntax(&of_kinds(&[TokenType::LPAREN, TokenType::IDENTIFIER, TokenType::RPAREN])));
    assert!(!checkSyntax(&of_kinds(&[TokenType::LPAREN])));
}

#[test]
fn end_index_is_the_first_end_token() {
    assert_eq!(end_index(&Vec::new()), 0);
    assert_eq!(end_index(&of_kinds(&[TokenType::EOL])), 0);
    assert_eq!(end_index(&of_kinds(&[TokenType::AND, TokenType::OR])), 2);
    assert_eq!(
        end_index(&of_kinds(&[TokenType::AND, TokenType::EOL, TokenType::OR, TokenType::EOL])),
        1
    );
    assert_eq!(end_index(&lex("a && b")), 3);
}

#[test]
fn what_may_follow_an_operand() {
    let mut next = vec![TokenType::EOL, TokenType::RPAREN, TokenType::NOT];
    next.extend(BINARY);
    allowed(TokenType::BOOL(false), &next);
    allowed(TokenType::BOOL(true), &next);
    allowed(TokenType::IDENTIFIER, &next);
}

#[test]
fn what_may_follow_a_binary_operator() {
    let mut next = vec![
        TokenType::BOOL(false),
        TokenType::BOOL(true),
        TokenType::IDENTIFIER,
        TokenType::LPAREN,
        TokenType::NOT,
    ];
    next.extend(BINARY);
    for operator in BINARY {
        allowed(operator, &next);
    }
}

#[test]
fn what_may_follow_not() {
    allowed(
        TokenType::NOT,
        &[TokenType::BOOL(false), TokenType::BOOL(true), TokenType::IDENTIFIER, TokenType::LPAREN],
    );
}

#[test]
fn what_may_follow_a_parenthesis() {
    allowed(
        TokenType::LPAREN,
        &[
            TokenType::LPAREN,
            TokenType::BOOL(false),
            TokenType::BOOL(true),
            TokenType::IDENTIFIER,
            TokenType::NOT,
        ],
    );
    let mut next = vec![TokenType::RPAREN, TokenType::EOL];
    next.extend(BINARY);
    allowed(TokenType::RPAREN, &next);
}

#[test]
fn nothing_may_follow_the_other_kinds() {
    for kind in [
        TokenType::EOL,
        TokenType::ERROR,
        TokenType::COMMAND,
        TokenType::EXPRESSION,
        TokenType::BLOCK,
    ] {
        allowed(kind, &[]);
    }
}
