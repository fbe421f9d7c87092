use bool_formula::token::{Token, TokenType};
use bool_formula::chars::{classify, Symbol};
use bool_formula::tokenizer::{is_command, operator_kind, str_eq, tokenize_symbols, Tokenizer};

fn lex(line: &str) -> Vec<Token> {
    let mut tokenizer = Tokenizer::new(line.to_string());
    tokenizer.tokenize();
    tokenizer.tokens
}

fn plain(kind: TokenType, content: &str, start: usize, end: usize) -> Token {
    Token::new(kind, content.to_string(), start, end)
}

#[test]
fn lexes_literals_and_an_operator() {
    assert_eq!(
        lex("1 && 0"),
        vec![
            plain(TokenType::BOOL(true), "1", 0, 0),
            plain(TokenType::AND, "&&", 2, 3),
            plain(TokenType::BOOL(false), "0", 5, 5),
            plain(TokenType::EOL, "", 6, 6),
        ]
    );
}

#[test]
fn lexes_every_operator() {
    assert_eq!(
        lex("&& || ! -> <- <-> ^ !&& !||"),
        vec![
            plain(TokenType::AND, "&&", 0, 1),
            plain(TokenType::OR, "||", 3, 4),
            plain(TokenType::NOT, "!", 6, 6),
            plain(TokenType::IMPLIES, "->", 8, 9),
            plain(TokenType::CONVERSE, "<-", 11, 12),
            plain(TokenType::EQUIVALENCE, "<->", 14, 16),
            plain(TokenType::XOR, "^", 18, 18),
            plain(TokenType::NAND, "!&&", 20, 22),
            plain(TokenType::NOR, "!||", 24, 26),
            plain(TokenType::EOL, "", 27, 27),
        ]
    );
}

#[test]
fn operator_runs_are_taken_whole() {
    assert_eq!(
        lex("1&&!0"),
        vec![
            plain(TokenType::BOOL(true), "1", 0, 0),
            plain(TokenType::ERROR, "&&!", 1, 4),
            plain(TokenType::BOOL(false), "0", 4, 4),
            plain(TokenType::EOL, "", 5, 5),
        ]
    );
    assert_eq!(
        lex("&"),
        vec![plain(TokenType::ERROR, "&", 0, 1), plain(TokenType::EOL, "", 1, 1)]
    );
    assert_eq!(
        lex(">>"),
        vec![plain(TokenType::ERROR, ">>", 0, 2), plain(TokenType::EOL, "", 2, 2)]
    );
    assert_eq!(
        lex(">&&"),
        vec![plain(TokenType::ERROR, ">&&", 0, 3), plain(TokenType::EOL, "", 3, 3)]
    );
    assert_eq!(
        lex("!!1"),
        vec![
            plain(TokenType::ERROR, "!!", 0, 2),
            plain(TokenType::BOOL(true), "1", 2, 2),
            plain(TokenType::EOL, "", 3, 3),
        ]
    );
}

#[test]
fn lexes_identifiers_and_commands() {
    assert_eq!(
        lex("abc table x1 tables"),
        vec![
            plain(TokenType::IDENTIFIER, "abc", 0, 3),
            plain(TokenType::COMMAND, "table", 4, 9),
            plain(TokenType::IDENTIFIER, "x1", 10, 12),
            plain(TokenType::IDENTIFIER, "tables", 13, 19),
            plain(TokenType::EOL, "", 19, 19),
        ]
    );
}

#[test]
fn every_keyword_is_a_command() {
    for word in ["exit", "table", "valid", "satis", "semcons", "cnf", "dnf", "latex", "tree"] {
        assert!(is_command(word));
        let tokens = lex(word);
        assert_eq!(tokens.len(), 2);
        assert_eq!(tokens[0].tType, TokenType::COMMAND);
        assert_eq!(tokens[0].content, word);
    }
    for word in ["help", "clear", "Exit", "", "exi", "exits"] {
        assert!(!is_command(word));
    }
}

#[test]
fn operator_table_holds_nine_operators() {
    assert_eq!(operator_kind("&&"), Some(TokenType::AND));
    assert_eq!(operator_kind("||"), Some(TokenType::OR));
    assert_eq!(operator_kind("!"), Some(TokenType::NOT));
    assert_eq!(operator_kind("->"), Some(TokenType::IMPLIES));
    assert_eq!(operator_kind("<-"), Some(TokenType::CONVERSE));
    assert_eq!(operator_kind("<->"), Some(TokenType::EQUIVALENCE));
    assert_eq!(operator_kind("^"), Some(TokenType::XOR));
    assert_eq!(operator_kind("!&&"), Some(TokenType::NAND));
    assert_eq!(operator_kind("!||"), Some(TokenType::NOR));
    assert_eq!(operator_kind("&"), None);
    assert_eq!(operator_kind(""), None);
    assert_eq!(operator_kind("<>"), None);
    assert_eq!(operator_kind("&&&"), None);
}

#[test]
fn strings_compare_by_their_characters() {
    assert!(str_eq("", ""));
    assert!(str_eq("abc", "abc"));
    assert!(str_eq("ü1", "ü1"));
    assert!(!str_eq("abc", "abd"));
    assert!(!str_eq("abc", "ab"));
    assert!(!str_eq("", "a"));
}

#[test]
fn a_letter_after_a_digit_starts_an_identifier() {
    assert_eq!(
        lex("1a"),
        vec![
            plain(TokenType::BOOL(true), "1", 0, 0),
            plain(TokenType::IDENTIFIER, "a", 1, 2),
            plain(TokenType::EOL, "", 2, 2),
        ]
    );
}

#[test]
fn numbers_of_more_than_one_digit_are_errors() {
    assert_eq!(
        lex("10 01 2 123"),
        vec![
            plain(TokenType::ERROR, "10", 0, 2),
            plain(TokenType::ERROR, "01", 3, 5),
            plain(TokenType::ERROR, "2", 6, 6),
            plain(TokenType::ERROR, "123", 8, 11),
            plain(TokenType::EOL, "", 11, 11),
        ]
    );
}

#[test]
fn lexes_parentheses_and_unknown_characters() {
    assert_eq!(
        lex("(#)"),
        vec![
            plain(TokenType::LPAREN, "(", 0, 0),
            plain(TokenType::ERROR, "#", 1, 1),
            plain(TokenType::RPAREN, ")", 2, 2),
            plain(TokenType::EOL, "", 3, 3),
        ]
    );
    assert_eq!(
        lex("]"),
        vec![plain(TokenType::ERROR, "]", 0, 0), plain(TokenType::EOL, "", 1, 1)]
    );
    assert_eq!(
        lex("\0"),
        vec![plain(TokenType::ERROR, "\0", 0, 0), plain(TokenType::EOL, "", 1, 1)]
    );
}

#[test]
fn whitespace_is_skipped() {
    assert_eq!(lex(""), vec![plain(TokenType::EOL, "", 0, 0)]);
    assert_eq!(lex("   "), vec![plain(TokenType::EOL, "", 3, 3)]);
    assert_eq!(
        lex(" \t1\n"),
        vec![plain(TokenType::BOOL(true), "1", 2, 2), plain(TokenType::EOL, "", 4, 4)]
    );
}

#[test]
fn positions_count_characters() {
    assert_eq!(
        lex("ä && ö1"),
        vec![
            plain(TokenType::IDENTIFIER, "ä", 0, 1),
            plain(TokenType::AND, "&&", 2, 3),
            plain(TokenType::IDENTIFIER, "ö1", 5, 7),
            plain(TokenType::EOL, "", 7, 7),
        ]
    );
}

#[test]
fn bracket_literal_owns_its_tokens() {
    assert_eq!(
        lex("[1 || a] a 1"),
        vec![
            Token::group(
                TokenType::EXPRESSION,
                vec![
                    plain(TokenType::BOOL(true), "1", 0, 0),
                    plain(TokenType::OR, "||", 2, 3),
                    plain(TokenType::IDENTIFIER, "a", 5, 6),
                    plain(TokenType::EOL, "", 6, 6),
                ],
                0,
                7
            ),
            plain(TokenType::IDENTIFIER, "a", 9, 10),
            plain(TokenType::BOOL(true), "1", 11, 11),
            plain(TokenType::EOL, "", 12, 12),
        ]
    );
}

#[test]
fn empty_bracket_literal_owns_the_end_token() {
    assert_eq!(
        lex("[]"),
        vec![
            Token::group(TokenType::EXPRESSION, vec![plain(TokenType::EOL, "", 0, 0)], 0, 1),
            plain(TokenType::EOL, "", 2, 2),
        ]
    );
}

#[test]
fn unterminated_bracket_literal_is_an_error() {
    assert_eq!(
        lex("[1 &&"),
        vec![plain(TokenType::ERROR, "1 &&", 0, 5), plain(TokenType::EOL, "", 5, 5)]
    );
    assert_eq!(
        lex("1 ["),
        vec![
            plain(TokenType::BOOL(true), "1", 0, 0),
            plain(TokenType::ERROR, "", 2, 3),
            plain(TokenType::EOL, "", 3, 3),
        ]
    );
}

#[test]
fn bracket_literals_do_not_nest() {
    assert_eq!(
        lex("[a [b] c]"),
        vec![
            Token::group(
                TokenType::EXPRESSION,
                vec![
                    plain(TokenType::IDENTIFIER, "a", 0, 1),
                    plain(TokenType::ERROR, "b", 2, 4),
                    plain(TokenType::EOL, "", 4, 4),
                ],
                0,
                5
            ),
            plain(TokenType::IDENTIFIER, "c", 7, 8),
            plain(TokenType::ERROR, "]", 8, 8),
            plain(TokenType::EOL, "", 9, 9),
        ]
    );
}

#[test]
fn lexed_sequence_ends_with_its_one_end_token() {
    for line in ["", "1", "[1 && 0] a 1", "((", "exit 12 # [", "a && b || !c"] {
        let tokens = lex(line);
        let ends = tokens.iter().filter(|t| t.tType == TokenType::EOL).count();
        assert_eq!(ends, 1);
        assert_eq!(tokens[tokens.len() - 1].tType, TokenType::EOL);
    }
}

#[test]
fn new_tokenizer_stands_at_the_start() {
    let tokenizer = Tokenizer::new("ab".to_string());
    assert_eq!(tokenizer.line, "ab");
    assert_eq!(tokenizer.index, 0);
    assert_eq!(tokenizer.current, 'a');
    assert!(tokenizer.tokens.is_empty());
    let tokenizer = Tokenizer::new(String::new());
    assert_eq!(tokenizer.current, '\0');
}

#[test]
fn forward_moves_one_character_and_stops_at_the_end() {
    let mut tokenizer = Tokenizer::new("ab".to_string());
    tokenizer.forward();
    assert_eq!((tokenizer.index, tokenizer.current), (1, 'b'));
    tokenizer.forward();
    assert_eq!((tokenizer.index, tokenizer.current), (2, '\0'));
    tokenizer.forward();
    assert_eq!((tokenizer.index, tokenizer.current), (2, '\0'));
    assert_eq!(tokenizer.line, "ab");
    assert!(tokenizer.tokens.is_empty());
}

#[test]
fn tokenize_starts_at_the_position_and_appends() {
    let mut tokenizer = Tokenizer {
        line: "1 && 0".to_string(),
        index: 2,
        tokens: vec![plain(TokenType::NOT, "!", 0, 0)],
        current: '\0',
    };
    tokenizer.tokenize();
    assert_eq!(
        tokenizer.tokens,
        vec![
            plain(TokenType::NOT, "!", 0, 0),
            plain(TokenType::AND, "&&", 2, 3),
            plain(TokenType::BOOL(false), "0", 5, 5),
            plain(TokenType::EOL, "", 6, 6),
        ]
    );
    assert_eq!(tokenizer.index, 6);
    assert_eq!(tokenizer.current, '\0');
    assert_eq!(tokenizer.line, "1 && 0");
}

#[test]
fn tokenize_past_the_end_gives_the_end_token() {
    let mut tokenizer =
        Tokenizer { line: "1".to_string(), index: 5, tokens: vec![], current: 'x' };
    tokenizer.tokenize();
    assert_eq!(tokenizer.tokens, vec![plain(TokenType::EOL, "", 5, 5)]);
    assert_eq!(tokenizer.index, 5);
    assert_eq!(tokenizer.current, '\0');
}

fn symbol(character: char, whitespace: bool, alphabetic: bool, alphanumeric: bool) -> Symbol {
    Symbol { character, whitespace, alphabetic, alphanumeric }
}

#[test]
fn symbols_are_lexed_as_the_line_is() {
    for line in ["", "1 && 0", "[a || (b)] a 1 b 0", "x1 !&& 12 # exit", "[ [", "ä<->ö"] {
        assert_eq!(tokenize_symbols(&classify(line), 0), lex(line), "{}", line);
    }
    assert_eq!(
        tokenize_symbols(&classify("1 && 0"), 2),
        vec![
            plain(TokenType::AND, "&&", 2, 3),
            plain(TokenType::BOOL(false), "0", 5, 5),
            plain(TokenType::EOL, "", 6, 6),
        ]
    );
    assert_eq!(tokenize_symbols(&classify("1"), 7), vec![plain(TokenType::EOL, "", 7, 7)]);
}

#[test]
fn the_lexer_goes_by_the_classes_of_the_symbols() {
    // `#` classified as a letter, `b` as whitespace, `3` as a letter or digit
    let symbols = vec![
        symbol('#', false, true, true),
        symbol('3', false, false, true),
        symbol('b', true, false, false),
        symbol('a', false, false, false),
        symbol('1', false, false, false),
    ];
    assert_eq!(
        tokenize_symbols(&symbols, 0),
        vec![
            plain(TokenType::IDENTIFIER, "#3", 0, 2),
            plain(TokenType::ERROR, "a", 3, 3),
            plain(TokenType::BOOL(true), "1", 4, 4),
            plain(TokenType::EOL, "", 5, 5),
        ]
    );
    // whitespace comes before letters, letters before digits
    let symbols = vec![symbol('1', true, true, true), symbol('0', false, true, false)];
    assert_eq!(
        tokenize_symbols(&symbols, 0),
        vec![plain(TokenType::IDENTIFIER, "0", 1, 2), plain(TokenType::EOL, "", 2, 2)]
    );
}
