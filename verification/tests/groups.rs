use bool_formula::binding::{bit_text, mapToBool, substitute_in_token, substitute_in_tokens, Binding};
use bool_formula::blocks::parseBlocks;
use bool_formula::token::{Token, TokenType};
use bool_formula::tokenizer::Tokenizer;

fn lex(line: &str) -> Vec<Token> {
    let mut tokenizer = Tokenizer::new(line.to_string());
    tokenizer.tokenize();
    tokenizer.tokens
}

fn plain(kind: TokenType, content: &str, start: usize, end: usize) -> Token {
    Token::new(kind, content.to_string(), start, end)
}

fn resolve(line: &str) -> Vec<Token> {
    let mut tokens = lex(line);
    let result = parseBlocks(&mut tokens);
    assert_eq!(result, tokens);
    result
}

#[test]
fn parentheses_become_a_block() {
    assert_eq!(
        resolve("(1 || 0) && 1"),
        vec![
            Token::group(
                TokenType::BLOCK,
                vec![
                    plain(TokenType::BOOL(true), "1", 1, 1),
                    plain(TokenType::OR, "||", 3, 4),
                    plain(TokenType::BOOL(false), "0", 6, 6),
                ],
                0,
                7
            ),
            plain(TokenType::AND, "&&", 9, 10),
            plain(TokenType::BOOL(true), "1", 12, 12),
            plain(TokenType::EOL, "", 13, 13),
        ]
    );
}

#[test]
fn blocks_nest() {
    assert_eq!(
        resolve("((a) b)"),
        vec![
            Token::group(
                TokenType::BLOCK,
                vec![
                    Token::group(
                        TokenType::BLOCK,
                        vec![plain(TokenType::IDENTIFIER, "a", 2, 3)],
                        1,
                        3
                    ),
                    plain(TokenType::IDENTIFIER, "b", 5, 6),
                ],
                0,
                6
            ),
            plain(TokenType::EOL, "", 7, 7),
        ]
    );
}

#[test]
fn empty_parentheses_become_an_empty_block() {
    assert_eq!(
        resolve("()"),
        vec![Token::group(TokenType::BLOCK, vec![], 0, 1), plain(TokenType::EOL, "", 2, 2)]
    );
}

#[test]
fn blocks_side_by_side() {
    assert_eq!(
        resolve("(1)(0)"),
        vec![
            Token::group(TokenType::BLOCK, vec![plain(TokenType::BOOL(true), "1", 1, 1)], 0, 2),
            Token::group(TokenType::BLOCK, vec![plain(TokenType::BOOL(false), "0", 4, 4)], 3, 5),
            plain(TokenType::EOL, "", 6, 6),
        ]
    );
}

#[test]
fn tokens_without_parentheses_stay() {
    assert_eq!(resolve("a && !1"), lex("a && !1"));
    assert_eq!(resolve(""), lex(""));
    let mut none: Vec<Token> = Vec::new();
    assert_eq!(parseBlocks(&mut none), Vec::<Token>::new());
    assert!(none.is_empty());
}

#[test]
fn unmatched_parentheses_stay() {
    assert_eq!(resolve("(1"), lex("(1"));
    assert_eq!(resolve("1)"), lex("1)"));
    assert_eq!(resolve(")("), lex(")("));
    assert_eq!(
        resolve("((1)"),
        vec![
            plain(TokenType::LPAREN, "(", 0, 0),
            Token::group(TokenType::BLOCK, vec![plain(TokenType::BOOL(true), "1", 2, 2)], 1, 3),
            plain(TokenType::EOL, "", 4, 4),
        ]
    );
    assert_eq!(
        resolve("(1))"),
        vec![
            Token::group(TokenType::BLOCK, vec![plain(TokenType::BOOL(true), "1", 1, 1)], 0, 2),
            plain(TokenType::RPAREN, ")", 3, 3),
            plain(TokenType::EOL, "", 4, 4),
        ]
    );
}

#[test]
fn bracket_literals_are_left_as_they_are() {
    assert_eq!(resolve("[(1)] (0)")[0], lex("[(1)]")[0]);
    assert_eq!(resolve("[(1)] (0)")[1].tType, TokenType::BLOCK);
}

#[test]
fn resolving_twice_changes_nothing_more() {
    for line in ["(1 || 0) && 1", "((a)) -> (b", "())(", "a"] {
        let mut once = resolve(line);
        let twice = parseBlocks(&mut once);
        assert_eq!(twice, resolve(line));
    }
}

fn binding(pairs: &[(&str, bool)]) -> Binding {
    let mut binding = Binding::new();
    for (name, bit) in pairs {
        binding.insert(name.to_string(), *bit);
    }
    binding
}

#[test]
fn bound_identifiers_become_literals() {
    let mut tokens = lex("a && b || c");
    mapToBool(&mut tokens, binding(&[("a", true), ("b", false)]));
    assert_eq!(
        tokens,
        vec![
            plain(TokenType::BOOL(true), "1", 0, 1),
            plain(TokenType::AND, "&&", 2, 3),
            plain(TokenType::BOOL(false), "0", 5, 6),
            plain(TokenType::OR, "||", 7, 8),
            plain(TokenType::IDENTIFIER, "c", 10, 11),
            plain(TokenType::EOL, "", 11, 11),
        ]
    );
}

#[test]
fn the_empty_binding_changes_nothing() {
    let mut tokens = lex("a && (b || 1) table");
    mapToBool(&mut tokens, Binding::new());
    assert_eq!(tokens, lex("a && (b || 1) table"));
}

#[test]
fn only_identifiers_are_substituted() {
    let mut tokens = lex("table && a");
    mapToBool(&mut tokens, binding(&[("table", true), ("&&", true), ("a", false)]));
    assert_eq!(tokens[0], plain(TokenType::COMMAND, "table", 0, 5));
    assert_eq!(tokens[1], plain(TokenType::AND, "&&", 6, 7));
    assert_eq!(tokens[2], plain(TokenType::BOOL(false), "0", 9, 10));
}

#[test]
fn substitution_enters_groups() {
    let mut tokens = resolve("(a || (b)) && [a]");
    mapToBool(&mut tokens, binding(&[("a", false), ("b", true)]));
    assert_eq!(
        tokens,
        vec![
            Token::group(
                TokenType::BLOCK,
                vec![
                    plain(TokenType::BOOL(false), "0", 1, 2),
                    plain(TokenType::OR, "||", 3, 4),
                    Token::group(
                        TokenType::BLOCK,
                        vec![plain(TokenType::BOOL(true), "1", 7, 8)],
                        6,
                        8
                    ),
                ],
                0,
                9
            ),
            plain(TokenType::AND, "&&", 11, 12),
            Token::group(
                TokenType::EXPRESSION,
                vec![plain(TokenType::BOOL(false), "0", 0, 1), plain(TokenType::EOL, "", 1, 1)],
                14,
                16
            ),
            plain(TokenType::EOL, "", 17, 17),
        ]
    );
}

#[test]
fn substitution_of_copies() {
    let tokens = lex("a b");
    let bound = binding(&[("a", true)]);
    assert_eq!(substitute_in_token(&tokens[0], &bound), plain(TokenType::BOOL(true), "1", 0, 1));
    assert_eq!(substitute_in_token(&tokens[1], &bound), tokens[1]);
    assert_eq!(
        substitute_in_tokens(&tokens, &bound),
        vec![
            plain(TokenType::BOOL(true), "1", 0, 1),
            plain(TokenType::IDENTIFIER, "b", 2, 3),
            plain(TokenType::EOL, "", 3, 3),
        ]
    );
    assert_eq!(tokens, lex("a b"));
}

#[test]
fn bits_have_texts() {
    assert_eq!(bit_text(true), "1");
    assert_eq!(bit_text(false), "0");
}
