use bool_formula::binding::Binding;
use bool_formula::error::FormulaError;
use bool_formula::formula::{evaluate_formula, evaluate_tokens, tokenize_line};
use bool_formula::token::TokenType;

fn value(formula: &str) -> Result<bool, FormulaError> {
    evaluate_formula(formula, Binding::new())
}

#[test]
fn conjunction_of_one_and_zero() {
    assert_eq!(value("1 && 0"), Ok(false));
}

#[test]
fn disjunction_of_one_and_zero() {
    assert_eq!(value("1 || 0"), Ok(true));
}

#[test]
fn negation_of_one() {
    assert_eq!(value("!1"), Ok(false));
}

#[test]
fn implication_from_one_to_zero() {
    assert_eq!(value("1 -> 0"), Ok(false));
}

#[test]
fn equivalence_of_one_and_one() {
    assert_eq!(value("1 <-> 1"), Ok(true));
}

#[test]
fn group_before_conjunction() {
    assert_eq!(value("(1 || 0) && 1"), Ok(true));
}

#[test]
fn redundant_parentheses_change_nothing() {
    assert_eq!(value("1"), Ok(true));
    assert_eq!(value("(1)"), Ok(true));
    assert_eq!(value("((1))"), Ok(true));
    assert_eq!(value("(((0)))"), Ok(false));
    assert_eq!(value("((1 || 0)) && (1)"), Ok(true));
    assert_eq!(value("(((1) || (0))) && ((1))"), Ok(true));
}

#[test]
fn precedence_orders_the_operators() {
    // and binds tighter than or
    assert_eq!(value("1 || 0 && 0"), Ok(true));
    assert_eq!(value("(1 || 0) && 0"), Ok(false));
    // or binds tighter than implication
    assert_eq!(value("0 -> 0 || 1"), Ok(true));
    assert_eq!(value("1 -> 0 || 0"), Ok(false));
    // implication binds tighter than equivalence
    assert_eq!(value("0 <-> 1 -> 0"), Ok(true));
    // xor binds tighter than and
    assert_eq!(value("0 && 1 ^ 1"), Ok(false));
    assert_eq!(value("1 && 1 ^ 0"), Ok(true));
    // not binds tightest
    assert_eq!(value("!0 && 0"), Ok(false));
    assert_eq!(value("!(0 && 0)"), Ok(true));
}

#[test]
fn equal_operators_split_at_the_first() {
    // 1 -> (0 -> 0), not (1 -> 0) -> 0
    assert_eq!(value("1 -> 0 -> 0"), Ok(true));
    // 0 <- (1 <- 1)
    assert_eq!(value("0 <- 1 <- 1"), Ok(false));
}

#[test]
fn all_binary_operators_evaluate() {
    assert_eq!(value("1 <- 0"), Ok(true));
    assert_eq!(value("0 <- 1"), Ok(false));
    assert_eq!(value("1 ^ 1"), Ok(false));
    assert_eq!(value("1 ^ 0"), Ok(true));
    assert_eq!(value("1 !&& 1"), Ok(false));
    assert_eq!(value("0 !&& 1"), Ok(true));
    assert_eq!(value("0 !|| 0"), Ok(true));
    assert_eq!(value("0 !|| 1"), Ok(false));
}

#[test]
fn bound_variables_are_substituted() {
    let mut binding = Binding::new();
    binding.insert("a".to_string(), true);
    binding.insert("b".to_string(), false);
    assert_eq!(evaluate_formula("a && b", binding), Ok(false));
    let mut binding = Binding::new();
    binding.insert("a".to_string(), true);
    binding.insert("b".to_string(), true);
    assert_eq!(evaluate_formula("a && b", binding), Ok(true));
}

#[test]
fn unbound_variable_is_a_binding_error() {
    let mut binding = Binding::new();
    binding.insert("a".to_string(), true);
    assert_eq!(evaluate_formula("a && b", binding), Err(FormulaError::BindingError));
    assert_eq!(value("x"), Err(FormulaError::BindingError));
}

#[test]
fn later_binding_replaces_earlier() {
    let mut binding = Binding::new();
    binding.insert("a".to_string(), false);
    binding.insert("a".to_string(), true);
    assert_eq!(binding.get("a"), Some(true));
    assert_eq!(binding.get("b"), None);
    assert!(binding.contains("a"));
    assert!(!binding.contains("b"));
    assert_eq!(evaluate_formula("a", binding), Ok(true));
}

#[test]
fn lexical_errors_are_reported() {
    assert_eq!(value("1 & 0"), Err(FormulaError::LexError));
    assert_eq!(value("1 && 10"), Err(FormulaError::LexError));
    assert_eq!(value("1 && 2"), Err(FormulaError::LexError));
    assert_eq!(value("1 # 0"), Err(FormulaError::LexError));
    assert_eq!(value("[1 && 0"), Err(FormulaError::LexError));
    assert_eq!(value("1 &&! 0"), Err(FormulaError::LexError));
}

#[test]
fn syntax_errors_are_reported() {
    assert_eq!(value("1 &&"), Err(FormulaError::SyntaxError));
    assert_eq!(value("1 1"), Err(FormulaError::SyntaxError));
    assert_eq!(value("! && 1"), Err(FormulaError::SyntaxError));
    assert_eq!(value("()"), Err(FormulaError::SyntaxError));
    assert_eq!(value("exit"), Err(FormulaError::SyntaxError));
    assert_eq!(value("[1]"), Err(FormulaError::SyntaxError));
}

#[test]
fn unmatched_parentheses_are_structural_errors() {
    assert_eq!(value("(1"), Err(FormulaError::StructuralError));
    assert_eq!(value("1)"), Err(FormulaError::StructuralError));
    assert_eq!(value("((1)"), Err(FormulaError::StructuralError));
    assert_eq!(value("(1 && 0"), Err(FormulaError::StructuralError));
}

#[test]
fn malformed_trees_are_evaluation_errors() {
    assert_eq!(value(""), Err(FormulaError::EvaluationError));
    assert_eq!(value("   "), Err(FormulaError::EvaluationError));
    // the pairwise grammar lets a formula start with a binary operator
    assert_eq!(value("&& 1"), Err(FormulaError::EvaluationError));
}

#[test]
fn a_line_is_lexed_or_has_a_lexical_error() {
    let tokens = tokenize_line("a && (1 || b)").ok().unwrap();
    let kinds: Vec<TokenType> = tokens.iter().map(|t| t.tType).collect();
    assert_eq!(
        kinds,
        vec![
            TokenType::IDENTIFIER,
            TokenType::AND,
            TokenType::LPAREN,
            TokenType::BOOL(true),
            TokenType::OR,
            TokenType::IDENTIFIER,
            TokenType::RPAREN,
            TokenType::EOL,
        ]
    );
    assert_eq!(tokenize_line("").ok().map(|t| t.len()), Some(1));
    assert_eq!(tokenize_line("[1] a 1").ok().map(|t| t.len()), Some(4));
    for line in ["1 & 0", "12", "#", "[1", "[1 # 0] a 1", "a <> b"] {
        assert_eq!(tokenize_line(line).err(), Some(FormulaError::LexError), "{}", line);
    }
}

#[test]
fn tokens_are_evaluated_as_their_text_is() {
    for line in ["1 && 0", "(1 || 0) && 1", "!0", "1 &&", "(1", "a", "", "1 # 1"] {
        let tokens = match tokenize_line(line) {
            Ok(tokens) => tokens,
            Err(_) => continue,
        };
        assert_eq!(
            evaluate_tokens(&tokens, Binding::new()),
            evaluate_formula(line, Binding::new()),
            "{}",
            line
        );
    }
}
