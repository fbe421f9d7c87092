use bool_formula::error::FormulaError;
use bool_formula::evaluator::{ASTNode, Evaluator, AST};
use bool_formula::token::{Token, TokenType};
use bool_formula::tokenizer::Tokenizer;
use bool_formula::blocks::parseBlocks;

fn tokens(line: &str) -> Vec<Token> {
    let mut tokenizer = Tokenizer::new(line.to_string());
    tokenizer.tokenize();
    let mut tokens = tokenizer.tokens;
    parseBlocks(&mut tokens)
}

fn built(line: &str) -> Result<ASTNode, FormulaError> {
    Evaluator::new(Vec::new()).parseExpr(&tokens(line))
}

fn tree(line: &str) -> ASTNode {
    built(line).expect(line)
}

fn leaf(bit: bool) -> Box<ASTNode> {
    Box::new(ASTNode::Leaf { bit })
}

fn binary(operator: TokenType, left: Box<ASTNode>, right: Box<ASTNode>) -> Box<ASTNode> {
    Box::new(ASTNode::Binary { operator, left, right })
}

fn unary(operator: TokenType, child: Box<ASTNode>) -> Box<ASTNode> {
    Box::new(ASTNode::Unary { operator, child })
}

#[test]
fn a_literal_is_a_leaf() {
    assert_eq!(tree("1"), *leaf(true));
    assert_eq!(tree("0"), *leaf(false));
}

#[test]
fn the_empty_formula_is_the_empty_node() {
    assert_eq!(tree(""), ASTNode::Empty);
    assert_eq!(Evaluator::new(Vec::new()).parseExpr(&Vec::new()), Ok(ASTNode::Empty));
}

#[test]
fn a_binary_operator_splits_the_formula() {
    assert_eq!(tree("1 && 0"), *binary(TokenType::AND, leaf(true), leaf(false)));
}

#[test]
fn not_has_what_follows_as_its_child() {
    assert_eq!(tree("!1"), *unary(TokenType::NOT, leaf(true)));
    assert_eq!(
        tree("!!1"),
        ASTNode::Empty,
        "a run of two negation signs is a lexical error, which is no operand"
    );
    // what stands before the negation is left out
    assert_eq!(tree("0 ! 1"), *unary(TokenType::NOT, leaf(true)));
}

#[test]
fn the_weakest_operator_is_the_root() {
    assert_eq!(
        tree("1 && 0 || 1"),
        *binary(TokenType::OR, binary(TokenType::AND, leaf(true), leaf(false)), leaf(true))
    );
    assert_eq!(
        tree("1 || 0 && 1"),
        *binary(TokenType::OR, leaf(true), binary(TokenType::AND, leaf(false), leaf(true)))
    );
    assert_eq!(
        tree("!1 <-> 0 -> 1 ^ 0"),
        *binary(
            TokenType::EQUIVALENCE,
            unary(TokenType::NOT, leaf(true)),
            binary(TokenType::IMPLIES, leaf(false), binary(TokenType::XOR, leaf(true), leaf(false)))
        )
    );
}

#[test]
fn the_first_of_equal_operators_is_the_root() {
    assert_eq!(
        tree("1 -> 0 <- 1"),
        *binary(TokenType::IMPLIES, leaf(true), binary(TokenType::CONVERSE, leaf(false), leaf(true)))
    );
    assert_eq!(
        tree("1 ^ 0 !&& 1 !|| 0"),
        *binary(
            TokenType::XOR,
            leaf(true),
            binary(TokenType::NAND, leaf(false), binary(TokenType::NOR, leaf(true), leaf(false)))
        )
    );
}

#[test]
fn a_group_has_the_tree_of_what_it_owns() {
    assert_eq!(tree("(1 && 0)"), tree("1 && 0"));
    assert_eq!(tree("((1 && 0))"), tree("1 && 0"));
    assert_eq!(
        tree("(1 || 0) && 1"),
        *binary(TokenType::AND, binary(TokenType::OR, leaf(true), leaf(false)), leaf(true))
    );
    assert_eq!(tree("(((1)) || (0)) && ((1))"), tree("(1 || 0) && 1"));
    assert_eq!(tree("()"), ASTNode::Empty);
}

#[test]
fn a_bracket_literal_has_the_tree_of_its_formula() {
    let line = tokens("[1 && 0]");
    assert_eq!(line[0].tType, TokenType::EXPRESSION);
    let alone = vec![line[0].clone()];
    assert_eq!(
        Evaluator::new(Vec::new()).parseExpr(&alone),
        Ok(*binary(TokenType::AND, leaf(true), leaf(false)))
    );
}

#[test]
fn operands_side_by_side_are_malformed() {
    assert_eq!(tree("1 0"), ASTNode::Empty);
    assert_eq!(tree("(1) 0"), ASTNode::Empty);
    assert_eq!(tree("(1)(0)"), ASTNode::Empty);
    assert_eq!(
        tree("1 0 && 1"),
        *binary(TokenType::AND, Box::new(ASTNode::Empty), leaf(true))
    );
}

#[test]
fn missing_operands_are_empty_nodes() {
    assert_eq!(tree("&& 1"), *binary(TokenType::AND, Box::new(ASTNode::Empty), leaf(true)));
    assert_eq!(tree("1 &&"), *binary(TokenType::AND, leaf(true), Box::new(ASTNode::Empty)));
    assert_eq!(tree("!"), *unary(TokenType::NOT, Box::new(ASTNode::Empty)));
}

#[test]
fn kinds_that_are_no_operands_are_empty_nodes() {
    assert_eq!(tree("exit"), ASTNode::Empty);
    assert_eq!(tree("#"), ASTNode::Empty);
    assert_eq!(tree("(1"), ASTNode::Empty);
    assert_eq!(tree("exit && 1"), *binary(TokenType::AND, Box::new(ASTNode::Empty), leaf(true)));
}

#[test]
fn no_tree_is_built_of_an_identifier() {
    let error = Err(FormulaError::BindingError);
    assert_eq!(built("x"), error);
    assert_eq!(built("a && 1"), error);
    assert_eq!(built("1 && a"), error);
    assert_eq!(built("!a"), error);
    // what the split leaves out counts too
    assert_eq!(built("a ! 1"), error);
    assert_eq!(built("1 a"), error);
    // in groups, however deep
    assert_eq!(built("(a)"), error);
    assert_eq!(built("1 && ((0 || (b)))"), error);
    let line = tokens("[1 && c]");
    assert_eq!(Evaluator::new(Vec::new()).parseExpr(&vec![line[0].clone()]), error);
    // behind the end token nothing is read
    let mut tail = tokens("1 || 0");
    tail.extend(tokens("a"));
    assert_eq!(
        Evaluator::new(Vec::new()).parseExpr(&tail),
        Ok(*binary(TokenType::OR, leaf(true), leaf(false)))
    );
    // a lone identifier with its end token
    let lone = vec![
        Token::new(TokenType::IDENTIFIER, "x".to_string(), 0, 1),
        Token::new(TokenType::EOL, String::new(), 1, 1),
    ];
    assert_eq!(Evaluator::new(Vec::new()).parseExpr(&lone), error);
}

#[test]
fn an_evaluator_with_an_identifier_builds_nothing() {
    let mut evaluator = Evaluator::new(tokens("x"));
    assert_eq!(evaluator.buildAST(), Err(FormulaError::BindingError));
    assert_eq!(evaluator.getAST(), AST { root: None });
    assert_eq!(evaluator.expression, tokens("x"));
    // the tree kept so far stays
    let mut evaluator = Evaluator::new(tokens("1"));
    assert_eq!(evaluator.buildAST(), Ok(()));
    evaluator.expression = tokens("1 && (a)");
    assert_eq!(evaluator.buildAST(), Err(FormulaError::BindingError));
    assert_eq!(evaluator.getAST(), AST { root: Some(leaf(true)) });
}

#[test]
fn the_tree_is_built_from_what_stands_before_the_end() {
    let mut line = tokens("1 && 0");
    line.extend(tokens("|| 1"));
    assert_eq!(
        Evaluator::new(Vec::new()).parseExpr(&line),
        Ok(*binary(TokenType::AND, leaf(true), leaf(false)))
    );
}

#[test]
fn evaluator_builds_and_keeps_the_tree() {
    let mut evaluator = Evaluator::new(tokens("1 || 0"));
    assert_eq!(evaluator.tree, AST { root: None });
    assert_eq!(evaluator.getAST(), AST { root: None });
    assert_eq!(evaluator.buildAST(), Ok(()));
    let expected = AST { root: Some(binary(TokenType::OR, leaf(true), leaf(false))) };
    assert_eq!(evaluator.tree, expected);
    assert_eq!(evaluator.getAST(), expected);
    assert_eq!(evaluator.expression, tokens("1 || 0"));
    assert_eq!(evaluator.getAST().clone(), expected);
}

#[test]
fn set_root_copies_the_node() {
    let mut ast = AST { root: None };
    let node = *binary(TokenType::OR, leaf(true), unary(TokenType::NOT, leaf(false)));
    ast.setRoot(&node);
    assert_eq!(ast.root, Some(Box::new(node.clone())));
    ast.setRoot(&ASTNode::Empty);
    assert_eq!(ast.root, Some(Box::new(ASTNode::Empty)));
}

fn value(node: &ASTNode) -> Result<bool, FormulaError> {
    Evaluator::new(Vec::new()).evaluate(node)
}

#[test]
fn leaves_evaluate_to_their_bits() {
    assert_eq!(value(&leaf(true)), Ok(true));
    assert_eq!(value(&leaf(false)), Ok(false));
}

#[test]
fn nodes_evaluate_by_their_operators() {
    for a in [false, true] {
        assert_eq!(value(&unary(TokenType::NOT, leaf(a))), Ok(!a));
        for b in [false, true] {
            let of = |operator| value(&binary(operator, leaf(a), leaf(b)));
            assert_eq!(of(TokenType::AND), Ok(a && b));
            assert_eq!(of(TokenType::OR), Ok(a || b));
            assert_eq!(of(TokenType::IMPLIES), Ok(!a || b));
            assert_eq!(of(TokenType::CONVERSE), Ok(a || !b));
            assert_eq!(of(TokenType::EQUIVALENCE), Ok(a == b));
            assert_eq!(of(TokenType::XOR), Ok(a != b));
            assert_eq!(of(TokenType::NAND), Ok(!(a && b)));
            assert_eq!(of(TokenType::NOR), Ok(!(a || b)));
        }
    }
}

#[test]
fn nested_nodes_evaluate_from_the_leaves_up() {
    let node = binary(
        TokenType::IMPLIES,
        binary(TokenType::AND, leaf(true), unary(TokenType::NOT, leaf(false))),
        binary(TokenType::XOR, leaf(true), leaf(true)),
    );
    assert_eq!(value(&node), Ok(false));
}

#[test]
fn malformed_trees_do_not_evaluate() {
    let error = Err(FormulaError::EvaluationError);
    assert_eq!(value(&ASTNode::Empty), error);
    assert_eq!(value(&unary(TokenType::NOT, Box::new(ASTNode::Empty))), error);
    assert_eq!(value(&binary(TokenType::AND, Box::new(ASTNode::Empty), leaf(true))), error);
    assert_eq!(value(&binary(TokenType::AND, leaf(true), Box::new(ASTNode::Empty))), error);
    assert_eq!(value(&unary(TokenType::AND, leaf(true))), error);
    assert_eq!(value(&binary(TokenType::NOT, leaf(true), leaf(true))), error);
    assert_eq!(value(&binary(TokenType::BOOL(true), leaf(true), leaf(true))), error);
    assert_eq!(value(&binary(TokenType::LPAREN, leaf(true), leaf(true))), error);
}
