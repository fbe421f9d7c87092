//! The tree builder and the evaluator.
//!
//! A formula is split at its weakest operator: the first token of the
//! greatest precedence value becomes the root, what stands before it the
//! left subtree and what stands after it the right subtree.
//!
//! No tree is built of a formula in which an identifier is left, in the
//! formula itself or in one of its groups: a variable without a bit is a
//! binding error, and no node stands for it.
use crate::boolean::{
    and_bit, converse_bit, equivalence_bit, implies_bit, nand_bit, nor_bit, not_bit, or_bit,
    xor_bit, AND, CONVERSE, EQUIVALENCE, IMPLIES, NAND, NOR, NOT, OR, XOR,
};
use crate::error::FormulaError;
use crate::syntax::{before_end, end_index, end_position, lemma_end_from, lemma_end_position_is};
use crate::token::{
    group_token, lemma_token_model_expression, tokens_model, Token, TokenModel, TokenType,
};
use vstd::prelude::*;

verus! {

/// A node of the evaluation tree. The empty node stands for a formula, or
/// an operand, that is missing or malformed.
#[derive(Debug, PartialEq, Eq)]
pub enum ASTNode {
    Empty,
    Leaf { bit: bool },
    Unary { operator: TokenType, child: Box<ASTNode> },
    Binary { operator: TokenType, left: Box<ASTNode>, right: Box<ASTNode> },
}

/// An evaluation tree, once it is built.
#[derive(Debug, PartialEq, Eq)]
pub struct AST {
    pub root: Option<Box<ASTNode>>,
}

/// A token sequence with the tree that was built from it.
pub struct Evaluator {
    pub expression: Vec<Token>,
    pub tree: AST,
}

/// The precedence value of the token at position `i`.
pub open spec fn strength(f: Seq<TokenModel>, i: int) -> int {
    f[i].kind.spec_precedence() as int
}

/// The position at which a sequence is split: the first position of the
/// greatest precedence value; 0 for the empty sequence.
pub open spec fn peak(f: Seq<TokenModel>) -> int
    decreases f.len(),
{
    if f.len() <= 1 {
        0
    } else {
        let p = peak(f.drop_last());
        if strength(f, f.len() - 1) > strength(f, p) {
            f.len() - 1
        } else {
            p
        }
    }
}

/// Whether `p` is a position of `f` whose value no token exceeds and no
/// earlier token reaches.
pub open spec fn is_peak(f: Seq<TokenModel>, p: int) -> bool {
    &&& 0 <= p < f.len()
    &&& forall|j: int| 0 <= j < f.len() ==> #[trigger] strength(f, j) <= strength(f, p)
    &&& forall|j: int| 0 <= j < p ==> #[trigger] strength(f, j) < strength(f, p)
}

/// The peak of a sequence that is not empty is such a position.
pub proof fn lemma_peak(f: Seq<TokenModel>)
    requires
        f.len() > 0,
    ensures
        is_peak(f, peak(f)),
    decreases f.len(),
{
    if f.len() > 1 {
        let g = f.drop_last();
        lemma_peak(g);
        let p = peak(g);
        assert forall|j: int| 0 <= j < g.len() implies strength(g, j) == strength(f, j) by {}
        assert(strength(g, p) == strength(f, p));
        let q = peak(f);
        assert forall|j: int| 0 <= j < f.len() implies #[trigger] strength(f, j) <= strength(
            f,
            q,
        ) by {
            if j < g.len() {
                assert(strength(g, j) <= strength(g, p));
            }
        }
        assert forall|j: int| 0 <= j < q implies #[trigger] strength(f, j) < strength(f, q) by {
            if q == p {
                assert(strength(g, j) < strength(g, p));
            } else {
                assert(strength(g, j) <= strength(g, p));
            }
        }
    }
}

/// There is one such position only, and it is the peak.
pub proof fn lemma_peak_is(f: Seq<TokenModel>, p: int)
    requires
        is_peak(f, p),
    ensures
        peak(f) == p,
{
    lemma_peak(f);
    let q = peak(f);
    if q < p {
        assert(strength(f, q) < strength(f, p));
        assert(strength(f, p) <= strength(f, q));
    } else if p < q {
        assert(strength(f, p) < strength(f, q));
        assert(strength(f, q) <= strength(f, p));
    }
}

/// The tree of a formula that holds no `EOL` token.
///
/// The token at the peak decides. A literal that stands alone is a leaf; a
/// group that stands alone is the tree of what it owns; `NOT` has the tree
/// of what follows it as its child; any other operator has the trees of
/// what precedes and of what follows it as its children. Everything else,
/// the empty formula included, is the empty node. (Of a formula with an
/// identifier no tree is built: see `built`.)
pub open spec fn build(f: Seq<TokenModel>) -> ASTNode
    decreases f,
{
    if f.len() == 0 {
        ASTNode::Empty
    } else {
        let p = peak(f);
        let kind = f[p].kind;
        proof {
            lemma_peak(f);
            let g = f[p].expression;
            lemma_end_from(g, 0);
            assert(end_position(g) == g.len() ==> before_end(g) =~= g);
        }
        match kind {
            TokenType::BOOL(bit) => {
                if f.len() == 1 {
                    ASTNode::Leaf { bit }
                } else {
                    ASTNode::Empty
                }
            },
            TokenType::EXPRESSION | TokenType::BLOCK => {
                if f.len() == 1 {
                    build(before_end(f[p].expression))
                } else {
                    ASTNode::Empty
                }
            },
            TokenType::NOT => ASTNode::Unary {
                operator: kind,
                child: Box::new(build(f.subrange(p + 1, f.len() as int))),
            },
            TokenType::AND
            | TokenType::OR
            | TokenType::IMPLIES
            | TokenType::CONVERSE
            | TokenType::EQUIVALENCE
            | TokenType::XOR
            | TokenType::NAND
            | TokenType::NOR => ASTNode::Binary {
                operator: kind,
                left: Box::new(build(f.subrange(0, p))),
                right: Box::new(build(f.subrange(p + 1, f.len() as int))),
            },
            _ => ASTNode::Empty,
        }
    }
}

/// The tree of a token sequence: the tree of its formula, which is what
/// stands before its first `EOL` token.
pub open spec fn tree_of(s: Seq<TokenModel>) -> ASTNode {
    build(before_end(s))
}

/// Whether an identifier stands in `s` from position `i` on, or in a group
/// that stands there.
pub open spec fn identifier_from(s: Seq<TokenModel>, i: int) -> bool
    decreases s, s.len() - i,
{
    if !(0 <= i < s.len()) {
        false
    } else {
        s[i].kind == TokenType::IDENTIFIER || (s[i].kind.spec_is_group() && identifier_from(
            s[i].expression,
            0,
        )) || identifier_from(s, i + 1)
    }
}

/// Whether an identifier stands in `s` or in one of its groups.
pub open spec fn has_identifier(s: Seq<TokenModel>) -> bool {
    identifier_from(s, 0)
}

/// An identifier at position `i`, or in the group there, is found from
/// every position up to `i`.
pub proof fn lemma_identifier_found(s: Seq<TokenModel>, from: int, i: int)
    requires
        0 <= from <= i < s.len(),
        s[i].kind == TokenType::IDENTIFIER || (s[i].kind.spec_is_group() && has_identifier(
            s[i].expression,
        )),
    ensures
        identifier_from(s, from),
    decreases i - from,
{
    if from < i {
        lemma_identifier_found(s, from + 1, i);
    }
}

/// The tree that is built of a token sequence: none, and a binding error,
/// if an identifier is left in its formula or in a group of it; else the
/// tree of the sequence.
pub open spec fn built(s: Seq<TokenModel>) -> Result<ASTNode, FormulaError> {
    if has_identifier(before_end(s)) {
        Err(FormulaError::BindingError)
    } else {
        Ok(tree_of(s))
    }
}

/// An operand is a literal or a group: a token that stands for a formula
/// of its own.
pub open spec fn is_operand(t: TokenModel) -> bool {
    t.kind is BOOL || t.kind.spec_is_group()
}

/// The token `t` in `depth` pairs of parentheses.
pub open spec fn wrapped(t: TokenModel, depth: nat) -> TokenModel
    decreases depth,
{
    if depth == 0 {
        t
    } else {
        group_token(TokenType::BLOCK, seq![wrapped(t, (depth - 1) as nat)], t.start, t.end)
    }
}

/// A group that stands alone has the tree of what it owns.
pub proof fn lemma_group_alone(g: TokenModel)
    requires
        g.kind.spec_is_group(),
    ensures
        build(seq![g]) == tree_of(g.expression),
{
    let f = seq![g];
    lemma_peak(f);
    assert(f[0] == g);
}

/// A pair of parentheses around an operand changes no tree: the formula
/// in which the operand at `p` is replaced by a group that owns it alone
/// has the tree of the formula itself.
pub proof fn lemma_redundant_group(f: Seq<TokenModel>, p: int, start: int, end: int)
    requires
        0 <= p < f.len(),
        is_operand(f[p]),
    ensures
        build(f.update(p, group_token(TokenType::BLOCK, seq![f[p]], start, end))) == build(f),
    decreases f.len(),
{
    let g = group_token(TokenType::BLOCK, seq![f[p]], start, end);
    let h = f.update(p, g);
    lemma_peak(f);
    let q = peak(f);
    assert forall|j: int| 0 <= j < f.len() implies strength(h, j) == strength(f, j) by {}
    assert(is_peak(h, q)) by {
        assert forall|j: int| 0 <= j < h.len() implies #[trigger] strength(h, j) <= strength(
            h,
            q,
        ) by {
            assert(strength(f, j) <= strength(f, q));
        }
        assert forall|j: int| 0 <= j < q implies #[trigger] strength(h, j) < strength(h, q) by {
            assert(strength(f, j) < strength(f, q));
        }
    }
    lemma_peak_is(h, q);
    if q == p {
        if f.len() == 1 {
            let alone = seq![f[p]];
            assert(alone =~= f);
            assert(g.expression == alone);
            lemma_end_position_is(alone, 1);
            assert(before_end(alone) =~= alone);
        }
    } else {
        assert(h[q] == f[q]);
        let n = f.len() as int;
        if p < q {
            lemma_redundant_group(f.subrange(0, q), p, start, end);
            assert(h.subrange(0, q) =~= f.subrange(0, q).update(p, g));
            assert(h.subrange(q + 1, n) =~= f.subrange(q + 1, n));
        } else {
            lemma_redundant_group(f.subrange(q + 1, n), p - q - 1, start, end);
            assert(h.subrange(q + 1, n) =~= f.subrange(q + 1, n).update(p - q - 1, g));
            assert(h.subrange(0, q) =~= f.subrange(0, q));
        }
    }
}

/// Parentheses around an operand change no tree, however deep they nest.
pub proof fn lemma_nesting_depth(f: Seq<TokenModel>, p: int, depth: nat)
    requires
        0 <= p < f.len(),
        is_operand(f[p]),
    ensures
        build(f.update(p, wrapped(f[p], depth))) == build(f),
    decreases depth,
{
    if depth == 0 {
        assert(f.update(p, f[p]) =~= f);
    } else {
        let inner = wrapped(f[p], (depth - 1) as nat);
        let h = f.update(p, inner);
        lemma_nesting_depth(f, p, (depth - 1) as nat);
        assert(is_operand(inner));
        lemma_redundant_group(h, p, f[p].start, f[p].end);
        assert(h.update(p, wrapped(f[p], depth)) =~= f.update(p, wrapped(f[p], depth)));
    }
}

/// What a binary operator makes of two bits.
pub open spec fn apply_binary(operator: TokenType, a: bool, b: bool) -> Option<bool> {
    match operator {
        TokenType::AND => Some(and_bit(a, b)),
        TokenType::OR => Some(or_bit(a, b)),
        TokenType::IMPLIES => Some(implies_bit(a, b)),
        TokenType::CONVERSE => Some(converse_bit(a, b)),
        TokenType::EQUIVALENCE => Some(equivalence_bit(a, b)),
        TokenType::XOR => Some(xor_bit(a, b)),
        TokenType::NAND => Some(nand_bit(a, b)),
        TokenType::NOR => Some(nor_bit(a, b)),
        _ => None,
    }
}

/// The bit that a tree evaluates to. There is none if the tree holds an
/// empty node, a unary node whose operator is not `NOT`, or a binary node
/// whose operator is not one of the eight binary operators.
pub open spec fn node_value(node: ASTNode) -> Option<bool>
    decreases node,
{
    match node {
        ASTNode::Empty => None,
        ASTNode::Leaf { bit } => Some(bit),
        ASTNode::Unary { operator, child } => {
            match node_value(*child) {
                Some(a) => if operator == TokenType::NOT {
                    Some(not_bit(a))
                } else {
                    None
                },
                None => None,
            }
        },
        ASTNode::Binary { operator, left, right } => {
            match (node_value(*left), node_value(*right)) {
                (Some(a), Some(b)) => apply_binary(operator, a, b),
                _ => None,
            }
        },
    }
}

impl Clone for ASTNode {
    fn clone(&self) -> (r: ASTNode)
        ensures
            r == *self,
        decreases self,
    {
        match self {
            ASTNode::Empty => ASTNode::Empty,
            ASTNode::Leaf { bit } => ASTNode::Leaf { bit: *bit },
            ASTNode::Unary { operator, child } => ASTNode::Unary {
                operator: *operator,
                child: Box::new((&**child).clone()),
            },
            ASTNode::Binary { operator, left, right } => ASTNode::Binary {
                operator: *operator,
                left: Box::new((&**left).clone()),
                right: Box::new((&**right).clone()),
            },
        }
    }
}

impl Clone for AST {
    fn clone(&self) -> (r: AST)
        ensures
            r == *self,
    {
        AST {
            root: match &self.root {
                Some(node) => Some(Box::new((&**node).clone())),
                None => None,
            },
        }
    }
}

impl AST {
    /// Makes `root` the root of the tree.
    pub fn setRoot(&mut self, root: &ASTNode)
        ensures
            final(self).root == Some(Box::new(*root)),
    {
        self.root = Some(Box::new(root.clone()));
    }
}

impl Evaluator {
    /// An evaluator for `expression`, with no tree yet.
    pub fn new(expression: Vec<Token>) -> (evaluator: Evaluator)
        ensures
            evaluator.expression == expression,
            evaluator.tree.root is None,
    {
        Evaluator { expression, tree: AST { root: None } }
    }

    /// A copy of the tree.
    pub fn getAST(&self) -> (tree: AST)
        ensures
            tree == self.tree,
    {
        self.tree.clone()
    }

    /// Builds the tree of `expression` and keeps it. If an identifier is
    /// left in the formula or in one of its groups, no tree is built: the
    /// result is a binding error and the tree kept so far stays.
    pub fn buildAST(&mut self) -> (result: Result<(), FormulaError>)
        ensures
            final(self).expression == old(self).expression,
            match built(tokens_model(old(self).expression@)) {
                Ok(root) => result == Ok::<(), FormulaError>(()) && final(self).tree.root == Some(
                    Box::new(root),
                ),
                Err(error) => result == Err::<(), FormulaError>(error) && final(self).tree == old(
                    self,
                ).tree,
            },
    {
        match self.parseExpr(&self.expression) {
            Ok(root) => {
                self.tree = AST { root: Some(Box::new(root)) };
                Ok(())
            },
            Err(error) => Err(error),
        }
    }

    /// Whether an identifier stands in `tokens[..hi]` or in a group there.
    fn identifier_within(&self, tokens: &Vec<Token>, hi: usize) -> (found: bool)
        requires
            hi <= tokens@.len(),
        ensures
            found == has_identifier(tokens_model(tokens@).subrange(0, hi as int)),
        decreases tokens,
    {
        let ghost f = tokens_model(tokens@).subrange(0, hi as int);
        let mut i: usize = hi;
        while i > 0
            invariant
                i <= hi <= tokens@.len(),
                f == tokens_model(tokens@).subrange(0, hi as int),
                !identifier_from(f, i as int),
            decreases i,
        {
            i -= 1;
            let token = &tokens[i];
            proof {
                lemma_token_model_expression(*token);
                assert(f[i as int] == token@);
            }
            if token.tType == TokenType::IDENTIFIER {
                proof {
                    lemma_identifier_found(f, 0, i as int);
                }
                return true;
            }
            if token.tType.is_group() {
                let inner = &token.expression;
                assert(tokens_model(inner@).subrange(0, inner@.len() as int) =~= tokens_model(
                    inner@,
                ));
                if self.identifier_within(inner, inner.len()) {
                    proof {
                        lemma_identifier_found(f, 0, i as int);
                    }
                    return true;
                }
            }
        }
        false
    }

    /// The position in `expression[lo..hi]` at which it is split, counted
    /// from the start of `expression`.
    fn searchPeak(&self, expression: &Vec<Token>, lo: usize, hi: usize) -> (pos: usize)
        requires
            lo < hi <= expression@.len(),
        ensures
            lo <= pos < hi,
            pos - lo == peak(tokens_model(expression@).subrange(lo as int, hi as int)),
    {
        let ghost f = tokens_model(expression@).subrange(lo as int, hi as int);
        let mut maxVal: u8 = expression[lo].tType.precedence();
        let mut pos: usize = lo;
        let mut index: usize = lo + 1;
        while index < hi
            invariant
                lo <= pos < index <= hi <= expression@.len(),
                f == tokens_model(expression@).subrange(lo as int, hi as int),
                maxVal == strength(f, pos - lo),
                forall|j: int| 0 <= j < index - lo ==> #[trigger] strength(f, j) <= strength(f, pos - lo),
                forall|j: int| 0 <= j < pos - lo ==> #[trigger] strength(f, j) < strength(f, pos - lo),
            decreases hi - index,
        {
            let currPrec = expression[index].tType.precedence();
            assert(currPrec == strength(f, index - lo));
            if currPrec > maxVal {
                maxVal = currPrec;
                pos = index;
            }
            index += 1;
        }
        proof {
            lemma_peak_is(f, pos - lo);
        }
        pos
    }

    /// The tree of the formula `expression[lo..hi]`.
    fn parseSpan(&self, expression: &Vec<Token>, lo: usize, hi: usize) -> (node: ASTNode)
        requires
            lo <= hi <= expression@.len(),
        ensures
            node == build(tokens_model(expression@).subrange(lo as int, hi as int)),
        decreases expression, hi - lo,
    {
        let ghost f = tokens_model(expression@).subrange(lo as int, hi as int);
        if lo == hi {
            return ASTNode::Empty;
        }
        let index = self.searchPeak(expression, lo, hi);
        let peak = &expression[index];
        proof {
            lemma_token_model_expression(*peak);
            assert(f[index - lo] == peak@);
            assert(f.subrange(0, index - lo) =~= tokens_model(expression@).subrange(
                lo as int,
                index as int,
            ));
            assert(f.subrange(index - lo + 1, f.len() as int) =~= tokens_model(
                expression@,
            ).subrange(index + 1, hi as int));
        }
        match peak.tType {
            TokenType::BOOL(bit) => {
                if hi - lo == 1 {
                    ASTNode::Leaf { bit }
                } else {
                    ASTNode::Empty
                }
            },
            TokenType::EXPRESSION | TokenType::BLOCK => {
                if hi - lo == 1 {
                    let end = end_index(&peak.expression);
                    self.parseSpan(&peak.expression, 0, end)
                } else {
                    ASTNode::Empty
                }
            },
            TokenType::NOT => ASTNode::Unary {
                operator: peak.tType,
                child: Box::new(self.parseSpan(expression, index + 1, hi)),
            },
            TokenType::AND
            | TokenType::OR
            | TokenType::IMPLIES
            | TokenType::CONVERSE
            | TokenType::EQUIVALENCE
            | TokenType::XOR
            | TokenType::NAND
            | TokenType::NOR => ASTNode::Binary {
                operator: peak.tType,
                left: Box::new(self.parseSpan(expression, lo, index)),
                right: Box::new(self.parseSpan(expression, index + 1, hi)),
            },
            _ => ASTNode::Empty,
        }
    }

    /// The tree of `expression`; a binding error, and no tree, if an
    /// identifier is left in the formula or in one of its groups.
    pub fn parseExpr(&self, expression: &Vec<Token>) -> (result: Result<ASTNode, FormulaError>)
        ensures
            result == built(tokens_model(expression@)),
    {
        let end = end_index(expression);
        if self.identifier_within(expression, end) {
            return Err(FormulaError::BindingError);
        }
        Ok(self.parseSpan(expression, 0, end))
    }

    /// The bit that the tree under `node` evaluates to; an evaluation error
    /// if the tree is malformed.
    pub fn evaluate(&self, node: &ASTNode) -> (result: Result<bool, FormulaError>)
        ensures
            result == match node_value(*node) {
                Some(bit) => Ok::<bool, FormulaError>(bit),
                None => Err::<bool, FormulaError>(FormulaError::EvaluationError),
            },
        decreases node,
    {
        match node {
            ASTNode::Empty => Err(FormulaError::EvaluationError),
            ASTNode::Leaf { bit } => Ok(*bit),
            ASTNode::Unary { operator, child } => {
                match self.evaluate(&**child) {
                    Ok(a) => match operator {
                        TokenType::NOT => Ok(NOT(a)),
                        _ => Err(FormulaError::EvaluationError),
                    },
                    Err(e) => Err(e),
                }
            },
            ASTNode::Binary { operator, left, right } => {
                let a = match self.evaluate(&**left) {
                    Ok(a) => a,
                    Err(e) => { return Err(e); },
                };
                let b = match self.evaluate(&**right) {
                    Ok(b) => b,
                    Err(e) => { return Err(e); },
                };
                match operator {
                    TokenType::AND => Ok(AND(a, b)),
                    TokenType::OR => Ok(OR(a, b)),
                    TokenType::IMPLIES => Ok(IMPLIES(a, b)),
                    TokenType::CONVERSE => Ok(CONVERSE(a, b)),
                    TokenType::EQUIVALENCE => Ok(EQUIVALENCE(a, b)),
                    TokenType::XOR => Ok(XOR(a, b)),
                    TokenType::NAND => Ok(NAND(a, b)),
                    TokenType::NOR => Ok(NOR(a, b)),
                    _ => Err(FormulaError::EvaluationError),
                }
            },
        }
    }
}

} // verus!
