//! The operator library: the nine boolean operators as functions on bits.
//!
//! A bit is a `bool`: `true` stands for 1 and `false` for 0.
use vstd::prelude::*;

verus! {

/// The number a bit stands for.
pub open spec fn bit_value(a: bool) -> int {
    if a {
        1
    } else {
        0
    }
}

/// `NOT a`.
pub open spec fn not_bit(a: bool) -> bool {
    !a
}

/// `a AND b`.
pub open spec fn and_bit(a: bool, b: bool) -> bool {
    a && b
}

/// `a OR b`.
pub open spec fn or_bit(a: bool, b: bool) -> bool {
    a || b
}

/// `a IMPLIES b`.
pub open spec fn implies_bit(a: bool, b: bool) -> bool {
    a ==> b
}

/// `a CONVERSE b`: `b` implies `a`.
pub open spec fn converse_bit(a: bool, b: bool) -> bool {
    b ==> a
}

/// `a EQUIVALENCE b`.
pub open spec fn equivalence_bit(a: bool, b: bool) -> bool {
    a == b
}

/// `a XOR b`.
pub open spec fn xor_bit(a: bool, b: bool) -> bool {
    a != b
}

/// `a NAND b`.
pub open spec fn nand_bit(a: bool, b: bool) -> bool {
    !(a && b)
}

/// `a NOR b`.
pub open spec fn nor_bit(a: bool, b: bool) -> bool {
    !(a || b)
}

/// Negation: 1 becomes 0 and 0 becomes 1.
pub fn NOT(a: bool) -> (r: bool)
    ensures
        r == not_bit(a),
        bit_value(r) == 1 - bit_value(a),
{
    !a
}

/// Conjunction: 1 exactly when both bits are 1.
pub fn AND(a: bool, b: bool) -> (r: bool)
    ensures
        r == and_bit(a, b),
        r <==> (bit_value(a) == 1 && bit_value(b) == 1),
{
    a && b
}

/// Disjunction: 1 exactly when at least one bit is 1.
pub fn OR(a: bool, b: bool) -> (r: bool)
    ensures
        r == or_bit(a, b),
        r <==> (bit_value(a) == 1 || bit_value(b) == 1),
{
    a || b
}

/// Implication: `a -> b` is 0 only for `a = 1`, `b = 0`.
pub fn IMPLIES(a: bool, b: bool) -> (r: bool)
    ensures
        r == implies_bit(a, b),
{
    OR(NOT(a), b)
}

/// Converse implication: `a <- b` is `b -> a`.
pub fn CONVERSE(a: bool, b: bool) -> (r: bool)
    ensures
        r == converse_bit(a, b),
{
    IMPLIES(b, a)
}

/// Equivalence: 1 exactly when both bits are equal.
pub fn EQUIVALENCE(a: bool, b: bool) -> (r: bool)
    ensures
        r == equivalence_bit(a, b),
{
    AND(IMPLIES(a, b), IMPLIES(b, a))
}

/// Exclusive or: 1 exactly when the bits differ.
pub fn XOR(a: bool, b: bool) -> (r: bool)
    ensures
        r == xor_bit(a, b),
{
    NOT(EQUIVALENCE(a, b))
}

/// Negated conjunction.
pub fn NAND(a: bool, b: bool) -> (r: bool)
    ensures
        r == nand_bit(a, b),
{
    NOT(AND(a, b))
}

/// Negated disjunction.
pub fn NOR(a: bool, b: bool) -> (r: bool)
    ensures
        r == nor_bit(a, b),
{
    NOT(OR(a, b))
}

/// The derived operators are the stated combinations of negation,
/// conjunction and disjunction, for every pair of bits.
pub proof fn lemma_operator_identities(a: bool, b: bool)
    ensures
        implies_bit(a, b) == or_bit(not_bit(a), b),
        converse_bit(a, b) == implies_bit(b, a),
        equivalence_bit(a, b) == and_bit(implies_bit(a, b), implies_bit(b, a)),
        xor_bit(a, b) == not_bit(equivalence_bit(a, b)),
        nand_bit(a, b) == not_bit(and_bit(a, b)),
        nor_bit(a, b) == not_bit(or_bit(a, b)),
{
}

/// The truth table of every operator, row by row.
pub proof fn lemma_truth_tables()
    ensures
        not_bit(false) && !not_bit(true),
        !and_bit(false, false) && !and_bit(false, true) && !and_bit(true, false) && and_bit(
            true,
            true,
        ),
        !or_bit(false, false) && or_bit(false, true) && or_bit(true, false) && or_bit(true, true),
        implies_bit(false, false) && implies_bit(false, true) && !implies_bit(true, false)
            && implies_bit(true, true),
        converse_bit(false, false) && !converse_bit(false, true) && converse_bit(true, false)
            && converse_bit(true, true),
        equivalence_bit(false, false) && !equivalence_bit(false, true) && !equivalence_bit(
            true,
            false,
        ) && equivalence_bit(true, true),
        !xor_bit(false, false) && xor_bit(false, true) && xor_bit(true, false) && !xor_bit(
            true,
            true,
        ),
        nand_bit(false, false) && nand_bit(false, true) && nand_bit(true, false) && !nand_bit(
            true,
            true,
        ),
        nor_bit(false, false) && !nor_bit(false, true) && !nor_bit(true, false) && !nor_bit(
            true,
            true,
        ),
{
}

} // verus!
