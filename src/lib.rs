//! Propositional formulas in postfix notation: reading them into trees, evaluating
//! them, rewriting them to negation and conjunctive normal form, deciding
//! satisfiability by enumeration, tabulating them, and evaluating them over sets.
//! Beside the formula engine stand a few bit-level routines: a ripple-carry adder,
//! a shift-and-add multiplier, Gray code, power sets and a Morton (Z-order) code.

/// The formula tree and its meaning.
pub mod ast;
/// Reading postfix text into a tree; evaluating trees over constants.
pub mod boolean_evaluation;
/// Evaluating postfix formulas over constants with a stack of values, without a tree.
pub mod stack_evaluation;
/// Distribution of `|` over `&`, after negation normal form.
pub mod conjunctive_normal_form;
/// Infix rendering with logical symbols.
pub mod display;
/// Postfix printing; rewriting to negation normal form by fixed-point passes.
pub mod negation_normal_form;
/// Negation normal form by structural recursion on a tree with one variant per connective.
pub mod nnf_direct;
/// Tabulating a formula over the assignments of its variables.
pub mod truth_table;
/// Tabulating formulas whose identifiers are any letters.
pub mod letter_table;
/// Satisfiability by trying every assignment.
pub mod sat;
/// Formulas evaluated over finite sets of integers.
pub mod set_evaluation;
/// Ripple-carry addition of 32-bit words.
pub mod adder;
/// Shift-and-add multiplication of 32-bit words.
pub mod multiplier;
/// Binary-reflected Gray code.
pub mod gray_code;
/// All subsets of a list.
pub mod powerset;
/// Morton (Z-order) codes of points.
pub mod space_filling;
mod text;
