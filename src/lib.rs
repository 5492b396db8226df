//! Arithmetic expressions over decimal literals: a tokenizer and a
//! shunting-yard automaton that turns the tokens into an expression tree.
pub mod tokenizer;
pub mod evaluator;
pub mod well_formed;
pub mod expression;
pub mod operand_order;
