//! Evaluation of simple arithmetic expressions over non-negative integers
//! with addition and subtraction.
//!
//! The pipeline has two stages: the tokenizer turns a raw string into a
//! canonical token sequence (all values first, then all operators, each
//! group in its original order), and the evaluator reduces that sequence
//! to a single integer with a cursor over the value prefix.

pub mod evaluate;
pub mod props;
pub mod tokenizer;
