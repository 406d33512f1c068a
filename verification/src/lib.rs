//! A generic last-in-first-out container together with the classical
//! stack-based algorithms built on top of it: balanced-bracket validation,
//! integer radix conversion, infix-to-postfix conversion and postfix
//! expression evaluation.

pub mod stack;
pub mod stack_exercise;
