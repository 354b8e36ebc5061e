//! A regular-expression matching engine over an abstract symbol type.
//!
//! Two engines share one automaton idea. [`nfa`] simulates an epsilon-NFA by
//! advancing a set of active states per input symbol. The bytecode machine
//! compiles a regex tree ([`regex`]) into a linear program ([`inst`],
//! [`compiler`]), runs it with a list of threads in priority order
//! ([`runner`]), and reports matches and captures ([`matcher`]); that every
//! accepting thread has closed the groups it opened is shown in [`brackets`],
//! and that what it recorded lies in the input in [`bounds`].
//! Symbols are never inspected directly: every per-symbol test is a
//! caller-supplied pure predicate ([`predicate`]).

pub mod bounds;
pub mod brackets;
pub mod compiler;
pub mod inst;
pub mod matcher;
pub mod nfa;
pub mod predicate;
pub mod regex;
pub mod runner;
