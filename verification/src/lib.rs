//! A minimal build tool, verified.
//!
//! A rule file names targets, what each depends on, and the commands that
//! realize it.  This library reads rule files into a model ([`parser`]), says
//! how the further sources that a rule file lists are to be had
//! ([`resolver`]), substitutes variables into command lines ([`subst`]) and
//! decides, step by step, what a run has to do ([`executor`]).  Reading files,
//! fetching URLs and running commands is left to the caller.
//!
//! Every function states what it computes over sequences of characters, and
//! [`semantics`] proves that the steps of the executor add up to the recursive
//! reading of the rules.

pub mod executor;
pub mod model;
pub mod outcome;
pub mod parser;
pub mod resolver;
pub mod semantics;
pub mod subst;
pub mod text;
