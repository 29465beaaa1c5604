//! A tabled resolution engine for logic programs with coinductive
//! predicates.
//!
//! A program is a set of clauses over atoms without function symbols. A
//! [`forest::Forest`] answers goals against it. It keeps one
//! [`table::Table`] for each goal, up to the names of the goal's variables,
//! with the answers found so far, and it follows the goals under resolution
//! on a [`stack::Stack`], so that a goal that is asked for while it is being
//! resolved is found out. Such a cycle is a proof where every goal on it is
//! coinductive: the goal is assumed, the answer records the assumption, and
//! the assumption is confirmed or left open later. Under a negation the
//! cycle is a fault of the program, which poisons the forest; a stratified
//! program has none. In every other case the strand that asks waits for
//! the answers of the goal.
//!
//! The answers of a goal are handed out one at a time by a
//! [`forest::ForestSolver`], which does as much of the search as the next
//! answer takes and can be told to stop after any step; nothing else cuts
//! a search short. What was found is kept, and a later query goes on from
//! there. [`forest::Forest::solve`] makes one solution of the answers, and
//! [`forest::Forest::solve_multiple`] hands each of them to its caller.
//!
//! These queries are for a forest in which no goal depends on its own
//! negation. Each has a twin, named with `try_`, that may be put to any
//! consistent forest and reports the fault where it finds it.

pub mod alpha;
pub mod context;
pub mod forest;
pub mod laws;
pub mod logic;
pub mod render;
pub mod solution;
pub mod stack;
pub mod table;
pub mod term;
