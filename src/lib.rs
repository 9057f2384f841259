//! Static analyses of a context-free grammar (nullable nonterminals, First
//! and Follow sets) and the automaton of item sets with goto edges on which
//! bottom-up parsers are built.

pub mod grammar;
pub mod graph;
pub mod analysis;
pub mod termsets;
pub mod items;
