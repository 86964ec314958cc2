//! Context-free grammars: nullability and FIRST sets, and the building blocks
//! of an SLR(1) parser (LR(0) items, their NFA and its subset construction).

pub mod context_free_grammar;
