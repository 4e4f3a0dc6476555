//! Semantic core of a small typed functional language: a structural type
//! checker and a call-by-value evaluator over an already-built syntax tree,
//! with the lexically scoped symbol table that both share.
//!
//! The language is the simply typed lambda calculus with booleans, naturals
//! with successor and predecessor, conditionals, records, tagged variants with
//! matching, and recursion through a fixpoint operator.
//!
//! - [`sym_tab`] holds the symbol table, [`assoc`] the sequences of named
//!   entries that stand for the mappings of records, variants and matches.
//! - [`ast`] holds the syntax tree, the types, and their models; [`builder`]
//!   builds a syntax tree from the matches that a parser found.
//! - [`check`] states the typing rules and checks a tree against them.
//! - [`eval`] states the semantics and evaluates a tree; [`render`] gives a
//!   value its text.
//! - [`safety`], [`fuel`], [`termination`], [`laws`] and [`recursion`] prove
//!   what holds of checking and evaluation: that checked trees with guarded
//!   recursion meet no fault, that more fuel changes no outcome, that trees
//!   without fixpoints come to an end, and more.

pub mod assoc;
pub mod ast;
pub mod builder;
pub mod check;
pub mod eval;
pub mod fuel;
pub mod laws;
pub mod recursion;
pub mod render;
pub mod safety;
pub mod sym_tab;
pub mod termination;
