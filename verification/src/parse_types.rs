//! The result shapes of a parse: a full tree, a structured failure report,
//! or a tree repaired by a syntax-error solver, together with the solver
//! interface itself.

use vstd::prelude::*;
use crate::ast::AbstractSyntaxNode;
use crate::ast::AbstractSyntaxTree;
use crate::token::Token;

verus! {

/// One production that could not be completed: the children parsed before
/// the failure, the report for the symbol that failed, and the symbols that
/// were never attempted.
pub struct FailedProduction<TLex, TSyntax> {
    pub failed_symbol: FailedSymbol<TLex, TSyntax>,
    pub parsed_symbols: Vec<ProductionParsedSymbol<TLex, TSyntax>>,
    pub pending_symbols: Vec<TSyntax>,
}

impl<TLex, TSyntax> FailedProduction<TLex, TSyntax> {
    pub fn new(
        failed_symbol: FailedSymbol<TLex, TSyntax>,
        parsed_symbols: Vec<ProductionParsedSymbol<TLex, TSyntax>>,
        pending_symbols: Vec<TSyntax>,
    ) -> (r: Self)
        ensures
            r.failed_symbol == failed_symbol,
            r.parsed_symbols == parsed_symbols,
            r.pending_symbols == pending_symbols,
    {
        Self { failed_symbol, parsed_symbols, pending_symbols }
    }
}

/// A symbol that could not be derived, with the failed attempts for each of
/// its candidate productions, in the order they were tried.
pub struct FailedSymbol<TLex, TSyntax> {
    pub failed_productions: Vec<FailedProduction<TLex, TSyntax>>,
    pub symbol_to_derive: TSyntax,
}

impl<TLex, TSyntax> FailedSymbol<TLex, TSyntax> {
    pub fn new(
        failed_productions: Vec<FailedProduction<TLex, TSyntax>>,
        symbol_to_derive: TSyntax,
    ) -> (r: Self)
        ensures
            r.failed_productions == failed_productions,
            r.symbol_to_derive == symbol_to_derive,
    {
        Self { failed_productions, symbol_to_derive }
    }
}

/// A failure report kept aside while other alternatives are attempted.
pub struct FailedState<TLex, TSyntax> {
    pub failed_productions: Vec<FailedProduction<TLex, TSyntax>>,
    pub symbol_to_derive: TSyntax,
}

impl<TLex, TSyntax> FailedState<TLex, TSyntax> {
    pub fn new(
        failed_productions: Vec<FailedProduction<TLex, TSyntax>>,
        symbol_to_derive: TSyntax,
    ) -> (r: Self)
        ensures
            r.failed_productions == failed_productions,
            r.symbol_to_derive == symbol_to_derive,
    {
        Self { failed_productions, symbol_to_derive }
    }
}

/// A stretch of input that a solver skipped over: the grammar symbols given
/// up on and the tokens passed by.
pub struct FixGap<TLex, TSyntax> {
    pub skipped_symbols: Vec<TSyntax>,
    pub skipped_tokens: Vec<Token<TLex, TSyntax>>,
}

/// What a solver hands back: the token position after the repair and the
/// repaired production.
pub struct FixResult<TLex, TSyntax> {
    pub final_token_position: usize,
    pub production: FixedProduction<TLex, TSyntax>,
}

/// A production completed with the solver's help, part by part.
pub struct FixedProduction<TLex, TSyntax> {
    pub fixed_parts: Vec<FixedProductionPart<TLex, TSyntax>>,
}

impl<TLex, TSyntax> FixedProduction<TLex, TSyntax> {
    pub fn new(fixed_parts: Vec<FixedProductionPart<TLex, TSyntax>>) -> (r: Self)
        ensures
            r.fixed_parts == fixed_parts,
    {
        Self { fixed_parts }
    }
}

/// One part of a repaired production: parsed normally, repaired below, or
/// skipped.
pub enum FixedProductionPart<TLex, TSyntax> {
    Parsed(AbstractSyntaxNode<Token<TLex, TSyntax>>),
    Fixed(FixedSymbol<TLex, TSyntax>),
    Gap(FixGap<TLex, TSyntax>),
}

/// A symbol derived through a repair.
pub struct FixedSymbol<TLex, TSyntax> {
    pub fixed_production: FixedProduction<TLex, TSyntax>,
    pub symbol_to_derive: TSyntax,
}

impl<TLex, TSyntax> FixedSymbol<TLex, TSyntax> {
    pub fn new(fixed_production: FixedProduction<TLex, TSyntax>, symbol_to_derive: TSyntax) -> (
        r: Self)
        ensures
            r.fixed_production == fixed_production,
            r.symbol_to_derive == symbol_to_derive,
    {
        Self { fixed_production, symbol_to_derive }
    }
}

/// The three-way outcome of a parse.
pub enum ParseResult<TLex, TSyntax> {
    Parsed(AbstractSyntaxTree<Token<TLex, TSyntax>>),
    Failed(FailedSymbol<TLex, TSyntax>),
    Fixed(FixedSymbol<TLex, TSyntax>),
}

/// A child node reported inside a failed production: parsed normally or
/// repaired.
pub enum ProductionParsedSymbol<TLex, TSyntax> {
    Parsed(AbstractSyntaxNode<Token<TLex, TSyntax>>),
    Fixed(FixedSymbol<TLex, TSyntax>),
}

/// Fixes syntax errors of a recursive descent parser. A fix attempt is the
/// last resort used in order to parse an input; when a solver is called,
/// every ancestor of the failing node has a single child.
pub trait SyntaxErrorSolver<TLex, TSyntax> {
    /// Called when the failing symbol had a single candidate production, so
    /// that fixing at a lower level would be redundant.
    fn fix_failed_production(
        &self,
        tokens: &Vec<Token<TLex, TSyntax>>,
        tokens_position: usize,
        failed_production: &FailedProduction<TLex, TSyntax>,
    ) -> Option<FixResult<TLex, TSyntax>>;

    /// Called when every one of several candidate productions failed.
    fn fix_failed_productions(
        &self,
        tokens: &Vec<Token<TLex, TSyntax>>,
        tokens_position: usize,
        failed_productions: &Vec<FailedProduction<TLex, TSyntax>>,
    ) -> Option<FixResult<TLex, TSyntax>>;
}

} // verus!
