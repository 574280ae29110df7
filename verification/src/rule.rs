//! Production rules: a left-hand-side nonterminal rewritten to a sequence of
//! symbols, plus author-supplied metadata that the core algorithm leaves inert.

use vstd::prelude::*;

use crate::symbol::{NonTerminal, Symbol};

verus! {

/// A production `lhs -> symbols`, with a "keep all children" flag and a
/// numeric priority consumed by downstream conflict policy or code
/// generation; both are inert to table construction.
#[derive(Clone, Debug)]
pub struct Rule {
    pub lhs: NonTerminal,
    pub symbols: Vec<Symbol>,
    pub keep_all: bool,
    pub priority: usize,
}

impl Rule {
    pub fn new(lhs: NonTerminal, symbols: Vec<Symbol>, keep_all: bool, priority: usize) -> (r:
        Rule)
        ensures
            r.lhs == lhs,
            r.symbols@ == symbols@,
            r.keep_all == keep_all,
            r.priority == priority,
    {
        Rule { lhs, symbols, keep_all, priority }
    }

    /// The left-hand side viewed as a symbol.
    pub open spec fn lhs_sym(self) -> Symbol {
        Symbol::NonTerminal(self.lhs)
    }

    pub fn lhs(&self) -> (r: NonTerminal)
        ensures
            r == self.lhs,
    {
        self.lhs
    }

    pub fn get_lhs(&self) -> (r: NonTerminal)
        ensures
            r == self.lhs,
    {
        self.lhs
    }

    pub fn lhs_as_sym(&self) -> (r: Symbol)
        ensures
            r == self.lhs_sym(),
    {
        Symbol::NonTerminal(self.lhs)
    }

    pub fn get_lhs_as_sym(&self) -> (r: Symbol)
        ensures
            r == self.lhs_sym(),
    {
        Symbol::NonTerminal(self.lhs)
    }

    /// The author's "keep all children" flag, inert to table construction.
    pub fn keep_all(&self) -> (r: bool)
        ensures
            r == self.keep_all,
    {
        self.keep_all
    }

    /// The author's numeric priority, inert to table construction.
    pub fn priority(&self) -> (r: usize)
        ensures
            r == self.priority,
    {
        self.priority
    }

    pub fn symbols(&self) -> (r: &Vec<Symbol>)
        ensures
            r@ == self.symbols@,
    {
        &self.symbols
    }

    pub fn get_symbols(&self) -> (r: &Vec<Symbol>)
        ensures
            r@ == self.symbols@,
    {
        &self.symbols
    }
}

} // verus!
