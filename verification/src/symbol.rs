//! Grammar symbols: terminals, nonterminals, and the end-of-input sentinel.

use vstd::prelude::*;

verus! {

/// A terminal symbol tag: an indivisible token category supplied by the
/// grammar author.  Tags compare structurally.
#[derive(Clone, Copy, Debug, PartialEq, Eq, Structural, Hash)]
pub struct Terminal {
    pub id: u32,
}

impl Terminal {
    pub fn new(id: u32) -> (r: Terminal)
        ensures
            r.id == id,
    {
        Terminal { id }
    }
}

/// A nonterminal symbol tag: a grammar category expanded by rules.
#[derive(Clone, Copy, Debug, PartialEq, Eq, Structural, Hash)]
pub struct NonTerminal {
    pub id: u32,
}

impl NonTerminal {
    pub fn new(id: u32) -> (r: NonTerminal)
        ensures
            r.id == id,
    {
        NonTerminal { id }
    }
}

/// A grammar symbol: a terminal, a nonterminal, or the distinguished
/// end-of-input sentinel used as the lookahead of the start item.
#[derive(Clone, Copy, Debug, PartialEq, Eq, Structural, Hash)]
pub enum Symbol {
    Terminal(Terminal),
    NonTerminal(NonTerminal),
    EndOfInput,
}

impl Symbol {
    /// True for the symbols a lookahead may be: terminals and the sentinel.
    pub open spec fn is_terminal_like(self) -> bool {
        self is Terminal || self is EndOfInput
    }

    pub fn is_terminal(&self) -> (r: bool)
        ensures
            r == (*self is Terminal),
    {
        match self {
            Symbol::Terminal(_) => true,
            _ => false,
        }
    }

    pub fn terminal(&self) -> (r: Option<Terminal>)
        ensures
            match r {
                Some(t) => *self == Symbol::Terminal(t),
                None => !(*self is Terminal),
            },
    {
        match self {
            Symbol::Terminal(t) => Some(*t),
            _ => None,
        }
    }

    pub fn non_terminal(&self) -> (r: Option<NonTerminal>)
        ensures
            match r {
                Some(nt) => *self == Symbol::NonTerminal(nt),
                None => !(*self is NonTerminal),
            },
    {
        match self {
            Symbol::NonTerminal(nt) => Some(*nt),
            _ => None,
        }
    }
}

/// True when `v` holds `x` at some position.
pub fn contains_symbol(v: &Vec<Symbol>, x: Symbol) -> (r: bool)
    ensures
        r == v@.contains(x),
{
    let mut i: usize = 0;
    while i < v.len()
        invariant
            0 <= i <= v@.len(),
            forall|j: int| 0 <= j < i ==> v@[j] != x,
        decreases v@.len() - i,
    {
        if v[i] == x {
            assert(v@.contains(x));
            return true;
        }
        i += 1;
    }
    false
}

/// An element-for-element copy of `v`.
pub fn clone_symbols(v: &Vec<Symbol>) -> (r: Vec<Symbol>)
    ensures
        r@ == v@,
{
    let mut r: Vec<Symbol> = Vec::new();
    let mut i: usize = 0;
    while i < v.len()
        invariant
            0 <= i <= v@.len(),
            r@ == v@.take(i as int),
        decreases v@.len() - i,
    {
        r.push(v[i]);
        i += 1;
    }
    proof {
        assert(v@.take(v@.len() as int) == v@);
    }
    r
}

} // verus!
