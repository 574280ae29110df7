//! LR(1) items: a rule with a dot marking parse progress and one lookahead.

use vstd::prelude::*;

use crate::grammar::Grammar;
use crate::symbol::{NonTerminal, Symbol};

verus! {

/// `(rule, index, look_ahead)`: the rule is an index into the grammar's rule
/// list, the dot sits before `symbols[index]`, and the lookahead is a
/// terminal-like symbol.  Items are cheap, copyable values; equality is
/// structural over all three fields.
#[derive(Clone, Copy, Debug, PartialEq, Eq, Structural, Hash)]
pub struct Item {
    pub rule: usize,
    pub index: usize,
    pub look_ahead: Symbol,
}

impl Item {
    /// The item designates a rule of `g` and its dot stays inside the rule.
    pub open spec fn wf(self, g: Grammar) -> bool {
        &&& self.rule < g.rules@.len()
        &&& self.index <= g.rules@[self.rule as int].symbols@.len()
        &&& self.look_ahead.is_terminal_like()
    }

    /// The dot has consumed the whole right-hand side: ready to reduce.
    pub open spec fn spec_is_complete(self, g: Grammar) -> bool {
        self.index >= g.rules@[self.rule as int].symbols@.len()
    }

    /// The symbol immediately after the dot, if the item is not complete.
    pub open spec fn spec_active_symbol(self, g: Grammar) -> Option<Symbol> {
        if self.spec_is_complete(g) {
            None
        } else {
            Some(g.rules@[self.rule as int].symbols@[self.index as int])
        }
    }

    /// The symbol one past the active symbol if it exists, else the item's
    /// own lookahead: the source of lookaheads for closure expansion.
    pub open spec fn spec_following_active(self, g: Grammar) -> Symbol {
        if self.index + 1 < g.rules@[self.rule as int].symbols@.len() {
            g.rules@[self.rule as int].symbols@[self.index + 1]
        } else {
            self.look_ahead
        }
    }

    pub fn new(rule: usize, index: usize, look_ahead: Symbol) -> (r: Item)
        ensures
            r == (Item { rule, index, look_ahead }),
    {
        Item { rule, index, look_ahead }
    }

    pub fn rule(&self) -> (r: usize)
        ensures
            r == self.rule,
    {
        self.rule
    }

    pub fn get_rule(&self) -> (r: usize)
        ensures
            r == self.rule,
    {
        self.rule
    }

    /// The dot position.
    pub fn index(&self) -> (r: usize)
        ensures
            r == self.index,
    {
        self.index
    }

    /// Moves the dot to `index`.
    pub fn set_index(&mut self, index: usize)
        ensures
            *final(self) == (Item { index, ..*old(self) }),
    {
        self.index = index;
    }

    pub fn look_ahead(&self) -> (r: Symbol)
        ensures
            r == self.look_ahead,
    {
        self.look_ahead
    }

    pub fn get_look_ahead(&self) -> (r: Symbol)
        ensures
            r == self.look_ahead,
    {
        self.look_ahead
    }

    /// The left-hand side of the item's rule.
    pub fn get_lhs(&self, g: &Grammar) -> (r: NonTerminal)
        requires
            self.rule < g.rules@.len(),
        ensures
            r == g.rules@[self.rule as int].lhs,
    {
        g.rules[self.rule].lhs
    }

    pub fn is_active(&self, g: &Grammar) -> (r: bool)
        requires
            self.rule < g.rules@.len(),
        ensures
            r == !self.spec_is_complete(*g),
    {
        self.index < g.rules[self.rule].symbols.len()
    }

    /// Whether the dot has consumed the whole right-hand side.
    pub fn is_complete(&self, g: &Grammar) -> (r: bool)
        requires
            self.rule < g.rules@.len(),
        ensures
            r == self.spec_is_complete(*g),
    {
        self.index >= g.rules[self.rule].symbols.len()
    }

    pub fn active_symbol(&self, g: &Grammar) -> (r: Option<Symbol>)
        requires
            self.rule < g.rules@.len(),
        ensures
            r == self.spec_active_symbol(*g),
    {
        if self.index < g.rules[self.rule].symbols.len() {
            Some(g.rules[self.rule].symbols[self.index])
        } else {
            None
        }
    }

    pub fn get_active_symbol(&self, g: &Grammar) -> (r: Option<Symbol>)
        requires
            self.rule < g.rules@.len(),
        ensures
            r == self.spec_active_symbol(*g),
    {
        self.active_symbol(g)
    }

    pub fn following_active(&self, g: &Grammar) -> (r: Symbol)
        requires
            self.rule < g.rules@.len(),
            self.index <= g.rules@[self.rule as int].symbols@.len(),
        ensures
            r == self.spec_following_active(*g),
    {
        let n = g.rules[self.rule].symbols.len();
        if self.index < n && n - self.index > 1 {
            g.rules[self.rule].symbols[self.index + 1]
        } else {
            self.look_ahead
        }
    }

    pub fn get_following_active(&self, g: &Grammar) -> (r: Symbol)
        requires
            self.rule < g.rules@.len(),
            self.index <= g.rules@[self.rule as int].symbols@.len(),
        ensures
            r == self.spec_following_active(*g),
    {
        self.following_active(g)
    }

    /// The item with the dot moved one symbol to the right, if the item is
    /// not complete.
    pub fn advance(&self, g: &Grammar) -> (r: Option<Item>)
        requires
            self.rule < g.rules@.len(),
            self.index <= g.rules@[self.rule as int].symbols@.len(),
        ensures
            r == if self.spec_is_complete(*g) {
                None::<Item>
            } else {
                Some(Item { rule: self.rule, index: (self.index + 1) as usize, ..*self })
            },
    {
        if self.index < g.rules[self.rule].symbols.len() {
            Some(Item { rule: self.rule, index: self.index + 1, look_ahead: self.look_ahead })
        } else {
            None
        }
    }

    pub fn goto(&self, g: &Grammar) -> (r: Option<Item>)
        requires
            self.rule < g.rules@.len(),
            self.index <= g.rules@[self.rule as int].symbols@.len(),
        ensures
            r == if self.spec_is_complete(*g) {
                None::<Item>
            } else {
                Some(Item { rule: self.rule, index: (self.index + 1) as usize, ..*self })
            },
    {
        self.advance(g)
    }
}

/// True when `v` holds `x` at some position.
pub fn contains_item(v: &Vec<Item>, x: Item) -> (r: bool)
    ensures
        r == v@.contains(x),
{
    let mut i: usize = 0;
    while i < v.len()
        invariant
            0 <= i <= v@.len(),
            forall|j: int| 0 <= j < i ==> v@[j] != x,
        decreases v@.len() - i,
    {
        if v[i] == x {
            assert(v@.contains(x));
            return true;
        }
        i += 1;
    }
    false
}

} // verus!
