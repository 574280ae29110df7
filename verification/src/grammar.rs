//! The grammar: an ordered rule list with a designated start rule.

use vstd::prelude::*;

use crate::rule::Rule;
use crate::symbol::{contains_symbol, NonTerminal, Symbol};

verus! {

broadcast use vstd::seq_lib::lemma_seq_contains_after_push;

/// An ordered list of rules plus the index of the distinguished start rule.
/// The caller supplies an explicit unit start rule (`S' -> S`); the grammar
/// is read-only after construction, and every other structure refers to a
/// rule by its index in `rules`.
#[derive(Clone, Debug)]
pub struct Grammar {
    pub rules: Vec<Rule>,
    pub start_rule: usize,
}

/// `s` occurs in the grammar: as a rule's left-hand side, on a right-hand
/// side, or as the end-of-input sentinel.
pub open spec fn sym_in_grammar(g: Grammar, s: Symbol) -> bool {
    ||| s == Symbol::EndOfInput
    ||| exists|i: int| 0 <= i < g.rules@.len() && #[trigger] g.rules@[i].lhs_sym() == s
    ||| exists|i: int, j: int|
        0 <= i < g.rules@.len() && 0 <= j < g.rules@[i].symbols@.len()
            && #[trigger] g.rules@[i].symbols@[j] == s
}

impl Grammar {
    /// The start index designates an actual rule.
    pub open spec fn wf(self) -> bool {
        self.start_rule < self.rules@.len()
    }

    pub fn new(rules: Vec<Rule>, start_rule: usize) -> (r: Grammar)
        requires
            start_rule < rules@.len(),
        ensures
            r == (Grammar { rules, start_rule }),
            r.rules@ == rules@,
            r.start_rule == start_rule,
            r.wf(),
    {
        Grammar { rules, start_rule }
    }

    pub fn rules(&self) -> (r: &Vec<Rule>)
        ensures
            r@ == self.rules@,
    {
        &self.rules
    }

    /// The designated start rule itself.
    pub fn start_rule(&self) -> (r: &Rule)
        requires
            self.wf(),
        ensures
            *r == self.rules@[self.start_rule as int],
    {
        &self.rules[self.start_rule]
    }

    /// The indices of exactly the rules whose left-hand side is `lhs`, in
    /// increasing order.
    pub fn rules_by_lhs(&self, lhs: NonTerminal) -> (r: Vec<usize>)
        ensures
            forall|k1: int, k2: int| 0 <= k1 < k2 < r@.len() ==> r@[k1] < r@[k2],
            forall|k: int| 0 <= k < r@.len() ==> #[trigger] r@[k] < self.rules@.len(),
            forall|k: int| 0 <= k < r@.len() ==> self.rules@[#[trigger] r@[k] as int].lhs == lhs,
            forall|i: int|
                0 <= i < self.rules@.len() && self.rules@[i].lhs == lhs ==> r@.contains(i as usize),
    {
        let mut r: Vec<usize> = Vec::new();
        let mut i: usize = 0;
        while i < self.rules.len()
            invariant
                0 <= i <= self.rules@.len(),
                forall|k1: int, k2: int| 0 <= k1 < k2 < r@.len() ==> r@[k1] < r@[k2],
                forall|k: int| 0 <= k < r@.len() ==> #[trigger] r@[k] < i,
                forall|k: int| 0 <= k < r@.len() ==> self.rules@[#[trigger] r@[k] as int].lhs == lhs,
                forall|j: int|
                    0 <= j < i && self.rules@[j].lhs == lhs ==> r@.contains(j as usize),
            decreases self.rules@.len() - i,
        {
            if self.rules[i].lhs == lhs {
                r.push(i);
                assert(r@[r@.len() - 1] == i);
            }
            assert(forall|j: int|
                0 <= j < i && self.rules@[j].lhs == lhs ==> r@.contains(j as usize));
            i += 1;
        }
        r
    }

    /// Every symbol occurring in the grammar, the end-of-input sentinel
    /// included, each exactly once.
    pub fn unique_symbols(&self) -> (r: Vec<Symbol>)
        ensures
            r@.no_duplicates(),
            forall|s: Symbol| #[trigger] r@.contains(s) <==> sym_in_grammar(*self, s),
    {
        let mut r: Vec<Symbol> = Vec::new();
        r.push(Symbol::EndOfInput);
        let mut i: usize = 0;
        while i < self.rules.len()
            invariant
                0 <= i <= self.rules@.len(),
                r@.no_duplicates(),
                r@.contains(Symbol::EndOfInput),
                forall|ii: int|
                    0 <= ii < i ==> r@.contains(#[trigger] self.rules@[ii].lhs_sym()),
                forall|ii: int, j: int|
                    0 <= ii < i && 0 <= j < self.rules@[ii].symbols@.len() ==> r@.contains(
                        #[trigger] self.rules@[ii].symbols@[j],
                    ),
                forall|s: Symbol| #[trigger] r@.contains(s) ==> sym_in_grammar(*self, s),
            decreases self.rules@.len() - i,
        {
            let lhs_sym = self.rules[i].lhs_as_sym();
            if !contains_symbol(&r, lhs_sym) {
                r.push(lhs_sym);
                assert(r@[r@.len() - 1] == lhs_sym);
            }
            let n = self.rules[i].symbols.len();
            let mut j: usize = 0;
            while j < n
                invariant
                    0 <= j <= n,
                    n == self.rules@[i as int].symbols@.len(),
                    0 <= i < self.rules@.len(),
                    r@.no_duplicates(),
                    r@.contains(Symbol::EndOfInput),
                    forall|ii: int|
                        0 <= ii < i ==> r@.contains(#[trigger] self.rules@[ii].lhs_sym()),
                    r@.contains(self.rules@[i as int].lhs_sym()),
                    forall|ii: int, jj: int|
                        0 <= ii < i && 0 <= jj < self.rules@[ii].symbols@.len() ==> r@.contains(
                            #[trigger] self.rules@[ii].symbols@[jj],
                        ),
                    forall|jj: int|
                        0 <= jj < j ==> r@.contains(#[trigger] self.rules@[i as int].symbols@[jj]),
                    forall|s: Symbol| #[trigger] r@.contains(s) ==> sym_in_grammar(*self, s),
                decreases n - j,
            {
                let s = self.rules[i].symbols[j];
                if !contains_symbol(&r, s) {
                    r.push(s);
                    assert(r@[r@.len() - 1] == s);
                }
                j += 1;
            }
            i += 1;
        }
        r
    }
}

} // verus!
