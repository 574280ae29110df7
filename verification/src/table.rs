//! The action/goto table: shift/reduce/accept/error decisions keyed by
//! (state, symbol), goto transitions keyed by (state, nonterminal), and the
//! conflicts recorded when a cell is written twice.

use vstd::prelude::*;

use crate::symbol::{NonTerminal, Symbol};

verus! {

broadcast use vstd::seq_lib::lemma_seq_contains_after_push;

/// A parser decision.  `Reduce` and `Shift` carry a rule index and a state
/// index respectively.
#[derive(Clone, Copy, Debug, PartialEq, Eq, Structural, Hash)]
pub enum Action {
    Shift(usize),
    Reduce(usize),
    Accept,
    Error,
}

/// A second action computed for an already-occupied cell: both actions,
/// the offending symbol, and the state.
#[derive(Clone, Copy, Debug, PartialEq, Eq, Structural, Hash)]
pub struct Conflict {
    pub first_action: Action,
    pub second_action: Action,
    pub symbol: Symbol,
    pub state: usize,
}

/// One cell of the action table.
#[derive(Clone, Copy, Debug, PartialEq, Eq, Structural, Hash)]
pub struct ActionEntry {
    pub state: usize,
    pub symbol: Symbol,
    pub action: Action,
}

/// One cell of the goto table.
#[derive(Clone, Copy, Debug, PartialEq, Eq, Structural, Hash)]
pub struct GotoEntry {
    pub state: usize,
    pub lhs: NonTerminal,
    pub to_state: usize,
}

/// The table under construction: action cells, goto cells, and the
/// conflicts accumulated so far, in insertion order.
#[derive(Clone, Debug)]
pub struct Table {
    pub action: Vec<ActionEntry>,
    pub goto: Vec<GotoEntry>,
    pub conflicts: Vec<Conflict>,
}

/// An action cell for `(state, symbol)` exists.
pub open spec fn has_action(es: Seq<ActionEntry>, state: usize, symbol: Symbol) -> bool {
    exists|k: int|
        0 <= k < es.len() && (#[trigger] es[k]).state == state && es[k].symbol == symbol
}

/// The position of the action cell for `(state, symbol)`.
pub open spec fn action_idx(es: Seq<ActionEntry>, state: usize, symbol: Symbol) -> int {
    choose|k: int|
        0 <= k < es.len() && (#[trigger] es[k]).state == state && es[k].symbol == symbol
}

/// The action recorded for `(state, symbol)`, if any.
pub open spec fn spec_action_of(es: Seq<ActionEntry>, state: usize, symbol: Symbol) -> Option<
    Action,
> {
    if has_action(es, state, symbol) {
        Some(es[action_idx(es, state, symbol)].action)
    } else {
        None
    }
}

/// A goto cell for `(state, lhs)` exists.
pub open spec fn has_goto(es: Seq<GotoEntry>, state: usize, lhs: NonTerminal) -> bool {
    exists|k: int| 0 <= k < es.len() && (#[trigger] es[k]).state == state && es[k].lhs == lhs
}

/// The position of the goto cell for `(state, lhs)`.
pub open spec fn goto_idx(es: Seq<GotoEntry>, state: usize, lhs: NonTerminal) -> int {
    choose|k: int| 0 <= k < es.len() && (#[trigger] es[k]).state == state && es[k].lhs == lhs
}

/// The goto target recorded for `(state, lhs)`, if any.
pub open spec fn spec_goto_of(es: Seq<GotoEntry>, state: usize, lhs: NonTerminal) -> Option<
    usize,
> {
    if has_goto(es, state, lhs) {
        Some(es[goto_idx(es, state, lhs)].to_state)
    } else {
        None
    }
}

/// What `insert_action` does: overwrite an occupied cell and record the
/// conflict, or append a fresh cell; the goto table is untouched.
pub open spec fn action_insert_spec(
    pre: Table,
    post: Table,
    state: usize,
    symbol: Symbol,
    action: Action,
) -> bool {
    &&& post.goto@ == pre.goto@
    &&& if has_action(pre.action@, state, symbol) {
        let k = action_idx(pre.action@, state, symbol);
        &&& post.action@ == pre.action@.update(k, ActionEntry { state, symbol, action })
        &&& post.conflicts@ == pre.conflicts@.push(
            Conflict {
                first_action: pre.action@[k].action,
                second_action: action,
                symbol,
                state,
            },
        )
    } else {
        &&& post.action@ == pre.action@.push(ActionEntry { state, symbol, action })
        &&& post.conflicts@ == pre.conflicts@
    }
}

/// What `insert_goto` does: overwrite an occupied cell or append a fresh
/// one, silently; the action table and the conflicts are untouched.
pub open spec fn goto_insert_spec(
    pre: Table,
    post: Table,
    state: usize,
    lhs: NonTerminal,
    to_state: usize,
) -> bool {
    &&& post.action@ == pre.action@
    &&& post.conflicts@ == pre.conflicts@
    &&& if has_goto(pre.goto@, state, lhs) {
        post.goto@ == pre.goto@.update(
            goto_idx(pre.goto@, state, lhs),
            GotoEntry { state, lhs, to_state },
        )
    } else {
        post.goto@ == pre.goto@.push(GotoEntry { state, lhs, to_state })
    }
}

impl Table {
    /// Each (state, symbol) cell and each (state, nonterminal) cell occurs
    /// at most once.
    pub open spec fn wf(self) -> bool {
        &&& forall|k1: int, k2: int|
            0 <= k1 < k2 < self.action@.len() ==> !((#[trigger] self.action@[k1]).state == (
            #[trigger] self.action@[k2]).state && self.action@[k1].symbol
                == self.action@[k2].symbol)
        &&& forall|k1: int, k2: int|
            0 <= k1 < k2 < self.goto@.len() ==> !((#[trigger] self.goto@[k1]).state == (
            #[trigger] self.goto@[k2]).state && self.goto@[k1].lhs == self.goto@[k2].lhs)
    }

    pub fn new() -> (r: Table)
        ensures
            r.action@.len() == 0,
            r.goto@.len() == 0,
            r.conflicts@.len() == 0,
            r.wf(),
    {
        Table { action: Vec::new(), goto: Vec::new(), conflicts: Vec::new() }
    }

    /// The position of the action cell for `(state, symbol)`, if occupied.
    fn find_action(&self, state: usize, symbol: Symbol) -> (r: Option<usize>)
        ensures
            match r {
                Some(k) => k < self.action@.len() && self.action@[k as int].state == state
                    && self.action@[k as int].symbol == symbol,
                None => !has_action(self.action@, state, symbol),
            },
    {
        let mut i: usize = 0;
        while i < self.action.len()
            invariant
                0 <= i <= self.action@.len(),
                forall|j: int|
                    0 <= j < i ==> !((#[trigger] self.action@[j]).state == state
                        && self.action@[j].symbol == symbol),
            decreases self.action@.len() - i,
        {
            if self.action[i].state == state && self.action[i].symbol == symbol {
                return Some(i);
            }
            i += 1;
        }
        None
    }

    /// The position of the goto cell for `(state, lhs)`, if occupied.
    fn find_goto(&self, state: usize, lhs: NonTerminal) -> (r: Option<usize>)
        ensures
            match r {
                Some(k) => k < self.goto@.len() && self.goto@[k as int].state == state
                    && self.goto@[k as int].lhs == lhs,
                None => !has_goto(self.goto@, state, lhs),
            },
    {
        let mut i: usize = 0;
        while i < self.goto.len()
            invariant
                0 <= i <= self.goto@.len(),
                forall|j: int|
                    0 <= j < i ==> !((#[trigger] self.goto@[j]).state == state
                        && self.goto@[j].lhs == lhs),
            decreases self.goto@.len() - i,
        {
            if self.goto[i].state == state && self.goto[i].lhs == lhs {
                return Some(i);
            }
            i += 1;
        }
        None
    }

    /// Writes `action` into the cell `(state, terminal)`.  A prior entry is
    /// overwritten (last write wins) and a conflict recording both actions
    /// is appended; callers decide conflict policy.
    pub fn insert_action(&mut self, state: usize, terminal: Symbol, action: Action)
        requires
            old(self).wf(),
        ensures
            final(self).wf(),
            action_insert_spec(*old(self), *final(self), state, terminal, action),
            spec_action_of(final(self).action@, state, terminal) == Some(action),
    {
        match self.find_action(state, terminal) {
            Some(k) => {
                proof {
                    let ki = action_idx(self.action@, state, terminal);
                    assert(has_action(self.action@, state, terminal));
                    if ki != k {
                        assert(false);
                    }
                }
                let prior = self.action[k].action;
                self.conflicts.push(
                    Conflict {
                        first_action: prior,
                        second_action: action,
                        symbol: terminal,
                        state,
                    },
                );
                self.action[k] = ActionEntry { state, symbol: terminal, action };
                proof {
                    let es = self.action@;
                    assert(es[k as int].state == state && es[k as int].symbol == terminal);
                    assert(has_action(es, state, terminal));
                    let ki2 = action_idx(es, state, terminal);
                    if ki2 != k {
                        assert(false);
                    }
                }
            }
            None => {
                self.action.push(ActionEntry { state, symbol: terminal, action });
                proof {
                    let es = self.action@;
                    assert(es[es.len() - 1].state == state && es[es.len() - 1].symbol == terminal);
                    assert(has_action(es, state, terminal));
                    let ki2 = action_idx(es, state, terminal);
                    if ki2 != es.len() - 1 {
                        assert(false);
                    }
                }
            }
        }
    }

    /// Writes `to_state` into the cell `(state, lhs)` of the goto table;
    /// a prior entry is overwritten silently.
    pub fn insert_goto(&mut self, state: usize, lhs: NonTerminal, to_state: usize)
        requires
            old(self).wf(),
        ensures
            final(self).wf(),
            goto_insert_spec(*old(self), *final(self), state, lhs, to_state),
            spec_goto_of(final(self).goto@, state, lhs) == Some(to_state),
    {
        match self.find_goto(state, lhs) {
            Some(k) => {
                proof {
                    let ki = goto_idx(self.goto@, state, lhs);
                    assert(has_goto(self.goto@, state, lhs));
                    if ki != k {
                        assert(false);
                    }
                }
                self.goto[k] = GotoEntry { state, lhs, to_state };
                proof {
                    let es = self.goto@;
                    assert(es[k as int].state == state && es[k as int].lhs == lhs);
                    assert(has_goto(es, state, lhs));
                    let ki2 = goto_idx(es, state, lhs);
                    if ki2 != k {
                        assert(false);
                    }
                }
            }
            None => {
                self.goto.push(GotoEntry { state, lhs, to_state });
                proof {
                    let es = self.goto@;
                    assert(es[es.len() - 1].state == state && es[es.len() - 1].lhs == lhs);
                    assert(has_goto(es, state, lhs));
                    let ki2 = goto_idx(es, state, lhs);
                    if ki2 != es.len() - 1 {
                        assert(false);
                    }
                }
            }
        }
    }

    pub fn actions(&self) -> (r: &Vec<ActionEntry>)
        ensures
            r@ == self.action@,
    {
        &self.action
    }

    pub fn get_actions(&self) -> (r: &Vec<ActionEntry>)
        ensures
            r@ == self.action@,
    {
        &self.action
    }

    pub fn gotos(&self) -> (r: &Vec<GotoEntry>)
        ensures
            r@ == self.goto@,
    {
        &self.goto
    }

    pub fn get_gotos(&self) -> (r: &Vec<GotoEntry>)
        ensures
            r@ == self.goto@,
    {
        &self.goto
    }

    pub fn conflicts(&self) -> (r: &Vec<Conflict>)
        ensures
            r@ == self.conflicts@,
    {
        &self.conflicts
    }

    /// The action recorded for `(state, terminal)`, if any.
    pub fn action_for(&self, state: usize, terminal: Symbol) -> (r: Option<Action>)
        requires
            self.wf(),
        ensures
            r == spec_action_of(self.action@, state, terminal),
    {
        match self.find_action(state, terminal) {
            Some(k) => {
                proof {
                    assert(has_action(self.action@, state, terminal));
                    let ki = action_idx(self.action@, state, terminal);
                    if ki != k {
                        assert(false);
                    }
                }
                Some(self.action[k].action)
            }
            None => None,
        }
    }

    /// The goto target recorded for `(state, lhs)`, if any.
    pub fn goto_for(&self, state: usize, lhs: NonTerminal) -> (r: Option<usize>)
        requires
            self.wf(),
        ensures
            r == spec_goto_of(self.goto@, state, lhs),
    {
        match self.find_goto(state, lhs) {
            Some(k) => {
                proof {
                    assert(has_goto(self.goto@, state, lhs));
                    let ki = goto_idx(self.goto@, state, lhs);
                    if ki != k {
                        assert(false);
                    }
                }
                Some(self.goto[k].to_state)
            }
            None => None,
        }
    }
}

/// Writing a second action into an occupied cell leaves the second action
/// in the cell and appends a conflict that records the displaced action,
/// the new one, the symbol and the state: two decisions never share a cell
/// silently.
pub proof fn lemma_second_action_records_conflict(
    t0: Table,
    t1: Table,
    t2: Table,
    state: usize,
    symbol: Symbol,
    a1: Action,
    a2: Action,
)
    requires
        t0.wf(),
        !has_action(t0.action@, state, symbol),
        action_insert_spec(t0, t1, state, symbol, a1),
        action_insert_spec(t1, t2, state, symbol, a2),
    ensures
        t2.conflicts@ == t1.conflicts@.push(
            Conflict { first_action: a1, second_action: a2, symbol, state },
        ),
        t1.conflicts@ == t0.conflicts@,
{
    let es1 = t1.action@;
    assert(es1[es1.len() - 1].state == state && es1[es1.len() - 1].symbol == symbol);
    assert(has_action(es1, state, symbol));
    let k = action_idx(es1, state, symbol);
    assert(0 <= k < es1.len() && es1[k].state == state && es1[k].symbol == symbol);
    if k != es1.len() - 1 {
        assert(t0.action@[k].state == state && t0.action@[k].symbol == symbol);
        assert(has_action(t0.action@, state, symbol));
        assert(false);
    }
    assert(es1[k].action == a1);
}

} // verus!
