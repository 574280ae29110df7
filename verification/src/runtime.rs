//! The runtime side of a generated parser: the token/state stacks a
//! table-driven shift-reduce driver maintains.

use vstd::prelude::*;

verus! {

/// A token handed to the parser driver: a source span and a kind tag.
pub struct Token<T> {
    pub span: (usize, usize),
    pub kind: T,
}

impl<T: Copy> Clone for Token<T> {
    fn clone(&self) -> (r: Self)
        ensures
            r == *self,
    {
        Token { span: self.span, kind: self.kind }
    }
}

impl<T: Copy> Copy for Token<T> {

}

/// The mutable state of a running parse: the token stream with a cursor,
/// the shifted tokens, the rules reduced so far, and the state stack,
/// which starts holding state zero.
pub struct ParseState<T> {
    pub tokens: Vec<Token<T>>,
    pub pos: usize,
    pub token_stack: Vec<Token<T>>,
    pub rule_stack: Vec<usize>,
    pub state_stack: Vec<usize>,
}

impl<T> ParseState<T> {
    pub fn new(tokens: Vec<Token<T>>) -> (r: ParseState<T>)
        ensures
            r.tokens@ == tokens@,
            r.pos == 0,
            r.token_stack@.len() == 0,
            r.rule_stack@.len() == 0,
            r.state_stack@ == seq![0usize],
    {
        let mut state_stack: Vec<usize> = Vec::new();
        state_stack.push(0);
        ParseState { tokens, pos: 0, token_stack: Vec::new(), rule_stack: Vec::new(), state_stack }
    }

    /// Pushes a shifted token.
    pub fn push_token(&mut self, token: Token<T>)
        ensures
            final(self).token_stack@ == old(self).token_stack@.push(token),
            final(self).tokens@ == old(self).tokens@,
            final(self).pos == old(self).pos,
            final(self).rule_stack@ == old(self).rule_stack@,
            final(self).state_stack@ == old(self).state_stack@,
    {
        self.token_stack.push(token);
    }

    /// Pushes a state index.
    pub fn push_state(&mut self, state: usize)
        ensures
            final(self).state_stack@ == old(self).state_stack@.push(state),
            final(self).tokens@ == old(self).tokens@,
            final(self).pos == old(self).pos,
            final(self).rule_stack@ == old(self).rule_stack@,
            final(self).token_stack@ == old(self).token_stack@,
    {
        self.state_stack.push(state);
    }

    /// Pops the top state, if any.
    pub fn pop_state(&mut self)
        ensures
            final(self).state_stack@ == if old(self).state_stack@.len() > 0 {
                old(self).state_stack@.drop_last()
            } else {
                old(self).state_stack@
            },
            final(self).tokens@ == old(self).tokens@,
            final(self).pos == old(self).pos,
            final(self).rule_stack@ == old(self).rule_stack@,
            final(self).token_stack@ == old(self).token_stack@,
    {
        let _ = self.state_stack.pop();
    }

    /// Records a reduced rule.
    pub fn push_rule(&mut self, rule: usize)
        ensures
            final(self).rule_stack@ == old(self).rule_stack@.push(rule),
            final(self).tokens@ == old(self).tokens@,
            final(self).pos == old(self).pos,
            final(self).token_stack@ == old(self).token_stack@,
            final(self).state_stack@ == old(self).state_stack@,
    {
        self.rule_stack.push(rule);
    }

    /// The state on top of the stack, which must not be empty.
    pub fn state(&self) -> (r: usize)
        requires
            self.state_stack@.len() > 0,
        ensures
            r == self.state_stack@.last(),
    {
        self.state_stack[self.state_stack.len() - 1]
    }
}

impl<T: Copy> ParseState<T> {
    /// Takes the next input token, advancing the cursor.
    pub fn next_token(&mut self) -> (r: Option<Token<T>>)
        requires
            old(self).pos <= old(self).tokens@.len(),
        ensures
            final(self).tokens@ == old(self).tokens@,
            final(self).token_stack@ == old(self).token_stack@,
            final(self).rule_stack@ == old(self).rule_stack@,
            final(self).state_stack@ == old(self).state_stack@,
            match r {
                Some(t) => old(self).pos < old(self).tokens@.len() && t == old(self).tokens@[old(
                    self,
                ).pos as int] && final(self).pos == old(self).pos + 1,
                None => old(self).pos == old(self).tokens@.len() && final(self).pos == old(
                    self,
                ).pos,
            },
    {
        if self.pos < self.tokens.len() {
            let t = self.tokens[self.pos];
            self.pos = self.pos + 1;
            Some(t)
        } else {
            None
        }
    }

    /// The next input token, without advancing.
    pub fn current_token(&self) -> (r: Option<Token<T>>)
        requires
            self.pos <= self.tokens@.len(),
        ensures
            match r {
                Some(t) => self.pos < self.tokens@.len() && t == self.tokens@[self.pos as int],
                None => self.pos == self.tokens@.len(),
            },
    {
        if self.pos < self.tokens.len() {
            Some(self.tokens[self.pos])
        } else {
            None
        }
    }

    /// A shift: push the token and the target state, and consume one
    /// input token.
    pub fn shift(&mut self, shift_state: usize, token: Token<T>)
        requires
            old(self).pos <= old(self).tokens@.len(),
        ensures
            final(self).tokens@ == old(self).tokens@,
            final(self).token_stack@ == old(self).token_stack@.push(token),
            final(self).state_stack@ == old(self).state_stack@.push(shift_state),
            final(self).rule_stack@ == old(self).rule_stack@,
            final(self).pos == if old(self).pos < old(self).tokens@.len() {
                old(self).pos + 1
            } else {
                old(self).pos as int
            },
    {
        self.push_token(token);
        self.push_state(shift_state);
        let _ = self.next_token();
    }

    /// A reduction's bookkeeping: record the rule and pop the top state;
    /// the caller follows the goto table from the exposed state.
    pub fn reduce(&mut self, rule_index: usize)
        ensures
            final(self).tokens@ == old(self).tokens@,
            final(self).pos == old(self).pos,
            final(self).token_stack@ == old(self).token_stack@,
            final(self).rule_stack@ == old(self).rule_stack@.push(rule_index),
            final(self).state_stack@ == if old(self).state_stack@.len() > 0 {
                old(self).state_stack@.drop_last()
            } else {
                old(self).state_stack@
            },
    {
        self.push_rule(rule_index);
        self.pop_state();
    }
}

} // verus!
