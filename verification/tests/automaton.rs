use reel::analyser::{generate_table, Analyser, BuildError};
use reel::closure::close_items;
use reel::grammar::Grammar;
use reel::item::Item;
use reel::rule::Rule;
use reel::symbol::{NonTerminal, Symbol, Terminal};
use reel::table::Action;

fn t(id: u32) -> Symbol {
    Symbol::Terminal(Terminal::new(id))
}

fn nt(id: u32) -> Symbol {
    Symbol::NonTerminal(NonTerminal::new(id))
}

fn set(v: &[Item]) -> Vec<Item> {
    let mut out = v.to_vec();
    out.sort_by_key(|x| (x.rule, x.index, format!("{:?}", x.look_ahead)));
    out
}

/// Scenario: unit start rule `S' -> S` over `S -> id`.
fn grammar_a() -> Grammar {
    Grammar::new(
        vec![
            Rule::new(NonTerminal::new(0), vec![nt(1)], false, 0),
            Rule::new(NonTerminal::new(1), vec![t(0)], false, 0),
        ],
        0,
    )
}

#[test]
fn scenario_unit_start_rule() {
    let a = Analyser::new(grammar_a());
    // One kernel per reachable dotted configuration: the start state, the
    // accept state (dot past S), and the reduce state (dot past id).
    assert_eq!(a.states().len(), 3);
    let tb = a.table();
    // Shift on id out of state 0, into the state whose kernel is S -> id.
    assert_eq!(tb.action_for(0, t(0)), Some(Action::Shift(2)));
    // Accept on end of input in state 1, the state whose kernel is S' -> S.
    assert_eq!(tb.action_for(1, Symbol::EndOfInput), Some(Action::Accept));
    // Reduce S -> id on end of input in state 2.
    assert_eq!(tb.action_for(2, Symbol::EndOfInput), Some(Action::Reduce(1)));
    // Goto on S out of state 0 into state 1.
    assert_eq!(tb.goto_for(0, NonTerminal::new(1)), Some(1));
    assert!(tb.conflicts().is_empty());
    // State kernels, as sets.
    assert_eq!(
        set(a.states()[0].kernel()),
        set(&[Item::new(0, 0, Symbol::EndOfInput)])
    );
    assert_eq!(
        set(a.states()[1].kernel()),
        set(&[Item::new(0, 1, Symbol::EndOfInput)])
    );
    assert_eq!(
        set(a.states()[2].kernel()),
        set(&[Item::new(1, 1, Symbol::EndOfInput)])
    );
    // The accept and reduce states hold exactly one item each, complete.
    for i in [1usize, 2] {
        for it in a.states()[i].items() {
            assert!(it.is_complete(&a.grammar));
        }
    }
}

/// Scenario: left recursion.  0: S' -> E, 1: E -> E + id, 2: E -> id,
/// with id = terminal 0 and + = terminal 1.
fn grammar_b() -> Grammar {
    Grammar::new(
        vec![
            Rule::new(NonTerminal::new(0), vec![nt(1)], false, 0),
            Rule::new(NonTerminal::new(1), vec![nt(1), t(1), t(0)], false, 0),
            Rule::new(NonTerminal::new(1), vec![t(0)], false, 0),
        ],
        0,
    )
}

#[test]
fn scenario_left_recursion_terminates() {
    let a = Analyser::new(grammar_b());
    // Construction terminates and discovers exactly the five states of
    // this grammar: no runaway state growth from the recursion.
    assert_eq!(a.states().len(), 5);
    let tb = a.table();
    assert!(tb.conflicts().is_empty());
    // The automaton accepts after reducing to E.
    let goto_e = tb.goto_for(0, NonTerminal::new(1)).unwrap();
    assert_eq!(tb.action_for(goto_e, Symbol::EndOfInput), Some(Action::Accept));
    // In the accept-candidate state a + still shifts (continuing E + id).
    assert!(matches!(tb.action_for(goto_e, t(1)), Some(Action::Shift(_))));
}

/// Scenario: a genuinely ambiguous expression grammar.
/// 0: S' -> E, 1: E -> E + E, 2: E -> id.
fn grammar_c() -> Grammar {
    Grammar::new(
        vec![
            Rule::new(NonTerminal::new(0), vec![nt(1)], false, 0),
            Rule::new(NonTerminal::new(1), vec![nt(1), t(1), nt(1)], false, 0),
            Rule::new(NonTerminal::new(1), vec![t(0)], false, 0),
        ],
        0,
    )
}

#[test]
fn scenario_shift_reduce_conflict_recorded() {
    let a = Analyser::new(grammar_c());
    let tb = a.table();
    // The ambiguity surfaces as at least one shift/reduce conflict on +.
    assert!(!tb.conflicts().is_empty());
    let c = &tb.conflicts()[0];
    assert_eq!(c.symbol, t(1));
    assert!(matches!(c.first_action, Action::Shift(_)));
    assert_eq!(c.second_action, Action::Reduce(1));
    // The conflict names a real state, and that cell still holds the last
    // write.
    assert!(c.state < a.states().len());
    assert_eq!(tb.action_for(c.state, t(1)), Some(Action::Reduce(1)));
}

#[test]
fn building_twice_is_deterministic() {
    let a1 = Analyser::new(grammar_b());
    let a2 = Analyser::new(grammar_b());
    assert_eq!(a1.states().len(), a2.states().len());
    for i in 0..a1.states().len() {
        assert_eq!(a1.states()[i].kernel(), a2.states()[i].kernel());
        assert_eq!(a1.states()[i].get_closure(), a2.states()[i].get_closure());
    }
    assert_eq!(a1.table().actions(), a2.table().actions());
    assert_eq!(a1.table().gotos(), a2.table().gotos());
    assert_eq!(a1.table().conflicts(), a2.table().conflicts());
}

#[test]
fn kernels_are_pairwise_distinct() {
    let a = Analyser::new(grammar_c());
    let states = a.states();
    for i in 0..states.len() {
        for j in 0..states.len() {
            if i != j {
                assert!(!states[i].kernel_equal(&states[j]));
            }
        }
    }
}

#[test]
fn closure_is_idempotent_on_closed_sets() {
    let g = grammar_b();
    let fs = g.first_set();
    let seed = vec![Item::new(0, 0, Symbol::EndOfInput)];
    let closed_once = close_items(&g, &fs, &seed);
    assert!(closed_once.len() > seed.len());
    // Re-running the closure on an already-closed item set adds nothing.
    let closed_twice = close_items(&g, &fs, &closed_once);
    assert_eq!(closed_twice, closed_once);
}

#[test]
fn epsilon_rule_reduces_on_lookahead() {
    // 0: S' -> S, 1: S -> A B, 2: A -> (empty), 3: A -> a, 4: B -> b,
    // with a = terminal 0 and b = terminal 1.
    let g = Grammar::new(
        vec![
            Rule::new(NonTerminal::new(0), vec![nt(1)], false, 0),
            Rule::new(NonTerminal::new(1), vec![nt(2), nt(3)], false, 0),
            Rule::new(NonTerminal::new(2), vec![], false, 0),
            Rule::new(NonTerminal::new(2), vec![t(0)], false, 0),
            Rule::new(NonTerminal::new(3), vec![t(1)], false, 0),
        ],
        0,
    );
    let a = Analyser::new(g);
    let tb = a.table();
    assert!(tb.conflicts().is_empty());
    // The empty production reduces immediately in the start state, on the
    // lookahead FIRST(B) = { b } propagated through the closure.
    assert_eq!(tb.action_for(0, t(1)), Some(Action::Reduce(2)));
    // The explicit alternative still shifts the a.
    assert!(matches!(tb.action_for(0, t(0)), Some(Action::Shift(_))));
}

#[test]
fn generate_table_requires_a_start_rule() {
    let rules = vec![
        Rule::new(NonTerminal::new(0), vec![nt(1)], false, 0),
        Rule::new(NonTerminal::new(1), vec![t(0)], false, 0),
    ];
    let err = generate_table(rules.clone(), NonTerminal::new(7));
    assert_eq!(err.unwrap_err(), BuildError::MissingStartRule);
    let ok = generate_table(rules, NonTerminal::new(0));
    let tb = ok.unwrap();
    assert_eq!(tb.action_for(0, t(0)), Some(Action::Shift(2)));
    assert!(tb.conflicts().is_empty());
}

#[test]
fn every_state_is_a_recorded_target() {
    for g in [grammar_a(), grammar_b(), grammar_c()] {
        let a = Analyser::new(g);
        let tb = a.table();
        for i in 1..a.states().len() {
            let in_goto = tb.gotos().iter().any(|e| e.to_state == i);
            let in_shift = tb.actions().iter().any(|e| e.action == Action::Shift(i));
            let in_conflict = tb.conflicts().iter().any(|c| {
                c.first_action == Action::Shift(i) || c.second_action == Action::Shift(i)
            });
            assert!(in_goto || in_shift || in_conflict);
        }
        // Every conflict names a real state and an occupied cell.
        for c in tb.conflicts() {
            assert!(c.state < a.states().len());
            assert!(tb.action_for(c.state, c.symbol).is_some());
        }
    }
}

#[test]
fn reduce_actions_never_leave_the_rule_range() {
    let a = Analyser::new(grammar_c());
    for e in a.table().actions() {
        match e.action {
            Action::Reduce(r) => assert!(r < a.grammar.rules().len()),
            Action::Shift(s) => assert!(s < a.states().len()),
            _ => {}
        }
    }
    for e in a.table().gotos() {
        assert!(e.to_state < a.states().len());
    }
}
