use reel::grammar::Grammar;
use reel::rule::Rule;
use reel::symbol::{NonTerminal, Symbol, Terminal};

fn t(id: u32) -> Symbol {
    Symbol::Terminal(Terminal::new(id))
}

fn nt(id: u32) -> Symbol {
    Symbol::NonTerminal(NonTerminal::new(id))
}

fn sorted(v: &[Symbol]) -> Vec<Symbol> {
    let mut out: Vec<Symbol> = v.to_vec();
    out.sort_by_key(|s| match s {
        Symbol::Terminal(x) => (0, x.id),
        Symbol::NonTerminal(x) => (1, x.id),
        Symbol::EndOfInput => (2, 0),
    });
    out
}

#[test]
fn first_of_terminal_is_itself() {
    // 0: S' -> S, 1: S -> a b
    let g = Grammar::new(
        vec![
            Rule::new(NonTerminal::new(0), vec![nt(1)], false, 0),
            Rule::new(NonTerminal::new(1), vec![t(0), t(1)], false, 0),
        ],
        0,
    );
    let fs = g.first_set();
    assert_eq!(fs.get(t(0)).unwrap().as_slice(), &[t(0)]);
    assert_eq!(fs.get(t(1)).unwrap().as_slice(), &[t(1)]);
    assert_eq!(
        fs.get(Symbol::EndOfInput).unwrap().as_slice(),
        &[Symbol::EndOfInput]
    );
    assert!(!fs.nullable(t(0)));
    assert!(!fs.nullable(Symbol::EndOfInput));
    // A symbol absent from the grammar has no row.
    assert!(fs.get(t(9)).is_none());
    assert!(!fs.nullable(t(9)));
}

#[test]
fn first_propagates_through_derivations() {
    // 0: S' -> S, 1: S -> A b, 2: A -> a, 3: A -> c
    let g = Grammar::new(
        vec![
            Rule::new(NonTerminal::new(0), vec![nt(1)], false, 0),
            Rule::new(NonTerminal::new(1), vec![nt(2), t(1)], false, 0),
            Rule::new(NonTerminal::new(2), vec![t(0)], false, 0),
            Rule::new(NonTerminal::new(2), vec![t(2)], false, 0),
        ],
        0,
    );
    let fs = g.first_set();
    assert_eq!(sorted(fs.get(nt(2)).unwrap()), vec![t(0), t(2)]);
    assert_eq!(sorted(fs.get(nt(1)).unwrap()), vec![t(0), t(2)]);
    assert_eq!(sorted(fs.get(nt(0)).unwrap()), vec![t(0), t(2)]);
    assert!(!fs.nullable(nt(1)));
    assert!(!fs.nullable(nt(2)));
}

#[test]
fn nullability_and_first_past_nullable_prefix() {
    // 0: S' -> S, 1: S -> A B, 2: A -> (empty), 3: A -> a, 4: B -> b
    let g = Grammar::new(
        vec![
            Rule::new(NonTerminal::new(0), vec![nt(1)], false, 0),
            Rule::new(NonTerminal::new(1), vec![nt(2), nt(3)], false, 0),
            Rule::new(NonTerminal::new(2), vec![], false, 0),
            Rule::new(NonTerminal::new(2), vec![t(0)], false, 0),
            Rule::new(NonTerminal::new(3), vec![t(1)], false, 0),
        ],
        0,
    );
    let fs = g.first_set();
    // A derives the empty string; S and S' do not (B does not).
    assert!(fs.nullable(nt(2)));
    assert!(!fs.nullable(nt(3)));
    assert!(!fs.nullable(nt(1)));
    assert!(!fs.nullable(nt(0)));
    // FIRST(S) sees through the nullable A to b.
    assert_eq!(sorted(fs.get(nt(2)).unwrap()), vec![t(0)]);
    assert_eq!(sorted(fs.get(nt(1)).unwrap()), vec![t(0), t(1)]);
}

#[test]
fn nullability_propagates_upward() {
    // 0: S' -> S, 1: S -> A A, 2: A -> (empty)
    let g = Grammar::new(
        vec![
            Rule::new(NonTerminal::new(0), vec![nt(1)], false, 0),
            Rule::new(NonTerminal::new(1), vec![nt(2), nt(2)], false, 0),
            Rule::new(NonTerminal::new(2), vec![], false, 0),
        ],
        0,
    );
    let fs = g.first_set();
    assert!(fs.nullable(nt(2)));
    assert!(fs.nullable(nt(1)));
    assert!(fs.nullable(nt(0)));
    // Nothing can begin a derivation from these: all FIRST sets are empty.
    assert!(fs.get(nt(1)).unwrap().is_empty());
    assert!(fs.get(nt(2)).unwrap().is_empty());
}

#[test]
fn left_recursive_first_terminates() {
    // 0: S' -> E, 1: E -> E + id, 2: E -> id
    let g = Grammar::new(
        vec![
            Rule::new(NonTerminal::new(0), vec![nt(1)], false, 0),
            Rule::new(NonTerminal::new(1), vec![nt(1), t(1), t(0)], false, 0),
            Rule::new(NonTerminal::new(1), vec![t(0)], false, 0),
        ],
        0,
    );
    let fs = g.first_set();
    assert_eq!(sorted(fs.get(nt(1)).unwrap()), vec![t(0)]);
    assert!(!fs.nullable(nt(1)));
}
