use reel::grammar::Grammar;
use reel::item::Item;
use reel::itemset::ItemSet;
use reel::rule::Rule;
use reel::symbol::{NonTerminal, Symbol, Terminal};
use reel::table::{Action, Conflict, Table};

fn t(id: u32) -> Symbol {
    Symbol::Terminal(Terminal::new(id))
}

fn nt(id: u32) -> Symbol {
    Symbol::NonTerminal(NonTerminal::new(id))
}

#[test]
fn symbol_accessors() {
    assert!(t(3).is_terminal());
    assert!(!nt(3).is_terminal());
    assert!(!Symbol::EndOfInput.is_terminal());
    assert_eq!(t(3).terminal(), Some(Terminal::new(3)));
    assert_eq!(nt(3).terminal(), None);
    assert_eq!(nt(4).non_terminal(), Some(NonTerminal::new(4)));
    assert_eq!(t(4).non_terminal(), None);
    assert_eq!(t(1), t(1));
    assert_ne!(t(1), t(2));
    assert_ne!(t(1), nt(1));
}

#[test]
fn rule_accessors() {
    let r = Rule::new(NonTerminal::new(7), vec![t(1), nt(2)], true, 5);
    assert_eq!(r.lhs(), NonTerminal::new(7));
    assert_eq!(r.get_lhs(), NonTerminal::new(7));
    assert_eq!(r.lhs_as_sym(), nt(7));
    assert_eq!(r.get_lhs_as_sym(), nt(7));
    assert_eq!(r.symbols().as_slice(), &[t(1), nt(2)]);
    assert_eq!(r.get_symbols().as_slice(), &[t(1), nt(2)]);
    assert!(r.keep_all);
    assert_eq!(r.priority, 5);
}

fn tiny_grammar() -> Grammar {
    // 0: S' -> S   (start)
    // 1: S  -> id S
    // 2: S  -> id
    Grammar::new(
        vec![
            Rule::new(NonTerminal::new(0), vec![nt(1)], false, 0),
            Rule::new(NonTerminal::new(1), vec![t(0), nt(1)], false, 0),
            Rule::new(NonTerminal::new(1), vec![t(0)], false, 0),
        ],
        0,
    )
}

#[test]
fn grammar_accessors() {
    let g = tiny_grammar();
    assert_eq!(g.rules().len(), 3);
    assert_eq!(g.start_rule().lhs(), NonTerminal::new(0));
    assert_eq!(g.rules_by_lhs(NonTerminal::new(1)), vec![1, 2]);
    assert_eq!(g.rules_by_lhs(NonTerminal::new(0)), vec![0]);
    assert_eq!(g.rules_by_lhs(NonTerminal::new(9)), Vec::<usize>::new());
    let uni = g.unique_symbols();
    assert!(uni.contains(&Symbol::EndOfInput));
    assert!(uni.contains(&nt(0)));
    assert!(uni.contains(&nt(1)));
    assert!(uni.contains(&t(0)));
    assert_eq!(uni.len(), 4);
}

#[test]
fn item_accessors() {
    let g = tiny_grammar();
    let it = Item::new(1, 0, Symbol::EndOfInput);
    assert_eq!(it.rule(), 1);
    assert_eq!(it.get_rule(), 1);
    assert_eq!(it.index(), 0);
    assert_eq!(it.look_ahead(), Symbol::EndOfInput);
    assert_eq!(it.get_look_ahead(), Symbol::EndOfInput);
    assert_eq!(it.get_lhs(&g), NonTerminal::new(1));
    assert!(it.is_active(&g));
    assert_eq!(it.active_symbol(&g), Some(t(0)));
    assert_eq!(it.get_active_symbol(&g), Some(t(0)));
    // Dot before the last symbol: the following symbol is the lookahead.
    assert_eq!(it.following_active(&g), nt(1));
    assert_eq!(it.get_following_active(&g), nt(1));
    let it2 = it.advance(&g).unwrap();
    assert_eq!(it2, Item::new(1, 1, Symbol::EndOfInput));
    assert_eq!(it.goto(&g), Some(it2));
    assert_eq!(it2.following_active(&g), Symbol::EndOfInput);
    let done = it2.advance(&g).unwrap();
    assert!(!done.is_active(&g));
    assert_eq!(done.advance(&g), None);
    assert_eq!(done.active_symbol(&g), None);
    let mut m = it;
    m.set_index(2);
    assert_eq!(m, Item::new(1, 2, Symbol::EndOfInput));
}

#[test]
fn itemset_partitions() {
    let a = Item::new(0, 0, Symbol::EndOfInput);
    let b = Item::new(1, 0, Symbol::EndOfInput);
    let c = Item::new(2, 0, Symbol::EndOfInput);
    let mut s = ItemSet::new();
    assert!(s.insert_kernel(a));
    assert!(!s.insert_kernel(a));
    assert!(s.insert_kernel(b));
    assert_eq!(s.kernel().len(), 2);
    assert_eq!(s.get_kernel().len(), 2);
    assert!(s.insert_closure(c));
    assert!(!s.insert_closure(a));
    assert!(!s.insert_closure(c));
    assert_eq!(s.get_closure().len(), 1);
    assert_eq!(s.items(), vec![a, b, c]);
    assert_eq!(s.all(), vec![a, b, c]);
    s.extend_closure(&vec![b, c, Item::new(0, 1, Symbol::EndOfInput)]);
    assert_eq!(s.get_closure().len(), 2);
    assert!(s.contains(a));
    assert!(s.contains(c));
    assert!(!s.contains(Item::new(9, 0, Symbol::EndOfInput)));
}

#[test]
fn itemset_kernel_identity() {
    let a = Item::new(0, 1, Symbol::EndOfInput);
    let b = Item::new(1, 1, Symbol::EndOfInput);
    let s1 = ItemSet::from_kernel(vec![a, b, a]);
    let s2 = ItemSet::from_kernel(vec![b, a]);
    // Kernel equality is set equality: order and duplicates are immaterial.
    assert!(s1.kernel_equal(&s2));
    assert!(s1.is_same_kernel(&s2));
    // A differing lookahead alone distinguishes kernels (canonical LR(1)).
    let a2 = Item::new(0, 1, t(0));
    let s3 = ItemSet::from_kernel(vec![a2, b]);
    assert!(!s1.kernel_equal(&s3));
    // Closure contents never affect state identity.
    let mut s4 = ItemSet::from_kernel(vec![a, b]);
    s4.insert_closure(Item::new(2, 0, t(0)));
    assert!(s1.kernel_equal(&s4));
}

#[test]
fn table_insert_and_lookup() {
    let mut tb = Table::new();
    assert!(tb.conflicts().is_empty());
    tb.insert_action(0, t(1), Action::Shift(3));
    assert_eq!(tb.action_for(0, t(1)), Some(Action::Shift(3)));
    assert_eq!(tb.action_for(0, t(2)), None);
    assert_eq!(tb.action_for(1, t(1)), None);
    tb.insert_goto(0, NonTerminal::new(5), 2);
    tb.insert_goto(0, NonTerminal::new(5), 4);
    assert_eq!(tb.goto_for(0, NonTerminal::new(5)), Some(4));
    assert_eq!(tb.goto_for(2, NonTerminal::new(5)), None);
    assert_eq!(tb.gotos().len(), 1);
    assert_eq!(tb.get_gotos().len(), 1);
    // Goto overwrites record no conflict; action overwrites do.
    assert!(tb.conflicts().is_empty());
}

#[test]
fn table_conflict_recorded_on_second_action() {
    let mut tb = Table::new();
    tb.insert_action(4, t(1), Action::Shift(3));
    tb.insert_action(4, t(1), Action::Reduce(2));
    // Last write wins, and the conflict records both decisions.
    assert_eq!(tb.action_for(4, t(1)), Some(Action::Reduce(2)));
    assert_eq!(tb.actions().len(), 1);
    assert_eq!(tb.get_actions().len(), 1);
    assert_eq!(
        tb.conflicts().as_slice(),
        &[Conflict {
            first_action: Action::Shift(3),
            second_action: Action::Reduce(2),
            symbol: t(1),
            state: 4,
        }]
    );
}
