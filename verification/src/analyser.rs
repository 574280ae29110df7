//! The automaton builder: worklist construction of the canonical LR(1)
//! state collection, with kernel-set state identity, and population of the
//! action/goto table.

use vstd::prelude::*;

use crate::closure::{close_items, closed, closure_set, item_ok, justified_by};
use crate::counting::{lemma_code_inj, lemma_code_range, lemma_mul_nonneg, lemma_nodup_int_range};
use crate::first::{exact, has_sym, idx_of, keys_cover, rows_wf, FirstEntry, FirstSets};
use crate::grammar::{sym_in_grammar, Grammar};
use crate::item::{contains_item, Item};
use crate::itemset::ItemSet;
use crate::rule::Rule;
use crate::symbol::{NonTerminal, Symbol};
use crate::table::{
    action_insert_spec, goto_insert_spec, has_action, has_goto, spec_action_of, Action,
    ActionEntry, Conflict, GotoEntry, Table,
};

verus! {

broadcast use
    vstd::seq_lib::lemma_seq_contains_after_push,
    vstd::seq_lib::lemma_seq_concat_contains_all_elements,
    vstd::seq_lib::seq_to_set_is_finite,
    vstd::set::group_set_axioms;

/// Construction failure: the designated start nonterminal heads no rule.
#[derive(Clone, Copy, Debug, PartialEq, Eq, Structural)]
pub enum BuildError {
    MissingStartRule,
}

/// An automaton state the builder maintains: structurally well-formed,
/// holding only well-formed items whose lookaheads the FIRST map covers.
pub open spec fn state_ok(g: Grammar, es: Seq<FirstEntry>, s: ItemSet) -> bool {
    &&& s.wf()
    &&& forall|x: Item| #[trigger] s.all_set().contains(x) ==> item_ok(g, es, x)
}

/// The decision a complete item emits: `Accept` for the designated start
/// rule, otherwise `Reduce` of the item's rule.
pub open spec fn reduce_action_spec(g: Grammar, item: Item) -> Action {
    if item.rule == g.start_rule {
        Action::Accept
    } else {
        Action::Reduce(item.rule)
    }
}

/// A complete item emits `Accept` exactly when its rule is the start rule
/// and `Reduce` of its own rule otherwise — never both, and never an
/// error or shift.
pub proof fn lemma_reduce_accept_exclusive(g: Grammar, item: Item)
    ensures
        reduce_action_spec(g, item) == Action::Accept <==> item.rule == g.start_rule,
        item.rule != g.start_rule ==> reduce_action_spec(g, item) == Action::Reduce(item.rule),
        !(reduce_action_spec(g, item) is Shift),
        !(reduce_action_spec(g, item) is Error),
{
}

/// The table action a complete item contributes, keyed by its lookahead.
pub fn reduce_item(g: &Grammar, item: &Item) -> (r: (Symbol, Action))
    requires
        item.rule < g.rules@.len(),
    ensures
        r.0 == item.look_ahead,
        r.1 == reduce_action_spec(*g, *item),
{
    if item.rule == g.start_rule {
        (item.look_ahead, Action::Accept)
    } else {
        (item.look_ahead, Action::Reduce(item.rule))
    }
}

/// The goto kernel: every item of `s` whose active symbol is `sym`,
/// advanced by one.
pub open spec fn goto_set(g: Grammar, s: Set<Item>, sym: Symbol) -> Set<Item> {
    Set::new(
        |x: Item|
            exists|src: Item|
                #[trigger] s.contains(src) && src.wf(g) && src.spec_active_symbol(g) == Some(sym)
                    && x == (Item {
                    rule: src.rule,
                    index: (src.index + 1) as usize,
                    look_ahead: src.look_ahead,
                }),
    )
}

/// Collects the candidate kernel for the transition of `state` on `sym`.
pub fn goto_kernel(g: &Grammar, state: &ItemSet, sym: Symbol) -> (r: Vec<Item>)
    requires
        state.items_wf(*g),
    ensures
        r@.no_duplicates(),
        r@.to_set() == goto_set(*g, state.all_set(), sym),
        forall|j: int| 0 <= j < r@.len() ==> 1 <= (#[trigger] r@[j]).index,
        forall|j: int| 0 <= j < r@.len() ==> (#[trigger] r@[j]).wf(*g),
{
    let all = state.items();
    proof {
        state.lemma_all_set();
        assert(forall|x: Item| #[trigger] all@.contains(x) <==> state.all_set().contains(x));
    }
    let mut r: Vec<Item> = Vec::new();
    let mut i: usize = 0;
    while i < all.len()
        invariant
            0 <= i <= all@.len(),
            state.items_wf(*g),
            forall|x: Item| #[trigger] all@.contains(x) <==> state.all_set().contains(x),
            r@.no_duplicates(),
            forall|x: Item|
                r@.contains(x) ==> #[trigger] goto_set(*g, state.all_set(), sym).contains(x),
            forall|j: int| 0 <= j < r@.len() ==> 1 <= (#[trigger] r@[j]).index,
            forall|j: int| 0 <= j < r@.len() ==> (#[trigger] r@[j]).wf(*g),
            forall|j: int|
                0 <= j < i && (#[trigger] all@[j]).spec_active_symbol(*g) == Some(sym)
                    ==> r@.contains(
                    Item {
                        rule: all@[j].rule,
                        index: (all@[j].index + 1) as usize,
                        look_ahead: all@[j].look_ahead,
                    },
                ),
        decreases all@.len() - i,
    {
        let src = all[i];
        proof {
            assert(all@.contains(all@[i as int]));
            assert(state.all_set().contains(src));
            assert(src.wf(*g));
        }
        match src.active_symbol(g) {
            Some(a) => {
                if a == sym {
                    let rhs_len = g.rules[src.rule].symbols.len();
                    proof {
                        assert(src.index < rhs_len);
                    }
                    let adv = Item {
                        rule: src.rule,
                        index: src.index + 1,
                        look_ahead: src.look_ahead,
                    };
                    proof {
                        assert(goto_set(*g, state.all_set(), sym).contains(adv));
                    }
                    if !contains_item(&r, adv) {
                        r.push(adv);
                        proof {
                            assert(r@[r@.len() - 1] == adv);
                        }
                    }
                }
            }
            None => {}
        }
        i += 1;
    }
    proof {
        assert forall|x: Item| #[trigger] goto_set(*g, state.all_set(), sym).contains(
            x,
        ) implies r@.contains(x) by {
            let src = choose|src: Item|
                #[trigger] state.all_set().contains(src) && src.wf(*g) && src.spec_active_symbol(
                    *g,
                ) == Some(sym) && x == (Item {
                    rule: src.rule,
                    index: (src.index + 1) as usize,
                    look_ahead: src.look_ahead,
                });
            assert(all@.contains(src));
            let j = choose|j: int| 0 <= j < all@.len() && all@[j] == src;
            assert(all@[j].spec_active_symbol(*g) == Some(sym));
        }
        assert(r@.to_set() =~= goto_set(*g, state.all_set(), sym));
    }
    r
}

/// The position of the first existing state whose kernel equals, as a
/// set, the candidate's kernel.
pub fn find_state_index(states: &Vec<ItemSet>, set: &ItemSet) -> (r: Option<usize>)
    ensures
        match r {
            Some(i) => i < states@.len() && states@[i as int].kernel_set() == set.kernel_set()
                && forall|j: int|
                0 <= j < i ==> (#[trigger] states@[j]).kernel_set() != set.kernel_set(),
            None => forall|j: int|
                0 <= j < states@.len() ==> (#[trigger] states@[j]).kernel_set()
                    != set.kernel_set(),
        },
{
    let mut i: usize = 0;
    while i < states.len()
        invariant
            0 <= i <= states@.len(),
            forall|j: int|
                0 <= j < i ==> (#[trigger] states@[j]).kernel_set() != set.kernel_set(),
        decreases states@.len() - i,
    {
        if states[i].kernel_equal(set) {
            return Some(i);
        }
        i += 1;
    }
    None
}

// ---------------------------------------------------------------------------
// State-count bound
// ---------------------------------------------------------------------------

/// Powers of two.
pub open spec fn pow2(n: int) -> int
    decreases n,
{
    if n <= 0 {
        1
    } else {
        2 * pow2(n - 1)
    }
}

/// The longest right-hand side among the first `n` rules.
pub open spec fn max_rhs_upto(rules: Seq<Rule>, n: int) -> int
    decreases n,
{
    if n <= 0 {
        0
    } else if rules[n - 1].symbols@.len() > max_rhs_upto(rules, n - 1) {
        rules[n - 1].symbols@.len() as int
    } else {
        max_rhs_upto(rules, n - 1)
    }
}

/// The longest right-hand side of the grammar.
pub open spec fn max_rhs(g: Grammar) -> int {
    max_rhs_upto(g.rules@, g.rules@.len() as int)
}

proof fn lemma_max_rhs(rules: Seq<Rule>, n: int, i: int)
    requires
        0 <= i < n <= rules.len(),
    ensures
        rules[i].symbols@.len() <= max_rhs_upto(rules, n),
    decreases n,
{
    if i < n - 1 {
        lemma_max_rhs(rules, n - 1, i);
    }
}

/// The numeric code of a kernel item: rule and dot position paired with
/// the row index of the lookahead.
pub open spec fn item_code(g: Grammar, es: Seq<FirstEntry>, x: Item) -> int {
    ((x.rule as int) * (max_rhs(g) + 1) + x.index) * es.len() + idx_of(es, x.look_ahead)
}

/// The code space: every well-formed item with a row-backed lookahead
/// codes below this.
pub open spec fn code_space(g: Grammar, es: Seq<FirstEntry>) -> int {
    g.rules@.len() * (max_rhs(g) + 1) * es.len()
}

/// Reassociating the three-factor product of the code space.
proof fn lemma_mul_assoc_range(r: int, l1: int, u: int)
    by (nonlinear_arith)
    requires
        r >= 0,
        l1 >= 0,
        u >= 0,
    ensures
        (r * l1) * u == r * l1 * u,
{
}

/// The code of a well-formed item lies in the code space.
proof fn lemma_item_code_range(g: Grammar, es: Seq<FirstEntry>, x: Item)
    requires
        rows_wf(es),
        x.wf(g),
        has_sym(es, x.look_ahead),
        es.len() > 0,
    ensures
        0 <= item_code(g, es, x) < code_space(g, es),
{
    let l1 = max_rhs(g) + 1;
    let u = es.len() as int;
    let r = g.rules@.len() as int;
    lemma_max_rhs(g.rules@, r, x.rule as int);
    assert(x.index <= g.rules@[x.rule as int].symbols@.len());
    assert(x.index < l1);
    lemma_code_range(x.rule as int, x.index as int, r, l1);
    let k = idx_of(es, x.look_ahead);
    assert(0 <= k < u && es[k].sym == x.look_ahead);
    lemma_code_range((x.rule as int) * l1 + x.index, k, r * l1, u);
    lemma_mul_assoc_range(r, l1, u);
}

/// Distinct well-formed items have distinct codes.
proof fn lemma_item_code_inj(g: Grammar, es: Seq<FirstEntry>, x1: Item, x2: Item)
    requires
        rows_wf(es),
        x1.wf(g),
        x2.wf(g),
        has_sym(es, x1.look_ahead),
        has_sym(es, x2.look_ahead),
        es.len() > 0,
        item_code(g, es, x1) == item_code(g, es, x2),
    ensures
        x1 == x2,
{
    let l1 = max_rhs(g) + 1;
    let u = es.len() as int;
    let r = g.rules@.len() as int;
    let k1 = idx_of(es, x1.look_ahead);
    let k2 = idx_of(es, x2.look_ahead);
    assert(0 <= k1 < u && es[k1].sym == x1.look_ahead);
    assert(0 <= k2 < u && es[k2].sym == x2.look_ahead);
    lemma_code_inj(
        (x1.rule as int) * l1 + x1.index,
        k1,
        (x2.rule as int) * l1 + x2.index,
        k2,
        u,
    );
    lemma_max_rhs(g.rules@, r, x1.rule as int);
    lemma_max_rhs(g.rules@, r, x2.rule as int);
    lemma_code_inj(x1.rule as int, x1.index as int, x2.rule as int, x2.index as int, l1);
    assert(x1.look_ahead == x2.look_ahead);
}

/// Some member of `s` has code `c`.
pub open spec fn has_code(g: Grammar, es: Seq<FirstEntry>, s: Set<Item>, c: int) -> bool {
    exists|x: Item| #[trigger] s.contains(x) && item_code(g, es, x) == c
}

/// The bit encoding of an item set over the code space `[0, n)`.
pub open spec fn set_code(g: Grammar, es: Seq<FirstEntry>, s: Set<Item>, n: int) -> int
    decreases n,
{
    if n <= 0 {
        0
    } else {
        2 * set_code(g, es, s, n - 1) + if has_code(g, es, s, n - 1) {
            1int
        } else {
            0int
        }
    }
}

proof fn lemma_set_code_bound(g: Grammar, es: Seq<FirstEntry>, s: Set<Item>, n: int)
    ensures
        0 <= set_code(g, es, s, n) < pow2(n),
    decreases n,
{
    if n > 0 {
        lemma_set_code_bound(g, es, s, n - 1);
    }
}

/// Equal encodings agree on every bit.
proof fn lemma_set_code_bits(g: Grammar, es: Seq<FirstEntry>, s1: Set<Item>, s2: Set<Item>, n: int)
    requires
        set_code(g, es, s1, n) == set_code(g, es, s2, n),
    ensures
        forall|c: int| 0 <= c < n ==> has_code(g, es, s1, c) == has_code(g, es, s2, c),
    decreases n,
{
    if n > 0 {
        lemma_set_code_bound(g, es, s1, n - 1);
        lemma_set_code_bound(g, es, s2, n - 1);
        lemma_set_code_bits(g, es, s1, s2, n - 1);
    }
}

/// Item sets drawn from the code space with equal encodings are equal.
proof fn lemma_set_code_inj(g: Grammar, es: Seq<FirstEntry>, s1: Set<Item>, s2: Set<Item>)
    requires
        rows_wf(es),
        es.len() > 0,
        forall|x: Item| s1.contains(x) ==> x.wf(g) && has_sym(es, x.look_ahead),
        forall|x: Item| s2.contains(x) ==> x.wf(g) && has_sym(es, x.look_ahead),
        set_code(g, es, s1, code_space(g, es)) == set_code(g, es, s2, code_space(g, es)),
    ensures
        s1 == s2,
{
    let n = code_space(g, es);
    lemma_set_code_bits(g, es, s1, s2, n);
    assert forall|x: Item| s1.contains(x) implies s2.contains(x) by {
        lemma_item_code_range(g, es, x);
        assert(has_code(g, es, s1, item_code(g, es, x)));
        assert(has_code(g, es, s2, item_code(g, es, x)));
        let y = choose|y: Item|
            #[trigger] s2.contains(y) && item_code(g, es, y) == item_code(g, es, x);
        lemma_item_code_inj(g, es, x, y);
    }
    assert forall|x: Item| s2.contains(x) implies s1.contains(x) by {
        lemma_item_code_range(g, es, x);
        assert(has_code(g, es, s2, item_code(g, es, x)));
        assert(has_code(g, es, s1, item_code(g, es, x)));
        let y = choose|y: Item|
            #[trigger] s1.contains(y) && item_code(g, es, y) == item_code(g, es, x);
        lemma_item_code_inj(g, es, x, y);
    }
    assert(s1 =~= s2);
}

/// States with pairwise-distinct kernels drawn from the code space number
/// at most one more than two to the size of that space.
proof fn lemma_states_bound(g: Grammar, es: Seq<FirstEntry>, states: Seq<ItemSet>)
    requires
        rows_wf(es),
        es.len() > 0,
        forall|i: int, j: int|
            0 <= i < j < states.len() ==> (#[trigger] states[i]).kernel_set() != (
            #[trigger] states[j]).kernel_set(),
        forall|i: int, x: Item|
            0 <= i < states.len() && #[trigger] states[i].kernel_set().contains(x) ==> x.wf(g)
                && has_sym(es, x.look_ahead),
    ensures
        states.len() <= 1 + pow2(code_space(g, es)),
{
    let n = code_space(g, es);
    if states.len() > 1 {
        let rest = states.skip(1);
        assert(forall|a: int| 0 <= a < rest.len() ==> #[trigger] rest[a] == states[a + 1]);
        let codes = rest.map_values(|s: ItemSet| set_code(g, es, s.kernel_set(), n));
        assert forall|i: int| 0 <= i < codes.len() implies 0 <= #[trigger] codes[i] < pow2(n) by {
            assert(codes[i] == set_code(g, es, rest[i].kernel_set(), n));
            lemma_set_code_bound(g, es, rest[i].kernel_set(), n);
        }
        assert(codes.no_duplicates()) by {
            assert forall|i: int, j: int|
                0 <= i < codes.len() && 0 <= j < codes.len() && i != j implies codes[i]
                != codes[j] by {
                assert(codes[i] == set_code(g, es, rest[i].kernel_set(), n));
                assert(codes[j] == set_code(g, es, rest[j].kernel_set(), n));
                if codes[i] == codes[j] {
                    assert(rest[i] == states[i + 1] && rest[j] == states[j + 1]);
                    lemma_set_code_inj(g, es, rest[i].kernel_set(), rest[j].kernel_set());
                }
            }
        }
        lemma_set_code_bound(g, es, states[0].kernel_set(), n);
        lemma_nodup_int_range(codes, pow2(n));
    } else {
        lemma_set_code_bound(g, es, Set::<Item>::empty(), n);
    }
}

/// The start item of the automaton: the start rule, dot at the far left,
/// end-of-input lookahead.
pub open spec fn start_item(g: Grammar) -> Item {
    Item { rule: g.start_rule, index: 0, look_ahead: Symbol::EndOfInput }
}

/// A recorded action cell is justified by the state it speaks of: an
/// `Accept` or `Reduce` comes from a complete item of that state with that
/// lookahead (`Accept` only from the start rule), a `Shift` is keyed by a
/// terminal-like symbol, and `Error` is never recorded.
pub open spec fn action_cell_justified(
    g: Grammar,
    states: Seq<ItemSet>,
    e: ActionEntry,
) -> bool {
    match e.action {
        Action::Accept => e.state < states.len() && exists|x: Item|
            #[trigger] states[e.state as int].all_set().contains(x) && x.spec_is_complete(g)
                && x.rule == g.start_rule && x.look_ahead == e.symbol,
        Action::Reduce(r) => e.state < states.len() && exists|x: Item|
            #[trigger] states[e.state as int].all_set().contains(x) && x.spec_is_complete(g)
                && x.rule == r && r != g.start_rule && x.look_ahead == e.symbol,
        Action::Shift(_) => !(e.symbol is NonTerminal),
        Action::Error => false,
    }
}

/// A shift cell really is the automaton's transition: its target state's
/// kernel is the goto set of its source state on its symbol.
pub open spec fn shift_cell_ok(g: Grammar, states: Seq<ItemSet>, e: ActionEntry) -> bool {
    e.action matches Action::Shift(t) ==> e.state < states.len() && t < states.len()
        && states[t as int].kernel_set() == goto_set(
        g,
        states[e.state as int].all_set(),
        e.symbol,
    )
}

/// A goto cell really is the automaton's transition on its nonterminal.
pub open spec fn goto_cell_ok(g: Grammar, states: Seq<ItemSet>, e: GotoEntry) -> bool {
    e.state < states.len() && e.to_state < states.len()
        && states[e.to_state as int].kernel_set() == goto_set(
        g,
        states[e.state as int].all_set(),
        Symbol::NonTerminal(e.lhs),
    )
}

/// The transition out of state `i` on `sym` has a cell: in the goto table
/// for a nonterminal, in the action table otherwise.
pub open spec fn transition_recorded(t: Table, i: int, sym: Symbol) -> bool {
    match sym {
        Symbol::NonTerminal(b) => has_goto(t.goto@, i as usize, b),
        _ => has_action(t.action@, i as usize, sym),
    }
}

/// A conflict is recorded for the cell `(i, sym)`.
pub open spec fn conflict_recorded(t: Table, i: usize, sym: Symbol) -> bool {
    exists|k: int|
        0 <= k < t.conflicts@.len() && (#[trigger] t.conflicts@[k]).state == i
            && t.conflicts@[k].symbol == sym
}

/// Both actions a conflict records were justified decisions for its
/// cell: the displaced one and the one that displaced it.
pub open spec fn conflict_actions_justified(g: Grammar, states: Seq<ItemSet>, c: Conflict) -> bool {
    &&& action_cell_justified(
        g,
        states,
        ActionEntry { state: c.state, symbol: c.symbol, action: c.first_action },
    )
    &&& action_cell_justified(
        g,
        states,
        ActionEntry { state: c.state, symbol: c.symbol, action: c.second_action },
    )
}

/// A justified entry stays justified when states only gain items.
proof fn lemma_cell_justified_monotone(
    g: Grammar,
    pre: Seq<ItemSet>,
    post: Seq<ItemSet>,
    e: ActionEntry,
)
    requires
        action_cell_justified(g, pre, e),
        pre.len() <= post.len(),
        forall|i: int, x: Item|
            0 <= i < pre.len() && #[trigger] pre[i].all_set().contains(x)
                ==> post[i].all_set().contains(x),
    ensures
        action_cell_justified(g, post, e),
{
    match e.action {
        Action::Accept => {
            let x = choose|x: Item|
                #[trigger] pre[e.state as int].all_set().contains(x) && x.spec_is_complete(g)
                    && x.rule == g.start_rule && x.look_ahead == e.symbol;
            assert(post[e.state as int].all_set().contains(x));
        }
        Action::Reduce(r) => {
            let x = choose|x: Item|
                #[trigger] pre[e.state as int].all_set().contains(x) && x.spec_is_complete(g)
                    && x.rule == r && r != g.start_rule && x.look_ahead == e.symbol;
            assert(post[e.state as int].all_set().contains(x));
        }
        _ => {}
    }
}

/// State `i` is referenced by the table: as a goto target, as a shift
/// target, or as a shift displaced into the conflict list.
pub open spec fn state_referenced(t: Table, i: usize) -> bool {
    ||| exists|k: int| 0 <= k < t.goto@.len() && (#[trigger] t.goto@[k]).to_state == i
    ||| exists|k: int|
        0 <= k < t.action@.len() && (#[trigger] t.action@[k]).action == Action::Shift(i)
    ||| exists|k: int|
        0 <= k < t.conflicts@.len() && ((#[trigger] t.conflicts@[k]).first_action == Action::Shift(
            i,
        ) || t.conflicts@[k].second_action == Action::Shift(i))
}

/// Conflicts are only ever appended, so a recorded conflict stays
/// recorded.
proof fn lemma_conflicts_preserved(pre: Table, post: Table)
    requires
        pre.conflicts@.is_prefix_of(post.conflicts@),
    ensures
        forall|i: usize, sym: Symbol|
            #[trigger] conflict_recorded(pre, i, sym) ==> conflict_recorded(post, i, sym),
{
    assert forall|i: usize, sym: Symbol|
        #[trigger] conflict_recorded(pre, i, sym) implies conflict_recorded(post, i, sym) by {
        let k = choose|k: int|
            0 <= k < pre.conflicts@.len() && (#[trigger] pre.conflicts@[k]).state == i
                && pre.conflicts@[k].symbol == sym;
        assert(post.conflicts@[k] == pre.conflicts@[k]);
    }
}

/// Inserting one goto keeps every occupied goto cell occupied.
proof fn lemma_goto_insert_preserves_occupancy(
    pre: Table,
    post: Table,
    state: usize,
    lhs: NonTerminal,
    to_state: usize,
)
    requires
        goto_insert_spec(pre, post, state, lhs, to_state),
    ensures
        forall|s2: usize, l2: NonTerminal|
            #[trigger] has_goto(pre.goto@, s2, l2) ==> has_goto(post.goto@, s2, l2),
{
    assert forall|s2: usize, l2: NonTerminal|
        #[trigger] has_goto(pre.goto@, s2, l2) implies has_goto(post.goto@, s2, l2) by {
        let k = choose|k: int|
            0 <= k < pre.goto@.len() && (#[trigger] pre.goto@[k]).state == s2
                && pre.goto@[k].lhs == l2;
        if has_goto(pre.goto@, state, lhs) {
            let k0 = crate::table::goto_idx(pre.goto@, state, lhs);
            assert(post.goto@[k].state == s2 && post.goto@[k].lhs == l2);
        } else {
            assert(post.goto@[k].state == s2 && post.goto@[k].lhs == l2);
        }
    }
}

/// Inserting one action keeps every occupied cell occupied.
proof fn lemma_insert_preserves_occupancy(
    pre: Table,
    post: Table,
    state: usize,
    symbol: Symbol,
    action: Action,
)
    requires
        action_insert_spec(pre, post, state, symbol, action),
    ensures
        forall|s2: usize, y2: Symbol|
            #[trigger] has_action(pre.action@, s2, y2) ==> has_action(post.action@, s2, y2),
{
    assert forall|s2: usize, y2: Symbol|
        #[trigger] has_action(pre.action@, s2, y2) implies has_action(post.action@, s2, y2) by {
        let k = choose|k: int|
            0 <= k < pre.action@.len() && (#[trigger] pre.action@[k]).state == s2
                && pre.action@[k].symbol == y2;
        if has_action(pre.action@, state, symbol) {
            let k0 = crate::table::action_idx(pre.action@, state, symbol);
            if k == k0 {
                assert(post.action@[k].state == s2 && post.action@[k].symbol == y2);
            } else {
                assert(post.action@[k].state == s2 && post.action@[k].symbol == y2);
            }
        } else {
            assert(post.action@[k].state == s2 && post.action@[k].symbol == y2);
        }
    }
}

/// What the builder guarantees of its output: well-formed states with
/// pairwise-distinct kernels, each state the closure of its kernel,
/// discovery rooted in the single start item, a well-formed table whose
/// cells are justified transitions and decisions, conflicts recorded
/// wherever shift/reduce or reduce/reduce decisions collide and only
/// ever carrying real decisions, and no state left without a recorded
/// way in.
pub open spec fn built(g: Grammar, es: Seq<FirstEntry>, states: Seq<ItemSet>, t: Table) -> bool {
    // Every state is well-formed over the grammar and the FIRST map.
    &&& forall|i: int| 0 <= i < states.len() ==> state_ok(g, es, #[trigger] states[i])
    // Kernel-based state identity: distinct indices, distinct kernels.
    &&& forall|i: int, j: int|
        0 <= i < j < states.len() ==> (#[trigger] states[i]).kernel_set() != (
        #[trigger] states[j]).kernel_set()
    // Each state is exactly the closure of its kernel.
    &&& forall|i: int|
        0 <= i < states.len() ==> (#[trigger] states[i]).all_set() == closure_set(
            g,
            es,
            states[i].kernel_set(),
        )
    &&& forall|i: int| 0 <= i < states.len() ==> closed(g, es, (#[trigger] states[i]).all_set())
    // Discovery starts from the single start item.
    &&& states.len() >= 1
    &&& states[0].kernel_set() == Set::<Item>::empty().insert(start_item(g))
    // The table is well-formed and every recorded index is in range.
    &&& t.wf()
    &&& forall|k: int|
        0 <= k < t.action@.len() ==> match (#[trigger] t.action@[k]).action {
            Action::Shift(s) => s < states.len(),
            Action::Reduce(r) => r < g.rules@.len(),
            _ => true,
        }
    &&& forall|k: int| 0 <= k < t.goto@.len() ==> (#[trigger] t.goto@[k]).to_state < states.len()
    // Every complete item of every state has a decision in its cell.
    &&& forall|i: int, x: Item|
        0 <= i < states.len() && #[trigger] states[i].all_set().contains(x)
            && x.spec_is_complete(g) ==> has_action(t.action@, i as usize, x.look_ahead)
    // Every recorded action is justified by an item of its state; `Error`
    // is never recorded.
    &&& forall|k: int|
        0 <= k < t.action@.len() ==> action_cell_justified(g, states, #[trigger] t.action@[k])
    // Shift and goto cells are the goto construction's transitions.
    &&& forall|k: int|
        0 <= k < t.action@.len() ==> shift_cell_ok(g, states, #[trigger] t.action@[k])
    &&& forall|k: int| 0 <= k < t.goto@.len() ==> goto_cell_ok(g, states, #[trigger] t.goto@[k])
    // Every active symbol of every state has its transition recorded.
    &&& forall|i: int, sym: Symbol|
        0 <= i < states.len() && (exists|x: Item|
            #[trigger] states[i].all_set().contains(x) && x.spec_active_symbol(g) == Some(sym))
            ==> #[trigger] transition_recorded(t, i, sym)
    // Conflicts emerge: a state holding both a complete item and an item
    // shifting on that item's lookahead records a shift/reduce conflict...
    &&& forall|i: int, x: Item, y: Item|
        0 <= i < states.len() && #[trigger] states[i].all_set().contains(x)
            && x.spec_is_complete(g) && #[trigger] states[i].all_set().contains(y)
            && y.spec_active_symbol(g) == Some(x.look_ahead) ==> conflict_recorded(
            t,
            i as usize,
            x.look_ahead,
        )
    // ... and one holding two distinct complete items with one lookahead
    // records a reduce/reduce conflict.
    &&& forall|i: int, x1: Item, x2: Item|
        0 <= i < states.len() && #[trigger] states[i].all_set().contains(x1)
            && x1.spec_is_complete(g) && #[trigger] states[i].all_set().contains(x2)
            && x2.spec_is_complete(g) && x1 != x2 && x1.look_ahead == x2.look_ahead
            ==> conflict_recorded(t, i as usize, x1.look_ahead)
    // Every recorded conflict names a real state and an occupied cell.
    &&& forall|k: int|
        0 <= k < t.conflicts@.len() ==> (#[trigger] t.conflicts@[k]).state < states.len()
            && has_action(t.action@, t.conflicts@[k].state, t.conflicts@[k].symbol)
    // A conflict's two actions were both justified decisions for its cell.
    &&& forall|k: int|
        0 <= k < t.conflicts@.len() ==> conflict_actions_justified(
            g,
            states,
            #[trigger] t.conflicts@[k],
        )
    // No unreachable junk: every state after the start state is the
    // target of some recorded transition.
    &&& forall|i: int| 1 <= i < states.len() ==> state_referenced(t, #[trigger] (i as usize))
}

/// Builds the canonical LR(1) state collection and its table by worklist
/// iteration over the growable state vector, state identity decided by
/// kernel-set equality.
fn build(g: &Grammar, fs: &FirstSets) -> (r: (Vec<ItemSet>, Table))
    requires
        g.wf(),
        exact(fs.entries@, *g),
    ensures
        built(*g, fs.entries@, r.0@, r.1),
{
    let ghost es = fs.entries@;
    proof {
        assert(sym_in_grammar(*g, Symbol::EndOfInput));
        assert(has_sym(es, Symbol::EndOfInput));
        assert(es.len() > 0);
    }
    let start = Item::new(g.start_rule, 0, Symbol::EndOfInput);
    let mut kernel0: Vec<Item> = Vec::new();
    kernel0.push(start);
    let s0 = ItemSet::from_kernel(kernel0);
    let mut states: Vec<ItemSet> = Vec::new();
    states.push(s0);
    let mut table = Table::new();
    proof {
        assert(states@[0] == s0);
        assert(kernel0@ == Seq::<Item>::empty().push(start));
        assert(start == start_item(*g));
        assert forall|x: Item| #[trigger] s0.kernel@.contains(x) <==> x == start_item(*g) by {
            assert(s0.kernel@.contains(x) <==> kernel0@.contains(x));
        }
        assert(states@[0].kernel_set() =~= Set::<Item>::empty().insert(start_item(*g)));
        assert(item_ok(*g, es, start_item(*g)));
        assert forall|x: Item| #[trigger] states@[0].all_set().contains(x) implies item_ok(
            *g,
            es,
            x,
        ) by {
            states@[0].lemma_all_set();
            assert(x == start_item(*g));
        }
        lemma_states_bound(*g, es, states@);
    }
    let mut idx: usize = 0;
    while idx < states.len()
        invariant
            g.wf(),
            exact(es, *g),
            es == fs.entries@,
            es.len() > 0,
            0 <= idx <= states@.len(),
            states@.len() >= 1,
            states@[0].kernel_set() == Set::<Item>::empty().insert(start_item(*g)),
            forall|i: int| 0 <= i < states@.len() ==> state_ok(*g, es, #[trigger] states@[i]),
            forall|i: int, j: int|
                0 <= i < j < states@.len() ==> (#[trigger] states@[i]).kernel_set() != (
                #[trigger] states@[j]).kernel_set(),
            forall|i: int|
                0 <= i < idx ==> (#[trigger] states@[i]).all_set() == closure_set(
                    *g,
                    es,
                    states@[i].kernel_set(),
                ),
            forall|i: int| 0 <= i < idx ==> closed(*g, es, (#[trigger] states@[i]).all_set()),
            forall|i: int|
                idx <= i < states@.len() ==> (#[trigger] states@[i]).closure@.len() == 0,
            table.wf(),
            forall|k: int|
                0 <= k < table.action@.len() ==> match (#[trigger] table.action@[k]).action {
                    Action::Shift(s) => s < states@.len(),
                    Action::Reduce(r) => r < g.rules@.len(),
                    _ => true,
                },
            forall|k: int|
                0 <= k < table.goto@.len() ==> (#[trigger] table.goto@[k]).to_state
                    < states@.len(),
            forall|i: int, x: Item|
                0 <= i < idx && #[trigger] states@[i].all_set().contains(x)
                    && x.spec_is_complete(*g) ==> has_action(table.action@, i as usize, x.look_ahead),
            forall|k: int|
                0 <= k < table.action@.len() ==> action_cell_justified(
                    *g,
                    states@,
                    #[trigger] table.action@[k],
                ),
            forall|k: int| 0 <= k < table.action@.len() ==> (#[trigger] table.action@[k]).state < idx,
            forall|k: int| 0 <= k < table.goto@.len() ==> (#[trigger] table.goto@[k]).state < idx,
            forall|k: int|
                0 <= k < table.action@.len() ==> shift_cell_ok(
                    *g,
                    states@,
                    #[trigger] table.action@[k],
                ),
            forall|k: int|
                0 <= k < table.goto@.len() ==> goto_cell_ok(*g, states@, #[trigger] table.goto@[k]),
            forall|i: int, sym: Symbol|
                0 <= i < idx && (exists|x: Item|
                    #[trigger] states@[i].all_set().contains(x) && x.spec_active_symbol(*g)
                        == Some(sym)) ==> #[trigger] transition_recorded(table, i, sym),
            forall|i: int, x: Item, y: Item|
                0 <= i < idx && #[trigger] states@[i].all_set().contains(x) && x.spec_is_complete(
                    *g,
                ) && #[trigger] states@[i].all_set().contains(y) && y.spec_active_symbol(*g)
                    == Some(x.look_ahead) ==> conflict_recorded(table, i as usize, x.look_ahead),
            forall|i: int, x1: Item, x2: Item|
                0 <= i < idx && #[trigger] states@[i].all_set().contains(x1)
                    && x1.spec_is_complete(*g) && #[trigger] states@[i].all_set().contains(x2)
                    && x2.spec_is_complete(*g) && x1 != x2 && x1.look_ahead == x2.look_ahead
                    ==> conflict_recorded(table, i as usize, x1.look_ahead),
            forall|k: int|
                0 <= k < table.conflicts@.len() ==> (#[trigger] table.conflicts@[k]).state
                    < states@.len() && has_action(
                    table.action@,
                    table.conflicts@[k].state,
                    table.conflicts@[k].symbol,
                ),
            forall|k: int|
                0 <= k < table.conflicts@.len() ==> conflict_actions_justified(
                    *g,
                    states@,
                    #[trigger] table.conflicts@[k],
                ),
            forall|i: int|
                1 <= i < states@.len() ==> state_referenced(table, #[trigger] (i as usize)),
            states@.len() <= 1 + pow2(code_space(*g, es)),
        decreases 1 + pow2(code_space(*g, es)) - idx,
    {
        // (a) closure: expand the state to the full closure of its kernel.
        let seed = states[idx].items();
        proof {
            let st = states@[idx as int];
            st.lemma_all_set();
            assert forall|i: int, j: int|
                0 <= i < st.kernel@.len() && 0 <= j < st.closure@.len() implies st.kernel@[i]
                != st.closure@[j] by {
                assert(st.kernel@.contains(st.kernel@[i]));
                assert(st.closure@.contains(st.closure@[j]));
            }
            vstd::seq_lib::lemma_no_dup_in_concat(st.kernel@, st.closure@);
            assert forall|x: Item| seed@.contains(x) implies item_ok(*g, es, x) by {
                assert(st.all_set().contains(x));
            }
        }
        let full = close_items(g, fs, &seed);
        let mut extra: Vec<Item> = Vec::new();
        let mut p: usize = seed.len();
        proof {
            assert(extra@ =~= full@.subrange(seed@.len() as int, seed@.len() as int));
        }
        while p < full.len()
            invariant
                seed@.len() <= p <= full@.len(),
                extra@ == full@.subrange(seed@.len() as int, p as int),
            decreases full@.len() - p,
        {
            extra.push(full[p]);
            proof {
                assert(full@.subrange(seed@.len() as int, p + 1) == full@.subrange(
                    seed@.len() as int,
                    p as int,
                ).push(full@[p as int]));
            }
            p += 1;
        }
        let ghost pre_states = states@;
        let ghost st_before = states@[idx as int];
        states[idx].extend_closure(&extra);
        proof {
            let st = states@[idx as int];
            assert(states@ == pre_states.update(idx as int, st));
            st_before.lemma_all_set();
            st.lemma_all_set();
            // The updated state holds exactly the closure's items.
            assert forall|x: Item| #[trigger] st.all_set().contains(x) implies full@.contains(
                x,
            ) by {
                if st_before.all_set().contains(x) {
                    assert(seed@.contains(x));
                    assert(full@.take(seed@.len() as int).contains(x));
                    let j = choose|j: int|
                        0 <= j < seed@.len() && full@.take(seed@.len() as int)[j] == x;
                    assert(full@[j] == x);
                } else {
                    assert(extra@.contains(x));
                    let j = choose|j: int| 0 <= j < extra@.len() && extra@[j] == x;
                    assert(full@[j + seed@.len()] == x);
                }
            }
            assert forall|x: Item| full@.contains(x) implies #[trigger] st.all_set().contains(
                x,
            ) by {
                let j = choose|j: int| 0 <= j < full@.len() && full@[j] == x;
                if j < seed@.len() {
                    assert(full@.take(seed@.len() as int)[j] == x);
                    assert(seed@.contains(x));
                    assert(st_before.all_set().contains(x));
                } else {
                    assert(extra@[j - seed@.len()] == x);
                    assert(extra@.contains(x));
                }
            }
            assert(st.all_set() =~= full@.to_set());
            assert(st.kernel_set() == st_before.kernel_set());
            assert(st_before.all_set() =~= seed@.to_set()) by {
                assert forall|x: Item|
                    #[trigger] st_before.all_set().contains(x) implies seed@.contains(x) by {}
            }
            assert(st.all_set() == closure_set(*g, es, st_before.all_set())) by {
                assert(closure_set(*g, es, seed@.to_set()) == closure_set(
                    *g,
                    es,
                    st_before.all_set(),
                ));
            }
            // A state closed from its kernel-only snapshot: the kernel set
            // and the pre-closure item set coincide.
            assert(st_before.closure@.len() == 0);
            assert(st_before.all_set() =~= st_before.kernel_set()) by {
                st_before.lemma_all_set();
            }
            assert(st.all_set() == closure_set(*g, es, st.kernel_set()));
            assert(closed(*g, es, st.all_set()));
            assert(state_ok(*g, es, st)) by {
                assert forall|x: Item| #[trigger] st.all_set().contains(x) implies item_ok(
                    *g,
                    es,
                    x,
                ) by {
                    assert(full@.contains(x));
                }
            }
            assert forall|i: int| 0 <= i < states@.len() implies state_ok(
                *g,
                es,
                #[trigger] states@[i],
            ) by {
                if i != idx {
                    assert(states@[i] == pre_states[i]);
                }
            }
            assert forall|i: int, j: int|
                0 <= i < j < states@.len() implies (#[trigger] states@[i]).kernel_set() != (
            #[trigger] states@[j]).kernel_set() by {
                assert(states@[i].kernel@ == pre_states[i].kernel@);
                assert(states@[j].kernel@ == pre_states[j].kernel@);
            }
            assert forall|i: int, x: Item|
                0 <= i < idx && #[trigger] states@[i].all_set().contains(x) && x.spec_is_complete(
                    *g,
                ) implies has_action(table.action@, i as usize, x.look_ahead) by {
                assert(states@[i] == pre_states[i]);
            }
            assert forall|k: int| 0 <= k < table.action@.len() implies action_cell_justified(
                *g,
                states@,
                #[trigger] table.action@[k],
            ) by {
                let e = table.action@[k];
                match e.action {
                    Action::Accept => {
                        let x = choose|x: Item|
                            #[trigger] pre_states[e.state as int].all_set().contains(x)
                                && x.spec_is_complete(*g) && x.rule == g.start_rule
                                && x.look_ahead == e.symbol;
                        if e.state == idx {
                            assert(st_before.all_set().contains(x));
                            assert(seed@.contains(x));
                            assert(states@[e.state as int].all_set().contains(x));
                        } else {
                            assert(states@[e.state as int] == pre_states[e.state as int]);
                        }
                    }
                    Action::Reduce(r) => {
                        let x = choose|x: Item|
                            #[trigger] pre_states[e.state as int].all_set().contains(x)
                                && x.spec_is_complete(*g) && x.rule == r && r != g.start_rule
                                && x.look_ahead == e.symbol;
                        if e.state == idx {
                            assert(st_before.all_set().contains(x));
                            assert(seed@.contains(x));
                            assert(states@[e.state as int].all_set().contains(x));
                        } else {
                            assert(states@[e.state as int] == pre_states[e.state as int]);
                        }
                    }
                    _ => {}
                }
            }
            assert forall|k: int| 0 <= k < table.action@.len() implies shift_cell_ok(
                *g,
                states@,
                #[trigger] table.action@[k],
            ) by {
                let e = table.action@[k];
                match e.action {
                    Action::Shift(tgt) => {
                        assert(e.state < idx);
                        assert(states@[e.state as int] == pre_states[e.state as int]);
                        assert(states@[tgt as int].kernel@ == pre_states[tgt as int].kernel@);
                    }
                    _ => {}
                }
            }
            assert forall|k: int| 0 <= k < table.goto@.len() implies goto_cell_ok(
                *g,
                states@,
                #[trigger] table.goto@[k],
            ) by {
                let e = table.goto@[k];
                assert(e.state < idx);
                assert(states@[e.state as int] == pre_states[e.state as int]);
                assert(states@[e.to_state as int].kernel@ == pre_states[e.to_state as int].kernel@);
            }
            assert forall|i: int, sym: Symbol|
                0 <= i < idx && (exists|x: Item|
                    #[trigger] states@[i].all_set().contains(x) && x.spec_active_symbol(*g)
                        == Some(sym)) implies #[trigger] transition_recorded(table, i, sym) by {
                assert(states@[i] == pre_states[i]);
            }
            assert forall|i: int, x: Item, y: Item|
                0 <= i < idx && #[trigger] states@[i].all_set().contains(x) && x.spec_is_complete(
                    *g,
                ) && #[trigger] states@[i].all_set().contains(y) && y.spec_active_symbol(*g)
                    == Some(x.look_ahead) implies conflict_recorded(
                table,
                i as usize,
                x.look_ahead,
            ) by {
                assert(states@[i] == pre_states[i]);
            }
            assert forall|i: int, x1: Item, x2: Item|
                0 <= i < idx && #[trigger] states@[i].all_set().contains(x1)
                    && x1.spec_is_complete(*g) && #[trigger] states@[i].all_set().contains(x2)
                    && x2.spec_is_complete(*g) && x1 != x2 && x1.look_ahead == x2.look_ahead
                    implies conflict_recorded(table, i as usize, x1.look_ahead) by {
                assert(states@[i] == pre_states[i]);
            }
            assert forall|i: int, x: Item|
                0 <= i < pre_states.len() && #[trigger] pre_states[i].all_set().contains(
                    x,
                ) implies states@[i].all_set().contains(x) by {
                if i != idx {
                    assert(states@[i] == pre_states[i]);
                }
            }
            assert forall|k: int|
                0 <= k < table.conflicts@.len() implies conflict_actions_justified(
                *g,
                states@,
                #[trigger] table.conflicts@[k],
            ) by {
                let c = table.conflicts@[k];
                lemma_cell_justified_monotone(
                    *g,
                    pre_states,
                    states@,
                    ActionEntry { state: c.state, symbol: c.symbol, action: c.first_action },
                );
                lemma_cell_justified_monotone(
                    *g,
                    pre_states,
                    states@,
                    ActionEntry { state: c.state, symbol: c.symbol, action: c.second_action },
                );
            }
        }
        // (b) goto: one candidate kernel per active symbol, resolved
        // against existing kernels or appended as a new state.
        let actives = states[idx].active_symbols(g);
        let mut a_i: usize = 0;
        while a_i < actives.len()
            invariant
                0 <= a_i <= actives@.len(),
                g.wf(),
                exact(es, *g),
                es == fs.entries@,
                es.len() > 0,
                idx < states@.len(),
                states@.len() >= 1,
                states@[0].kernel_set() == Set::<Item>::empty().insert(start_item(*g)),
                forall|i: int| 0 <= i < states@.len() ==> state_ok(*g, es, #[trigger] states@[i]),
                forall|i: int, j: int|
                    0 <= i < j < states@.len() ==> (#[trigger] states@[i]).kernel_set() != (
                    #[trigger] states@[j]).kernel_set(),
                forall|i: int|
                    0 <= i <= idx ==> (#[trigger] states@[i]).all_set() == closure_set(
                        *g,
                        es,
                        states@[i].kernel_set(),
                    ),
                forall|i: int| 0 <= i <= idx ==> closed(*g, es, (#[trigger] states@[i]).all_set()),
                forall|i: int|
                    idx < i < states@.len() ==> (#[trigger] states@[i]).closure@.len() == 0,
                table.wf(),
                forall|k: int|
                    0 <= k < table.action@.len() ==> match (#[trigger] table.action@[k]).action {
                        Action::Shift(s) => s < states@.len(),
                        Action::Reduce(r) => r < g.rules@.len(),
                        _ => true,
                    },
                forall|k: int|
                    0 <= k < table.goto@.len() ==> (#[trigger] table.goto@[k]).to_state
                        < states@.len(),
                forall|i: int, x: Item|
                    0 <= i < idx && #[trigger] states@[i].all_set().contains(x)
                        && x.spec_is_complete(*g) ==> has_action(
                        table.action@,
                        i as usize,
                        x.look_ahead,
                    ),
                forall|k: int|
                    0 <= k < table.action@.len() ==> action_cell_justified(
                        *g,
                        states@,
                        #[trigger] table.action@[k],
                    ),
                forall|k: int|
                    0 <= k < table.action@.len() ==> (#[trigger] table.action@[k]).state <= idx,
                forall|k: int|
                    0 <= k < table.goto@.len() ==> (#[trigger] table.goto@[k]).state <= idx,
                forall|k: int|
                    0 <= k < table.action@.len() ==> shift_cell_ok(
                        *g,
                        states@,
                        #[trigger] table.action@[k],
                    ),
                forall|k: int|
                    0 <= k < table.goto@.len() ==> goto_cell_ok(
                        *g,
                        states@,
                        #[trigger] table.goto@[k],
                    ),
                forall|i: int, sym2: Symbol|
                    0 <= i < idx && (exists|x: Item|
                        #[trigger] states@[i].all_set().contains(x) && x.spec_active_symbol(*g)
                            == Some(sym2)) ==> #[trigger] transition_recorded(table, i, sym2),
                forall|a: int|
                    0 <= a < a_i ==> #[trigger] transition_recorded(table, idx as int, actives@[a]),
                forall|i: int, x: Item, y: Item|
                    0 <= i < idx && #[trigger] states@[i].all_set().contains(x)
                        && x.spec_is_complete(*g) && #[trigger] states@[i].all_set().contains(y)
                        && y.spec_active_symbol(*g) == Some(x.look_ahead) ==> conflict_recorded(
                        table,
                        i as usize,
                        x.look_ahead,
                    ),
                forall|i: int, x1: Item, x2: Item|
                    0 <= i < idx && #[trigger] states@[i].all_set().contains(x1)
                        && x1.spec_is_complete(*g) && #[trigger] states@[i].all_set().contains(x2)
                        && x2.spec_is_complete(*g) && x1 != x2 && x1.look_ahead == x2.look_ahead
                        ==> conflict_recorded(table, i as usize, x1.look_ahead),
                forall|k: int|
                    0 <= k < table.conflicts@.len() ==> (#[trigger] table.conflicts@[k]).state
                        < states@.len() && has_action(
                        table.action@,
                        table.conflicts@[k].state,
                        table.conflicts@[k].symbol,
                    ),
                actives@.no_duplicates(),
                forall|s: Symbol|
                    #[trigger] actives@.contains(s) <==> (exists|x: Item|
                        #[trigger] states@[idx as int].all_set().contains(x)
                            && x.spec_active_symbol(*g) == Some(s)),
                forall|k: int|
                    0 <= k < table.conflicts@.len() ==> conflict_actions_justified(
                        *g,
                        states@,
                        #[trigger] table.conflicts@[k],
                    ),
                forall|i: int|
                    1 <= i < states@.len() ==> state_referenced(table, #[trigger] (i as usize)),
                forall|k: int|
                    0 <= k < table.goto@.len() && (#[trigger] table.goto@[k]).state == idx
                        ==> exists|a: int|
                        0 <= a < a_i && actives@[a] == Symbol::NonTerminal(table.goto@[k].lhs),
                states@.len() <= 1 + pow2(code_space(*g, es)),
            decreases actives@.len() - a_i,
        {
            let sym = actives[a_i];
            let kern = goto_kernel(g, &states[idx], sym);
            proof {
                assert forall|x: Item| kern@.contains(x) implies item_ok(*g, es, x) by {
                    assert(goto_set(*g, states@[idx as int].all_set(), sym).contains(x));
                    let src = choose|src: Item|
                        #[trigger] states@[idx as int].all_set().contains(src) && src.wf(*g)
                            && src.spec_active_symbol(*g) == Some(sym) && x == (Item {
                            rule: src.rule,
                            index: (src.index + 1) as usize,
                            look_ahead: src.look_ahead,
                        });
                    assert(item_ok(*g, es, src));
                }
            }
            let cand = ItemSet::from_kernel(kern);
            let to_state: usize;
            match find_state_index(&states, &cand) {
                Some(e) => {
                    to_state = e;
                }
                None => {
                    to_state = states.len();
                    let ghost pre = states@;
                    states.push(cand);
                    proof {
                        assert(states@ == pre.push(cand));
                        assert(states@[states@.len() - 1] == cand);
                        assert(states@[idx as int] == pre[idx as int]);
                        assert forall|x: Item| #[trigger] cand.all_set().contains(
                            x,
                        ) implies item_ok(*g, es, x) by {
                            cand.lemma_all_set();
                            assert(kern@.contains(x));
                        }
                        assert forall|i: int| 0 <= i < states@.len() implies state_ok(
                            *g,
                            es,
                            #[trigger] states@[i],
                        ) by {
                            if i < pre.len() {
                                assert(states@[i] == pre[i]);
                            } else {
                                assert(states@[i] == cand);
                            }
                        }
                        assert forall|i: int, j: int|
                            0 <= i < j < states@.len() implies (
                        #[trigger] states@[i]).kernel_set() != (
                        #[trigger] states@[j]).kernel_set() by {
                            if j == states@.len() - 1 {
                                assert(states@[i] == pre[i]);
                                assert(states@[j] == cand);
                            } else {
                                assert(states@[i] == pre[i] && states@[j] == pre[j]);
                            }
                        }
                        assert forall|i: int, x: Item|
                            0 <= i < states@.len() && #[trigger] states@[i].kernel_set().contains(
                                x,
                            ) implies x.wf(*g) && has_sym(es, x.look_ahead) by {
                            assert(state_ok(*g, es, states@[i]));
                            states@[i].lemma_all_set();
                            assert(states@[i].kernel@.contains(x));
                            assert(states@[i].all_set().contains(x));
                            assert(item_ok(*g, es, x));
                        }
                        lemma_states_bound(*g, es, states@);
                        assert forall|i: int, x: Item|
                            0 <= i < idx && #[trigger] states@[i].all_set().contains(x)
                                && x.spec_is_complete(*g) implies has_action(
                            table.action@,
                            i as usize,
                            x.look_ahead,
                        ) by {
                            assert(states@[i] == pre[i]);
                        }
                        assert forall|k: int|
                            0 <= k < table.action@.len() implies action_cell_justified(
                            *g,
                            states@,
                            #[trigger] table.action@[k],
                        ) by {
                            let e = table.action@[k];
                            assert(action_cell_justified(*g, pre, e));
                            match e.action {
                                Action::Accept => {
                                    assert(states@[e.state as int] == pre[e.state as int]);
                                }
                                Action::Reduce(_) => {
                                    assert(states@[e.state as int] == pre[e.state as int]);
                                }
                                _ => {}
                            }
                        }
                        assert forall|i2: int, x: Item|
                            0 <= i2 < pre.len() && #[trigger] pre[i2].all_set().contains(
                                x,
                            ) implies states@[i2].all_set().contains(x) by {
                            assert(states@[i2] == pre[i2]);
                        }
                        assert forall|k: int|
                            0 <= k < table.conflicts@.len() implies conflict_actions_justified(
                            *g,
                            states@,
                            #[trigger] table.conflicts@[k],
                        ) by {
                            let c = table.conflicts@[k];
                            lemma_cell_justified_monotone(
                                *g,
                                pre,
                                states@,
                                ActionEntry {
                                    state: c.state,
                                    symbol: c.symbol,
                                    action: c.first_action,
                                },
                            );
                            lemma_cell_justified_monotone(
                                *g,
                                pre,
                                states@,
                                ActionEntry {
                                    state: c.state,
                                    symbol: c.symbol,
                                    action: c.second_action,
                                },
                            );
                        }
                        assert forall|k: int| 0 <= k < table.action@.len() implies shift_cell_ok(
                            *g,
                            states@,
                            #[trigger] table.action@[k],
                        ) by {
                            let e = table.action@[k];
                            assert(shift_cell_ok(*g, pre, e));
                            match e.action {
                                Action::Shift(tgt) => {
                                    assert(states@[e.state as int] == pre[e.state as int]);
                                    assert(states@[tgt as int] == pre[tgt as int]);
                                }
                                _ => {}
                            }
                        }
                        assert forall|k: int| 0 <= k < table.goto@.len() implies goto_cell_ok(
                            *g,
                            states@,
                            #[trigger] table.goto@[k],
                        ) by {
                            let e = table.goto@[k];
                            assert(goto_cell_ok(*g, pre, e));
                            assert(states@[e.state as int] == pre[e.state as int]);
                            assert(states@[e.to_state as int] == pre[e.to_state as int]);
                        }
                        assert forall|i: int, sym2: Symbol|
                            0 <= i < idx && (exists|x: Item|
                                #[trigger] states@[i].all_set().contains(x)
                                    && x.spec_active_symbol(*g) == Some(
                                    sym2,
                                )) implies #[trigger] transition_recorded(table, i, sym2) by {
                            assert(states@[i] == pre[i]);
                        }
                        assert forall|i: int, x: Item, y: Item|
                            0 <= i < idx && #[trigger] states@[i].all_set().contains(x)
                                && x.spec_is_complete(*g)
                                && #[trigger] states@[i].all_set().contains(y)
                                && y.spec_active_symbol(*g) == Some(
                                x.look_ahead,
                            ) implies conflict_recorded(table, i as usize, x.look_ahead) by {
                            assert(states@[i] == pre[i]);
                        }
                        assert forall|i: int, x1: Item, x2: Item|
                            0 <= i < idx && #[trigger] states@[i].all_set().contains(x1)
                                && x1.spec_is_complete(*g)
                                && #[trigger] states@[i].all_set().contains(x2)
                                && x2.spec_is_complete(*g) && x1 != x2 && x1.look_ahead
                                == x2.look_ahead implies conflict_recorded(
                            table,
                            i as usize,
                            x1.look_ahead,
                        ) by {
                            assert(states@[i] == pre[i]);
                        }
                    }
                }
            }
            proof {
                // The target state's kernel is exactly the goto set of the
                // current state on `sym`.
                assert(states@[to_state as int].kernel_set() =~= goto_set(
                    *g,
                    states@[idx as int].all_set(),
                    sym,
                )) by {
                    assert forall|x: Item|
                        #[trigger] cand.kernel_set().contains(x) <==> goto_set(
                            *g,
                            states@[idx as int].all_set(),
                            sym,
                        ).contains(x) by {
                        assert(cand.kernel@.contains(x) <==> kern@.contains(x));
                    }
                    assert(states@[to_state as int].kernel_set() == cand.kernel_set());
                }
            }
            let ghost pre_table = table;
            match sym {
                Symbol::NonTerminal(nt) => {
                    proof {
                        assert(!has_goto(table.goto@, idx, nt)) by {
                            if has_goto(table.goto@, idx, nt) {
                                let kk = choose|kk: int|
                                    0 <= kk < table.goto@.len() && (
                                    #[trigger] table.goto@[kk]).state == idx && table.goto@[
                                        kk
                                    ].lhs == nt;
                                let aa = choose|aa: int|
                                    0 <= aa < a_i && actives@[aa] == Symbol::NonTerminal(
                                        table.goto@[kk].lhs,
                                    );
                                assert(actives@[aa] == sym);
                                assert(actives@[a_i as int] == sym);
                            }
                        }
                    }
                    table.insert_goto(idx, nt, to_state);
                    proof {
                        assert(table.action@ == pre_table.action@);
                        assert(table.conflicts@ == pre_table.conflicts@);
                        assert(table.goto@ == pre_table.goto@.push(GotoEntry {
                            state: idx,
                            lhs: nt,
                            to_state,
                        }));
                        assert forall|i2: int|
                            1 <= i2 < states@.len() implies #[trigger] state_referenced(
                            table,
                            (i2 as usize),
                        ) by {
                            if i2 == to_state {
                                assert(table.goto@[table.goto@.len() - 1].to_state == to_state);
                            } else {
                                assert(state_referenced(pre_table, i2 as usize));
                                if exists|kk: int|
                                    0 <= kk < pre_table.goto@.len() && (
                                    #[trigger] pre_table.goto@[kk]).to_state == i2 as usize {
                                    let kk = choose|kk: int|
                                        0 <= kk < pre_table.goto@.len() && (
                                        #[trigger] pre_table.goto@[kk]).to_state == i2 as usize;
                                    assert(table.goto@[kk] == pre_table.goto@[kk]);
                                }
                            }
                        }
                        assert forall|kk: int|
                            0 <= kk < table.goto@.len() && (#[trigger] table.goto@[kk]).state
                                == idx implies exists|a: int|
                            0 <= a < a_i + 1 && actives@[a] == Symbol::NonTerminal(
                                table.goto@[kk].lhs,
                            ) by {
                            if kk == table.goto@.len() - 1 {
                                assert(actives@[a_i as int] == Symbol::NonTerminal(nt));
                            } else {
                                assert(table.goto@[kk] == pre_table.goto@[kk]);
                                let aa = choose|aa: int|
                                    0 <= aa < a_i && actives@[aa] == Symbol::NonTerminal(
                                        pre_table.goto@[kk].lhs,
                                    );
                                assert(0 <= aa < a_i + 1 && actives@[aa] == Symbol::NonTerminal(
                                    table.goto@[kk].lhs,
                                ));
                            }
                        }
                        lemma_goto_insert_preserves_occupancy(
                            pre_table,
                            table,
                            idx,
                            nt,
                            to_state,
                        );
                        assert(has_goto(table.goto@, idx, nt));
                        assert(transition_recorded(table, idx as int, sym));
                        assert forall|k: int|
                            0 <= k < table.goto@.len() implies goto_cell_ok(
                            *g,
                            states@,
                            #[trigger] table.goto@[k],
                        ) && (#[trigger] table.goto@[k]).state <= idx && table.goto@[k].to_state
                            < states@.len() by {
                            let changed_new = !has_goto(pre_table.goto@, idx, nt) && k
                                == table.goto@.len() - 1;
                            let changed_upd = has_goto(pre_table.goto@, idx, nt) && k
                                == crate::table::goto_idx(pre_table.goto@, idx, nt);
                            if changed_new || changed_upd {
                                assert(table.goto@[k] == (GotoEntry {
                                    state: idx,
                                    lhs: nt,
                                    to_state,
                                }));
                            } else {
                                assert(table.goto@[k] == pre_table.goto@[k]);
                            }
                        }
                    }
                }
                _ => {
                    table.insert_action(idx, sym, Action::Shift(to_state));
                    proof {
                        lemma_insert_preserves_occupancy(
                            pre_table,
                            table,
                            idx,
                            sym,
                            Action::Shift(to_state),
                        );
                        assert(table.goto@ == pre_table.goto@);
                        assert(has_action(table.action@, idx, sym)) by {
                            assert(spec_action_of(table.action@, idx, sym) is Some);
                        }
                        assert(transition_recorded(table, idx as int, sym));
                        assert(pre_table.conflicts@.is_prefix_of(table.conflicts@));
                        lemma_conflicts_preserved(pre_table, table);
                        assert forall|k: int|
                            0 <= k < table.conflicts@.len() implies (
                        #[trigger] table.conflicts@[k]).state < states@.len() && has_action(
                            table.action@,
                            table.conflicts@[k].state,
                            table.conflicts@[k].symbol,
                        ) by {
                            if k < pre_table.conflicts@.len() {
                                assert(table.conflicts@[k] == pre_table.conflicts@[k]);
                            } else {
                                assert(table.conflicts@[k].state == idx && table.conflicts@[
                                    k
                                ].symbol == sym);
                            }
                        }
                        assert(table.goto@ == pre_table.goto@);
                        assert forall|i2: int|
                            1 <= i2 < states@.len() implies #[trigger] state_referenced(
                            table,
                            (i2 as usize),
                        ) by {
                            if i2 == to_state {
                                if has_action(pre_table.action@, idx, sym) {
                                    let k0 = crate::table::action_idx(
                                        pre_table.action@,
                                        idx,
                                        sym,
                                    );
                                    assert(table.action@[k0].action == Action::Shift(to_state));
                                } else {
                                    assert(table.action@[table.action@.len() - 1].action
                                        == Action::Shift(to_state));
                                }
                            } else {
                                assert(state_referenced(pre_table, i2 as usize));
                                if exists|kk: int|
                                    0 <= kk < pre_table.action@.len() && (
                                    #[trigger] pre_table.action@[kk]).action == Action::Shift(
                                        i2 as usize,
                                    ) {
                                    let kk = choose|kk: int|
                                        0 <= kk < pre_table.action@.len() && (
                                        #[trigger] pre_table.action@[kk]).action == Action::Shift(
                                            i2 as usize,
                                        );
                                    if has_action(pre_table.action@, idx, sym) {
                                        let k0 = crate::table::action_idx(
                                            pre_table.action@,
                                            idx,
                                            sym,
                                        );
                                        if kk == k0 {
                                            assert(table.conflicts@[table.conflicts@.len()
                                                - 1].first_action == Action::Shift(i2 as usize));
                                        } else {
                                            assert(table.action@[kk] == pre_table.action@[kk]);
                                        }
                                    } else {
                                        assert(table.action@[kk] == pre_table.action@[kk]);
                                    }
                                } else if exists|kk: int|
                                    0 <= kk < pre_table.conflicts@.len() && ((
                                    #[trigger] pre_table.conflicts@[kk]).first_action
                                        == Action::Shift(i2 as usize)
                                        || pre_table.conflicts@[kk].second_action == Action::Shift(
                                        i2 as usize,
                                    )) {
                                    let kk = choose|kk: int|
                                        0 <= kk < pre_table.conflicts@.len() && ((
                                        #[trigger] pre_table.conflicts@[kk]).first_action
                                            == Action::Shift(i2 as usize)
                                            || pre_table.conflicts@[kk].second_action
                                            == Action::Shift(i2 as usize));
                                    assert(table.conflicts@[kk] == pre_table.conflicts@[kk]);
                                }
                            }
                        }
                        assert forall|kk: int|
                            0 <= kk < table.goto@.len() && (#[trigger] table.goto@[kk]).state
                                == idx implies exists|a: int|
                            0 <= a < a_i + 1 && actives@[a] == Symbol::NonTerminal(
                                table.goto@[kk].lhs,
                            ) by {
                            let aa = choose|aa: int|
                                0 <= aa < a_i && actives@[aa] == Symbol::NonTerminal(
                                    pre_table.goto@[kk].lhs,
                                );
                            assert(0 <= aa < a_i + 1 && actives@[aa] == Symbol::NonTerminal(
                                table.goto@[kk].lhs,
                            ));
                        }
                        assert forall|k: int|
                            0 <= k < table.conflicts@.len() implies conflict_actions_justified(
                            *g,
                            states@,
                            #[trigger] table.conflicts@[k],
                        ) by {
                            if k < pre_table.conflicts@.len() {
                                assert(table.conflicts@[k] == pre_table.conflicts@[k]);
                            } else {
                                assert(has_action(pre_table.action@, idx, sym));
                                let k0 = crate::table::action_idx(pre_table.action@, idx, sym);
                                assert(table.conflicts@[k] == (Conflict {
                                    first_action: pre_table.action@[k0].action,
                                    second_action: Action::Shift(to_state),
                                    symbol: sym,
                                    state: idx,
                                }));
                                assert(pre_table.action@[k0].state == idx
                                    && pre_table.action@[k0].symbol == sym);
                                assert(action_cell_justified(*g, states@, pre_table.action@[k0]));
                                assert((ActionEntry {
                                    state: idx,
                                    symbol: sym,
                                    action: pre_table.action@[k0].action,
                                }) == pre_table.action@[k0]);
                            }
                        }
                        assert forall|k: int|
                            0 <= k < table.action@.len() implies action_cell_justified(
                            *g,
                            states@,
                            #[trigger] table.action@[k],
                        ) && shift_cell_ok(*g, states@, table.action@[k]) && (
                        #[trigger] table.action@[k]).state <= idx && (match table.action@[k].action {
                            Action::Shift(s) => s < states@.len(),
                            Action::Reduce(r) => r < g.rules@.len(),
                            _ => true,
                        }) by {
                            let changed_new = !has_action(pre_table.action@, idx, sym) && k
                                == table.action@.len() - 1;
                            let changed_upd = has_action(pre_table.action@, idx, sym) && k
                                == crate::table::action_idx(pre_table.action@, idx, sym);
                            if changed_new || changed_upd {
                                assert(table.action@[k] == (ActionEntry {
                                    state: idx,
                                    symbol: sym,
                                    action: Action::Shift(to_state),
                                }));
                            } else {
                                assert(table.action@[k] == pre_table.action@[k]);
                            }
                        }
                    }
                }
            }
            proof {
                assert forall|a: int| 0 <= a < a_i + 1 implies #[trigger] transition_recorded(
                    table,
                    idx as int,
                    actives@[a],
                ) by {
                    if a < a_i {
                        assert(transition_recorded(pre_table, idx as int, actives@[a]));
                        match actives@[a] {
                            Symbol::NonTerminal(b) => {
                                if sym is NonTerminal {
                                    assert(has_goto(table.goto@, idx, b));
                                } else {
                                    assert(table.goto@ == pre_table.goto@);
                                }
                            }
                            _ => {
                                if sym is NonTerminal {
                                    assert(table.action@ == pre_table.action@);
                                } else {
                                    assert(has_action(table.action@, idx, actives@[a]));
                                }
                            }
                        }
                    } else {
                        assert(actives@[a] == sym);
                    }
                }
                assert forall|i: int, sym2: Symbol|
                    0 <= i < idx && (exists|x: Item|
                        #[trigger] states@[i].all_set().contains(x) && x.spec_active_symbol(*g)
                            == Some(sym2)) implies #[trigger] transition_recorded(
                    table,
                    i,
                    sym2,
                ) by {
                    assert(transition_recorded(pre_table, i, sym2));
                    match sym2 {
                        Symbol::NonTerminal(b) => {
                            if sym is NonTerminal {
                                assert(has_goto(table.goto@, i as usize, b));
                            } else {
                                assert(table.goto@ == pre_table.goto@);
                            }
                        }
                        _ => {
                            if sym is NonTerminal {
                                assert(table.action@ == pre_table.action@);
                            } else {
                                assert(has_action(table.action@, i as usize, sym2));
                            }
                        }
                    }
                }
            }
            a_i += 1;
        }
        // (c) reduce: a table action for every complete item, keyed by its
        // lookahead.
        let all2 = states[idx].items();
        proof {
            states@[idx as int].lemma_all_set();
            assert forall|sym2: Symbol|
                (exists|x: Item|
                    #[trigger] states@[idx as int].all_set().contains(x) && x.spec_active_symbol(
                        *g,
                    ) == Some(sym2)) implies #[trigger] transition_recorded(
                table,
                idx as int,
                sym2,
            ) by {
                assert(actives@.contains(sym2));
                let a = choose|a: int| 0 <= a < actives@.len() && actives@[a] == sym2;
                assert(transition_recorded(table, idx as int, actives@[a]));
            }
        }
        let ghost pre_reduce = table;
        let mut q: usize = 0;
        while q < all2.len()
            invariant
                0 <= q <= all2@.len(),
                g.wf(),
                idx < states@.len(),
                forall|x: Item| all2@.contains(x) <==> #[trigger] states@[
                    idx as int
                ].all_set().contains(x),
                forall|i: int| 0 <= i < states@.len() ==> state_ok(*g, es, #[trigger] states@[i]),
                table.wf(),
                forall|k: int|
                    0 <= k < table.action@.len() ==> match (#[trigger] table.action@[k]).action {
                        Action::Shift(s) => s < states@.len(),
                        Action::Reduce(r) => r < g.rules@.len(),
                        _ => true,
                    },
                forall|k: int|
                    0 <= k < table.goto@.len() ==> (#[trigger] table.goto@[k]).to_state
                        < states@.len(),
                forall|i: int, x: Item|
                    0 <= i < idx && #[trigger] states@[i].all_set().contains(x)
                        && x.spec_is_complete(*g) ==> has_action(
                        table.action@,
                        i as usize,
                        x.look_ahead,
                    ),
                forall|k: int|
                    0 <= k < table.action@.len() ==> action_cell_justified(
                        *g,
                        states@,
                        #[trigger] table.action@[k],
                    ),
                forall|j: int|
                    0 <= j < q && (#[trigger] all2@[j]).spec_is_complete(*g) ==> has_action(
                        table.action@,
                        idx,
                        all2@[j].look_ahead,
                    ),
                forall|k: int|
                    0 <= k < table.action@.len() ==> (#[trigger] table.action@[k]).state <= idx,
                forall|k: int|
                    0 <= k < table.goto@.len() ==> (#[trigger] table.goto@[k]).state <= idx,
                forall|k: int|
                    0 <= k < table.action@.len() ==> shift_cell_ok(
                        *g,
                        states@,
                        #[trigger] table.action@[k],
                    ),
                forall|k: int|
                    0 <= k < table.goto@.len() ==> goto_cell_ok(
                        *g,
                        states@,
                        #[trigger] table.goto@[k],
                    ),
                forall|i: int, sym2: Symbol|
                    0 <= i < idx && (exists|x: Item|
                        #[trigger] states@[i].all_set().contains(x) && x.spec_active_symbol(*g)
                            == Some(sym2)) ==> #[trigger] transition_recorded(table, i, sym2),
                forall|sym2: Symbol|
                    (exists|x: Item|
                        #[trigger] states@[idx as int].all_set().contains(x)
                            && x.spec_active_symbol(*g) == Some(sym2))
                        ==> #[trigger] transition_recorded(table, idx as int, sym2),
                forall|sym2: Symbol|
                    (exists|x: Item|
                        #[trigger] states@[idx as int].all_set().contains(x)
                            && x.spec_active_symbol(*g) == Some(sym2))
                        ==> #[trigger] transition_recorded(pre_reduce, idx as int, sym2),
                forall|s2: usize, y2: Symbol|
                    #[trigger] has_action(pre_reduce.action@, s2, y2) ==> has_action(
                        table.action@,
                        s2,
                        y2,
                    ),
                forall|i: int, x: Item, y: Item|
                    0 <= i < idx && #[trigger] states@[i].all_set().contains(x)
                        && x.spec_is_complete(*g) && #[trigger] states@[i].all_set().contains(y)
                        && y.spec_active_symbol(*g) == Some(x.look_ahead) ==> conflict_recorded(
                        table,
                        i as usize,
                        x.look_ahead,
                    ),
                forall|i: int, x1: Item, x2: Item|
                    0 <= i < idx && #[trigger] states@[i].all_set().contains(x1)
                        && x1.spec_is_complete(*g) && #[trigger] states@[i].all_set().contains(x2)
                        && x2.spec_is_complete(*g) && x1 != x2 && x1.look_ahead == x2.look_ahead
                        ==> conflict_recorded(table, i as usize, x1.look_ahead),
                forall|k: int|
                    0 <= k < table.conflicts@.len() ==> (#[trigger] table.conflicts@[k]).state
                        < states@.len() && has_action(
                        table.action@,
                        table.conflicts@[k].state,
                        table.conflicts@[k].symbol,
                    ),
                forall|j: int|
                    0 <= j < q && (#[trigger] all2@[j]).spec_is_complete(*g) && has_action(
                        pre_reduce.action@,
                        idx,
                        all2@[j].look_ahead,
                    ) ==> conflict_recorded(table, idx, all2@[j].look_ahead),
                forall|j1: int, j2: int|
                    0 <= j1 < j2 < q && (#[trigger] all2@[j1]).spec_is_complete(*g) && (
                    #[trigger] all2@[j2]).spec_is_complete(*g) && all2@[j1].look_ahead
                        == all2@[j2].look_ahead ==> conflict_recorded(
                        table,
                        idx,
                        all2@[j1].look_ahead,
                    ),
                forall|k: int|
                    0 <= k < table.conflicts@.len() ==> conflict_actions_justified(
                        *g,
                        states@,
                        #[trigger] table.conflicts@[k],
                    ),
                forall|i: int|
                    1 <= i < states@.len() ==> state_referenced(table, #[trigger] (i as usize)),
            decreases all2@.len() - q,
        {
            let it = all2[q];
            proof {
                assert(all2@.contains(all2@[q as int]));
                assert(states@[idx as int].all_set().contains(it));
                assert(item_ok(*g, es, it));
            }
            if !it.is_active(g) {
                let (la, act) = reduce_item(g, &it);
                let ghost pre_table = table;
                table.insert_action(idx, la, act);
                proof {
                    lemma_insert_preserves_occupancy(pre_table, table, idx, la, act);
                    assert(spec_action_of(table.action@, idx, la) is Some);
                    assert(has_action(table.action@, idx, la));
                    assert forall|k: int|
                        0 <= k < table.action@.len() implies action_cell_justified(
                        *g,
                        states@,
                        #[trigger] table.action@[k],
                    ) by {
                        let changed_new = !has_action(pre_table.action@, idx, la) && k
                            == table.action@.len() - 1;
                        let changed_upd = has_action(pre_table.action@, idx, la) && k
                            == crate::table::action_idx(pre_table.action@, idx, la);
                        if changed_new || changed_upd {
                            assert(table.action@[k] == (ActionEntry {
                                state: idx,
                                symbol: la,
                                action: act,
                            }));
                            assert(states@[idx as int].all_set().contains(it));
                            assert(it.spec_is_complete(*g));
                        } else {
                            assert(table.action@[k] == pre_table.action@[k]);
                        }
                    }
                    assert forall|k: int| 0 <= k < table.action@.len() implies (match (
                    #[trigger] table.action@[k]).action {
                        Action::Shift(s) => s < states@.len(),
                        Action::Reduce(r) => r < g.rules@.len(),
                        _ => true,
                    }) && shift_cell_ok(*g, states@, table.action@[k]) && table.action@[k].state
                        <= idx by {
                        let changed_new = !has_action(pre_table.action@, idx, la) && k
                            == table.action@.len() - 1;
                        let changed_upd = has_action(pre_table.action@, idx, la) && k
                            == crate::table::action_idx(pre_table.action@, idx, la);
                        if !(changed_new || changed_upd) {
                            assert(table.action@[k] == pre_table.action@[k]);
                        } else {
                            assert(table.action@[k] == (ActionEntry {
                                state: idx,
                                symbol: la,
                                action: act,
                            }));
                            assert(!(act is Shift));
                        }
                    }
                    assert(table.goto@ == pre_table.goto@);
                    assert forall|i: int, sym2: Symbol|
                        0 <= i < idx && (exists|x: Item|
                            #[trigger] states@[i].all_set().contains(x) && x.spec_active_symbol(
                                *g,
                            ) == Some(sym2)) implies #[trigger] transition_recorded(
                        table,
                        i,
                        sym2,
                    ) by {
                        assert(transition_recorded(pre_table, i, sym2));
                        match sym2 {
                            Symbol::NonTerminal(b) => {
                                assert(has_goto(table.goto@, i as usize, b));
                            }
                            _ => {
                                assert(has_action(table.action@, i as usize, sym2));
                            }
                        }
                    }
                    assert forall|sym2: Symbol|
                        (exists|x: Item|
                            #[trigger] states@[idx as int].all_set().contains(x)
                                && x.spec_active_symbol(*g) == Some(
                                sym2,
                            )) implies #[trigger] transition_recorded(table, idx as int, sym2) by {
                        assert(transition_recorded(pre_table, idx as int, sym2));
                        match sym2 {
                            Symbol::NonTerminal(b) => {
                                assert(has_goto(table.goto@, idx, b));
                            }
                            _ => {
                                assert(has_action(table.action@, idx, sym2));
                            }
                        }
                    }
                    assert(pre_table.conflicts@.is_prefix_of(table.conflicts@));
                    lemma_conflicts_preserved(pre_table, table);
                    assert forall|s2: usize, y2: Symbol|
                        #[trigger] has_action(pre_reduce.action@, s2, y2) implies has_action(
                        table.action@,
                        s2,
                        y2,
                    ) by {
                        assert(has_action(pre_table.action@, s2, y2));
                    }
                    if has_action(pre_table.action@, idx, la) {
                        assert(table.conflicts@[table.conflicts@.len() - 1].state == idx
                            && table.conflicts@[table.conflicts@.len() - 1].symbol == la);
                        assert(conflict_recorded(table, idx, la));
                    }
                    assert forall|j: int|
                        0 <= j < q + 1 && (#[trigger] all2@[j]).spec_is_complete(*g) && has_action(
                            pre_reduce.action@,
                            idx,
                            all2@[j].look_ahead,
                        ) implies conflict_recorded(table, idx, all2@[j].look_ahead) by {
                        if j < q {
                            assert(conflict_recorded(pre_table, idx, all2@[j].look_ahead));
                        } else {
                            assert(all2@[j] == it);
                            assert(has_action(pre_table.action@, idx, la));
                        }
                    }
                    assert forall|j1: int, j2: int|
                        0 <= j1 < j2 < q + 1 && (#[trigger] all2@[j1]).spec_is_complete(*g) && (
                        #[trigger] all2@[j2]).spec_is_complete(*g) && all2@[j1].look_ahead
                            == all2@[j2].look_ahead implies conflict_recorded(
                        table,
                        idx,
                        all2@[j1].look_ahead,
                    ) by {
                        if j2 < q {
                            assert(conflict_recorded(pre_table, idx, all2@[j1].look_ahead));
                        } else {
                            assert(all2@[j2] == it);
                            assert(has_action(pre_table.action@, idx, all2@[j1].look_ahead));
                            assert(has_action(pre_table.action@, idx, la));
                        }
                    }
                    assert forall|i2: int, x: Item, y: Item|
                        0 <= i2 < idx && #[trigger] states@[i2].all_set().contains(x)
                            && x.spec_is_complete(*g) && #[trigger] states@[
                        i2
                    ].all_set().contains(y) && y.spec_active_symbol(*g) == Some(
                        x.look_ahead,
                    ) implies conflict_recorded(table, i2 as usize, x.look_ahead) by {
                        assert(conflict_recorded(pre_table, i2 as usize, x.look_ahead));
                    }
                    assert forall|i2: int, x1: Item, x2: Item|
                        0 <= i2 < idx && #[trigger] states@[i2].all_set().contains(x1)
                            && x1.spec_is_complete(*g) && #[trigger] states@[
                        i2
                    ].all_set().contains(x2) && x2.spec_is_complete(*g) && x1 != x2
                        && x1.look_ahead == x2.look_ahead implies conflict_recorded(
                        table,
                        i2 as usize,
                        x1.look_ahead,
                    ) by {
                        assert(conflict_recorded(pre_table, i2 as usize, x1.look_ahead));
                    }
                    assert forall|k: int|
                        0 <= k < table.conflicts@.len() implies (
                    #[trigger] table.conflicts@[k]).state < states@.len() && has_action(
                        table.action@,
                        table.conflicts@[k].state,
                        table.conflicts@[k].symbol,
                    ) by {
                        if k < pre_table.conflicts@.len() {
                            assert(table.conflicts@[k] == pre_table.conflicts@[k]);
                        } else {
                            assert(table.conflicts@[k].state == idx && table.conflicts@[k].symbol
                                == la);
                        }
                    }
                    assert forall|i2: int|
                        1 <= i2 < states@.len() implies #[trigger] state_referenced(
                        table,
                        (i2 as usize),
                    ) by {
                        assert(state_referenced(pre_table, i2 as usize));
                        if exists|kk: int|
                            0 <= kk < pre_table.goto@.len() && (
                            #[trigger] pre_table.goto@[kk]).to_state == i2 as usize {
                            let kk = choose|kk: int|
                                0 <= kk < pre_table.goto@.len() && (
                                #[trigger] pre_table.goto@[kk]).to_state == i2 as usize;
                            assert(table.goto@[kk] == pre_table.goto@[kk]);
                        } else if exists|kk: int|
                            0 <= kk < pre_table.action@.len() && (
                            #[trigger] pre_table.action@[kk]).action == Action::Shift(
                                i2 as usize,
                            ) {
                            let kk = choose|kk: int|
                                0 <= kk < pre_table.action@.len() && (
                                #[trigger] pre_table.action@[kk]).action == Action::Shift(
                                    i2 as usize,
                                );
                            if has_action(pre_table.action@, idx, la) {
                                let k0 = crate::table::action_idx(pre_table.action@, idx, la);
                                if kk == k0 {
                                    assert(table.conflicts@[table.conflicts@.len()
                                        - 1].first_action == Action::Shift(i2 as usize));
                                } else {
                                    assert(table.action@[kk] == pre_table.action@[kk]);
                                }
                            } else {
                                assert(table.action@[kk] == pre_table.action@[kk]);
                            }
                        } else {
                            let kk = choose|kk: int|
                                0 <= kk < pre_table.conflicts@.len() && ((
                                #[trigger] pre_table.conflicts@[kk]).first_action == Action::Shift(
                                    i2 as usize,
                                ) || pre_table.conflicts@[kk].second_action == Action::Shift(
                                    i2 as usize,
                                ));
                            assert(table.conflicts@[kk] == pre_table.conflicts@[kk]);
                        }
                    }
                    assert forall|k: int|
                        0 <= k < table.conflicts@.len() implies conflict_actions_justified(
                        *g,
                        states@,
                        #[trigger] table.conflicts@[k],
                    ) by {
                        if k < pre_table.conflicts@.len() {
                            assert(table.conflicts@[k] == pre_table.conflicts@[k]);
                        } else {
                            assert(has_action(pre_table.action@, idx, la));
                            let k0 = crate::table::action_idx(pre_table.action@, idx, la);
                            assert(table.conflicts@[k] == (Conflict {
                                first_action: pre_table.action@[k0].action,
                                second_action: act,
                                symbol: la,
                                state: idx,
                            }));
                            assert(pre_table.action@[k0].state == idx && pre_table.action@[
                                k0
                            ].symbol == la);
                            assert(action_cell_justified(*g, states@, pre_table.action@[k0]));
                            assert((ActionEntry {
                                state: idx,
                                symbol: la,
                                action: pre_table.action@[k0].action,
                            }) == pre_table.action@[k0]);
                            assert(states@[idx as int].all_set().contains(it)
                                && it.spec_is_complete(*g));
                        }
                    }
                }
            }
            q += 1;
        }
        proof {
            assert forall|x: Item|
                #[trigger] states@[idx as int].all_set().contains(x) && x.spec_is_complete(
                    *g,
                ) implies has_action(table.action@, idx, x.look_ahead) by {
                assert(all2@.contains(x));
                let j = choose|j: int| 0 <= j < all2@.len() && all2@[j] == x;
                assert(all2@[j].spec_is_complete(*g));
            }
            assert forall|x: Item, y: Item|
                #[trigger] states@[idx as int].all_set().contains(x) && x.spec_is_complete(*g)
                    && #[trigger] states@[idx as int].all_set().contains(y)
                    && y.spec_active_symbol(*g) == Some(x.look_ahead) implies conflict_recorded(
                table,
                idx,
                x.look_ahead,
            ) by {
                assert(state_ok(*g, es, states@[idx as int]));
                assert(item_ok(*g, es, x));
                assert(x.look_ahead.is_terminal_like());
                assert(transition_recorded(pre_reduce, idx as int, x.look_ahead));
                assert(has_action(pre_reduce.action@, idx, x.look_ahead));
                assert(all2@.contains(x));
                let j = choose|j: int| 0 <= j < all2@.len() && all2@[j] == x;
                assert(all2@[j].spec_is_complete(*g));
                assert(has_action(pre_reduce.action@, idx, all2@[j].look_ahead));
            }
            assert forall|x1: Item, x2: Item|
                #[trigger] states@[idx as int].all_set().contains(x1) && x1.spec_is_complete(*g)
                    && #[trigger] states@[idx as int].all_set().contains(x2)
                    && x2.spec_is_complete(*g) && x1 != x2 && x1.look_ahead == x2.look_ahead
                    implies conflict_recorded(table, idx, x1.look_ahead) by {
                assert(all2@.contains(x1) && all2@.contains(x2));
                let j1 = choose|j: int| 0 <= j < all2@.len() && all2@[j] == x1;
                let j2 = choose|j: int| 0 <= j < all2@.len() && all2@[j] == x2;
                if j1 < j2 {
                    assert(all2@[j1].spec_is_complete(*g) && all2@[j2].spec_is_complete(*g));
                    assert(all2@[j1].look_ahead == all2@[j2].look_ahead);
                    assert(conflict_recorded(table, idx, all2@[j1].look_ahead));
                } else {
                    assert(j2 < j1);
                    assert(all2@[j2].spec_is_complete(*g) && all2@[j1].spec_is_complete(*g));
                    assert(all2@[j2].look_ahead == all2@[j1].look_ahead);
                    assert(conflict_recorded(table, idx, all2@[j2].look_ahead));
                }
            }
        }
        idx += 1;
    }
    (states, table)
}

/// The analyser: a grammar, its FIRST map, and the automaton built from
/// them — the canonical LR(1) state collection and the action/goto table.
#[derive(Debug)]
pub struct Analyser {
    pub grammar: Grammar,
    pub first_sets: FirstSets,
    pub states: Vec<ItemSet>,
    pub table: Table,
}

impl Analyser {
    /// The analyser's guarantees: the FIRST map is exact for the grammar
    /// and the automaton was built from it.
    pub open spec fn wf(self) -> bool {
        &&& self.grammar.wf()
        &&& exact(self.first_sets.entries@, self.grammar)
        &&& built(self.grammar, self.first_sets.entries@, self.states@, self.table)
    }

    /// Builds the full analysis for `grammar`: FIRST sets, the state
    /// collection, and the table.
    pub fn new(grammar: Grammar) -> (r: Analyser)
        requires
            grammar.wf(),
        ensures
            r.grammar == grammar,
            r.wf(),
    {
        let fs = grammar.first_set();
        let (states, table) = build(&grammar, &fs);
        Analyser { grammar, first_sets: fs, states, table }
    }

    /// The automaton's states, in discovery order.
    pub fn states(&self) -> (r: &Vec<ItemSet>)
        ensures
            r@ == self.states@,
    {
        &self.states
    }

    /// The populated action/goto table.
    pub fn table(&self) -> (r: &Table)
        ensures
            *r == self.table,
    {
        &self.table
    }
}

/// `i` is the first rule whose left-hand side is `start`.
pub open spec fn first_start_rule(rules: Seq<Rule>, start: NonTerminal, i: int) -> bool {
    &&& 0 <= i < rules.len()
    &&& rules[i].lhs == start
    &&& forall|j: int| 0 <= j < i ==> (#[trigger] rules[j]).lhs != start
}

/// Builds the table for `rules` with start nonterminal `start`, using the
/// first rule whose left-hand side is `start` as the start rule.  Fails
/// precisely when no rule has `start` as its left-hand side; on success
/// the returned table is the built automaton's table: for the grammar
/// formed from `rules` and that start rule, some exact FIRST map and state
/// collection satisfy the builder's full guarantee with it.
pub fn generate_table(rules: Vec<Rule>, start: NonTerminal) -> (r: Result<Table, BuildError>)
    ensures
        r is Ok <==> exists|i: int| 0 <= i < rules@.len() && (#[trigger] rules@[i]).lhs == start,
        r is Err ==> r->Err_0 == BuildError::MissingStartRule,
        r is Ok ==> (r->Ok_0).wf(),
        r is Ok ==> exists|gg: Grammar, es: Seq<FirstEntry>, states: Seq<ItemSet>|
            gg.rules == rules && first_start_rule(rules@, start, gg.start_rule as int) && exact(
                es,
                gg,
            ) && #[trigger] built(gg, es, states, r->Ok_0),
        r is Ok ==> forall|k: int|
            0 <= k < (r->Ok_0).action@.len() ==> ((#[trigger] (r->Ok_0).action@[k]).action matches
            Action::Reduce(ri) ==> ri < rules@.len()),
{
    let mut start_index: usize = 0;
    let mut found = false;
    let mut i: usize = 0;
    while i < rules.len()
        invariant
            0 <= i <= rules@.len(),
            !found ==> forall|j: int| 0 <= j < i ==> (#[trigger] rules@[j]).lhs != start,
            found ==> first_start_rule(rules@, start, start_index as int),
        decreases rules@.len() - i,
    {
        if !found && rules[i].lhs == start {
            start_index = i;
            found = true;
        }
        i += 1;
    }
    if !found {
        return Err(BuildError::MissingStartRule);
    }
    proof {
        assert(first_start_rule(rules@, start, start_index as int));
    }
    let ghost rules_v = rules;
    let grammar = Grammar::new(rules, start_index);
    let ghost grammar_v = grammar;
    proof {
        assert(grammar_v == (Grammar { rules: rules_v, start_rule: start_index }));
    }
    let analyser = Analyser::new(grammar);
    let ghost es_v = analyser.first_sets.entries@;
    let ghost states_v = analyser.states@;
    let Analyser { grammar: g2, first_sets: _, states: _, table } = analyser;
    proof {
        assert(g2 == grammar_v);
        assert(grammar_v.rules == rules_v && grammar_v.start_rule == start_index);
        assert(first_start_rule(rules_v@, start, grammar_v.start_rule as int));
        assert(exact(es_v, grammar_v) && built(grammar_v, es_v, states_v, table));
        assert(g2.rules@.len() == rules_v@.len());
    }
    Ok(table)
}

} // verus!
