//! FIRST sets and nullability, computed to a fixed point and proved exact
//! against a derivation model of the grammar.
//!
//! The derivation model: `null_sym` says a symbol derives the empty string
//! within a given derivation depth, and `first_derives` says a symbol can
//! begin with a given terminal within a given depth.  The engine's contract
//! states that the computed sets coincide with these relations.

use vstd::prelude::*;

use crate::grammar::{sym_in_grammar, Grammar};
use crate::rule::Rule;
use crate::symbol::{clone_symbols, contains_symbol, Symbol};

verus! {

broadcast use
    vstd::seq_lib::lemma_seq_contains_after_push,
    vstd::seq_lib::seq_to_set_is_finite,
    vstd::set::group_set_axioms;

// ---------------------------------------------------------------------------
// Derivation model
// ---------------------------------------------------------------------------

/// Every symbol of `syms` derives the empty string within depth `fuel`.
pub open spec fn null_seq(rules: Seq<Rule>, syms: Seq<Symbol>, fuel: nat) -> bool
    decreases fuel, syms.len(),
{
    syms.len() == 0 || (null_sym(rules, syms[0], fuel) && null_seq(rules, syms.skip(1), fuel))
}

/// `s` derives the empty string within depth `fuel`: some rule rewrites it
/// to a right-hand side all of whose symbols do so at smaller depth.
pub open spec fn null_sym(rules: Seq<Rule>, s: Symbol, fuel: nat) -> bool
    decreases fuel, 0nat,
{
    fuel > 0 && exists|i: int|
        0 <= i < rules.len() && (#[trigger] rules[i]).lhs_sym() == s && null_seq(
            rules,
            rules[i].symbols@,
            (fuel - 1) as nat,
        )
}

/// `s` derives the empty string (at some depth): `s =>* epsilon`.
pub open spec fn derives_empty(rules: Seq<Rule>, s: Symbol) -> bool {
    exists|fuel: nat| null_sym(rules, s, fuel)
}

/// The first `k` symbols of `syms` all derive the empty string.
pub open spec fn prefix_nullable(rules: Seq<Rule>, syms: Seq<Symbol>, k: int) -> bool {
    forall|j: int| 0 <= j < k ==> derives_empty(rules, #[trigger] syms[j])
}

/// Nonterminal `s` derives a string beginning with terminal-like `t` within
/// depth `fuel`: some rule for `s` has a right-hand side whose first
/// non-nullable position is `t` itself or derives a string beginning with `t`.
pub open spec fn first_derives(rules: Seq<Rule>, s: Symbol, t: Symbol, fuel: nat) -> bool
    decreases fuel,
{
    fuel > 0 && exists|i: int, k: int|
        0 <= i < rules.len() && rules[i].lhs_sym() == s && 0 <= k < (
        #[trigger] rules[i].symbols@).len() && prefix_nullable(rules, rules[i].symbols@, k) && ((
        #[trigger] rules[i].symbols@[k]) == t && t.is_terminal_like() || first_derives(
            rules,
            rules[i].symbols@[k],
            t,
            (fuel - 1) as nat,
        ))
}

/// `t` can begin a derivation from `s`: either `s` is `t` itself (terminal
/// case) or `s` derives a string beginning with `t`.
pub open spec fn first_begins(rules: Seq<Rule>, s: Symbol, t: Symbol) -> bool {
    (s == t && t.is_terminal_like()) || exists|fuel: nat| first_derives(rules, s, t, fuel)
}

/// `null_seq` is the pointwise conjunction of `null_sym`.
pub proof fn lemma_null_seq_iff(rules: Seq<Rule>, syms: Seq<Symbol>, fuel: nat)
    ensures
        null_seq(rules, syms, fuel) <==> (forall|j: int|
            0 <= j < syms.len() ==> null_sym(rules, #[trigger] syms[j], fuel)),
    decreases syms.len(),
{
    if syms.len() == 0 {
    } else {
        lemma_null_seq_iff(rules, syms.skip(1), fuel);
        assert(forall|j: int| 0 <= j < syms.skip(1).len() ==> #[trigger] syms.skip(1)[j] == syms[j
            + 1]);
        if null_seq(rules, syms, fuel) {
            assert forall|j: int| 0 <= j < syms.len() implies null_sym(
                rules,
                #[trigger] syms[j],
                fuel,
            ) by {
                if j >= 1 {
                    assert(syms.skip(1)[j - 1] == syms[j]);
                    assert(null_sym(rules, syms.skip(1)[j - 1], fuel));
                }
            }
        }
        if forall|j: int| 0 <= j < syms.len() ==> null_sym(rules, #[trigger] syms[j], fuel) {
            assert(forall|j: int|
                0 <= j < syms.skip(1).len() ==> null_sym(rules, #[trigger] syms.skip(1)[j], fuel));
            assert(null_seq(rules, syms.skip(1), fuel));
            assert(null_sym(rules, syms[0], fuel));
        }
    }
}

/// Derivation depth only helps: a derivation at depth `f1` exists at any
/// depth `f2 >= f1`.
pub proof fn lemma_null_sym_mono(rules: Seq<Rule>, s: Symbol, f1: nat, f2: nat)
    requires
        null_sym(rules, s, f1),
        f1 <= f2,
    ensures
        null_sym(rules, s, f2),
    decreases f1,
{
    let i = choose|i: int|
        0 <= i < rules.len() && (#[trigger] rules[i]).lhs_sym() == s && null_seq(
            rules,
            rules[i].symbols@,
            (f1 - 1) as nat,
        );
    let syms = rules[i].symbols@;
    lemma_null_seq_iff(rules, syms, (f1 - 1) as nat);
    assert forall|j: int| 0 <= j < syms.len() implies null_sym(
        rules,
        #[trigger] syms[j],
        (f2 - 1) as nat,
    ) by {
        lemma_null_sym_mono(rules, syms[j], (f1 - 1) as nat, (f2 - 1) as nat);
    }
    lemma_null_seq_iff(rules, syms, (f2 - 1) as nat);
}

/// If every symbol of `syms` derives empty at some depth, one common depth
/// serves for the whole sequence.
pub proof fn lemma_derives_empty_seq(rules: Seq<Rule>, syms: Seq<Symbol>) -> (fuel: nat)
    requires
        forall|j: int| 0 <= j < syms.len() ==> derives_empty(rules, #[trigger] syms[j]),
    ensures
        null_seq(rules, syms, fuel),
    decreases syms.len(),
{
    if syms.len() == 0 {
        assert(null_seq(rules, syms, 0));
        0
    } else {
        let f0 = choose|f0: nat| null_sym(rules, syms[0], f0);
        assert(forall|j: int|
            0 <= j < syms.skip(1).len() ==> derives_empty(rules, #[trigger] syms.skip(1)[j])) by {
            assert(forall|j: int|
                0 <= j < syms.skip(1).len() ==> #[trigger] syms.skip(1)[j] == syms[j + 1]);
        }
        let fr = lemma_derives_empty_seq(rules, syms.skip(1));
        let f = f0 + fr;
        lemma_null_sym_mono(rules, syms[0], f0, f);
        lemma_null_seq_iff(rules, syms.skip(1), fr);
        assert forall|j: int| 0 <= j < syms.skip(1).len() implies null_sym(
            rules,
            #[trigger] syms.skip(1)[j],
            f,
        ) by {
            lemma_null_sym_mono(rules, syms.skip(1)[j], fr, f);
        }
        lemma_null_seq_iff(rules, syms.skip(1), f);
        assert(null_seq(rules, syms, f));
        f
    }
}

/// A rule whose whole right-hand side derives empty makes its left-hand
/// side derive empty.
pub proof fn lemma_null_intro(rules: Seq<Rule>, ri: int)
    requires
        0 <= ri < rules.len(),
        forall|j: int|
            0 <= j < rules[ri].symbols@.len() ==> derives_empty(
                rules,
                #[trigger] rules[ri].symbols@[j],
            ),
    ensures
        derives_empty(rules, rules[ri].lhs_sym()),
{
    let fuel = lemma_derives_empty_seq(rules, rules[ri].symbols@);
    assert(null_sym(rules, rules[ri].lhs_sym(), fuel + 1));
}

// ---------------------------------------------------------------------------
// The computed map
// ---------------------------------------------------------------------------

/// One row of the FIRST map: a symbol, its FIRST set, and whether it is
/// known nullable.
#[derive(Clone, Debug)]
pub struct FirstEntry {
    pub sym: Symbol,
    pub firsts: Vec<Symbol>,
    pub nullable: bool,
}

/// The FIRST map: one row per symbol of the grammar, the end-of-input
/// sentinel included, treated like a terminal so that lookahead
/// propagation at end of rule works uniformly.
#[derive(Clone, Debug)]
pub struct FirstSets {
    pub entries: Vec<FirstEntry>,
}

/// A row for `s` exists.
pub open spec fn has_sym(es: Seq<FirstEntry>, s: Symbol) -> bool {
    exists|k: int| 0 <= k < es.len() && (#[trigger] es[k]).sym == s
}

/// The index of the row for `s` (rows have unique symbols under `rows_wf`).
pub open spec fn idx_of(es: Seq<FirstEntry>, s: Symbol) -> int {
    choose|k: int| 0 <= k < es.len() && (#[trigger] es[k]).sym == s
}

/// The FIRST set recorded for `s`.
pub open spec fn firsts_of(es: Seq<FirstEntry>, s: Symbol) -> Seq<Symbol> {
    es[idx_of(es, s)].firsts@
}

/// `s` has a row marked nullable.
pub open spec fn marked_nullable(es: Seq<FirstEntry>, s: Symbol) -> bool {
    has_sym(es, s) && es[idx_of(es, s)].nullable
}

/// `t` stands in the recorded FIRST set of `s`.
pub open spec fn first_has(es: Seq<FirstEntry>, s: Symbol, t: Symbol) -> bool {
    has_sym(es, s) && firsts_of(es, s).contains(t)
}

/// Structural well-formedness of the rows: unique row symbols, and each
/// FIRST set duplicate-free, holding only terminal-like symbols that have
/// rows of their own.
pub open spec fn rows_wf(es: Seq<FirstEntry>) -> bool {
    &&& forall|k1: int, k2: int|
        0 <= k1 < k2 < es.len() ==> (#[trigger] es[k1]).sym != (#[trigger] es[k2]).sym
    &&& forall|k: int| 0 <= k < es.len() ==> (#[trigger] es[k]).firsts@.no_duplicates()
    &&& forall|k: int, j: int|
        0 <= k < es.len() && 0 <= j < es[k].firsts@.len() ==> (#[trigger] es[k].firsts@[j]).is_terminal_like()
            && has_sym(es, es[k].firsts@[j])
}

/// The rows cover exactly the symbols of the grammar.
pub open spec fn keys_cover(es: Seq<FirstEntry>, g: Grammar) -> bool {
    forall|s: Symbol| #[trigger] has_sym(es, s) <==> sym_in_grammar(g, s)
}

/// Terminal-like rows are exact: FIRST of a terminal is the singleton of
/// that terminal, and a terminal is never nullable.
pub open spec fn term_exact(es: Seq<FirstEntry>) -> bool {
    forall|k: int|
        0 <= k < es.len() && (#[trigger] es[k]).sym.is_terminal_like() ==> es[k].firsts@ =~= seq![
            es[k].sym,
        ] && !es[k].nullable
}

/// Everything recorded is justified by a derivation.
pub open spec fn rows_sound(es: Seq<FirstEntry>, rules: Seq<Rule>) -> bool {
    &&& forall|k: int|
        0 <= k < es.len() && (#[trigger] es[k]).nullable ==> derives_empty(rules, es[k].sym)
    &&& forall|k: int, j: int|
        0 <= k < es.len() && 0 <= j < es[k].firsts@.len() ==> first_begins(
            rules,
            es[k].sym,
            #[trigger] es[k].firsts@[j],
        )
}

/// The first `k` symbols of `syms` are all marked nullable.
pub open spec fn marked_prefix(es: Seq<FirstEntry>, syms: Seq<Symbol>, k: int) -> bool {
    forall|j: int| 0 <= j < k ==> marked_nullable(es, #[trigger] syms[j])
}

/// Nothing recorded for `s` is missing from the row of `lhs`.
pub open spec fn row_subset(es: Seq<FirstEntry>, s: Symbol, lhs: Symbol) -> bool {
    forall|t: Symbol| #[trigger] first_has(es, s, t) ==> first_has(es, lhs, t)
}

/// One rule is at a fixed point: along its right-hand side, as long as the
/// prefix is marked nullable, the FIRST set of each symbol reached has been
/// merged into the left-hand side's, and if the whole side is marked
/// nullable then so is the left-hand side.
pub open spec fn stable_rule(es: Seq<FirstEntry>, rules: Seq<Rule>, i: int) -> bool {
    &&& forall|k: int|
        0 <= k < rules[i].symbols@.len() && marked_prefix(es, rules[i].symbols@, k)
            ==> row_subset(es, #[trigger] rules[i].symbols@[k], rules[i].lhs_sym())
    &&& (marked_prefix(es, rules[i].symbols@, rules[i].symbols@.len() as int) ==> marked_nullable(
        es,
        rules[i].lhs_sym(),
    ))
}

/// Every rule is at a fixed point.
pub open spec fn stable(es: Seq<FirstEntry>, rules: Seq<Rule>) -> bool {
    forall|i: int| 0 <= i < rules.len() ==> #[trigger] stable_rule(es, rules, i)
}

/// The computed map is exact for `g`: rows cover precisely the grammar's
/// symbols, a symbol is marked nullable precisely when it derives the
/// empty string, and a FIRST set holds precisely the derivable first
/// terminals.
pub open spec fn exact(es: Seq<FirstEntry>, g: Grammar) -> bool {
    &&& rows_wf(es)
    &&& keys_cover(es, g)
    &&& term_exact(es)
    &&& forall|s: Symbol| #[trigger] marked_nullable(es, s) <==> derives_empty(g.rules@, s)
    &&& forall|s: Symbol, t: Symbol|
        #[trigger] first_has(es, s, t) <==> (sym_in_grammar(g, s) && first_begins(g.rules@, s, t))
}

/// With unique row symbols, any row whose symbol is `s` is the row
/// `idx_of` picks.
pub proof fn lemma_idx_unique(es: Seq<FirstEntry>, k: int)
    requires
        rows_wf(es),
        0 <= k < es.len(),
    ensures
        idx_of(es, es[k].sym) == k,
        has_sym(es, es[k].sym),
{
    assert(has_sym(es, es[k].sym));
    let k2 = idx_of(es, es[k].sym);
    if k2 != k {
        assert(es[k].sym != es[k2].sym);
    }
}

// ---------------------------------------------------------------------------
// Termination measure
// ---------------------------------------------------------------------------

/// The untapped potential of one row: how far its FIRST set is from the
/// bound `u`, plus one while it is not yet marked nullable.
pub open spec fn entry_measure(e: FirstEntry, u: int) -> int {
    (u - e.firsts@.len()) + if e.nullable {
        0int
    } else {
        1int
    }
}

/// The total untapped potential of the map.
pub open spec fn rows_measure(es: Seq<FirstEntry>, u: int) -> int
    decreases es.len(),
{
    if es.len() == 0 {
        0
    } else {
        entry_measure(es[0], u) + rows_measure(es.skip(1), u)
    }
}

/// Replacing one row changes the total by the difference of that row.
pub proof fn lemma_measure_update(es: Seq<FirstEntry>, k: int, e2: FirstEntry, u: int)
    requires
        0 <= k < es.len(),
    ensures
        rows_measure(es.update(k, e2), u) == rows_measure(es, u) - entry_measure(es[k], u)
            + entry_measure(e2, u),
    decreases es.len(),
{
    let es2 = es.update(k, e2);
    if k == 0 {
        assert(es2.skip(1) =~= es.skip(1));
    } else {
        assert(es2.skip(1) =~= es.skip(1).update(k - 1, e2));
        lemma_measure_update(es.skip(1), k - 1, e2, u);
    }
}

/// A duplicate-free sequence drawn from another sequence is no longer.
pub proof fn lemma_nodup_subset_len(sub: Seq<Symbol>, sup: Seq<Symbol>)
    requires
        sub.no_duplicates(),
        forall|x: Symbol| sub.contains(x) ==> sup.contains(x),
    ensures
        sub.len() <= sup.len(),
{
    sub.unique_seq_to_set();
    sup.lemma_cardinality_of_set();
    assert(sub.to_set().subset_of(sup.to_set()));
    vstd::set_lib::lemma_len_subset(sub.to_set(), sup.to_set());
}

/// Under `rows_wf` each FIRST set is bounded by the number of rows.
pub proof fn lemma_row_bound(es: Seq<FirstEntry>, k: int)
    requires
        rows_wf(es),
        0 <= k < es.len(),
    ensures
        es[k].firsts@.len() <= es.len(),
{
    let keys = es.map_values(|e: FirstEntry| e.sym);
    assert forall|x: Symbol| es[k].firsts@.contains(x) implies keys.contains(x) by {
        let j = choose|j: int| 0 <= j < es[k].firsts@.len() && es[k].firsts@[j] == x;
        assert(has_sym(es, es[k].firsts@[j]));
        let k2 = idx_of(es, x);
        assert(keys[k2] == es[k2].sym);
    }
    lemma_nodup_subset_len(es[k].firsts@, keys);
}

/// The total potential of every suffix of a well-formed map is
/// non-negative.
pub proof fn lemma_measure_nonneg(full: Seq<FirstEntry>, m: int, u: int)
    requires
        rows_wf(full),
        u == full.len(),
        0 <= m <= full.len(),
    ensures
        rows_measure(full.skip(m), u) >= 0,
    decreases full.len() - m,
{
    if m < full.len() {
        lemma_measure_nonneg(full, m + 1, u);
        assert(full.skip(m).skip(1) =~= full.skip(m + 1));
        lemma_row_bound(full, m);
        assert(full.skip(m)[0] == full[m]);
    } else {
        assert(full.skip(m) =~= Seq::<FirstEntry>::empty());
    }
}

/// A rule position `k` with a nullable prefix propagates a first symbol of
/// `symbols[k]` to the rule's left-hand side.
pub proof fn lemma_first_intro(rules: Seq<Rule>, ri: int, k: int, t: Symbol)
    requires
        0 <= ri < rules.len(),
        0 <= k < rules[ri].symbols@.len(),
        prefix_nullable(rules, rules[ri].symbols@, k),
        first_begins(rules, rules[ri].symbols@[k], t),
    ensures
        first_begins(rules, rules[ri].lhs_sym(), t),
{
    let syms = rules[ri].symbols@;
    if syms[k] == t && t.is_terminal_like() {
        assert(first_derives(rules, rules[ri].lhs_sym(), t, 1));
    } else {
        let f = choose|f: nat| first_derives(rules, syms[k], t, f);
        assert(first_derives(rules, rules[ri].lhs_sym(), t, f + 1));
    }
}

// ---------------------------------------------------------------------------
// Completeness at the fixed point
// ---------------------------------------------------------------------------

/// At a fixed point, every symbol that derives empty is marked nullable.
pub proof fn lemma_nullable_complete(rules: Seq<Rule>, es: Seq<FirstEntry>, s: Symbol, fuel: nat)
    requires
        stable(es, rules),
        null_sym(rules, s, fuel),
    ensures
        marked_nullable(es, s),
    decreases fuel,
{
    let i = choose|i: int|
        0 <= i < rules.len() && (#[trigger] rules[i]).lhs_sym() == s && null_seq(
            rules,
            rules[i].symbols@,
            (fuel - 1) as nat,
        );
    let syms = rules[i].symbols@;
    lemma_null_seq_iff(rules, syms, (fuel - 1) as nat);
    assert forall|j: int| 0 <= j < syms.len() implies marked_nullable(es, #[trigger] syms[j]) by {
        lemma_nullable_complete(rules, es, syms[j], (fuel - 1) as nat);
    }
    assert(stable_rule(es, rules, i));
    assert(marked_prefix(es, syms, syms.len() as int));
}

/// At a fixed point, with exact terminal rows covering the grammar, every
/// derivable first symbol is recorded.
pub proof fn lemma_first_complete(g: Grammar, es: Seq<FirstEntry>, s: Symbol, t: Symbol, fuel: nat)
    requires
        stable(es, g.rules@),
        rows_wf(es),
        term_exact(es),
        keys_cover(es, g),
        first_derives(g.rules@, s, t, fuel),
    ensures
        first_has(es, s, t),
    decreases fuel,
{
    let rules = g.rules@;
    let (i, k): (int, int) = choose|i: int, k: int|
        0 <= i < rules.len() && rules[i].lhs_sym() == s && 0 <= k < (
        #[trigger] rules[i].symbols@).len() && prefix_nullable(rules, rules[i].symbols@, k) && ((
        #[trigger] rules[i].symbols@[k]) == t && t.is_terminal_like() || first_derives(
            rules,
            rules[i].symbols@[k],
            t,
            (fuel - 1) as nat,
        ));
    let syms = rules[i].symbols@;
    assert forall|j: int| 0 <= j < k implies marked_nullable(es, #[trigger] syms[j]) by {
        assert(derives_empty(rules, syms[j]));
        let fj = choose|fj: nat| null_sym(rules, syms[j], fj);
        lemma_nullable_complete(rules, es, syms[j], fj);
    }
    assert(stable_rule(es, rules, i));
    assert(marked_prefix(es, syms, k));
    assert(row_subset(es, syms[k], rules[i].lhs_sym()));
    if syms[k] == t && t.is_terminal_like() {
        assert(sym_in_grammar(g, t));
        assert(has_sym(es, t));
        let kt = idx_of(es, t);
        assert(es[kt].firsts@ =~= seq![t]);
        assert(firsts_of(es, t).contains(t));
        assert(first_has(es, syms[k], t));
    } else {
        lemma_first_complete(g, es, syms[k], t, (fuel - 1) as nat);
    }
}

// ---------------------------------------------------------------------------
// The engine
// ---------------------------------------------------------------------------

/// The engine's invariant: structurally well-formed rows that cover the
/// grammar, exact terminal rows, and only derivation-justified contents.
pub open spec fn inv(es: Seq<FirstEntry>, g: Grammar) -> bool {
    &&& rows_wf(es)
    &&& keys_cover(es, g)
    &&& term_exact(es)
    &&& rows_sound(es, g.rules@)
}

impl FirstSets {
    /// The index of the row for `s`, if one exists.
    pub fn find_entry(&self, s: Symbol) -> (r: Option<usize>)
        ensures
            match r {
                Some(k) => k < self.entries@.len() && self.entries@[k as int].sym == s,
                None => !has_sym(self.entries@, s),
            },
    {
        let mut i: usize = 0;
        while i < self.entries.len()
            invariant
                0 <= i <= self.entries@.len(),
                forall|j: int| 0 <= j < i ==> (#[trigger] self.entries@[j]).sym != s,
            decreases self.entries@.len() - i,
        {
            if self.entries[i].sym == s {
                return Some(i);
            }
            i += 1;
        }
        None
    }

    /// The FIRST set recorded for `s`, if `s` has a row.
    pub fn get(&self, s: Symbol) -> (r: Option<&Vec<Symbol>>)
        requires
            rows_wf(self.entries@),
        ensures
            match r {
                Some(v) => has_sym(self.entries@, s) && v@ == firsts_of(self.entries@, s),
                None => !has_sym(self.entries@, s),
            },
    {
        match self.find_entry(s) {
            Some(k) => {
                proof {
                    lemma_idx_unique(self.entries@, k as int);
                }
                Some(&self.entries[k].firsts)
            }
            None => None,
        }
    }

    /// Whether `s` is marked nullable.
    pub fn nullable(&self, s: Symbol) -> (r: bool)
        requires
            rows_wf(self.entries@),
        ensures
            r == marked_nullable(self.entries@, s),
    {
        match self.find_entry(s) {
            Some(k) => {
                proof {
                    lemma_idx_unique(self.entries@, k as int);
                }
                self.entries[k].nullable
            }
            None => false,
        }
    }
}

/// Appends one justified terminal to the row `dst`; the total potential
/// drops by exactly one.
fn push_first(fs: &mut FirstSets, dst: usize, t: Symbol, g: &Grammar)
    requires
        inv(old(fs).entries@, *g),
        dst < old(fs).entries@.len(),
        !old(fs).entries@[dst as int].sym.is_terminal_like(),
        t.is_terminal_like(),
        has_sym(old(fs).entries@, t),
        first_begins(g.rules@, old(fs).entries@[dst as int].sym, t),
        !old(fs).entries@[dst as int].firsts@.contains(t),
    ensures
        inv(final(fs).entries@, *g),
        final(fs).entries@.len() == old(fs).entries@.len(),
        forall|k: int|
            0 <= k < old(fs).entries@.len() ==> (#[trigger] final(fs).entries@[k]).sym == old(fs).entries@[k].sym && final(fs).entries@[k].nullable == old(fs).entries@[k].nullable,
        forall|k: int|
            0 <= k < old(fs).entries@.len() && k != dst ==> (#[trigger] final(fs).entries@[k]).firsts@ == old(fs).entries@[k].firsts@,
        final(fs).entries@[dst as int].firsts@ == old(fs).entries@[dst as int].firsts@.push(t),
        rows_measure(final(fs).entries@, old(fs).entries@.len() as int) == rows_measure(
            old(fs).entries@,
            old(fs).entries@.len() as int,
        ) - 1,
{
    let ghost prev = fs.entries@;
    let ghost u = prev.len() as int;
    fs.entries[dst].firsts.push(t);
    proof {
        let es = fs.entries@;
        assert(es == prev.update(dst as int, es[dst as int]));
        lemma_measure_update(prev, dst as int, es[dst as int], u);
        // The appended row stays duplicate-free.
        assert(es[dst as int].firsts@.no_duplicates()) by {
            let row = prev[dst as int].firsts@;
            assert(forall|j: int| 0 <= j < row.len() ==> row[j] != t);
        }
        // Row symbols are untouched, so `has_sym` carries over.
        assert forall|s: Symbol| has_sym(prev, s) implies has_sym(es, s) by {
            let k = choose|k: int| 0 <= k < prev.len() && (#[trigger] prev[k]).sym == s;
            assert(es[k].sym == s);
        }
        assert forall|s: Symbol| has_sym(es, s) implies has_sym(prev, s) by {
            let k = choose|k: int| 0 <= k < es.len() && (#[trigger] es[k]).sym == s;
            assert(prev[k].sym == s);
        }
        assert(rows_wf(es));
        assert(keys_cover(es, *g));
        assert(term_exact(es));
        assert(rows_sound(es, g.rules@)) by {
            assert forall|k: int, j: int|
                0 <= k < es.len() && 0 <= j < es[k].firsts@.len() implies first_begins(
                g.rules@,
                es[k].sym,
                #[trigger] es[k].firsts@[j],
            ) by {
                if k == dst && j == es[k].firsts@.len() - 1 {
                    assert(es[k].firsts@[j] == t);
                } else {
                    assert(es[k].firsts@[j] == prev[k].firsts@[j]);
                }
            }
        }
    }
}

/// Merges the FIRST set of row `src` into row `dst`, recording whether the
/// destination grew.  Everything the merged rows relate is characterized
/// exactly: afterwards `dst` holds a symbol iff it already did or `src` did.
fn merge_row(fs: &mut FirstSets, src: usize, dst: usize, g: &Grammar) -> (changed: bool)
    requires
        inv(old(fs).entries@, *g),
        src < old(fs).entries@.len(),
        dst < old(fs).entries@.len(),
        !old(fs).entries@[dst as int].sym.is_terminal_like(),
        forall|t: Symbol|
            old(fs).entries@[src as int].firsts@.contains(t) ==> first_begins(
                g.rules@,
                old(fs).entries@[dst as int].sym,
                t,
            ),
    ensures
        inv(final(fs).entries@, *g),
        final(fs).entries@.len() == old(fs).entries@.len(),
        forall|k: int|
            0 <= k < old(fs).entries@.len() ==> (#[trigger] final(fs).entries@[k]).sym == old(fs).entries@[k].sym && final(fs).entries@[k].nullable == old(fs).entries@[k].nullable,
        forall|s: Symbol, t: Symbol|
            #[trigger] first_has(final(fs).entries@, s, t) <==> (first_has(old(fs).entries@, s, t)
                || (s == old(fs).entries@[dst as int].sym && old(fs).entries@[src as int].firsts@.contains(t))),
        rows_measure(final(fs).entries@, old(fs).entries@.len() as int) <= rows_measure(
            old(fs).entries@,
            old(fs).entries@.len() as int,
        ),
        changed ==> rows_measure(final(fs).entries@, old(fs).entries@.len() as int)
            < rows_measure(old(fs).entries@, old(fs).entries@.len() as int),
        !changed ==> final(fs).entries@ == old(fs).entries@,
{
    let ghost prev = fs.entries@;
    let ghost u = prev.len() as int;
    let ghost dst_sym = prev[dst as int].sym;
    // Copy the source row so the destination can be mutated freely.
    let src_firsts = clone_symbols(&fs.entries[src].firsts);
    let n = src_firsts.len();
    let mut changed = false;
    let mut j: usize = 0;
    while j < n
        invariant
            0 <= j <= n,
            n == src_firsts@.len(),
            u == prev.len() as int,
            inv(prev, *g),
            src < prev.len(),
            dst < prev.len(),
            src_firsts@ == prev[src as int].firsts@,
            dst_sym == prev[dst as int].sym,
            !dst_sym.is_terminal_like(),
            forall|t: Symbol|
                prev[src as int].firsts@.contains(t) ==> first_begins(g.rules@, dst_sym, t),
            inv(fs.entries@, *g),
            fs.entries@.len() == prev.len(),
            forall|k: int|
                0 <= k < prev.len() ==> (#[trigger] fs.entries@[k]).sym == prev[k].sym
                    && fs.entries@[k].nullable == prev[k].nullable,
            forall|k: int|
                0 <= k < prev.len() && k != dst ==> (#[trigger] fs.entries@[k]).firsts@
                    == prev[k].firsts@,
            forall|t: Symbol|
                fs.entries@[dst as int].firsts@.contains(t) <==> (
                prev[dst as int].firsts@.contains(t) || src_firsts@.take(j as int).contains(t)),
            rows_measure(fs.entries@, u) <= rows_measure(prev, u),
            changed ==> rows_measure(fs.entries@, u) < rows_measure(prev, u),
            !changed ==> fs.entries@ == prev,
        decreases n - j,
    {
        let t = src_firsts[j];
        proof {
            assert(src_firsts@.contains(t));
            assert(src_firsts@.take(j + 1) == src_firsts@.take(j as int).push(t));
        }
        if !contains_symbol(&fs.entries[dst].firsts, t) {
            proof {
                lemma_idx_unique(prev, src as int);
                assert(prev[src as int].firsts@[j as int] == t);
                assert(t.is_terminal_like() && has_sym(prev, t));
                assert(has_sym(fs.entries@, t)) by {
                    let k = choose|k: int| 0 <= k < prev.len() && (#[trigger] prev[k]).sym == t;
                    assert(fs.entries@[k].sym == t);
                }
            }
            push_first(fs, dst, t, g);
            changed = true;
        }
        j += 1;
    }
    proof {
        assert(src_firsts@.take(n as int) == src_firsts@);
        let es = fs.entries@;
        assert forall|s: Symbol, t: Symbol| #[trigger] first_has(es, s, t) <==> (first_has(
            prev,
            s,
            t,
        ) || (s == dst_sym && prev[src as int].firsts@.contains(t))) by {
            if has_sym(es, s) {
                let k = choose|k: int| 0 <= k < es.len() && (#[trigger] es[k]).sym == s;
                lemma_idx_unique(es, k);
                lemma_idx_unique(prev, k);
                assert(idx_of(es, s) == k && idx_of(prev, s) == k);
                if k == dst {
                    assert(s == dst_sym);
                } else {
                    assert(es[k].firsts@ == prev[k].firsts@);
                }
            } else {
                assert(!has_sym(prev, s)) by {
                    if has_sym(prev, s) {
                        let k = choose|k: int|
                            0 <= k < prev.len() && (#[trigger] prev[k]).sym == s;
                        assert(es[k].sym == s);
                    }
                }
            }
        }
    }
    changed
}

/// Runs one rule of a fixed-point pass: walks the right-hand side, merging
/// each symbol's FIRST set into the left-hand side's row and stopping at
/// the first symbol not known nullable; if the walk consumes the whole
/// side, the left-hand side is marked nullable.  Reports whether anything
/// grew; if nothing did, the rule is at a fixed point.
fn process_rule(fs: &mut FirstSets, g: &Grammar, ri: usize) -> (changed: bool)
    requires
        inv(old(fs).entries@, *g),
        ri < g.rules@.len(),
    ensures
        inv(final(fs).entries@, *g),
        final(fs).entries@.len() == old(fs).entries@.len(),
        rows_measure(final(fs).entries@, old(fs).entries@.len() as int) <= rows_measure(
            old(fs).entries@,
            old(fs).entries@.len() as int,
        ),
        changed ==> rows_measure(final(fs).entries@, old(fs).entries@.len() as int) < rows_measure(
            old(fs).entries@,
            old(fs).entries@.len() as int,
        ),
        !changed ==> final(fs).entries@ == old(fs).entries@ && stable_rule(
            final(fs).entries@,
            g.rules@,
            ri as int,
        ),
{
    let ghost prev = fs.entries@;
    let ghost u = prev.len() as int;
    let ghost rules = g.rules@;
    let lhs_sym = g.rules[ri].lhs_as_sym();
    proof {
        assert(sym_in_grammar(*g, lhs_sym));
        assert(has_sym(prev, lhs_sym));
    }
    let li: usize;
    match fs.find_entry(lhs_sym) {
        Some(l) => {
            li = l;
        }
        None => {
            proof {
                assert(false);
            }
            li = 0;
        }
    }
    proof {
        lemma_idx_unique(prev, li as int);
    }
    let n = g.rules[ri].symbols.len();
    let mut k: usize = 0;
    let mut stopped = false;
    let mut changed = false;
    while k < n && !stopped
        invariant
            0 <= k <= n,
            ri < rules.len(),
            rules == g.rules@,
            n == rules[ri as int].symbols@.len(),
            u == prev.len() as int,
            inv(prev, *g),
            lhs_sym == rules[ri as int].lhs_sym(),
            !lhs_sym.is_terminal_like(),
            li < prev.len(),
            prev[li as int].sym == lhs_sym,
            inv(fs.entries@, *g),
            fs.entries@.len() == prev.len(),
            forall|kk: int|
                0 <= kk < prev.len() ==> (#[trigger] fs.entries@[kk]).sym == prev[kk].sym,
            rows_measure(fs.entries@, u) <= rows_measure(prev, u),
            changed ==> rows_measure(fs.entries@, u) < rows_measure(prev, u),
            !changed ==> fs.entries@ == prev,
            forall|j: int|
                0 <= j < k ==> marked_nullable(
                    fs.entries@,
                    #[trigger] rules[ri as int].symbols@[j],
                ),
            forall|j: int|
                0 <= j < k ==> row_subset(
                    fs.entries@,
                    #[trigger] rules[ri as int].symbols@[j],
                    lhs_sym,
                ),
            stopped ==> k < n && row_subset(
                fs.entries@,
                rules[ri as int].symbols@[k as int],
                lhs_sym,
            ) && !marked_nullable(fs.entries@, rules[ri as int].symbols@[k as int]),
        decreases n - k, (if stopped { 0int } else { 1int }),
    {
        let s = g.rules[ri].symbols[k];
        proof {
            assert(sym_in_grammar(*g, s));
            assert(has_sym(fs.entries@, s));
        }
        let si: usize;
        match fs.find_entry(s) {
            Some(x) => {
                si = x;
            }
            None => {
                proof {
                    assert(false);
                }
                si = 0;
            }
        }
        let ghost cur = fs.entries@;
        proof {
            lemma_idx_unique(cur, si as int);
            lemma_idx_unique(cur, li as int);
            assert(cur[li as int].sym == lhs_sym);
            assert forall|t: Symbol| cur[si as int].firsts@.contains(t) implies first_begins(
                rules,
                lhs_sym,
                t,
            ) by {
                let jj = choose|jj: int|
                    0 <= jj < cur[si as int].firsts@.len() && cur[si as int].firsts@[jj] == t;
                assert(first_begins(rules, cur[si as int].sym, cur[si as int].firsts@[jj]));
                assert(prefix_nullable(rules, rules[ri as int].symbols@, k as int)) by {
                    assert forall|j: int| 0 <= j < k implies derives_empty(
                        rules,
                        #[trigger] rules[ri as int].symbols@[j],
                    ) by {
                        let sym_j = rules[ri as int].symbols@[j];
                        assert(marked_nullable(cur, sym_j));
                        let kk = idx_of(cur, sym_j);
                        assert(0 <= kk < cur.len() && cur[kk].sym == sym_j && cur[kk].nullable);
                    }
                }
                lemma_first_intro(rules, ri as int, k as int, t);
            }
        }
        let ch = merge_row(fs, si, li, g);
        proof {
            let es = fs.entries@;
            assert forall|j: int| 0 <= j < k implies marked_nullable(
                es,
                #[trigger] rules[ri as int].symbols@[j],
            ) by {
                let sym_j = rules[ri as int].symbols@[j];
                let kk = idx_of(cur, sym_j);
                assert(cur[kk].sym == sym_j && cur[kk].nullable);
                assert(es[kk].sym == sym_j && es[kk].nullable == cur[kk].nullable);
                lemma_idx_unique(es, kk);
            }
            assert forall|j: int| 0 <= j <= k implies row_subset(
                es,
                #[trigger] rules[ri as int].symbols@[j],
                lhs_sym,
            ) by {
                let sym_j = rules[ri as int].symbols@[j];
                assert forall|t: Symbol| #[trigger] first_has(es, sym_j, t) implies first_has(
                    es,
                    lhs_sym,
                    t,
                ) by {
                    if first_has(cur, sym_j, t) {
                        if j < k {
                            assert(first_has(cur, lhs_sym, t));
                        } else {
                            assert(sym_j == s);
                            assert(idx_of(cur, s) == si);
                            assert(cur[si as int].firsts@.contains(t));
                        }
                    } else {
                        assert(sym_j == cur[li as int].sym);
                    }
                }
            }
        }
        changed = changed || ch;
        if fs.entries[si].nullable {
            proof {
                lemma_idx_unique(fs.entries@, si as int);
                assert(marked_nullable(fs.entries@, s));
            }
            k += 1;
        } else {
            proof {
                lemma_idx_unique(fs.entries@, si as int);
                assert(!marked_nullable(fs.entries@, s));
            }
            stopped = true;
        }
    }
    if !stopped {
        let ghost cur = fs.entries@;
        proof {
            assert forall|j: int| 0 <= j < n implies derives_empty(
                rules,
                #[trigger] rules[ri as int].symbols@[j],
            ) by {
                let sym_j = rules[ri as int].symbols@[j];
                assert(marked_nullable(cur, sym_j));
                let kk = idx_of(cur, sym_j);
                assert(0 <= kk < cur.len() && cur[kk].sym == sym_j && cur[kk].nullable);
            }
            lemma_null_intro(rules, ri as int);
            lemma_idx_unique(cur, li as int);
        }
        if !fs.entries[li].nullable {
            fs.entries[li].nullable = true;
            changed = true;
            proof {
                let es = fs.entries@;
                assert(es == cur.update(li as int, es[li as int]));
                lemma_measure_update(cur, li as int, es[li as int], u);
                assert forall|sy: Symbol| has_sym(cur, sy) implies has_sym(es, sy) by {
                    let kk = choose|kk: int| 0 <= kk < cur.len() && (#[trigger] cur[kk]).sym == sy;
                    assert(es[kk].sym == sy);
                }
                assert forall|sy: Symbol| has_sym(es, sy) implies has_sym(cur, sy) by {
                    let kk = choose|kk: int| 0 <= kk < es.len() && (#[trigger] es[kk]).sym == sy;
                    assert(cur[kk].sym == sy);
                }
                assert(rows_wf(es));
                assert(keys_cover(es, *g));
                assert(term_exact(es));
                assert(rows_sound(es, rules)) by {
                    assert(derives_empty(rules, es[li as int].sym));
                    assert forall|kk: int, j: int|
                        0 <= kk < es.len() && 0 <= j < es[kk].firsts@.len() implies first_begins(
                        rules,
                        es[kk].sym,
                        #[trigger] es[kk].firsts@[j],
                    ) by {
                        assert(es[kk].firsts@ == cur[kk].firsts@);
                    }
                }
            }
        }
    }
    proof {
        if !changed {
            let es = fs.entries@;
            assert(es == prev);
            let syms = rules[ri as int].symbols@;
            assert forall|k0: int|
                0 <= k0 < syms.len() && marked_prefix(es, syms, k0) implies row_subset(
                es,
                #[trigger] syms[k0],
                lhs_sym,
            ) by {
                if stopped {
                    if k0 > k {
                        assert(marked_nullable(es, syms[k as int]));
                        assert(false);
                    }
                }
            }
            if marked_prefix(es, syms, syms.len() as int) {
                if stopped {
                    assert(marked_nullable(es, syms[k as int]));
                    assert(false);
                } else {
                    lemma_idx_unique(es, li as int);
                    assert(es[li as int].nullable);
                    assert(marked_nullable(es, lhs_sym));
                }
            }
            assert(stable_rule(es, rules, ri as int));
        }
    }
    changed
}

/// The total potential of a well-formed map is non-negative.
proof fn lemma_measure_nonneg_self(es: Seq<FirstEntry>, u: int)
    requires
        rows_wf(es),
        u == es.len(),
    ensures
        rows_measure(es, u) >= 0,
{
    lemma_measure_nonneg(es, 0, u);
    assert(es.skip(0) =~= es);
}

/// One full pass over all rules.  If nothing grew, every rule is at a
/// fixed point.
fn first_pass(fs: &mut FirstSets, g: &Grammar) -> (changed: bool)
    requires
        inv(old(fs).entries@, *g),
    ensures
        inv(final(fs).entries@, *g),
        final(fs).entries@.len() == old(fs).entries@.len(),
        rows_measure(final(fs).entries@, old(fs).entries@.len() as int) <= rows_measure(
            old(fs).entries@,
            old(fs).entries@.len() as int,
        ),
        changed ==> rows_measure(final(fs).entries@, old(fs).entries@.len() as int) < rows_measure(
            old(fs).entries@,
            old(fs).entries@.len() as int,
        ),
        !changed ==> final(fs).entries@ == old(fs).entries@ && stable(final(fs).entries@, g.rules@),
{
    let ghost prev = fs.entries@;
    let ghost u = prev.len() as int;
    let ghost rules = g.rules@;
    let mut changed = false;
    let mut ri: usize = 0;
    let nr = g.rules.len();
    while ri < nr
        invariant
            0 <= ri <= nr,
            nr == g.rules@.len(),
            rules == g.rules@,
            u == prev.len() as int,
            inv(fs.entries@, *g),
            fs.entries@.len() == prev.len(),
            rows_measure(fs.entries@, u) <= rows_measure(prev, u),
            changed ==> rows_measure(fs.entries@, u) < rows_measure(prev, u),
            !changed ==> fs.entries@ == prev && forall|i: int|
                0 <= i < ri ==> #[trigger] stable_rule(fs.entries@, rules, i),
        decreases nr - ri,
    {
        let ch = process_rule(fs, g, ri);
        changed = changed || ch;
        ri += 1;
    }
    changed
}

impl Grammar {
    /// Computes the FIRST map of the grammar to a fixed point.  The result
    /// is exact: a symbol is marked nullable precisely when it derives the
    /// empty string, and a terminal stands in a symbol's FIRST set
    /// precisely when some derivation from that symbol begins with it (a
    /// terminal's own FIRST set being the singleton of itself).
    pub fn first_set(&self) -> (r: FirstSets)
        ensures
            rows_wf(r.entries@),
            keys_cover(r.entries@, *self),
            term_exact(r.entries@),
            forall|s: Symbol|
                #[trigger] marked_nullable(r.entries@, s) <==> derives_empty(self.rules@, s),
            forall|s: Symbol, t: Symbol|
                #[trigger] first_has(r.entries@, s, t) <==> (sym_in_grammar(*self, s)
                    && first_begins(self.rules@, s, t)),
            exact(r.entries@, *self),
    {
        let uni = self.unique_symbols();
        let mut fs = FirstSets { entries: Vec::new() };
        let mut i: usize = 0;
        while i < uni.len()
            invariant
                0 <= i <= uni@.len(),
                uni@.no_duplicates(),
                forall|s: Symbol| #[trigger] uni@.contains(s) <==> sym_in_grammar(*self, s),
                fs.entries@.len() == i,
                forall|k: int| 0 <= k < i ==> (#[trigger] fs.entries@[k]).sym == uni@[k],
                forall|k: int| 0 <= k < i ==> !(#[trigger] fs.entries@[k]).nullable,
                forall|k: int|
                    0 <= k < i && (#[trigger] fs.entries@[k]).sym.is_terminal_like()
                        ==> fs.entries@[k].firsts@ =~= seq![fs.entries@[k].sym],
                forall|k: int|
                    0 <= k < i && !(#[trigger] fs.entries@[k]).sym.is_terminal_like()
                        ==> fs.entries@[k].firsts@.len() == 0,
            decreases uni@.len() - i,
        {
            let s = uni[i];
            let mut firsts: Vec<Symbol> = Vec::new();
            let term_like = match s {
                Symbol::NonTerminal(_) => false,
                _ => true,
            };
            if term_like {
                firsts.push(s);
            }
            fs.entries.push(FirstEntry { sym: s, firsts, nullable: false });
            i += 1;
        }
        proof {
            let es = fs.entries@;
            assert forall|s: Symbol| #[trigger] has_sym(es, s) <==> sym_in_grammar(*self, s) by {
                if has_sym(es, s) {
                    let k = choose|k: int| 0 <= k < es.len() && (#[trigger] es[k]).sym == s;
                    assert(uni@[k] == s);
                    assert(uni@.contains(s));
                }
                if sym_in_grammar(*self, s) {
                    assert(uni@.contains(s));
                    let k = choose|k: int| 0 <= k < uni@.len() && uni@[k] == s;
                    assert(es[k].sym == s);
                }
            }
            assert(rows_wf(es)) by {
                assert forall|k: int, j: int|
                    0 <= k < es.len() && 0 <= j < es[k].firsts@.len() implies (
                #[trigger] es[k].firsts@[j]).is_terminal_like() && has_sym(es, es[k].firsts@[j]) by {
                    assert(es[k].sym.is_terminal_like());
                    assert(es[k].firsts@[j] == es[k].sym);
                }
            }
            assert(rows_sound(es, self.rules@)) by {
                assert forall|k: int, j: int|
                    0 <= k < es.len() && 0 <= j < es[k].firsts@.len() implies first_begins(
                    self.rules@,
                    es[k].sym,
                    #[trigger] es[k].firsts@[j],
                ) by {
                    assert(es[k].firsts@[j] == es[k].sym && es[k].sym.is_terminal_like());
                }
            }
            assert(term_exact(es));
            lemma_measure_nonneg_self(es, es.len() as int);
        }
        let ghost u = fs.entries@.len() as int;
        let mut changed = true;
        while changed
            invariant
                inv(fs.entries@, *self),
                u == fs.entries@.len() as int,
                rows_measure(fs.entries@, u) >= 0,
                !changed ==> stable(fs.entries@, self.rules@),
            decreases rows_measure(fs.entries@, u) + (if changed { 1int } else { 0int }),
        {
            changed = first_pass(&mut fs, self);
            proof {
                lemma_measure_nonneg_self(fs.entries@, u);
            }
        }
        proof {
            let es = fs.entries@;
            let rules = self.rules@;
            assert forall|s: Symbol| #[trigger] marked_nullable(es, s) <==> derives_empty(
                rules,
                s,
            ) by {
                if marked_nullable(es, s) {
                    let kk = idx_of(es, s);
                    assert(0 <= kk < es.len() && es[kk].sym == s && es[kk].nullable);
                }
                if derives_empty(rules, s) {
                    let f = choose|f: nat| null_sym(rules, s, f);
                    lemma_nullable_complete(rules, es, s, f);
                }
            }
            assert forall|s: Symbol, t: Symbol| #[trigger] first_has(es, s, t) <==> (
            sym_in_grammar(*self, s) && first_begins(rules, s, t)) by {
                if first_has(es, s, t) {
                    let kk = idx_of(es, s);
                    assert(0 <= kk < es.len() && es[kk].sym == s);
                    let jj = choose|jj: int|
                        0 <= jj < es[kk].firsts@.len() && es[kk].firsts@[jj] == t;
                    assert(first_begins(rules, es[kk].sym, es[kk].firsts@[jj]));
                    assert(has_sym(es, s));
                }
                if sym_in_grammar(*self, s) && first_begins(rules, s, t) {
                    assert(has_sym(es, s));
                    if s == t && t.is_terminal_like() {
                        let kk = idx_of(es, s);
                        assert(0 <= kk < es.len() && es[kk].sym == s);
                        assert(es[kk].firsts@ =~= seq![s]);
                        assert(es[kk].firsts@.contains(t));
                    } else {
                        let f = choose|f: nat| first_derives(rules, s, t, f);
                        lemma_first_complete(*self, es, s, t, f);
                    }
                }
            }
        }
        fs
    }
}

} // verus!
