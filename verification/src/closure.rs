//! LR(1) closure: expanding an item set under grammar production and
//! FIRST-set-derived lookahead propagation, pinned to the least fixed point
//! of the one-step expansion relation.

use vstd::prelude::*;

use crate::counting::{lemma_code_inj, lemma_code_range, lemma_mul_nonneg, lemma_nodup_int_range};
use crate::first::{first_has, firsts_of, has_sym, idx_of, keys_cover, rows_wf, FirstSets};
use crate::grammar::{sym_in_grammar, Grammar};
use crate::item::{contains_item, Item};
use crate::symbol::Symbol;

verus! {

broadcast use
    vstd::seq_lib::lemma_seq_contains_after_push,
    vstd::seq_lib::seq_to_set_is_finite,
    vstd::set::group_set_axioms;

/// One step of expansion: `src`, active at a nonterminal `B`, implies the
/// item `x = (rule-for-B, 0, la)` for each lookahead `la` in FIRST of the
/// symbol following `src`'s active symbol (or of `src`'s own lookahead at
/// end of rule).
pub open spec fn justified_by(g: Grammar, es: Seq<crate::first::FirstEntry>, src: Item, x: Item) -> bool {
    &&& src.wf(g)
    &&& x.rule < g.rules@.len()
    &&& x.index == 0
    &&& match src.spec_active_symbol(g) {
        Some(Symbol::NonTerminal(b)) => g.rules@[x.rule as int].lhs == b,
        _ => false,
    }
    &&& first_has(es, src.spec_following_active(g), x.look_ahead)
}

/// A set of items is closed when it holds every item one expansion step
/// implies from any of its members.
pub open spec fn closed(g: Grammar, es: Seq<crate::first::FirstEntry>, s: Set<Item>) -> bool {
    forall|src: Item, x: Item|
        s.contains(src) && #[trigger] justified_by(g, es, src, x) ==> s.contains(x)
}

/// `x` is reachable from `base` in at most `n` expansion steps.
pub open spec fn in_closure(
    g: Grammar,
    es: Seq<crate::first::FirstEntry>,
    base: Set<Item>,
    x: Item,
    n: nat,
) -> bool
    decreases n,
{
    base.contains(x) || (n > 0 && exists|src: Item|
        in_closure(g, es, base, src, (n - 1) as nat) && #[trigger] justified_by(g, es, src, x))
}

/// The closure of `base`: everything reachable by finitely many expansion
/// steps — the least closed superset of `base`.
pub open spec fn closure_set(
    g: Grammar,
    es: Seq<crate::first::FirstEntry>,
    base: Set<Item>,
) -> Set<Item> {
    Set::new(|x: Item| exists|n: nat| in_closure(g, es, base, x, n))
}

/// The closure contains its base.
pub proof fn lemma_closure_base(g: Grammar, es: Seq<crate::first::FirstEntry>, base: Set<Item>)
    ensures
        forall|x: Item| base.contains(x) ==> #[trigger] closure_set(g, es, base).contains(x),
{
    assert forall|x: Item| base.contains(x) implies #[trigger] closure_set(g, es, base).contains(
        x,
    ) by {
        assert(in_closure(g, es, base, x, 0));
    }
}

/// The closure is closed under one more expansion step.
pub proof fn lemma_closure_step(
    g: Grammar,
    es: Seq<crate::first::FirstEntry>,
    base: Set<Item>,
    src: Item,
    x: Item,
)
    requires
        closure_set(g, es, base).contains(src),
        justified_by(g, es, src, x),
    ensures
        closure_set(g, es, base).contains(x),
{
    let n = choose|n: nat| in_closure(g, es, base, src, n);
    assert(in_closure(g, es, base, x, n + 1));
}

/// Reachability in `n` steps lands inside any closed superset of the base.
proof fn lemma_in_closure_minimal(
    g: Grammar,
    es: Seq<crate::first::FirstEntry>,
    base: Set<Item>,
    t: Set<Item>,
    x: Item,
    n: nat,
)
    requires
        closed(g, es, t),
        forall|y: Item| base.contains(y) ==> t.contains(y),
        in_closure(g, es, base, x, n),
    ensures
        t.contains(x),
    decreases n,
{
    if !base.contains(x) {
        let src = choose|src: Item|
            in_closure(g, es, base, src, (n - 1) as nat) && #[trigger] justified_by(g, es, src, x);
        lemma_in_closure_minimal(g, es, base, t, src, (n - 1) as nat);
    }
}

/// The closure is the least closed superset: it sits inside every closed
/// set containing the base.
pub proof fn lemma_closure_minimal(
    g: Grammar,
    es: Seq<crate::first::FirstEntry>,
    base: Set<Item>,
    t: Set<Item>,
)
    requires
        closed(g, es, t),
        forall|y: Item| base.contains(y) ==> t.contains(y),
    ensures
        forall|x: Item| #[trigger] closure_set(g, es, base).contains(x) ==> t.contains(x),
{
    assert forall|x: Item| #[trigger] closure_set(g, es, base).contains(x) implies t.contains(
        x,
    ) by {
        let n = choose|n: nat| in_closure(g, es, base, x, n);
        lemma_in_closure_minimal(g, es, base, t, x, n);
    }
}

/// Closure is idempotent: the closure of an already-closed item set is
/// that set itself, so re-running the algorithm yields no new items.
pub proof fn lemma_closure_idempotent(
    g: Grammar,
    es: Seq<crate::first::FirstEntry>,
    s: Set<Item>,
)
    requires
        closed(g, es, s),
    ensures
        closure_set(g, es, s) == s,
{
    lemma_closure_base(g, es, s);
    lemma_closure_minimal(g, es, s, s);
    assert(closure_set(g, es, s) =~= s);
}

/// Items an automaton state may hold: well-formed, with a lookahead the
/// FIRST map has a row for.
pub open spec fn item_ok(g: Grammar, es: Seq<crate::first::FirstEntry>, x: Item) -> bool {
    x.wf(g) && has_sym(es, x.look_ahead)
}

// ---------------------------------------------------------------------------
// Cardinality bound for the worklist
// ---------------------------------------------------------------------------

/// Distinct dot-at-start items with row-backed lookaheads number at most
/// rules times rows.
proof fn lemma_fresh_items_bound(
    g: Grammar,
    es: Seq<crate::first::FirstEntry>,
    s: Seq<Item>,
)
    requires
        rows_wf(es),
        s.no_duplicates(),
        forall|j: int|
            0 <= j < s.len() ==> (#[trigger] s[j]).index == 0 && s[j].rule < g.rules@.len()
                && has_sym(es, s[j].look_ahead),
    ensures
        s.len() <= g.rules@.len() * es.len(),
{
    if s.len() == 0 {
        lemma_mul_nonneg(g.rules@.len() as int, es.len() as int);
    } else {
        let u = es.len() as int;
        let r = g.rules@.len() as int;
        assert(has_sym(es, s[0].look_ahead));
        assert(u > 0);
        let codes = s.map_values(|x: Item| (x.rule as int) * u + idx_of(es, x.look_ahead));
        assert forall|i: int| 0 <= i < codes.len() implies 0 <= #[trigger] codes[i] < r * u by {
            assert(codes[i] == (s[i].rule as int) * u + idx_of(es, s[i].look_ahead));
            let k = idx_of(es, s[i].look_ahead);
            assert(0 <= k < u && es[k].sym == s[i].look_ahead);
            lemma_code_range(s[i].rule as int, k, r, u);
        }
        assert(codes.no_duplicates()) by {
            assert forall|i: int, j: int|
                0 <= i < codes.len() && 0 <= j < codes.len() && i != j implies codes[i] != codes[j] by {
                assert(codes[i] == (s[i].rule as int) * u + idx_of(es, s[i].look_ahead));
                assert(codes[j] == (s[j].rule as int) * u + idx_of(es, s[j].look_ahead));
                let ki = idx_of(es, s[i].look_ahead);
                let kj = idx_of(es, s[j].look_ahead);
                assert(0 <= ki < u && es[ki].sym == s[i].look_ahead);
                assert(0 <= kj < u && es[kj].sym == s[j].look_ahead);
                if codes[i] == codes[j] {
                    lemma_code_inj(s[i].rule as int, ki, s[j].rule as int, kj, u);
                    assert(s[i].look_ahead == s[j].look_ahead);
                    assert(s[i] == s[j]);
                }
            }
        }
        lemma_mul_nonneg(r, u);
        lemma_nodup_int_range(codes, r * u);
    }
}

/// Expands `seed` to its full closure.  The result keeps `seed` as its
/// prefix, stays duplicate-free, and equals, as a set, the least closed
/// superset of `seed`.
pub fn close_items(g: &Grammar, fs: &FirstSets, seed: &Vec<Item>) -> (r: Vec<Item>)
    requires
        rows_wf(fs.entries@),
        keys_cover(fs.entries@, *g),
        seed@.no_duplicates(),
        forall|x: Item| seed@.contains(x) ==> item_ok(*g, fs.entries@, x),
    ensures
        r@.no_duplicates(),
        r@.len() >= seed@.len(),
        r@.take(seed@.len() as int) == seed@,
        forall|x: Item| r@.contains(x) ==> item_ok(*g, fs.entries@, x),
        r@.to_set() == closure_set(*g, fs.entries@, seed@.to_set()),
        closed(*g, fs.entries@, r@.to_set()),
{
    let ghost es = fs.entries@;
    let ghost base = seed@.to_set();
    let mut work: Vec<Item> = Vec::new();
    let mut c: usize = 0;
    while c < seed.len()
        invariant
            0 <= c <= seed@.len(),
            work@ == seed@.take(c as int),
        decreases seed@.len() - c,
    {
        work.push(seed[c]);
        c += 1;
    }
    proof {
        assert(seed@.take(seed@.len() as int) == seed@);
        lemma_closure_base(*g, es, base);
    }
    let mut i: usize = 0;
    while i < work.len()
        invariant
            0 <= i <= work@.len(),
            rows_wf(es),
            keys_cover(es, *g),
            es == fs.entries@,
            base == seed@.to_set(),
            work@.no_duplicates(),
            work@.len() >= seed@.len(),
            work@.take(seed@.len() as int) == seed@,
            forall|j: int|
                seed@.len() <= j < work@.len() ==> (#[trigger] work@[j]).index == 0
                    && work@[j].rule < g.rules@.len(),
            forall|x: Item| work@.contains(x) ==> item_ok(*g, es, x),
            forall|x: Item| work@.contains(x) ==> #[trigger] closure_set(*g, es, base).contains(x),
            forall|j: int, y: Item|
                0 <= j < i && #[trigger] justified_by(*g, es, work@[j], y) ==> work@.contains(y),
            work@.len() <= seed@.len() + g.rules@.len() * es.len(),
        decreases seed@.len() + g.rules@.len() * es.len() - i,
    {
        let it = work[i];
        proof {
            assert(work@.contains(work@[i as int]));
            assert(item_ok(*g, es, it));
        }
        match it.active_symbol(g) {
            Some(sym) => {
                match sym {
                    Symbol::NonTerminal(b) => {
                        let fol = it.following_active(g);
                        proof {
                            if it.index + 1 < g.rules@[it.rule as int].symbols@.len() {
                                assert(sym_in_grammar(*g, fol));
                            }
                            assert(has_sym(es, fol));
                        }
                        let las = match fs.get(fol) {
                            Some(v) => v,
                            None => {
                                proof {
                                    assert(false);
                                }
                                &fs.entries[0].firsts
                            }
                        };
                        let rs = g.rules_by_lhs(b);
                        let ghost row = firsts_of(es, fol);
                        let mut p: usize = 0;
                        while p < rs.len()
                            invariant
                                0 <= p <= rs@.len(),
                                rows_wf(es),
                                keys_cover(es, *g),
                                es == fs.entries@,
                                base == seed@.to_set(),
                                las@ == row,
                                row == firsts_of(es, fol),
                                has_sym(es, fol),
                                fol == it.spec_following_active(*g),
                                it.spec_active_symbol(*g) == Some(Symbol::NonTerminal(b)),
                                it.wf(*g),
                                work@.contains(it),
                                i < work@.len(),
                                work@[i as int] == it,
                                forall|k: int| 0 <= k < rs@.len() ==> #[trigger] rs@[k] < g.rules@.len(),
                                forall|k: int|
                                    0 <= k < rs@.len() ==> g.rules@[#[trigger] rs@[k] as int].lhs
                                        == b,
                                forall|ri: int|
                                    0 <= ri < g.rules@.len() && g.rules@[ri].lhs == b
                                        ==> rs@.contains(ri as usize),
                                work@.no_duplicates(),
                                work@.len() >= seed@.len(),
                                work@.take(seed@.len() as int) == seed@,
                                forall|j: int|
                                    seed@.len() <= j < work@.len() ==> (#[trigger] work@[j]).index
                                        == 0 && work@[j].rule < g.rules@.len(),
                                forall|x: Item| work@.contains(x) ==> item_ok(*g, es, x),
                                forall|x: Item|
                                    work@.contains(x) ==> #[trigger] closure_set(
                                        *g,
                                        es,
                                        base,
                                    ).contains(x),
                                forall|j: int, y: Item|
                                    0 <= j < i && #[trigger] justified_by(*g, es, work@[j], y)
                                        ==> work@.contains(y),
                                forall|k: int, q: int|
                                    0 <= k < p && 0 <= q < row.len() ==> #[trigger] work@.contains(
                                        Item { rule: rs@[k], index: 0, look_ahead: row[q] },
                                    ),
                                work@.len() <= seed@.len() + g.rules@.len() * es.len(),
                            decreases rs@.len() - p,
                        {
                            let ri = rs[p];
                            let mut q: usize = 0;
                            while q < las.len()
                                invariant
                                    0 <= q <= las@.len(),
                                    rows_wf(es),
                                    keys_cover(es, *g),
                                    es == fs.entries@,
                                    base == seed@.to_set(),
                                    las@ == row,
                                    row == firsts_of(es, fol),
                                    has_sym(es, fol),
                                    fol == it.spec_following_active(*g),
                                    it.spec_active_symbol(*g) == Some(Symbol::NonTerminal(b)),
                                    it.wf(*g),
                                    work@.contains(it),
                                    i < work@.len(),
                                    work@[i as int] == it,
                                    ri < g.rules@.len(),
                                    g.rules@[ri as int].lhs == b,
                                    work@.no_duplicates(),
                                    work@.len() >= seed@.len(),
                                    work@.take(seed@.len() as int) == seed@,
                                    forall|j: int|
                                        seed@.len() <= j < work@.len() ==> (
                                        #[trigger] work@[j]).index == 0 && work@[j].rule
                                            < g.rules@.len(),
                                    forall|x: Item| work@.contains(x) ==> item_ok(*g, es, x),
                                    forall|x: Item|
                                        work@.contains(x) ==> #[trigger] closure_set(
                                            *g,
                                            es,
                                            base,
                                        ).contains(x),
                                    forall|j: int, y: Item|
                                        0 <= j < i && #[trigger] justified_by(*g, es, work@[j], y)
                                            ==> work@.contains(y),
                                    forall|k: int, qq: int|
                                        0 <= k < p && 0 <= qq < row.len() ==> #[trigger] work@.contains(
                                            Item { rule: rs@[k], index: 0, look_ahead: row[qq] },
                                        ),
                                    forall|qq: int|
                                        0 <= qq < q ==> #[trigger] work@.contains(
                                            Item { rule: ri, index: 0, look_ahead: row[qq] },
                                        ),
                                    work@.len() <= seed@.len() + g.rules@.len() * es.len(),
                                decreases las@.len() - q,
                            {
                                let la = las[q];
                                let cand = Item::new(ri, 0, la);
                                proof {
                                    assert(row.contains(row[q as int]));
                                    assert(first_has(es, fol, la));
                                    assert(justified_by(*g, es, it, cand));
                                    lemma_closure_step(*g, es, base, it, cand);
                                    let k = idx_of(es, la);
                                    assert(0 <= k < es.len() && es[k].sym == la);
                                    assert((es[k].sym).is_terminal_like()) by {
                                        let kf = idx_of(es, fol);
                                        assert(firsts_of(es, fol).contains(la));
                                        let jj = choose|jj: int|
                                            0 <= jj < es[kf].firsts@.len() && es[kf].firsts@[jj]
                                                == la;
                                        assert(es[kf].firsts@[jj].is_terminal_like());
                                    }
                                    assert(item_ok(*g, es, cand));
                                }
                                if !contains_item(&work, cand) {
                                    work.push(cand);
                                    proof {
                                        assert(work@[work@.len() - 1] == cand);
                                        assert(work@.take(seed@.len() as int) == seed@);
                                        let suffix = work@.skip(seed@.len() as int);
                                        assert(suffix.no_duplicates()) by {
                                            assert(forall|a: int|
                                                0 <= a < suffix.len() ==> #[trigger] suffix[a]
                                                    == work@[a + seed@.len()]);
                                        }
                                        assert forall|j: int|
                                            0 <= j < suffix.len() implies (
                                        #[trigger] suffix[j]).index == 0 && suffix[j].rule
                                            < g.rules@.len() && has_sym(
                                            es,
                                            suffix[j].look_ahead,
                                        ) by {
                                            assert(suffix[j] == work@[j + seed@.len()]);
                                            assert(work@.contains(work@[j + seed@.len()]));
                                            assert(item_ok(*g, es, suffix[j]));
                                        }
                                        lemma_fresh_items_bound(*g, es, suffix);
                                    }
                                }
                                q += 1;
                            }
                            proof {
                                assert(forall|qq: int|
                                    0 <= qq < row.len() ==> #[trigger] work@.contains(
                                        Item { rule: ri, index: 0, look_ahead: row[qq] },
                                    ));
                            }
                            p += 1;
                        }
                        proof {
                            assert forall|y: Item| #[trigger] justified_by(*g, es, it, y) implies work@.contains(
                                y,
                            ) by {
                                assert(g.rules@[y.rule as int].lhs == b);
                                assert(rs@.contains(y.rule));
                                let k = choose|k: int| 0 <= k < rs@.len() && rs@[k] == y.rule;
                                assert(first_has(es, fol, y.look_ahead));
                                let qq = choose|qq: int|
                                    0 <= qq < row.len() && row[qq] == y.look_ahead;
                                assert(work@.contains(Item {
                                    rule: rs@[k],
                                    index: 0,
                                    look_ahead: row[qq],
                                }));
                            }
                        }
                    }
                    _ => {
                        proof {
                            assert(forall|y: Item| !justified_by(*g, es, it, y));
                        }
                    }
                }
            }
            None => {
                proof {
                    assert(forall|y: Item| !justified_by(*g, es, it, y));
                }
            }
        }
        proof {
            assert forall|j: int, y: Item|
                0 <= j < i + 1 && #[trigger] justified_by(*g, es, work@[j], y) implies work@.contains(
                y,
            ) by {
                if j == i {
                    assert(work@[j] == it);
                }
            }
        }
        i += 1;
    }
    proof {
        let ws = work@.to_set();
        assert(closed(*g, es, ws)) by {
            assert forall|src: Item, x: Item|
                ws.contains(src) && #[trigger] justified_by(*g, es, src, x) implies ws.contains(
                x,
            ) by {
                let j = choose|j: int| 0 <= j < work@.len() && work@[j] == src;
                assert(justified_by(*g, es, work@[j], x));
            }
        }
        assert forall|y: Item| base.contains(y) implies ws.contains(y) by {
            assert(seed@.contains(y));
            let j = choose|j: int| 0 <= j < seed@.len() && seed@[j] == y;
            assert(work@[j] == seed@[j]);
        }
        lemma_closure_minimal(*g, es, base, ws);
        assert(work@.to_set() =~= closure_set(*g, es, base));
    }
    work
}

} // verus!
