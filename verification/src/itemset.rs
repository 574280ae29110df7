//! Item sets: an automaton state, partitioned into the kernel (items placed
//! before closure) and the closure (items derived by expansion).

use vstd::prelude::*;

use crate::grammar::Grammar;
use crate::item::{contains_item, Item};
use crate::symbol::{contains_symbol, Symbol};

verus! {

broadcast use
    vstd::seq_lib::lemma_seq_contains_after_push,
    vstd::seq_lib::lemma_seq_concat_contains_all_elements,
    vstd::set::group_set_axioms;


/// Every element of `a` occurs in `b`.
pub fn items_subset(a: &Vec<Item>, b: &Vec<Item>) -> (r: bool)
    ensures
        r == forall|x: Item| a@.contains(x) ==> b@.contains(x),
{
    let mut i: usize = 0;
    while i < a.len()
        invariant
            0 <= i <= a@.len(),
            forall|j: int| 0 <= j < i ==> b@.contains(#[trigger] a@[j]),
        decreases a@.len() - i,
    {
        if !contains_item(b, a[i]) {
            assert(a@.contains(a@[i as int]));
            return false;
        }
        i += 1;
    }
    true
}

/// An automaton state.  Two states are the same state exactly when their
/// kernels are equal as sets; the closure is derived and carries no
/// identity (canonical LR(1): lookaheads are part of item equality).
#[derive(Clone, Debug)]
pub struct ItemSet {
    pub kernel: Vec<Item>,
    pub closure: Vec<Item>,
}

impl ItemSet {
    /// Kernel and closure are duplicate-free and disjoint.
    pub open spec fn wf(self) -> bool {
        &&& self.kernel@.no_duplicates()
        &&& self.closure@.no_duplicates()
        &&& forall|x: Item| self.kernel@.contains(x) ==> !self.closure@.contains(x)
    }

    pub open spec fn kernel_set(self) -> Set<Item> {
        self.kernel@.to_set()
    }

    /// The logical item set: kernel and closure together.
    pub open spec fn all_set(self) -> Set<Item> {
        self.kernel@.to_set().union(self.closure@.to_set())
    }

    /// Membership in the logical item set, spelled out over the two vectors.
    pub proof fn lemma_all_set(self)
        ensures
            forall|x: Item|
                #[trigger] self.all_set().contains(x) <==> (self.kernel@.contains(x)
                    || self.closure@.contains(x)),
    {
    }

    /// Every item designates a rule of `g` with its dot in range.
    pub open spec fn items_wf(self, g: Grammar) -> bool {
        forall|x: Item| #[trigger] self.all_set().contains(x) ==> x.wf(g)
    }

    pub fn new() -> (r: ItemSet)
        ensures
            r.kernel@.len() == 0,
            r.closure@.len() == 0,
            r.wf(),
    {
        ItemSet { kernel: Vec::new(), closure: Vec::new() }
    }

    /// A state whose kernel holds the given items (duplicates dropped) and
    /// whose closure is empty.
    pub fn from_kernel(kernel_items: Vec<Item>) -> (r: ItemSet)
        ensures
            r.wf(),
            r.closure@.len() == 0,
            forall|x: Item| r.kernel@.contains(x) <==> kernel_items@.contains(x),
    {
        let mut s = ItemSet::new();
        let mut i: usize = 0;
        while i < kernel_items.len()
            invariant
                0 <= i <= kernel_items@.len(),
                s.wf(),
                s.closure@.len() == 0,
                forall|x: Item|
                    s.kernel@.contains(x) <==> kernel_items@.take(i as int).contains(x),
            decreases kernel_items@.len() - i,
        {
            let x = kernel_items[i];
            proof {
                assert(kernel_items@.take(i + 1) == kernel_items@.take(i as int).push(
                    kernel_items@[i as int],
                ));
            }
            s.insert_kernel(x);
            i += 1;
        }
        proof {
            assert(kernel_items@.take(kernel_items@.len() as int) == kernel_items@);
        }
        s
    }

    pub fn kernel(&self) -> (r: &Vec<Item>)
        ensures
            r@ == self.kernel@,
    {
        &self.kernel
    }

    pub fn get_kernel(&self) -> (r: &Vec<Item>)
        ensures
            r@ == self.kernel@,
    {
        &self.kernel
    }

    pub fn get_closure(&self) -> (r: &Vec<Item>)
        ensures
            r@ == self.closure@,
    {
        &self.closure
    }

    /// All items of the state: the kernel followed by the closure.
    pub fn items(&self) -> (r: Vec<Item>)
        ensures
            r@ == self.kernel@ + self.closure@,
    {
        let mut r: Vec<Item> = Vec::new();
        let mut i: usize = 0;
        while i < self.kernel.len()
            invariant
                0 <= i <= self.kernel@.len(),
                r@ == self.kernel@.take(i as int),
            decreases self.kernel@.len() - i,
        {
            r.push(self.kernel[i]);
            i += 1;
        }
        let mut j: usize = 0;
        while j < self.closure.len()
            invariant
                0 <= j <= self.closure@.len(),
                r@ == self.kernel@ + self.closure@.take(j as int),
            decreases self.closure@.len() - j,
        {
            r.push(self.closure[j]);
            j += 1;
        }
        proof {
            assert(self.kernel@.take(self.kernel@.len() as int) == self.kernel@);
            assert(self.closure@.take(self.closure@.len() as int) == self.closure@);
        }
        r
    }

    /// All items of the state: the kernel followed by the closure.
    pub fn all(&self) -> (r: Vec<Item>)
        ensures
            r@ == self.kernel@ + self.closure@,
    {
        self.items()
    }

    /// Adds an item to the kernel unless already present; reports whether
    /// the kernel grew.
    pub fn insert_kernel(&mut self, item: Item) -> (grew: bool)
        requires
            old(self).wf(),
            !old(self).closure@.contains(item),
        ensures
            final(self).wf(),
            final(self).closure@ == old(self).closure@,
            grew == !old(self).kernel@.contains(item),
            final(self).kernel@ == if grew {
                old(self).kernel@.push(item)
            } else {
                old(self).kernel@
            },
    {
        if contains_item(&self.kernel, item) {
            false
        } else {
            self.kernel.push(item);
            true
        }
    }

    /// Adds an item to the closure partition unless the state already holds
    /// it; reports whether the state grew.
    pub fn insert_closure(&mut self, item: Item) -> (grew: bool)
        requires
            old(self).wf(),
        ensures
            final(self).wf(),
            final(self).kernel@ == old(self).kernel@,
            grew == !old(self).all_set().contains(item),
            final(self).closure@ == if grew {
                old(self).closure@.push(item)
            } else {
                old(self).closure@
            },
    {
        proof {
            assert(old(self).all_set().contains(item) <==> (old(self).kernel@.contains(item) || old(
                self,
            ).closure@.contains(item)));
        }
        if contains_item(&self.kernel, item) || contains_item(&self.closure, item) {
            false
        } else {
            self.closure.push(item);
            true
        }
    }

    /// Unions the given items into the closure partition; the kernel and
    /// the relative order of items already present are kept.
    pub fn extend_closure(&mut self, items: &Vec<Item>)
        requires
            old(self).wf(),
        ensures
            final(self).wf(),
            final(self).kernel@ == old(self).kernel@,
            forall|x: Item|
                final(self).all_set().contains(x) <==> (old(self).all_set().contains(x)
                    || items@.contains(x)),
    {
        let mut i: usize = 0;
        while i < items.len()
            invariant
                0 <= i <= items@.len(),
                self.wf(),
                self.kernel@ == old(self).kernel@,
                forall|x: Item|
                    #[trigger] self.all_set().contains(x) <==> (old(self).all_set().contains(x)
                        || items@.take(i as int).contains(x)),
            decreases items@.len() - i,
        {
            proof {
                assert(items@.take(i + 1) == items@.take(i as int).push(items@[i as int]));
                self.lemma_all_set();
            }
            let ghost prev = *self;
            self.insert_closure(items[i]);
            proof {
                self.lemma_all_set();
                prev.lemma_all_set();
                assert forall|x: Item| #[trigger] self.all_set().contains(x) <==> (old(
                    self,
                ).all_set().contains(x) || items@.take(i + 1).contains(x)) by {
                    assert(prev.all_set().contains(x) <==> (old(self).all_set().contains(x)
                        || items@.take(i as int).contains(x)));
                }
            }
            i += 1;
        }
        proof {
            assert(items@.take(items@.len() as int) == items@);
        }
    }

    /// The distinct active symbols across all items of the state, in order
    /// of first appearance (kernel first, then closure).
    pub fn active_symbols(&self, g: &Grammar) -> (r: Vec<Symbol>)
        requires
            self.items_wf(*g),
        ensures
            r@.no_duplicates(),
            forall|s: Symbol|
                r@.contains(s) <==> exists|x: Item|
                    #[trigger] self.all_set().contains(x) && x.spec_active_symbol(*g) == Some(s),
    {
        let all = self.items();
        proof {
            self.lemma_all_set();
            assert(forall|x: Item|
                #[trigger] self.all_set().contains(x) <==> all@.contains(x));
        }
        let mut r: Vec<Symbol> = Vec::new();
        let mut i: usize = 0;
        while i < all.len()
            invariant
                0 <= i <= all@.len(),
                forall|x: Item| #[trigger] self.all_set().contains(x) <==> all@.contains(x),
                self.items_wf(*g),
                r@.no_duplicates(),
                forall|s: Symbol|
                    r@.contains(s) ==> exists|x: Item|
                        #[trigger] self.all_set().contains(x) && x.spec_active_symbol(*g) == Some(
                            s,
                        ),
                forall|j: int|
                    0 <= j < i && all@[j].spec_active_symbol(*g) is Some ==> r@.contains(
                        all@[j].spec_active_symbol(*g)->0,
                    ),
            decreases all@.len() - i,
        {
            let x = all[i];
            proof {
                assert(all@.contains(all@[i as int]));
                assert(self.all_set().contains(x));
                assert(x.wf(*g));
            }
            match x.active_symbol(g) {
                Some(s) => {
                    if !contains_symbol(&r, s) {
                        r.push(s);
                        assert(r@[r@.len() - 1] == s);
                    }
                }
                None => {}
            }
            i += 1;
        }
        r
    }

    /// The distinct active symbols across all items of the state.
    pub fn get_active_symbols(&self, g: &Grammar) -> (r: Vec<Symbol>)
        requires
            self.items_wf(*g),
        ensures
            r@.no_duplicates(),
            forall|s: Symbol|
                r@.contains(s) <==> exists|x: Item|
                    #[trigger] self.all_set().contains(x) && x.spec_active_symbol(*g) == Some(s),
    {
        self.active_symbols(g)
    }

    /// Whether the state holds `item`, in its kernel or its closure.
    pub fn contains(&self, item: Item) -> (r: bool)
        ensures
            r == self.all_set().contains(item),
    {
        proof {
            self.lemma_all_set();
        }
        contains_item(&self.kernel, item) || contains_item(&self.closure, item)
    }

    /// Kernel equality as sets: the canonical-LR(1) state identity.
    pub fn kernel_equal(&self, other: &ItemSet) -> (r: bool)
        ensures
            r == (self.kernel_set() == other.kernel_set()),
    {
        let fwd = items_subset(&self.kernel, &other.kernel);
        let bwd = items_subset(&other.kernel, &self.kernel);
        if fwd && bwd {
            proof {
                assert(self.kernel_set() =~= other.kernel_set());
            }
            true
        } else {
            proof {
                if self.kernel_set() == other.kernel_set() {
                    assert forall|x: Item|
                        self.kernel@.contains(x) implies other.kernel@.contains(x) by {
                        assert(self.kernel_set().contains(x));
                        assert(other.kernel_set().contains(x));
                    }
                    assert forall|x: Item|
                        other.kernel@.contains(x) implies self.kernel@.contains(x) by {
                        assert(other.kernel_set().contains(x));
                        assert(self.kernel_set().contains(x));
                    }
                }
            }
            false
        }
    }

    /// Kernel equality as sets: the canonical-LR(1) state identity.
    pub fn is_same_kernel(&self, other: &ItemSet) -> (r: bool)
        ensures
            r == (self.kernel_set() == other.kernel_set()),
    {
        self.kernel_equal(other)
    }
}

} // verus!
