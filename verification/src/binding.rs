//! A binding is a growable map from dense slot indices to integer values,
//! backed by a vector: the key of a value is its index.  During rule and
//! query construction it assigns one slot to each distinct variable name id;
//! during evaluation it assigns one constant id to each slot.

use vstd::prelude::*;

use crate::intern::{first_index, interned, lemma_first_index, lemma_first_index_absent,
    lemma_first_index_is};

verus! {

#[derive(Debug, PartialEq, Eq)]
pub struct Binding(pub Vec<usize>);

impl View for Binding {
    type V = Seq<usize>;

    open spec fn view(&self) -> Seq<usize> {
        self.0@
    }
}

impl Binding {
    pub fn new() -> (r: Binding)
        ensures
            r@ == Seq::<usize>::empty(),
    {
        let r = Binding(Vec::new());
        proof {
            assert(r@ =~= Seq::<usize>::empty());
        }
        r
    }

    /// Wrap a vector of values, slot `i` holding `values[i]`.
    pub fn from_values(values: Vec<usize>) -> (r: Binding)
        ensures
            r@ == values@,
    {
        Binding(values)
    }

    /// The slots with their values, in slot order.
    pub fn iter(&self) -> (r: Vec<(usize, usize)>)
        ensures
            r@.len() == self@.len(),
            forall|i: int| 0 <= i < r@.len() ==> r@[i] == (i as usize, self@[i]),
    {
        let mut pairs: Vec<(usize, usize)> = Vec::new();
        let n = self.0.len();
        for i in 0..n
            invariant
                n == self@.len(),
                pairs@.len() == i,
                forall|j: int| 0 <= j < i ==> pairs@[j] == (j as usize, self@[j]),
        {
            pairs.push((i, self.0[i]));
        }
        pairs
    }

    /// The number of slots.
    pub fn len(&self) -> (r: usize)
        ensures
            r == self@.len(),
    {
        self.0.len()
    }

    /// The slot for `value`: the slot already holding it if it was inserted
    /// before, else a fresh slot at the end, into which it is stored.
    pub fn insert(&mut self, value: usize) -> (r: usize)
        ensures
            r == first_index(old(self)@, value),
            final(self)@ == interned(old(self)@, value),
            r < final(self)@.len(),
            final(self)@[r as int] == value,
            old(self)@.is_prefix_of(final(self)@),
    {
        let n = self.0.len();
        for i in 0..n
            invariant
                n == self@.len(),
                *self == *old(self),
                forall|j: int| 0 <= j < i ==> self@[j] != value,
        {
            if self.0[i] == value {
                proof {
                    lemma_first_index_is(self@, value, i as int);
                }
                return i;
            }
        }
        let r = self.0.len();
        proof {
            lemma_first_index_absent(self@, value);
            lemma_first_index(self@, value);
        }
        self.0.push(value);
        r
    }

    /// The value held by a slot.
    pub fn get(&self, slot: usize) -> (r: usize)
        requires
            slot < self@.len(),
        ensures
            r == self@[slot as int],
    {
        self.0[slot]
    }
}

} // verus!
