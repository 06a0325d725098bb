//! An append-only pool of distinct names.  A name's id is the index of its
//! first insertion, so ids are dense and handed out in first-seen order.

use vstd::prelude::*;

use crate::intern::{first_index, found, interned, lemma_first_index, lemma_first_index_absent,
    lemma_first_index_is};

verus! {

#[derive(Debug)]
pub struct NamePool {
    pub names: Vec<String>,
}

impl View for NamePool {
    type V = Seq<Seq<char>>;

    open spec fn view(&self) -> Seq<Seq<char>> {
        self.names@.map_values(|n: String| n@)
    }
}

impl NamePool {
    /// No two entries hold the same name, so a name determines its id.
    pub open spec fn wf(&self) -> bool {
        forall|i: int, j: int| 0 <= i < j < self@.len() ==> self@[i] != self@[j]
    }

    pub fn new() -> (r: NamePool)
        ensures
            r@ == Seq::<Seq<char>>::empty(),
            r.wf(),
    {
        let r = NamePool { names: Vec::new() };
        proof {
            assert(r@ =~= Seq::<Seq<char>>::empty());
        }
        r
    }

    /// The number of names interned so far.
    pub fn len(&self) -> (r: usize)
        ensures
            r == self@.len(),
    {
        self.names.len()
    }

    /// The id for `name`: the id already assigned if the name was seen
    /// before, else the next free index, under which the name is appended.
    pub fn add_name(&mut self, name: &str) -> (r: usize)
        requires
            old(self).wf(),
        ensures
            final(self).wf(),
            r == first_index(old(self)@, name@),
            final(self)@ == interned(old(self)@, name@),
            r < final(self)@.len(),
            final(self)@[r as int] == name@,
            old(self)@.is_prefix_of(final(self)@),
    {
        let owned: String = name.to_owned();
        let n = self.names.len();
        for i in 0..n
            invariant
                n == self.names.len(),
                owned@ == name@,
                *self == *old(self),
                old(self).wf(),
                forall|j: int| 0 <= j < i ==> self@[j] != name@,
        {
            if owned == self.names[i] {
                proof {
                    assert(self@[i as int] == name@);
                    lemma_first_index_is(self@, name@, i as int);
                    assert(interned(self@, name@) == self@);
                }
                return i;
            }
            proof {
                assert(self@[i as int] == self.names@[i as int]@);
            }
        }
        let r = self.names.len();
        proof {
            lemma_first_index_absent(self@, name@);
        }
        self.names.push(owned);
        proof {
            assert(self@ =~= old(self)@.push(name@));
            lemma_first_index(old(self)@, name@);
            assert(forall|j: int| 0 <= j < old(self)@.len() ==> old(self)@[j] != name@);
            assert(forall|i: int, j: int|
                0 <= i < j < self@.len() ==> self@[i] != self@[j]) by {
                assert(forall|i: int| 0 <= i < old(self)@.len() ==> self@[i] == old(self)@[i]);
            }
        }
        r
    }

    /// The name that an id stands for.
    pub fn get(&self, index: usize) -> (r: &String)
        requires
            index < self@.len(),
        ensures
            r@ == self@[index as int],
    {
        &self.names[index]
    }
}

} // verus!
