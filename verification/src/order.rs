//! The total orders the rendered output follows: ascending value order on
//! tuples and ascending name order on answer pairs, together with what an
//! insertion sort needs to produce `Seq::sort_by`'s result.

use vstd::prelude::*;
use vstd::relations::{sorted_by, total_ordering};
use vstd::seq_lib::lemma_multiset_commutative;
use vstd::string::StrSliceExecFns;

use crate::data_set::Tuple;

verus! {

/// Lexicographic order on tuples: element by element, a shorter prefix
/// first.  This is the order the tuples of a rendered relation follow.
pub open spec fn tuple_le(a: Seq<usize>, b: Seq<usize>) -> bool
    decreases a.len(),
{
    if a.len() == 0 {
        true
    } else if b.len() == 0 {
        false
    } else if a[0] != b[0] {
        a[0] < b[0]
    } else {
        tuple_le(a.drop_first(), b.drop_first())
    }
}

/// Lexicographic order on names, character by character by code point, a
/// shorter prefix first.
pub open spec fn chars_le(a: Seq<char>, b: Seq<char>) -> bool
    decreases a.len(),
{
    if a.len() == 0 {
        true
    } else if b.len() == 0 {
        false
    } else if a[0] != b[0] {
        (a[0] as u32) < (b[0] as u32)
    } else {
        chars_le(a.drop_first(), b.drop_first())
    }
}

/// Order on answer pairs: by variable name first, then by constant name.
/// This is the order the pairs of a rendered answer follow.
pub open spec fn pair_le(p: (Seq<char>, Seq<char>), q: (Seq<char>, Seq<char>)) -> bool {
    if p.0 != q.0 {
        chars_le(p.0, q.0)
    } else {
        chars_le(p.1, q.1)
    }
}

/// [`tuple_le`] as a relation value, shared by every statement about it.
pub open spec fn tuple_order() -> spec_fn(Seq<usize>, Seq<usize>) -> bool {
    |a: Seq<usize>, b: Seq<usize>| tuple_le(a, b)
}

/// [`pair_le`] as a relation value, shared by every statement about it.
pub open spec fn pair_order() -> spec_fn((Seq<char>, Seq<char>), (Seq<char>, Seq<char>)) -> bool {
    |p: (Seq<char>, Seq<char>), q: (Seq<char>, Seq<char>)| pair_le(p, q)
}

pub proof fn lemma_tuple_le_refl(a: Seq<usize>)
    ensures
        tuple_le(a, a),
    decreases a.len(),
{
    if a.len() > 0 {
        lemma_tuple_le_refl(a.drop_first());
    }
}

pub proof fn lemma_tuple_le_antisym(a: Seq<usize>, b: Seq<usize>)
    requires
        tuple_le(a, b),
        tuple_le(b, a),
    ensures
        a == b,
    decreases a.len(),
{
    if a.len() > 0 && b.len() > 0 {
        lemma_tuple_le_antisym(a.drop_first(), b.drop_first());
        assert(a =~= seq![a[0]] + a.drop_first());
        assert(b =~= seq![b[0]] + b.drop_first());
    } else {
        assert(a.len() == 0 && b.len() == 0);
        assert(a =~= b);
    }
}

pub proof fn lemma_tuple_le_trans(a: Seq<usize>, b: Seq<usize>, c: Seq<usize>)
    requires
        tuple_le(a, b),
        tuple_le(b, c),
    ensures
        tuple_le(a, c),
    decreases a.len(),
{
    if a.len() > 0 && b.len() > 0 && c.len() > 0 {
        if a[0] == b[0] && b[0] == c[0] {
            lemma_tuple_le_trans(a.drop_first(), b.drop_first(), c.drop_first());
        }
    }
}

pub proof fn lemma_tuple_le_connected(a: Seq<usize>, b: Seq<usize>)
    ensures
        tuple_le(a, b) || tuple_le(b, a),
    decreases a.len(),
{
    if a.len() > 0 && b.len() > 0 && a[0] == b[0] {
        lemma_tuple_le_connected(a.drop_first(), b.drop_first());
    }
}

/// Tuples are totally ordered by [`tuple_le`].
pub proof fn lemma_tuple_order_total()
    ensures
        total_ordering(tuple_order()),
{
    let leq = tuple_order();
    assert forall|a: Seq<usize>| #[trigger] leq(a, a) by {
        lemma_tuple_le_refl(a);
    }
    assert forall|a: Seq<usize>, b: Seq<usize>| #[trigger] leq(a, b) && #[trigger] leq(b, a)
        implies a == b by {
        lemma_tuple_le_antisym(a, b);
    }
    assert forall|a: Seq<usize>, b: Seq<usize>, c: Seq<usize>|
        #[trigger] leq(a, b) && #[trigger] leq(b, c) implies leq(a, c) by {
        lemma_tuple_le_trans(a, b, c);
    }
    assert forall|a: Seq<usize>, b: Seq<usize>| #[trigger] leq(a, b) || #[trigger] leq(b, a) by {
        lemma_tuple_le_connected(a, b);
    }
}

pub proof fn lemma_chars_le_refl(a: Seq<char>)
    ensures
        chars_le(a, a),
    decreases a.len(),
{
    if a.len() > 0 {
        lemma_chars_le_refl(a.drop_first());
    }
}

pub proof fn lemma_chars_le_antisym(a: Seq<char>, b: Seq<char>)
    requires
        chars_le(a, b),
        chars_le(b, a),
    ensures
        a == b,
    decreases a.len(),
{
    if a.len() > 0 && b.len() > 0 {
        lemma_chars_le_antisym(a.drop_first(), b.drop_first());
        assert(a =~= seq![a[0]] + a.drop_first());
        assert(b =~= seq![b[0]] + b.drop_first());
    } else {
        assert(a.len() == 0 && b.len() == 0);
        assert(a =~= b);
    }
}

pub proof fn lemma_chars_le_trans(a: Seq<char>, b: Seq<char>, c: Seq<char>)
    requires
        chars_le(a, b),
        chars_le(b, c),
    ensures
        chars_le(a, c),
    decreases a.len(),
{
    if a.len() > 0 && b.len() > 0 && c.len() > 0 {
        if a[0] == b[0] && b[0] == c[0] {
            lemma_chars_le_trans(a.drop_first(), b.drop_first(), c.drop_first());
        }
    }
}

pub proof fn lemma_chars_le_connected(a: Seq<char>, b: Seq<char>)
    ensures
        chars_le(a, b) || chars_le(b, a),
    decreases a.len(),
{
    if a.len() > 0 && b.len() > 0 {
        if a[0] == b[0] {
            lemma_chars_le_connected(a.drop_first(), b.drop_first());
        } else {
            vstd::utf8::char_u32_cast(a[0], a[0] as u32);
            vstd::utf8::char_u32_cast(b[0], b[0] as u32);
            assert((a[0] as u32) != (b[0] as u32));
        }
    }
}

/// Answer pairs are totally ordered by [`pair_le`].
pub proof fn lemma_pair_order_total()
    ensures
        total_ordering(pair_order()),
{
    let leq = pair_order();
    assert forall|p: (Seq<char>, Seq<char>)| #[trigger] leq(p, p) by {
        lemma_chars_le_refl(p.1);
    }
    assert forall|p: (Seq<char>, Seq<char>), q: (Seq<char>, Seq<char>)|
        #[trigger] leq(p, q) && #[trigger] leq(q, p) implies p == q by {
        if p.0 != q.0 {
            lemma_chars_le_antisym(p.0, q.0);
        } else {
            lemma_chars_le_antisym(p.1, q.1);
        }
    }
    assert forall|p: (Seq<char>, Seq<char>), q: (Seq<char>, Seq<char>), r: (Seq<char>, Seq<char>)|
        #[trigger] leq(p, q) && #[trigger] leq(q, r) implies leq(p, r) by {
        if p.0 == q.0 && q.0 == r.0 {
            lemma_chars_le_trans(p.1, q.1, r.1);
        } else if p.0 == q.0 {
            assert(chars_le(p.0, r.0));
        } else if q.0 == r.0 {
            assert(chars_le(p.0, r.0));
        } else {
            lemma_chars_le_trans(p.0, q.0, r.0);
            if p.0 == r.0 {
                lemma_chars_le_antisym(p.0, q.0);
            }
        }
    }
    assert forall|p: (Seq<char>, Seq<char>), q: (Seq<char>, Seq<char>)|
        #[trigger] leq(p, q) || #[trigger] leq(q, p) by {
        if p.0 == q.0 {
            lemma_chars_le_connected(p.1, q.1);
        } else {
            lemma_chars_le_connected(p.0, q.0);
        }
    }
}

/// Inserting an element at the first position whose occupant is not below
/// it keeps a sequence sorted, and adds exactly that element.
pub proof fn lemma_sorted_insert<A>(s: Seq<A>, x: A, j: int, leq: spec_fn(A, A) -> bool)
    requires
        total_ordering(leq),
        sorted_by(s, leq),
        0 <= j <= s.len(),
        forall|k: int| 0 <= k < j ==> #[trigger] leq(s[k], x),
        j < s.len() ==> !leq(s[j], x),
    ensures
        sorted_by(s.insert(j, x), leq),
        s.insert(j, x).to_multiset() == s.to_multiset().insert(x),
{
    broadcast use vstd::seq_lib::group_to_multiset_ensures;

    let t = s.insert(j, x);
    assert(t =~= s.take(j).push(x) + s.skip(j));
    assert forall|i1: int, i2: int| 0 <= i1 < i2 < t.len() implies #[trigger] leq(t[i1], t[i2]) by {
        let u1 = if i1 < j {
            s[i1]
        } else if i1 == j {
            x
        } else {
            s[i1 - 1]
        };
        let u2 = if i2 < j {
            s[i2]
        } else if i2 == j {
            x
        } else {
            s[i2 - 1]
        };
        assert(t[i1] == u1);
        assert(t[i2] == u2);
        if i1 < j && i2 == j {
            assert(leq(s[i1], x));
        } else if i1 == j && i2 > j {
            assert(!leq(s[j], x));
            assert(leq(s[j], x) || leq(x, s[j]));
            assert(leq(x, s[j]));
            if i2 - 1 > j {
                assert(leq(s[j], s[i2 - 1]));
            }
        } else if i1 < j && i2 > j {
            assert(leq(s[i1], s[i2 - 1]));
        }
    }
    assert(s =~= s.take(j) + s.skip(j));
    lemma_multiset_commutative(s.take(j).push(x), s.skip(j));
    lemma_multiset_commutative(s.take(j), s.skip(j));
    assert(s.take(j).push(x).to_multiset() =~= s.take(j).to_multiset().insert(x));
    assert(t.to_multiset() =~= s.to_multiset().insert(x));
}

/// Is `a` at or before `b` in tuple order?
pub fn tuple_le_exec(a: &Tuple, b: &Tuple) -> (r: bool)
    ensures
        r == tuple_le(a@, b@),
{
    let mut i: usize = 0;
    let na = a.0.len();
    let nb = b.0.len();
    proof {
        assert(a@.skip(0) =~= a@);
        assert(b@.skip(0) =~= b@);
    }
    while i < na && i < nb
        invariant
            na == a@.len(),
            nb == b@.len(),
            i <= na,
            i <= nb,
            tuple_le(a@, b@) == tuple_le(a@.skip(i as int), b@.skip(i as int)),
        decreases na - i,
    {
        proof {
            assert(a@.skip(i as int)[0] == a@[i as int]);
            assert(b@.skip(i as int)[0] == b@[i as int]);
            assert(a@.skip(i as int).drop_first() =~= a@.skip(i + 1));
            assert(b@.skip(i as int).drop_first() =~= b@.skip(i + 1));
        }
        if a.0[i] != b.0[i] {
            return a.0[i] < b.0[i];
        }
        i = i + 1;
    }
    proof {
        if i == na {
            assert(a@.skip(i as int).len() == 0);
        } else {
            assert(b@.skip(i as int).len() == 0);
            assert(a@.skip(i as int).len() > 0);
        }
    }
    na <= nb
}

/// Is `a` at or before `b` in name order?
pub fn chars_le_exec(a: &str, b: &str) -> (r: bool)
    ensures
        r == chars_le(a@, b@),
{
    let mut i: usize = 0;
    let na = a.unicode_len();
    let nb = b.unicode_len();
    proof {
        assert(a@.skip(0) =~= a@);
        assert(b@.skip(0) =~= b@);
    }
    while i < na && i < nb
        invariant
            na == a@.len(),
            nb == b@.len(),
            i <= na,
            i <= nb,
            chars_le(a@, b@) == chars_le(a@.skip(i as int), b@.skip(i as int)),
        decreases na - i,
    {
        proof {
            assert(a@.skip(i as int)[0] == a@[i as int]);
            assert(b@.skip(i as int)[0] == b@[i as int]);
            assert(a@.skip(i as int).drop_first() =~= a@.skip(i + 1));
            assert(b@.skip(i as int).drop_first() =~= b@.skip(i + 1));
        }
        let ca = a.get_char(i);
        let cb = b.get_char(i);
        if ca != cb {
            return (ca as u32) < (cb as u32);
        }
        i = i + 1;
    }
    proof {
        if i == na {
            assert(a@.skip(i as int).len() == 0);
        } else {
            assert(b@.skip(i as int).len() == 0);
            assert(a@.skip(i as int).len() > 0);
        }
    }
    na <= nb
}

/// Is `p` at or before `q` in pair order?
pub fn pair_le_exec(p: &(String, String), q: &(String, String)) -> (r: bool)
    ensures
        r == pair_le((p.0@, p.1@), (q.0@, q.1@)),
{
    if p.0 == q.0 {
        chars_le_exec(p.1.as_str(), q.1.as_str())
    } else {
        chars_le_exec(p.0.as_str(), q.0.as_str())
    }
}

} // verus!
