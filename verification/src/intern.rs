//! First-seen interning over a sequence, shared by the name pools and by
//! variable slot assignment: a value's id is the index of its first
//! occurrence, and a value not seen before is appended.

use vstd::prelude::*;

verus! {

/// Index of the first occurrence of `x` in `s`; `s.len()` when `x` does not
/// occur.
pub open spec fn first_index<A>(s: Seq<A>, x: A) -> int
    decreases s.len(),
{
    if s.len() == 0 {
        0
    } else if s[0] == x {
        0
    } else {
        1 + first_index(s.drop_first(), x)
    }
}

/// Does `x` occur in `s`?
pub open spec fn found<A>(s: Seq<A>, x: A) -> bool {
    first_index(s, x) < s.len()
}

/// The pool after interning `x`: unchanged when `x` is present, extended by
/// `x` otherwise.  The id handed out for `x` is `first_index(s, x)` in either
/// case.
pub open spec fn interned<A>(s: Seq<A>, x: A) -> Seq<A> {
    if found(s, x) {
        s
    } else {
        s.push(x)
    }
}

/// `first_index` points at the first occurrence: everything before it differs
/// from `x`, and it lies in range exactly when `x` occurs at all.
pub proof fn lemma_first_index<A>(s: Seq<A>, x: A)
    ensures
        0 <= first_index(s, x) <= s.len(),
        first_index(s, x) < s.len() ==> s[first_index(s, x)] == x,
        forall|j: int| 0 <= j < first_index(s, x) ==> s[j] != x,
        (exists|j: int| 0 <= j < s.len() && s[j] == x) ==> first_index(s, x) < s.len(),
    decreases s.len(),
{
    if s.len() != 0 && s[0] != x {
        lemma_first_index(s.drop_first(), x);
        assert(forall|j: int| 1 <= j < s.len() ==> s[j] == s.drop_first()[j - 1]);
    }
}

/// If everything before `i` differs from `x` and `s[i] == x`, then `i` is the
/// first index of `x`.
pub proof fn lemma_first_index_is<A>(s: Seq<A>, x: A, i: int)
    requires
        0 <= i < s.len(),
        s[i] == x,
        forall|j: int| 0 <= j < i ==> s[j] != x,
    ensures
        first_index(s, x) == i,
{
    lemma_first_index(s, x);
}

/// If `x` occurs nowhere in `s`, its first index is `s.len()`.
pub proof fn lemma_first_index_absent<A>(s: Seq<A>, x: A)
    requires
        forall|j: int| 0 <= j < s.len() ==> s[j] != x,
    ensures
        first_index(s, x) == s.len(),
        !found(s, x),
{
    lemma_first_index(s, x);
}

/// How `first_index` reacts to appending one element.
pub proof fn lemma_first_index_push<A>(s: Seq<A>, x: A, y: A)
    ensures
        found(s, x) ==> first_index(s.push(y), x) == first_index(s, x),
        !found(s, x) && y == x ==> first_index(s.push(y), x) == s.len(),
        !found(s, x) && y != x ==> first_index(s.push(y), x) == s.len() + 1,
{
    lemma_first_index(s, x);
    let p = s.push(y);
    if found(s, x) {
        let i = first_index(s, x);
        assert(p[i] == x);
        assert(forall|j: int| 0 <= j < i ==> p[j] != x);
        lemma_first_index_is(p, x, i);
    } else if y == x {
        assert(p[s.len() as int] == x);
        assert(forall|j: int| 0 <= j < s.len() ==> p[j] != x);
        lemma_first_index_is(p, x, s.len() as int);
    } else {
        assert(forall|j: int| 0 <= j < p.len() ==> p[j] != x);
        lemma_first_index_absent(p, x);
    }
}

/// Interning is idempotent: a second interning of `x` hands out the same id
/// and leaves the pool unchanged.
pub proof fn lemma_intern_twice<A>(s: Seq<A>, x: A)
    ensures
        found(interned(s, x), x),
        interned(interned(s, x), x) == interned(s, x),
        first_index(interned(s, x), x) == if found(s, x) {
            first_index(s, x)
        } else {
            s.len() as int
        },
{
    lemma_first_index(s, x);
    lemma_first_index_push(s, x, x);
}

/// Interning two distinct values hands out distinct ids, and a value never
/// seen before gets the next free index: ids come in first-seen order.
pub proof fn lemma_intern_distinct<A>(s: Seq<A>, x: A, y: A)
    requires
        x != y,
    ensures
        ({
            let p = interned(interned(s, x), y);
            &&& found(p, x)
            &&& found(p, y)
            &&& first_index(p, x) != first_index(p, y)
            &&& !found(s, x) && !found(s, y) ==> first_index(p, x) == s.len()
                && first_index(p, y) == s.len() + 1
        }),
{
    let p1 = interned(s, x);
    let p = interned(p1, y);
    lemma_intern_twice(s, x);
    lemma_intern_twice(p1, y);
    lemma_first_index(p1, y);
    lemma_first_index_push(p1, x, y);
    lemma_first_index(p, x);
    lemma_first_index(p, y);
    if first_index(p, x) == first_index(p, y) {
        assert(p[first_index(p, x)] == x);
        assert(p[first_index(p, y)] == y);
        assert(false);
    }
    if !found(s, x) && !found(s, y) {
        lemma_first_index(s, x);
        assert(p1 == s.push(x));
        assert(first_index(p1, x) == s.len());
        if found(p1, y) {
            lemma_first_index(s, y);
            assert(forall|j: int| 0 <= j < s.len() ==> s[j] != y);
            assert(p1[first_index(p1, y)] == y);
            assert(false);
        }
        assert(p == p1.push(y));
        lemma_first_index_push(p1, y, y);
    }
}

} // verus!
