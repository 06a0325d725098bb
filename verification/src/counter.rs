//! The candidate enumerator.  A counter of a given `length` and bound `max`
//! produces, lazily and exactly once each, every vector of `length` values
//! drawn from `0..max`, in mixed-radix order with slot 0 the fastest-varying
//! digit.  A counter with `length == 0` or `max == 0` produces nothing.
//!
//! This is the engine's sole search strategy: rule and query evaluation try
//! every vector the counter produces as a variable assignment.

use vstd::prelude::*;
use vstd::arithmetic::power::{pow, lemma_pow0, lemma_pow_positive};
use vstd::arithmetic::div_mod::{lemma_div_pos_is_pos, lemma_fundamental_div_mod,
    lemma_fundamental_div_mod_converse, lemma_mod_division_less_than_divisor,
    lemma_multiply_divide_lt};
use vstd::arithmetic::mul::lemma_mul_inequality;

verus! {

/// The `k`-th candidate vector: the `length` base-`max` digits of `k`,
/// least-significant first.
pub open spec fn cand_vec(k: int, length: nat, max: int) -> Seq<int>
    decreases length,
{
    if length == 0 {
        Seq::empty()
    } else {
        seq![k % max] + cand_vec(k / max, (length - 1) as nat, max)
    }
}

/// The number a digit vector stands for, least-significant digit first.
pub open spec fn radix_val(s: Seq<int>, max: int) -> int
    decreases s.len(),
{
    if s.len() == 0 {
        0
    } else {
        s[0] + max * radix_val(s.drop_first(), max)
    }
}

/// Every digit lies in `0..max`.
pub open spec fn digits_in_range(s: Seq<int>, max: int) -> bool {
    forall|i: int| 0 <= i < s.len() ==> 0 <= #[trigger] s[i] < max
}

pub open spec fn seq_int(s: Seq<usize>) -> Seq<int> {
    s.map_values(|x: usize| x as int)
}

/// How many vectors a counter of the given shape produces in all.
pub open spec fn counter_total(length: nat, max: nat) -> nat {
    if length == 0 || max == 0 {
        0
    } else {
        pow(max as int, length) as nat
    }
}

/// One unfolding of `pow`, which is opaque.
pub proof fn lemma_pow_succ(b: int, e: nat)
    ensures
        pow(b, e + 1) == b * pow(b, e),
{
    reveal(pow);
}

/// The `k`-th candidate vector is well formed, and stands for `k` itself
/// whenever `k` is in range.
pub proof fn lemma_cand_vec_props(k: int, length: nat, max: int)
    requires
        max >= 1,
        k >= 0,
    ensures
        cand_vec(k, length, max).len() == length,
        digits_in_range(cand_vec(k, length, max), max),
        k < pow(max, length) ==> radix_val(cand_vec(k, length, max), max) == k,
    decreases length,
{
    lemma_pow0(max);
    if length > 0 {
        let s = cand_vec(k, length, max);
        lemma_mod_division_less_than_divisor(k, max);
        lemma_div_pos_is_pos(k, max);
        lemma_cand_vec_props(k / max, (length - 1) as nat, max);
        let rest = cand_vec(k / max, (length - 1) as nat, max);
        assert(s =~= seq![k % max] + rest);
        assert(s.drop_first() =~= rest);
        assert(digits_in_range(s, max)) by {
            assert(forall|i: int| 1 <= i < s.len() ==> s[i] == rest[i - 1]);
        }
        if k < pow(max, length) {
            assert(pow(max, length) == max * pow(max, (length - 1) as nat)) by {
                lemma_pow_succ(max, (length - 1) as nat);
            }
            lemma_multiply_divide_lt(k, max, pow(max, (length - 1) as nat));
            assert(radix_val(rest, max) == k / max);
            lemma_fundamental_div_mod(k, max);
            assert(radix_val(s, max) == k % max + max * (k / max));
        }
    }
}

/// A well-formed digit vector stands for a value in range, and is the
/// candidate vector of that value: the enumeration reaches every
/// well-formed vector exactly once.
pub proof fn lemma_radix_val_props(s: Seq<int>, max: int)
    requires
        max >= 1,
        digits_in_range(s, max),
    ensures
        0 <= radix_val(s, max) < pow(max, s.len()),
        cand_vec(radix_val(s, max), s.len(), max) == s,
    decreases s.len(),
{
    if s.len() == 0 {
        assert(cand_vec(0, 0, max) =~= s);
        lemma_pow0(max);
    } else {
        let rest = s.drop_first();
        assert(digits_in_range(rest, max)) by {
            assert(forall|i: int| 0 <= i < rest.len() ==> rest[i] == s[i + 1]);
        }
        lemma_radix_val_props(rest, max);
        let v = radix_val(s, max);
        let vr = radix_val(rest, max);
        assert(v == s[0] + max * vr);
        assert(pow(max, s.len()) == max * pow(max, rest.len())) by {
            lemma_pow_succ(max, rest.len());
        }
        assert(v < pow(max, s.len())) by {
            lemma_mul_inequality(vr, pow(max, rest.len()) - 1, max);
            assert(max * vr <= max * (pow(max, rest.len()) - 1)) by (nonlinear_arith)
                requires vr <= pow(max, rest.len()) - 1, max >= 1;
            assert(max * (pow(max, rest.len()) - 1) == max * pow(max, rest.len()) - max)
                by (nonlinear_arith);
        }
        assert(v >= 0) by {
            assert(max * vr >= 0) by (nonlinear_arith)
                requires max >= 1, vr >= 0;
        }
        lemma_fundamental_div_mod_converse(v, max, vr, s[0]);
        assert(v % max == s[0]);
        assert(v / max == vr);
        assert(cand_vec(v, s.len(), max) =~= seq![s[0]] + cand_vec(vr, rest.len(), max));
        assert(cand_vec(v, s.len(), max) =~= s);
    }
}

/// Changing one digit changes the value by the difference scaled by the
/// digit's weight.
pub proof fn lemma_radix_val_update(s: Seq<int>, max: int, i: int, x: int)
    requires
        0 <= i < s.len(),
    ensures
        radix_val(s.update(i, x), max) == radix_val(s, max) + (x - s[i]) * pow(max, i as nat),
    decreases i,
{
    let u = s.update(i, x);
    if i == 0 {
        assert(u.drop_first() =~= s.drop_first());
        lemma_pow0(max);
    } else {
        assert(u.drop_first() =~= s.drop_first().update(i - 1, x));
        assert(s.drop_first()[i - 1] == s[i]);
        lemma_radix_val_update(s.drop_first(), max, i - 1, x);
        let p = pow(max, (i - 1) as nat);
        assert(pow(max, i as nat) == max * p) by {
            lemma_pow_succ(max, (i - 1) as nat);
        }
        assert(radix_val(u, max) == s[0] + max * (radix_val(s.drop_first(), max) + (x - s[i])
            * p));
        assert(max * (radix_val(s.drop_first(), max) + (x - s[i]) * p) == max * radix_val(
            s.drop_first(),
            max,
        ) + (x - s[i]) * (max * p)) by (nonlinear_arith);
    }
}

/// A vector of zero digits stands for zero.
pub proof fn lemma_radix_val_zeros(s: Seq<int>, max: int)
    requires
        forall|i: int| 0 <= i < s.len() ==> #[trigger] s[i] == 0,
    ensures
        radix_val(s, max) == 0,
    decreases s.len(),
{
    if s.len() > 0 {
        assert(forall|i: int| 0 <= i < s.drop_first().len() ==> #[trigger] s.drop_first()[i]
            == 0);
        lemma_radix_val_zeros(s.drop_first(), max);
    }
}

/// Produces every vector of `length` values in `0..max`, in mixed-radix
/// order, each exactly once.
pub struct Counter {
    /// The length of each produced vector.
    pub length: usize,
    /// The exclusive upper bound on each produced value.
    pub max: usize,
    /// The digits of the next vector to produce, slot 0 least significant.
    pub digits: Vec<usize>,
    /// Whether the enumeration is over.
    pub done: bool,
    /// How many vectors have been produced so far.
    pub emitted: Ghost<nat>,
}

impl Counter {
    pub open spec fn emitted(&self) -> nat {
        self.emitted@
    }

    /// How many vectors this counter produces over its whole life.
    pub open spec fn total(&self) -> nat {
        counter_total(self.length as nat, self.max as nat)
    }

    pub open spec fn wf(&self) -> bool {
        &&& if self.done {
            self.emitted() == self.total()
        } else {
            &&& self.length > 0
            &&& self.max > 0
            &&& self.digits@.len() == self.length
            &&& digits_in_range(seq_int(self.digits@), self.max as int)
            &&& radix_val(seq_int(self.digits@), self.max as int) == self.emitted()
            &&& self.emitted() < self.total()
        }
    }

    /// A counter producing every vector of `length` values in `0..max`.
    /// With `length == 0` or `max == 0` it is exhausted from the start and
    /// produces nothing.
    pub fn new(length: usize, max: usize) -> (r: Counter)
        ensures
            r.wf(),
            r.length == length,
            r.max == max,
            r.emitted() == 0,
            (length == 0 || max == 0) <==> r.total() == 0,
    {
        let mut digits: Vec<usize> = Vec::new();
        if length == 0 || max == 0 {
            return Counter { length, max, digits, done: true, emitted: Ghost(0) };
        }
        for i in 0..length
            invariant
                digits@.len() == i,
                forall|j: int| 0 <= j < i ==> #[trigger] digits@[j] == 0,
        {
            digits.push(0);
        }
        let r = Counter { length, max, digits, done: false, emitted: Ghost(0) };
        proof {
            let s = seq_int(r.digits@);
            assert(forall|i: int| 0 <= i < s.len() ==> #[trigger] s[i] == 0);
            lemma_radix_val_zeros(s, max as int);
            lemma_pow_positive(max as int, length as nat);
        }
        r
    }

    /// Exhausted exactly when every vector has been produced.
    pub fn is_empty(&self) -> (r: bool)
        requires
            self.wf(),
        ensures
            r == (self.emitted() == self.total()),
    {
        self.done
    }

    /// The next vector: the `emitted()`-th candidate, `None` once all
    /// `total()` vectors are out.
    pub fn next(&mut self) -> (r: Option<Vec<usize>>)
        requires
            old(self).wf(),
        ensures
            final(self).wf(),
            final(self).length == old(self).length,
            final(self).max == old(self).max,
            old(self).emitted() == old(self).total() ==> r is None && *final(self) == *old(
                self,
            ),
            old(self).emitted() < old(self).total() ==> {
                &&& final(self).emitted() == old(self).emitted() + 1
                &&& r matches Some(v) && seq_int(v@) == cand_vec(
                    old(self).emitted() as int,
                    old(self).length as nat,
                    old(self).max as int,
                )
            },
    {
        if self.done {
            return None;
        }
        let ghost old_val = radix_val(seq_int(self.digits@), self.max as int);
        let mut out: Vec<usize> = Vec::new();
        let n = self.digits.len();
        for i in 0..n
            invariant
                n == self.digits@.len(),
                *self == *old(self),
                out@.len() == i,
                forall|j: int| 0 <= j < i ==> #[trigger] out@[j] == self.digits@[j],
        {
            out.push(self.digits[i]);
        }
        proof {
            assert(out@ =~= self.digits@);
            lemma_radix_val_props(seq_int(self.digits@), self.max as int);
            assert(cand_vec(old_val, self.length as nat, self.max as int) == seq_int(
                self.digits@,
            ));
        }
        let max = self.max;
        let len = self.digits.len();
        proof {
            lemma_pow0(max as int);
        }
        let mut i: usize = 0;
        let mut carrying: bool = true;
        while carrying && i < len
            invariant
                len == self.digits@.len(),
                len == self.length,
                max == self.max,
                self.length == old(self).length,
                self.max == old(self).max,
                self.done == false,
                self.emitted == old(self).emitted,
                max > 0,
                i <= len,
                digits_in_range(seq_int(self.digits@), max as int),
                forall|j: int| 0 <= j < i ==> #[trigger] self.digits@[j] == 0,
                radix_val(seq_int(self.digits@), max as int) + (if carrying {
                    pow(max as int, i as nat)
                } else {
                    0
                }) == old_val + 1,
            decreases len - i + (if carrying { 1int } else { 0int }),
        {
            let ghost s = seq_int(self.digits@);
            let d = self.digits[i];
            proof {
                assert(s[i as int] == d as int);
                assert(d < max);
            }
            if d + 1 == max {
                self.digits[i] = 0;
                proof {
                    assert(seq_int(self.digits@) =~= s.update(i as int, 0));
                    lemma_radix_val_update(s, max as int, i as int, 0);
                    assert(pow(max as int, (i + 1) as nat) == max * pow(max as int, i as nat))
                        by {
                        lemma_pow_succ(max as int, i as nat);
                    }
                    assert((0 - (max - 1)) * pow(max as int, i as nat) + max * pow(
                        max as int,
                        i as nat,
                    ) == pow(max as int, i as nat)) by (nonlinear_arith);
                }
                i = i + 1;
            } else {
                self.digits[i] = d + 1;
                carrying = false;
                proof {
                    assert(seq_int(self.digits@) =~= s.update(i as int, d + 1));
                    lemma_radix_val_update(s, max as int, i as int, d + 1);
                    assert((d + 1 - d) * pow(max as int, i as nat) == pow(max as int, i as nat))
                        by (nonlinear_arith);
                }
            }
        }
        if carrying {
            self.done = true;
            proof {
                let s = seq_int(self.digits@);
                assert(forall|j: int| 0 <= j < s.len() ==> #[trigger] s[j] == 0);
                lemma_radix_val_zeros(s, max as int);
                assert(old_val + 1 == pow(max as int, self.length as nat));
            }
        } else {
            proof {
                lemma_radix_val_props(seq_int(self.digits@), max as int);
            }
        }
        proof {
            self.emitted@ = self.emitted@ + 1;
        }
        Some(out)
    }
}

} // verus!
