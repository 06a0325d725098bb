//! The theory behind the fixpoint loop: families of fact sets, closure
//! under the rules, membership in the least fixpoint, and the capacity
//! bound that makes the loop terminate.

use vstd::prelude::*;
use vstd::arithmetic::div_mod::lemma_fundamental_div_mod_converse;
use vstd::arithmetic::power::lemma_pow_positive;
use vstd::set_lib::{lemma_int_range, lemma_len_subset, set_int_range};

use crate::counter::{cand_vec, counter_total, radix_val, seq_int};
use crate::data_set::goal::{GoalModel, goal_holds, tuple_of};
use crate::data_set::query::all_hold;
use crate::data_set::rule::{RuleModel, candidate, lemma_candidate_digits};
use crate::data_set::sum_facts;

verus! {

/// Casts back from counter digits to constant ids.
pub open spec fn seq_usize(s: Seq<int>) -> Seq<usize> {
    s.map_values(|x: int| x as usize)
}

/// The relation contents, each as a set of tuples.
pub open spec fn rels_as_sets(rels: Seq<Seq<Seq<usize>>>) -> Seq<Set<Seq<usize>>> {
    rels.map_values(|r: Seq<Seq<usize>>| r.to_set())
}

/// Is the tuple among the family's facts for relation `rel`?
pub open spec fn family_contains(fam: Seq<Set<Seq<usize>>>, rel: int, t: Seq<usize>) -> bool {
    0 <= rel < fam.len() && fam[rel].contains(t)
}

/// Pointwise inclusion of fact families.
pub open spec fn family_le(f1: Seq<Set<Seq<usize>>>, f2: Seq<Set<Seq<usize>>>) -> bool {
    &&& f1.len() == f2.len()
    &&& forall|i: int| 0 <= i < f1.len() ==> (#[trigger] f1[i]).subset_of(f2[i])
}

pub open spec fn goal_holds_in(g: GoalModel, b: Seq<usize>, fam: Seq<Set<Seq<usize>>>) -> bool {
    family_contains(fam, g.rel, tuple_of(g.terms, b))
}

pub open spec fn all_hold_in(gs: Seq<GoalModel>, b: Seq<usize>, fam: Seq<Set<Seq<usize>>>) -> bool {
    forall|i: int| 0 <= i < gs.len() ==> goal_holds_in(#[trigger] gs[i], b, fam)
}

/// The family is closed under every rule: whatever a rule can derive from
/// facts of the family is already in the family.
pub open spec fn closed(rules: Seq<RuleModel>, fam: Seq<Set<Seq<usize>>>, nconsts: nat) -> bool {
    forall|ri: int, b: Seq<usize>|
        0 <= ri < rules.len() && #[trigger] candidate(b, rules[ri].vars.len(), nconsts)
            && all_hold_in(rules[ri].body, b, fam) ==> family_contains(
            fam,
            rules[ri].head.rel,
            tuple_of(rules[ri].head.terms, b),
        )
}

/// Membership in the least fixpoint of the rules over the initial facts:
/// the fact lies in every closed family that includes the initial facts.
pub open spec fn in_lfp(
    t: Seq<usize>,
    rel: int,
    init: Seq<Set<Seq<usize>>>,
    rules: Seq<RuleModel>,
    nconsts: nat,
) -> bool {
    forall|fam: Seq<Set<Seq<usize>>>|
        family_le(init, fam) && #[trigger] closed(rules, fam, nconsts) ==> family_contains(
            fam,
            rel,
            t,
        )
}

/// Any closed family over the initial facts contains every member of the
/// least fixpoint — together with soundness of `run` this pins the final
/// fact base as exactly the least fixpoint.
pub proof fn lemma_lfp_contained(
    t: Seq<usize>,
    rel: int,
    init: Seq<Set<Seq<usize>>>,
    rules: Seq<RuleModel>,
    nconsts: nat,
    fam: Seq<Set<Seq<usize>>>,
)
    requires
        in_lfp(t, rel, init, rules, nconsts),
        family_le(init, fam),
        closed(rules, fam, nconsts),
    ensures
        family_contains(fam, rel, t),
{
}

/// Goals that hold among relation contents hold in any family that
/// includes those contents.
pub proof fn lemma_all_hold_in_family(
    gs: Seq<GoalModel>,
    b: Seq<usize>,
    rels: Seq<Seq<Seq<usize>>>,
    fam: Seq<Set<Seq<usize>>>,
)
    requires
        all_hold(gs, b, rels),
        family_le(rels_as_sets(rels), fam),
        forall|i: int| 0 <= i < gs.len() ==> 0 <= (#[trigger] gs[i]).rel < rels.len(),
    ensures
        all_hold_in(gs, b, fam),
{
    assert forall|i: int| 0 <= i < gs.len() implies goal_holds_in(#[trigger] gs[i], b, fam) by {
        let g = gs[i];
        let t = tuple_of(g.terms, b);
        assert(goal_holds(g, b, rels));
        assert(rels_as_sets(rels)[g.rel] == rels[g.rel].to_set());
        assert(rels[g.rel].to_set().contains(t));
        assert(rels_as_sets(rels)[g.rel].subset_of(fam[g.rel]));
    }
}

/// Goals that hold keep holding when the relations only gain facts.
pub proof fn lemma_all_hold_grow(
    gs: Seq<GoalModel>,
    b: Seq<usize>,
    r1: Seq<Seq<Seq<usize>>>,
    r2: Seq<Seq<Seq<usize>>>,
)
    requires
        all_hold(gs, b, r1),
        r1.len() == r2.len(),
        forall|i: int| 0 <= i < r1.len() ==> (#[trigger] r1[i]).is_prefix_of(r2[i]),
        forall|i: int| 0 <= i < gs.len() ==> 0 <= (#[trigger] gs[i]).rel < r1.len(),
    ensures
        all_hold(gs, b, r2),
{
    assert forall|i: int| 0 <= i < gs.len() implies goal_holds(#[trigger] gs[i], b, r2) by {
        let g = gs[i];
        let t = tuple_of(g.terms, b);
        assert(r1[g.rel].contains(t));
        let j = choose|j: int| 0 <= j < r1[g.rel].len() && r1[g.rel][j] == t;
        assert(r2[g.rel][j] == r1[g.rel].subrange(0, r1[g.rel].len() as int)[j]);
        assert(r2[g.rel][j] == t);
    }
}

/// The shape of a fact some rule could have derived: its head grounded
/// under some candidate assignment.  Used only to bound how many facts the
/// rules can ever add.
pub open spec fn appended_witness(
    t: Seq<usize>,
    rel: int,
    rules: Seq<RuleModel>,
    nconsts: nat,
) -> bool {
    exists|ri: int, b: Seq<usize>|
        0 <= ri < rules.len() && rules[ri].head.rel == rel && #[trigger] candidate(
            b,
            rules[ri].vars.len(),
            nconsts,
        ) && t == tuple_of(rules[ri].head.terms, b)
}

/// How many distinct facts one rule can ever derive.
pub open spec fn rule_cap(r: RuleModel, nconsts: nat) -> nat {
    counter_total(r.vars.len(), nconsts)
}

pub open spec fn max_rule_cap(rules: Seq<RuleModel>, nconsts: nat) -> nat
    decreases rules.len(),
{
    if rules.len() == 0 {
        0
    } else {
        let m = max_rule_cap(rules.drop_last(), nconsts);
        let c = rule_cap(rules.last(), nconsts);
        if c > m {
            c
        } else {
            m
        }
    }
}

pub proof fn lemma_max_rule_cap(rules: Seq<RuleModel>, nconsts: nat, ri: int)
    requires
        0 <= ri < rules.len(),
    ensures
        rule_cap(rules[ri], nconsts) <= max_rule_cap(rules, nconsts),
    decreases rules.len(),
{
    if ri < rules.len() - 1 {
        lemma_max_rule_cap(rules.drop_last(), nconsts, ri);
        assert(rules.drop_last()[ri] == rules[ri]);
    }
}

/// Does `x` come out of `f` somewhere on `0..n`?
pub open spec fn has_preimage<A>(f: spec_fn(int) -> Option<A>, n: int, x: A) -> bool {
    exists|k: int| #![trigger f(k)] 0 <= k < n && f(k) == Some(x)
}

/// A duplicate-free sequence whose members all come out of a partial
/// function on `0..n` has at most `n` members.
pub proof fn lemma_nodup_bounded_by_image<A>(s: Seq<A>, f: spec_fn(int) -> Option<A>, n: int)
    requires
        n >= 0,
        s.no_duplicates(),
        forall|i: int| 0 <= i < s.len() ==> has_preimage(f, n, #[trigger] s[i]),
    ensures
        s.len() <= n,
{
    let ks = Seq::new(
        s.len(),
        |i: int| choose|k: int| #![trigger f(k)] 0 <= k < n && f(k) == Some(s[i]),
    );
    assert(ks.len() == s.len());
    assert forall|i: int| 0 <= i < ks.len() implies 0 <= #[trigger] ks[i] < n && f(ks[i]) == Some(
        s[i],
    ) by {
        assert(has_preimage(f, n, s[i]));
        assert(exists|k: int| #![trigger f(k)] 0 <= k < n && f(k) == Some(s[i]));
    }
    assert(ks.no_duplicates()) by {
        assert forall|i: int, j: int| 0 <= i < j < ks.len() implies ks[i] != ks[j] by {
            assert(s[i] != s[j]);
            assert(f(ks[i]) == Some(s[i]));
            assert(f(ks[j]) == Some(s[j]));
        }
    }
    ks.unique_seq_to_set();
    lemma_int_range(0, n);
    assert(ks.to_set().subset_of(set_int_range(0, n))) by {
        assert forall|k: int| ks.to_set().contains(k) implies set_int_range(0, n).contains(k) by {
            let i = choose|i: int| 0 <= i < ks.len() && ks[i] == k;
        }
    }
    lemma_len_subset(ks.to_set(), set_int_range(0, n));
}

/// One relation can never grow past its initial facts plus everything the
/// rules can derive for it.
pub proof fn lemma_relation_cap(
    cur: Seq<Seq<usize>>,
    init: Seq<Seq<usize>>,
    rel: int,
    rules: Seq<RuleModel>,
    nconsts: nat,
)
    requires
        cur.no_duplicates(),
        init.is_prefix_of(cur),
        forall|j: int|
            init.len() <= j < cur.len() ==> appended_witness(#[trigger] cur[j], rel, rules, nconsts),
    ensures
        cur.len() <= init.len() + rules.len() * max_rule_cap(rules, nconsts),
{
    let off = init.len() as int;
    let app = cur.skip(off);
    assert(app.no_duplicates()) by {
        assert forall|i: int, j: int| 0 <= i < j < app.len() implies app[i] != app[j] by {
            assert(cur[i + off] != cur[j + off]);
        }
    }
    let r = rules.len() as int;
    let nmax = max_rule_cap(rules, nconsts) as int;
    if app.len() == 0 {
        assert(cur.len() == init.len());
        assert(rules.len() * max_rule_cap(rules, nconsts) >= 0) by (nonlinear_arith);
    } else {
        assert(appended_witness(app[0], rel, rules, nconsts)) by {
            assert(app[0] == cur[off]);
        }
        assert(nmax >= 1) by {
            let (ri, b) = choose|ri: int, b: Seq<usize>|
                0 <= ri < rules.len() && rules[ri].head.rel == rel && #[trigger] candidate(
                    b,
                    rules[ri].vars.len(),
                    nconsts,
                ) && app[0] == tuple_of(rules[ri].head.terms, b);
            lemma_candidate_digits(b, rules[ri].vars.len(), nconsts);
            lemma_max_rule_cap(rules, nconsts, ri);
        }
        let f = |k: int|
            {
                let ri = k / nmax;
                let kb = k % nmax;
                if 0 <= ri < rules.len() && kb < rule_cap(rules[ri], nconsts)
                    && rules[ri].head.rel == rel {
                    Some(tuple_of(
                        rules[ri].head.terms,
                        seq_usize(cand_vec(kb, rules[ri].vars.len(), nconsts as int)),
                    ))
                } else {
                    None
                }
            };
        assert forall|j: int| 0 <= j < app.len() implies has_preimage(f, r * nmax, #[trigger] app[j]) by {
            assert(appended_witness(app[j], rel, rules, nconsts)) by {
                assert(app[j] == cur[j + off]);
            }
            let (ri, b) = choose|ri: int, b: Seq<usize>|
                0 <= ri < rules.len() && rules[ri].head.rel == rel && #[trigger] candidate(
                    b,
                    rules[ri].vars.len(),
                    nconsts,
                ) && app[j] == tuple_of(rules[ri].head.terms, b);
            lemma_candidate_digits(b, rules[ri].vars.len(), nconsts);
            let vb = radix_val(seq_int(b), nconsts as int);
            assert(vb < rule_cap(rules[ri], nconsts));
            assert(rule_cap(rules[ri], nconsts) <= nmax) by {
                lemma_max_rule_cap(rules, nconsts, ri);
            }
            let k = ri * nmax + vb;
            assert(0 <= k < r * nmax) by (nonlinear_arith)
                requires
                    0 <= ri < r,
                    0 <= vb < nmax,
                    k == ri * nmax + vb,
            ;
            lemma_fundamental_div_mod_converse(k, nmax, ri, vb);
            assert(k / nmax == ri && k % nmax == vb);
            assert(seq_usize(cand_vec(vb, rules[ri].vars.len(), nconsts as int)) == b) by {
                assert(cand_vec(vb, rules[ri].vars.len(), nconsts as int) == seq_int(b));
                assert(seq_usize(seq_int(b)).len() == b.len());
                assert forall|x: int| 0 <= x < b.len() implies seq_usize(seq_int(b))[x]
                    == b[x] by {
                    assert(seq_int(b)[x] == b[x] as int);
                }
                assert(seq_usize(seq_int(b)) =~= b);
            }
            assert(f(k) == Some(app[j]));
            assert(has_preimage(f, r * nmax, app[j])) by {
                assert(0 <= k < r * nmax && f(k) == Some(app[j]));
            }
        }
        assert(r * nmax >= 0) by (nonlinear_arith)
            requires
                r >= 0,
                nmax >= 0,
        ;
        lemma_nodup_bounded_by_image(app, f, r * nmax);
        assert(cur.len() == init.len() + app.len());
    }
}

/// An upper bound on how many facts the fact base can ever hold: what it
/// started with plus everything the rules can derive.
pub open spec fn capacity(init: Seq<Seq<Seq<usize>>>, rules: Seq<RuleModel>, nconsts: nat) -> nat {
    sum_facts(init) + init.len() * (rules.len() * max_rule_cap(rules, nconsts))
}

/// The whole fact base is bounded by its initial size plus what the rules
/// can derive: the fixpoint loop cannot run forever.
pub proof fn lemma_family_cap(
    cur: Seq<Seq<Seq<usize>>>,
    init: Seq<Seq<Seq<usize>>>,
    rules: Seq<RuleModel>,
    nconsts: nat,
)
    requires
        cur.len() == init.len(),
        forall|i: int| 0 <= i < cur.len() ==> (#[trigger] cur[i]).no_duplicates(),
        forall|i: int| 0 <= i < cur.len() ==> (#[trigger] init[i]).is_prefix_of(cur[i]),
        forall|i: int, j: int|
            0 <= i < cur.len() && init[i].len() <= j < cur[i].len() ==> appended_witness(
                #[trigger] cur[i][j],
                i,
                rules,
                nconsts,
            ),
    ensures
        sum_facts(cur) <= capacity(init, rules, nconsts),
    decreases cur.len(),
{
    if cur.len() == 0 {
    } else {
        let n = cur.len() as int;
        let cur1 = cur.drop_last();
        let init1 = init.drop_last();
        assert forall|i: int, j: int|
            0 <= i < cur1.len() && init1[i].len() <= j < cur1[i].len() implies appended_witness(
            #[trigger] cur1[i][j],
            i,
            rules,
            nconsts,
        ) by {
            assert(cur1[i] == cur[i]);
            assert(init1[i] == init[i]);
        }
        lemma_family_cap(cur1, init1, rules, nconsts);
        lemma_relation_cap(cur.last(), init.last(), n - 1, rules, nconsts);
        let x = rules.len() * max_rule_cap(rules, nconsts);
        assert((n - 1) * x + x == n * x) by (nonlinear_arith);
        assert(init1.len() == n - 1);
    }
}

pub proof fn lemma_prefix_refl<A>(a: Seq<A>)
    ensures
        a.is_prefix_of(a),
{
    assert(a =~= a.subrange(0, a.len() as int));
}

pub proof fn lemma_prefix_trans<A>(a: Seq<A>, b: Seq<A>, c: Seq<A>)
    requires
        a.is_prefix_of(b),
        b.is_prefix_of(c),
    ensures
        a.is_prefix_of(c),
{
    assert forall|x: int| 0 <= x < a.len() implies a[x] == c.subrange(0, a.len() as int)[x] by {
        assert(a[x] == b.subrange(0, a.len() as int)[x]);
        assert(b[x] == c.subrange(0, b.len() as int)[x]);
    }
    assert(a =~= c.subrange(0, a.len() as int));
}

/// Whatever a sequence holds, its extensions hold too.
pub proof fn lemma_contains_prefix<A>(a: Seq<A>, b: Seq<A>, x: A)
    requires
        a.is_prefix_of(b),
        a.contains(x),
    ensures
        b.contains(x),
{
    let i = choose|i: int| 0 <= i < a.len() && a[i] == x;
    assert(a[i] == b.subrange(0, a.len() as int)[i]);
    assert(b[i] == x);
}

/// A prefix of a sequence is a prefix of it with one more element.
pub proof fn lemma_prefix_snoc<A>(a: Seq<A>, b: Seq<A>, t: A)
    requires
        a.is_prefix_of(b),
    ensures
        a.is_prefix_of(b.push(t)),
{
    assert forall|x: int| 0 <= x < a.len() implies a[x] == b.push(t).subrange(0, a.len() as int)[x]
        by {
        assert(a[x] == b.subrange(0, a.len() as int)[x]);
    }
    assert(a =~= b.push(t).subrange(0, a.len() as int));
}

/// A duplicate-free extension whose set of members shrank back into the
/// original is no extension at all.
pub proof fn lemma_prefix_subset_eq(a: Seq<Seq<usize>>, b: Seq<Seq<usize>>)
    requires
        a.is_prefix_of(b),
        b.no_duplicates(),
        b.to_set().subset_of(a.to_set()),
    ensures
        a == b,
{
    broadcast use vstd::seq_lib::seq_to_set_is_finite;

    b.unique_seq_to_set();
    a.lemma_cardinality_of_set();
    lemma_len_subset(b.to_set(), a.to_set());
    assert(a.len() == b.len());
    assert(a =~= b.subrange(0, a.len() as int));
    assert(b.subrange(0, a.len() as int) =~= b);
}

/// Relations that only gain facts never lose count, and an unchanged count
/// means unchanged contents.
pub proof fn lemma_sum_facts_grow(r1: Seq<Seq<Seq<usize>>>, r2: Seq<Seq<Seq<usize>>>)
    requires
        r1.len() == r2.len(),
        forall|i: int| 0 <= i < r1.len() ==> (#[trigger] r1[i]).is_prefix_of(r2[i]),
    ensures
        sum_facts(r1) <= sum_facts(r2),
        sum_facts(r1) == sum_facts(r2) ==> r1 == r2,
    decreases r1.len(),
{
    if r1.len() > 0 {
        lemma_sum_facts_grow(r1.drop_last(), r2.drop_last());
        assert(r1.last().is_prefix_of(r2.last()));
        if sum_facts(r1) == sum_facts(r2) {
            assert(r1.last().len() <= r2.last().len());
            assert(sum_facts(r1.drop_last()) == sum_facts(r2.drop_last()));
            assert(r1.last().len() == r2.last().len());
            assert(r1.last() =~= r2.last()) by {
                assert(r1.last() =~= r2.last().subrange(0, r1.last().len() as int));
            }
            assert(r1.drop_last() == r2.drop_last());
            assert forall|i: int| 0 <= i < r1.len() implies r1[i] == r2[i] by {
                if i < r1.len() - 1 {
                    assert(r1.drop_last()[i] == r2.drop_last()[i]);
                }
            }
            assert(r1 =~= r2);
        }
    }
}

} // verus!
