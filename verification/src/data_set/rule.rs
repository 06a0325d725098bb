//! A rule: a head goal, body goals, and the binding that assigns a dense
//! slot to each distinct variable of the rule.  One fixpoint step of a rule
//! tries every candidate assignment of constants to its variable slots and
//! grounds the head under each assignment that makes every body goal hold.

use vstd::prelude::*;

use crate::ast;
use crate::ast::{AtomView, atoms_view};
use crate::binding::Binding;
use crate::data_set::goal::{build_goal, build_goals, data_build_state, lemma_goal_wf_monotone};
use crate::data_set::fixpoint::{lemma_prefix_refl, lemma_prefix_trans};
use crate::counter::{Counter, cand_vec, counter_total, digits_in_range, lemma_cand_vec_props,
    lemma_radix_val_props, radix_val, seq_int};
use vstd::arithmetic::power::{pow, lemma_pow_positive};
use crate::data_set::goal::{Goal, GoalModel, tuple_of};
use crate::data_set::query::{all_hold, bindings_view, goal_models, goals_fit, satisfies_all,
    satisfying_bindings};
use crate::data_set::{DataSet, Tuple, tuple_eq, tuples_view};

verus! {

/// A deduction rule over resolved goals.
#[derive(Debug)]
pub struct Rule {
    /// The head goal, grounded for each satisfying assignment.
    pub goal: Goal,
    /// The body goals, all of which must hold.
    pub sub_goals: Vec<Goal>,
    /// Maps each local variable slot to a variable name id, in order of
    /// first appearance (head first, then body).
    pub variables: Binding,
}

/// The mathematical shape of a [`Rule`].
pub ghost struct RuleModel {
    pub head: GoalModel,
    pub body: Seq<GoalModel>,
    pub vars: Seq<usize>,
}

impl View for Rule {
    type V = RuleModel;

    open spec fn view(&self) -> RuleModel {
        RuleModel {
            head: self.goal@,
            body: goal_models(self.sub_goals@),
            vars: self.variables@,
        }
    }
}

/// A candidate assignment: one value below `nconsts` for each of the
/// `nvars` slots.  A rule or query without variables has no candidates at
/// all — the enumerator is empty — so such a rule derives nothing.
pub open spec fn candidate(b: Seq<usize>, nvars: nat, nconsts: nat) -> bool {
    &&& nvars > 0
    &&& b.len() == nvars
    &&& forall|i: int| 0 <= i < b.len() ==> (#[trigger] b[i] as nat) < nconsts
}

/// Does assignment `b` make the rule derive the grounding of its head?
pub open spec fn derives(
    r: RuleModel,
    b: Seq<usize>,
    rels: Seq<Seq<Seq<usize>>>,
    nconsts: nat,
) -> bool {
    &&& candidate(b, r.vars.len(), nconsts)
    &&& all_hold(r.body, b, rels)
}

impl RuleModel {
    /// The head and every body goal are resolved within bounds, and the
    /// variable slots map injectively to known variable names.
    pub open spec fn wf(self, nrels: nat, nconsts: nat, nvarnames: nat) -> bool {
        &&& self.head.wf(nrels, nconsts, self.vars.len())
        &&& forall|i: int|
            0 <= i < self.body.len() ==> (#[trigger] self.body[i]).wf(
                nrels,
                nconsts,
                self.vars.len(),
            )
        &&& forall|i: int| 0 <= i < self.vars.len() ==> (#[trigger] self.vars[i] as nat) < nvarnames
        &&& self.vars.no_duplicates()
    }
}

/// A candidate assignment read as counter digits lies below the counter's
/// total.
pub proof fn lemma_candidate_digits(b: Seq<usize>, nvars: nat, nconsts: nat)
    requires
        candidate(b, nvars, nconsts),
    ensures
        digits_in_range(seq_int(b), nconsts as int),
        0 <= radix_val(seq_int(b), nconsts as int) < counter_total(nvars, nconsts),
        cand_vec(radix_val(seq_int(b), nconsts as int), nvars, nconsts as int) == seq_int(b),
{
    assert(digits_in_range(seq_int(b), nconsts as int)) by {
        assert(forall|i: int| 0 <= i < b.len() ==> seq_int(b)[i] == (#[trigger] b[i]) as int);
    }
    assert(nconsts > 0) by {
        assert((b[0] as nat) < nconsts);
    }
    lemma_radix_val_props(seq_int(b), nconsts as int);
}

/// Two assignments with the same digits are the same assignment.
pub proof fn lemma_digits_injective(a: Seq<usize>, b: Seq<usize>)
    requires
        seq_int(a) == seq_int(b),
    ensures
        a == b,
{
    assert(seq_int(a).len() == a.len());
    assert(seq_int(b).len() == b.len());
    assert forall|i: int| 0 <= i < a.len() implies a[i] == b[i] by {
        assert(seq_int(a)[i] == a[i] as int);
        assert(seq_int(b)[i] == b[i] as int);
    }
    assert(a =~= b);
}

impl Rule {
    /// Builds a rule from its head atom and body atoms, interning every
    /// name either mentions and assigning a dense slot to each distinct
    /// variable, in order of first appearance, head first.
    pub fn new(head: &ast::Atom, clauses: &[ast::Atom], data: &mut DataSet) -> (r: Rule)
        requires
            old(data).wf(),
        ensures
            final(data).wf(),
            ({
                let st0 = data_build_state(*old(data), Seq::empty());
                let (st1, h) = build_goal(head@, st0);
                let (st2, gs) = build_goals(atoms_view(clauses@), st1, Seq::empty());
                &&& data_build_state(*final(data), r@.vars) == st2
                &&& r@.head == h
                &&& r@.body == gs
            }),
            final(data).rules == old(data).rules,
            final(data).last_len == old(data).last_len,
            old(data).constant_names@.is_prefix_of(final(data).constant_names@),
            old(data).variable_names@.is_prefix_of(final(data).variable_names@),
            old(data).relation_names@.is_prefix_of(final(data).relation_names@),
            old(data).rels().len() <= final(data).rels().len(),
            forall|rr: int|
                0 <= rr < old(data).rels().len() ==> final(data).rels()[rr] == #[trigger] old(
                    data,
                ).rels()[rr],
            r@.wf(
                final(data).rels().len() as nat,
                final(data).nconsts(),
                final(data).variable_names@.len(),
            ),
    {
        let ghost o = *old(data);
        let mut variables = Binding::new();
        let goal = Goal::new(head, &mut variables, data);
        let ghost d1 = *data;
        let ghost v1 = variables@;
        let ghost st1 = data_build_state(*data, variables@);
        let n = clauses.len();
        let mut sub_goals: Vec<Goal> = Vec::new();
        proof {
            assert(atoms_view(clauses@) =~= atoms_view(clauses@).skip(0));
            assert(goal_models(sub_goals@) =~= Seq::<GoalModel>::empty());
            lemma_prefix_refl(data.constant_names@);
            lemma_prefix_refl(data.variable_names@);
            lemma_prefix_refl(data.relation_names@);
            lemma_prefix_refl(variables@);
            assert(Seq::<usize>::empty().no_duplicates());
            assert(v1.no_duplicates());
            assert(forall|k: int|
                0 <= k < v1.len() ==> (#[trigger] v1[k] as nat) < d1.variable_names@.len());
        }
        for i in 0..n
            invariant
                n == clauses@.len(),
                atoms_view(clauses@).len() == n,
                data.wf(),
                d1.wf(),
                data.rules == d1.rules,
                data.last_len == d1.last_len,
                d1.constant_names@.is_prefix_of(data.constant_names@),
                d1.variable_names@.is_prefix_of(data.variable_names@),
                d1.relation_names@.is_prefix_of(data.relation_names@),
                d1.rels().len() <= data.rels().len(),
                forall|rr: int|
                    0 <= rr < d1.rels().len() ==> data.rels()[rr] == #[trigger] d1.rels()[rr],
                v1.is_prefix_of(variables@),
                build_goals(
                    atoms_view(clauses@).skip(i as int),
                    data_build_state(*data, variables@),
                    goal_models(sub_goals@),
                ) == build_goals(atoms_view(clauses@), st1, Seq::<GoalModel>::empty()),
                goal@.wf(data.rels().len() as nat, data.nconsts(), variables@.len()),
                forall|j: int|
                    0 <= j < sub_goals@.len() ==> (#[trigger] goal_models(sub_goals@)[j]).wf(
                        data.rels().len() as nat,
                        data.nconsts(),
                        variables@.len(),
                    ),
                variables@.no_duplicates(),
                forall|k: int|
                    0 <= k < variables@.len() ==> (#[trigger] variables@[k] as nat)
                        < data.variable_names@.len(),
        {
            let ghost pre_d = *data;
            let ghost pre_v = variables@;
            let ghost pre_g = goal_models(sub_goals@);
            let g = Goal::new(&clauses[i], &mut variables, data);
            sub_goals.push(g);
            proof {
                assert(atoms_view(clauses@)[i as int] == clauses@[i as int]@);
                assert(atoms_view(clauses@).skip(i as int)[0] == atoms_view(clauses@)[i as int]);
                assert(atoms_view(clauses@).skip(i as int).drop_first() =~= atoms_view(
                    clauses@,
                ).skip(i + 1));
                assert(goal_models(sub_goals@) =~= pre_g.push(g@));
                assert(build_goal(clauses@[i as int]@, data_build_state(pre_d, pre_v)) == (
                    data_build_state(*data, variables@),
                    g@,
                ));
                lemma_prefix_trans(d1.constant_names@, pre_d.constant_names@, data.constant_names@);
                lemma_prefix_trans(
                    d1.variable_names@,
                    pre_d.variable_names@,
                    data.variable_names@,
                );
                lemma_prefix_trans(
                    d1.relation_names@,
                    pre_d.relation_names@,
                    data.relation_names@,
                );
                lemma_prefix_trans(v1, pre_v, variables@);
                lemma_goal_wf_monotone(
                    goal@,
                    pre_d.rels().len() as nat,
                    pre_d.nconsts(),
                    pre_v.len(),
                    data.rels().len() as nat,
                    data.nconsts(),
                    variables@.len(),
                );
                assert forall|j: int| 0 <= j < sub_goals@.len() implies (
                #[trigger] goal_models(sub_goals@)[j]).wf(
                    data.rels().len() as nat,
                    data.nconsts(),
                    variables@.len(),
                ) by {
                    if j < pre_g.len() {
                        assert(goal_models(sub_goals@)[j] == pre_g[j]);
                        lemma_goal_wf_monotone(
                            pre_g[j],
                            pre_d.rels().len() as nat,
                            pre_d.nconsts(),
                            pre_v.len(),
                            data.rels().len() as nat,
                            data.nconsts(),
                            variables@.len(),
                        );
                    }
                }
            }
        }
        proof {
            assert(atoms_view(clauses@).skip(n as int) =~= Seq::<AtomView>::empty());
        }
        let r = Rule { goal, sub_goals, variables };
        proof {
            assert(r@.wf(
                data.rels().len() as nat,
                data.nconsts(),
                data.variable_names@.len(),
            ));
            lemma_prefix_trans(o.constant_names@, d1.constant_names@, data.constant_names@);
            lemma_prefix_trans(o.variable_names@, d1.variable_names@, data.variable_names@);
            lemma_prefix_trans(o.relation_names@, d1.relation_names@, data.relation_names@);
        }
        r
    }

    /// The satisfying value assignments of this rule's body, in
    /// enumeration order, each exactly once.
    pub fn bindings(&self, data: &DataSet) -> (r: Vec<Binding>)
        requires
            self@.wf(data.relations@.len() as nat, data.nconsts(), data.variable_names@.len()),
        ensures
            forall|i: int|
                0 <= i < r@.len() ==> candidate(
                    #[trigger] bindings_view(r@)[i],
                    self@.vars.len(),
                    data.nconsts(),
                ) && all_hold(self@.body, bindings_view(r@)[i], data.rels()),
            forall|b: Seq<usize>|
                #[trigger] candidate(b, self@.vars.len(), data.nconsts()) && all_hold(
                    self@.body,
                    b,
                    data.rels(),
                ) ==> bindings_view(r@).contains(b),
            bindings_view(r@).no_duplicates(),
    {
        proof {
            assert forall|i: int|
                0 <= i < goal_models(self.sub_goals@).len() implies (#[trigger] goal_models(
                self.sub_goals@,
            )[i]).wf(data.relations@.len() as nat, data.nconsts(), self.variables@.len()) by {
                assert(self@.body[i].wf(
                    data.relations@.len() as nat,
                    data.nconsts(),
                    self@.vars.len(),
                ));
            }
        }
        satisfying_bindings(&self.sub_goals, &self.variables, data)
    }

    /// The tuples this rule derives in the current state: the same set
    /// [`Rule::step`] produces.
    pub fn next(&self, data: &DataSet) -> (r: Vec<Tuple>)
        requires
            self@.wf(data.relations@.len() as nat, data.nconsts(), data.variable_names@.len()),
        ensures
            tuples_view(r@).no_duplicates(),
            forall|t: Seq<usize>|
                #[trigger] tuples_view(r@).contains(t) <==> exists|b: Seq<usize>|
                    #[trigger] derives(self@, b, data.rels(), data.nconsts()) && t == tuple_of(
                        self@.head.terms,
                        b,
                    ),
    {
        self.step(data)
    }

    /// The id of the relation the head derives into.
    pub fn relation(&self) -> (r: usize)
        ensures
            r as int == self@.head.rel,
    {
        self.goal.relation
    }

    /// One fixpoint step: the deduplicated groundings of the head under
    /// every candidate assignment that makes all body goals hold.  The
    /// caller unions the result into the head relation.
    ///
    /// A rule with no body goals is vacuously satisfied by every candidate
    /// assignment; a rule with no variables has no candidate assignments at
    /// all and so derives nothing.
    pub fn step(&self, data: &DataSet) -> (r: Vec<Tuple>)
        requires
            self@.wf(data.relations@.len() as nat, data.nconsts(), data.variable_names@.len()),
        ensures
            tuples_view(r@).no_duplicates(),
            forall|t: Seq<usize>|
                #[trigger] tuples_view(r@).contains(t) <==> exists|b: Seq<usize>|
                    #[trigger] derives(self@, b, data.rels(), data.nconsts()) && t == tuple_of(
                        self@.head.terms,
                        b,
                    ),
    {
        let ghost nv = self.variables@.len();
        let ghost nc = data.nconsts();
        proof {
            assert(goals_fit(self.sub_goals@, data.relations@.len() as nat, nv)) by {
                assert(forall|i: int|
                    0 <= i < self.sub_goals@.len() ==> self@.body[i] == (
                    #[trigger] self.sub_goals@[i])@);
            }
        }
        let mut result: Vec<Tuple> = Vec::new();
        let mut counter = Counter::new(self.variables.len(), data.constants_count());
        proof {
            assert forall|b: Seq<usize>|
                #[trigger] derives(self@, b, data.rels(), data.nconsts()) && radix_val(
                    seq_int(b),
                    nc as int,
                ) < counter.emitted() implies tuples_view(result@).contains(
                tuple_of(self@.head.terms, b),
            ) by {
                lemma_candidate_digits(b, nv, nc);
            }
        }
        while !counter.is_empty()
            invariant
                counter.wf(),
                counter.length as nat == nv,
                counter.max as nat == nc,
                nv == self.variables@.len(),
                nc == data.nconsts(),
                self@.wf(data.relations@.len() as nat, data.nconsts(), data.variable_names@.len()),
                goals_fit(self.sub_goals@, data.relations@.len() as nat, nv),
                tuples_view(result@).no_duplicates(),
                forall|t: Seq<usize>|
                    #[trigger] tuples_view(result@).contains(t) ==> exists|b: Seq<usize>|
                        #[trigger] derives(self@, b, data.rels(), data.nconsts()) && t == tuple_of(
                            self@.head.terms,
                            b,
                        ),
                forall|b: Seq<usize>|
                    #[trigger] derives(self@, b, data.rels(), data.nconsts()) && radix_val(
                        seq_int(b),
                        nc as int,
                    ) < counter.emitted() ==> tuples_view(result@).contains(
                        tuple_of(self@.head.terms, b),
                    ),
            decreases counter.total() - counter.emitted(),
        {
            let ghost k = counter.emitted();
            let ghost res0 = tuples_view(result@);
            proof {
                assert(k < counter_total(nv, nc));
                assert(nv > 0 && nc > 0);
                lemma_pow_positive(nc as int, nv);
                assert(k < pow(nc as int, nv));
            }
            let next = counter.next();
            match next {
                Some(values) => {
                    proof {
                        lemma_cand_vec_props(k as int, nv, nc as int);
                    }
                    let binding = Binding::from_values(values);
                    proof {
                        assert(seq_int(binding@) == cand_vec(k as int, nv, nc as int));
                        assert(seq_int(binding@).len() == binding@.len());
                        assert(candidate(binding@, nv, nc)) by {
                            assert(forall|i: int|
                                0 <= i < binding@.len() ==> seq_int(binding@)[i] == (
                                #[trigger] binding@[i]) as int);
                        }
                        assert(radix_val(seq_int(binding@), nc as int) == k);
                    }
                    let sat = satisfies_all(&binding, &self.sub_goals, data);
                    if sat {
                        let t = self.goal.make_tuple(&binding);
                        proof {
                            assert(derives(self@, binding@, data.rels(), nc));
                        }
                        let mut present = false;
                        let n = result.len();
                        for i in 0..n
                            invariant
                                n == result@.len(),
                                t@ == tuple_of(self@.head.terms, binding@),
                                present == exists|j: int|
                                    0 <= j < i && tuples_view(result@)[j] == t@,
                        {
                            if tuple_eq(&result[i], &t) {
                                proof {
                                    assert(tuples_view(result@)[i as int] == t@);
                                }
                                present = true;
                            }
                        }
                        if !present {
                            proof {
                                if tuples_view(result@).contains(t@) {
                                    let j = choose|j: int|
                                        0 <= j < tuples_view(result@).len() && tuples_view(
                                            result@,
                                        )[j] == t@;
                                    assert(false);
                                }
                            }
                            result.push(t);
                            proof {
                                assert(tuples_view(result@) =~= res0.push(
                                    tuple_of(self@.head.terms, binding@),
                                ));
                                assert(tuples_view(result@).no_duplicates()) by {
                                    assert(forall|j: int|
                                        0 <= j < res0.len() ==> tuples_view(result@)[j] == res0[j]);
                                    assert(!res0.contains(tuple_of(self@.head.terms, binding@)));
                                    assert forall|i1: int, j1: int|
                                        0 <= i1 < j1 < tuples_view(result@).len() implies
                                        tuples_view(result@)[i1] != tuples_view(result@)[j1] by {
                                        if j1 == res0.len() {
                                            if tuples_view(result@)[i1] == tuples_view(
                                                result@,
                                            )[j1] {
                                                assert(res0[i1] == tuple_of(
                                                    self@.head.terms,
                                                    binding@,
                                                ));
                                                assert(res0.contains(tuple_of(
                                                    self@.head.terms,
                                                    binding@,
                                                )));
                                            }
                                        }
                                    }
                                }
                            }
                        }
                        proof {
                            assert(tuples_view(result@).contains(t@)) by {
                                if present {
                                    let j = choose|j: int|
                                        0 <= j < res0.len() && res0[j] == t@;
                                    assert(tuples_view(result@)[j] == t@);
                                } else {
                                    assert(tuples_view(result@).last() == t@);
                                }
                            }
                        }
                    }
                    proof {
                        assert forall|x: Seq<usize>| res0.contains(x) implies tuples_view(
                            result@,
                        ).contains(x) by {
                            let j = choose|j: int| 0 <= j < res0.len() && res0[j] == x;
                            assert(tuples_view(result@)[j] == x);
                        }
                        assert forall|t2: Seq<usize>| #[trigger]
                            tuples_view(result@).contains(t2) implies exists|b: Seq<usize>|
                            #[trigger] derives(self@, b, data.rels(), data.nconsts()) && t2
                            == tuple_of(self@.head.terms, b) by {
                            let j = choose|j: int|
                                0 <= j < tuples_view(result@).len() && tuples_view(result@)[j]
                                    == t2;
                            if j < res0.len() {
                                assert(res0.contains(t2));
                            } else {
                                assert(t2 == tuple_of(self@.head.terms, binding@));
                                assert(derives(self@, binding@, data.rels(), data.nconsts()));
                            }
                        }
                        assert forall|b: Seq<usize>|
                            #[trigger] derives(self@, b, data.rels(), data.nconsts()) && radix_val(
                                seq_int(b),
                                nc as int,
                            ) < counter.emitted() implies tuples_view(result@).contains(
                            tuple_of(self@.head.terms, b),
                        ) by {
                            lemma_candidate_digits(b, nv, nc);
                            let vb = radix_val(seq_int(b), nc as int);
                            if vb == k {
                                assert(cand_vec(vb, nv, nc as int) == seq_int(b));
                                assert(seq_int(b) == seq_int(binding@));
                                lemma_digits_injective(b, binding@);
                                assert(sat);
                                assert(tuples_view(result@).contains(tuple_of(
                                    self@.head.terms,
                                    binding@,
                                )));
                            } else {
                                assert(vb < k);
                                assert(res0.contains(tuple_of(self@.head.terms, b)));
                            }
                        }
                    }
                }
                None => {
                    proof {
                        assert(false);
                    }
                }
            }
        }
        proof {
            assert forall|t: Seq<usize>|
                (exists|b: Seq<usize>|
                    #[trigger] derives(self@, b, data.rels(), data.nconsts()) && t == tuple_of(
                        self@.head.terms,
                        b,
                    )) implies tuples_view(result@).contains(t) by {
                let b = choose|b: Seq<usize>|
                    #[trigger] derives(self@, b, data.rels(), data.nconsts()) && t == tuple_of(
                        self@.head.terms,
                        b,
                    );
                lemma_candidate_digits(b, nv, nc);
            }
        }
        result
    }
}

} // verus!
