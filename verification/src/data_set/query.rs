//! A query: a conjunction of goals with no head.  Its satisfying bindings
//! are found the same way a rule's are: every candidate assignment is tried
//! against every goal.

use vstd::prelude::*;
use vstd::arithmetic::power::{pow, lemma_pow_positive};

use crate::ast;
use crate::ast::{AtomView, atoms_view};
use crate::binding::Binding;
use crate::counter::{Counter, cand_vec, counter_total, lemma_cand_vec_props,
    lemma_radix_val_props, radix_val, seq_int};
use crate::data_set::DataSet;
use crate::data_set::fixpoint::{lemma_prefix_refl, lemma_prefix_trans};
use crate::data_set::goal::{Goal, GoalModel, build_goal, build_goals, data_build_state, goal_holds,
    lemma_goal_wf_monotone};
use crate::data_set::rule::{candidate, lemma_candidate_digits, lemma_digits_injective};

verus! {

/// A query: body goals and the slot assignment of their variables, with no
/// head.
#[derive(Debug)]
pub struct Query {
    /// The goals, all of which an answer must satisfy.
    pub sub_goals: Vec<Goal>,
    /// Maps each local variable slot to a variable name id, in order of
    /// first appearance.
    pub variables: Binding,
}

/// The mathematical shape of a [`Query`].
pub ghost struct QueryModel {
    pub body: Seq<GoalModel>,
    pub vars: Seq<usize>,
}

impl View for Query {
    type V = QueryModel;

    open spec fn view(&self) -> QueryModel {
        QueryModel { body: goal_models(self.sub_goals@), vars: self.variables@ }
    }
}

impl QueryModel {
    /// Every goal is resolved within bounds and the variable slots map
    /// injectively to known variable names.
    pub open spec fn wf(self, nrels: nat, nconsts: nat, nvarnames: nat) -> bool {
        &&& forall|i: int|
            0 <= i < self.body.len() ==> (#[trigger] self.body[i]).wf(
                nrels,
                nconsts,
                self.vars.len(),
            )
        &&& forall|i: int| 0 <= i < self.vars.len() ==> (#[trigger] self.vars[i] as nat) < nvarnames
        &&& self.vars.no_duplicates()
    }
}

/// The views of a sequence of bindings.
pub open spec fn bindings_view(s: Seq<Binding>) -> Seq<Seq<usize>> {
    s.map_values(|b: Binding| b@)
}

/// The mathematical shapes of a list of goals.
pub open spec fn goal_models(gs: Seq<Goal>) -> Seq<GoalModel> {
    gs.map_values(|g: Goal| g@)
}

/// Does every goal's grounding hold among the given relation contents?
pub open spec fn all_hold(gs: Seq<GoalModel>, b: Seq<usize>, rels: Seq<Seq<Seq<usize>>>) -> bool {
    forall|i: int| 0 <= i < gs.len() ==> goal_holds(#[trigger] gs[i], b, rels)
}

/// Every goal fits the binding and names an existing relation.
pub open spec fn goals_fit(gs: Seq<Goal>, nrels: nat, nvars: nat) -> bool {
    forall|i: int|
        0 <= i < gs.len() ==> (#[trigger] gs[i]).fits(nvars) && (gs[i].relation as nat) < nrels
}

/// Does the binding make every goal hold in `data`?
pub fn satisfies_all(vars: &Binding, goals: &Vec<Goal>, data: &DataSet) -> (r: bool)
    requires
        goals_fit(goals@, data.relations@.len(), vars@.len()),
    ensures
        r == all_hold(goal_models(goals@), vars@, data.rels()),
{
    let n = goals.len();
    for i in 0..n
        invariant
            n == goals@.len(),
            goals_fit(goals@, data.relations@.len(), vars@.len()),
            forall|j: int| 0 <= j < i ==> goal_holds(#[trigger] goal_models(goals@)[j], vars@, data.rels()),
    {
        if !goals[i].is_satisfied_by(vars, data) {
            proof {
                assert(!goal_holds(goal_models(goals@)[i as int], vars@, data.rels()));
            }
            return false;
        }
    }
    true
}


impl Query {
    /// Builds a query from its atoms, interning every name they mention and
    /// assigning a dense slot to each distinct variable, in order of first
    /// appearance.
    pub fn new(clauses: &[ast::Atom], data: &mut DataSet) -> (q: Query)
        requires
            old(data).wf(),
        ensures
            final(data).wf(),
            ({
                let st0 = data_build_state(*old(data), Seq::empty());
                let (st2, gs) = build_goals(atoms_view(clauses@), st0, Seq::empty());
                &&& data_build_state(*final(data), q@.vars) == st2
                &&& q@.body == gs
            }),
            final(data).rules == old(data).rules,
            final(data).last_len == old(data).last_len,
            old(data).constant_names@.is_prefix_of(final(data).constant_names@),
            old(data).variable_names@.is_prefix_of(final(data).variable_names@),
            old(data).relation_names@.is_prefix_of(final(data).relation_names@),
            old(data).rels().len() <= final(data).rels().len(),
            forall|rr: int|
                0 <= rr < old(data).rels().len() ==> final(data).rels()[rr] == #[trigger] old(
                    data,
                ).rels()[rr],
            q@.wf(
                final(data).rels().len() as nat,
                final(data).nconsts(),
                final(data).variable_names@.len(),
            ),
            clauses@.len() == 0 ==> q@.vars.len() == 0,
    {
        let ghost d1 = *old(data);
        let mut variables = Binding::new();
        let ghost v1 = variables@;
        let ghost st1 = data_build_state(*data, variables@);
        let n = clauses.len();
        let mut sub_goals: Vec<Goal> = Vec::new();
        proof {
            assert(atoms_view(clauses@) =~= atoms_view(clauses@).skip(0));
            assert(goal_models(sub_goals@) =~= Seq::<GoalModel>::empty());
            lemma_prefix_refl(data.constant_names@);
            lemma_prefix_refl(data.variable_names@);
            lemma_prefix_refl(data.relation_names@);
            lemma_prefix_refl(variables@);
            assert(v1.no_duplicates());
        }
        for i in 0..n
            invariant
                n == clauses@.len(),
                atoms_view(clauses@).len() == n,
                data.wf(),
                d1.wf(),
                data.rules == d1.rules,
                data.last_len == d1.last_len,
                d1.constant_names@.is_prefix_of(data.constant_names@),
                d1.variable_names@.is_prefix_of(data.variable_names@),
                d1.relation_names@.is_prefix_of(data.relation_names@),
                d1.rels().len() <= data.rels().len(),
                forall|rr: int|
                    0 <= rr < d1.rels().len() ==> data.rels()[rr] == #[trigger] d1.rels()[rr],
                v1.is_prefix_of(variables@),
                build_goals(
                    atoms_view(clauses@).skip(i as int),
                    data_build_state(*data, variables@),
                    goal_models(sub_goals@),
                ) == build_goals(atoms_view(clauses@), st1, Seq::<GoalModel>::empty()),
                forall|j: int|
                    0 <= j < sub_goals@.len() ==> (#[trigger] goal_models(sub_goals@)[j]).wf(
                        data.rels().len() as nat,
                        data.nconsts(),
                        variables@.len(),
                    ),
                variables@.no_duplicates(),
                forall|k: int|
                    0 <= k < variables@.len() ==> (#[trigger] variables@[k] as nat)
                        < data.variable_names@.len(),
        {
            let ghost pre_d = *data;
            let ghost pre_v = variables@;
            let ghost pre_g = goal_models(sub_goals@);
            let g = Goal::new(&clauses[i], &mut variables, data);
            sub_goals.push(g);
            proof {
                assert(atoms_view(clauses@)[i as int] == clauses@[i as int]@);
                assert(atoms_view(clauses@).skip(i as int)[0] == atoms_view(clauses@)[i as int]);
                assert(atoms_view(clauses@).skip(i as int).drop_first() =~= atoms_view(
                    clauses@,
                ).skip(i + 1));
                assert(goal_models(sub_goals@) =~= pre_g.push(g@));
                assert(build_goal(clauses@[i as int]@, data_build_state(pre_d, pre_v)) == (
                    data_build_state(*data, variables@),
                    g@,
                ));
                lemma_prefix_trans(d1.constant_names@, pre_d.constant_names@, data.constant_names@);
                lemma_prefix_trans(
                    d1.variable_names@,
                    pre_d.variable_names@,
                    data.variable_names@,
                );
                lemma_prefix_trans(
                    d1.relation_names@,
                    pre_d.relation_names@,
                    data.relation_names@,
                );
                lemma_prefix_trans(v1, pre_v, variables@);
                assert forall|j: int| 0 <= j < sub_goals@.len() implies (
                #[trigger] goal_models(sub_goals@)[j]).wf(
                    data.rels().len() as nat,
                    data.nconsts(),
                    variables@.len(),
                ) by {
                    if j < pre_g.len() {
                        assert(goal_models(sub_goals@)[j] == pre_g[j]);
                        lemma_goal_wf_monotone(
                            pre_g[j],
                            pre_d.rels().len() as nat,
                            pre_d.nconsts(),
                            pre_v.len(),
                            data.rels().len() as nat,
                            data.nconsts(),
                            variables@.len(),
                        );
                    }
                }
            }
        }
        proof {
            assert(atoms_view(clauses@).skip(n as int) =~= Seq::<AtomView>::empty());
        }
        let q = Query { sub_goals, variables };
        q
    }

    /// The slot assignment of the query's variables.
    pub fn variables(&self) -> (r: &Binding)
        ensures
            r@ == self@.vars,
    {
        &self.variables
    }

    /// The full set of satisfying value assignments: every candidate
    /// binding under which all goals hold, in enumeration order, each
    /// exactly once.
    pub fn bindings(&self, data: &DataSet) -> (r: Vec<Binding>)
        requires
            self@.wf(data.relations@.len() as nat, data.nconsts(), data.variable_names@.len()),
        ensures
            forall|i: int|
                0 <= i < r@.len() ==> candidate(
                    #[trigger] bindings_view(r@)[i],
                    self@.vars.len(),
                    data.nconsts(),
                ) && all_hold(self@.body, bindings_view(r@)[i], data.rels()),
            forall|b: Seq<usize>|
                #[trigger] candidate(b, self@.vars.len(), data.nconsts()) && all_hold(
                    self@.body,
                    b,
                    data.rels(),
                ) ==> bindings_view(r@).contains(b),
            forall|i: int, j: int|
                0 <= i < j < r@.len() ==> radix_val(
                    seq_int(bindings_view(r@)[i]),
                    data.nconsts() as int,
                ) < radix_val(seq_int(bindings_view(r@)[j]), data.nconsts() as int),
            bindings_view(r@).no_duplicates(),
    {
        proof {
            assert forall|i: int|
                0 <= i < goal_models(self.sub_goals@).len() implies (#[trigger] goal_models(
                self.sub_goals@,
            )[i]).wf(data.relations@.len() as nat, data.nconsts(), self.variables@.len()) by {
                assert(self@.body[i].wf(
                    data.relations@.len() as nat,
                    data.nconsts(),
                    self@.vars.len(),
                ));
            }
        }
        satisfying_bindings(&self.sub_goals, &self.variables, data)
    }
}

/// The satisfying value assignments of a goal conjunction: every candidate
/// binding under which all goals hold, in enumeration order, each exactly
/// once.
pub fn satisfying_bindings(sub_goals: &Vec<Goal>, variables: &Binding, data: &DataSet) -> (r: Vec<
    Binding,
>)
    requires
        forall|i: int|
            0 <= i < goal_models(sub_goals@).len() ==> (#[trigger] goal_models(sub_goals@)[i]).wf(
                data.relations@.len() as nat,
                data.nconsts(),
                variables@.len(),
            ),
    ensures
        forall|i: int|
            0 <= i < r@.len() ==> candidate(
                #[trigger] bindings_view(r@)[i],
                variables@.len(),
                data.nconsts(),
            ) && all_hold(goal_models(sub_goals@), bindings_view(r@)[i], data.rels()),
        forall|b: Seq<usize>|
            #[trigger] candidate(b, variables@.len(), data.nconsts()) && all_hold(
                goal_models(sub_goals@),
                b,
                data.rels(),
            ) ==> bindings_view(r@).contains(b),
        forall|i: int, j: int|
            0 <= i < j < r@.len() ==> radix_val(
                seq_int(bindings_view(r@)[i]),
                data.nconsts() as int,
            ) < radix_val(seq_int(bindings_view(r@)[j]), data.nconsts() as int),
        bindings_view(r@).no_duplicates(),
{
    let ghost nv = variables@.len();
    let ghost nc = data.nconsts();
    proof {
        assert(goals_fit(sub_goals@, data.relations@.len() as nat, nv)) by {
            assert(forall|i: int|
                0 <= i < sub_goals@.len() ==> goal_models(sub_goals@)[i] == (
                #[trigger] sub_goals@[i])@);
        }
    }
    let mut result: Vec<Binding> = Vec::new();
    let mut counter = Counter::new(variables.len(), data.constants_count());
    proof {
        assert forall|b: Seq<usize>|
            #[trigger] candidate(b, nv, nc) && all_hold(goal_models(sub_goals@), b, data.rels())
                && radix_val(seq_int(b), nc as int) < counter.emitted() implies bindings_view(
            result@,
        ).contains(b) by {
            lemma_candidate_digits(b, nv, nc);
        }
    }
    while !counter.is_empty()
        invariant
            counter.wf(),
            counter.length as nat == nv,
            counter.max as nat == nc,
            nv == variables@.len(),
            nc == data.nconsts(),
            forall|ii: int|
                0 <= ii < goal_models(sub_goals@).len() ==> (#[trigger] goal_models(
                    sub_goals@,
                )[ii]).wf(data.relations@.len() as nat, data.nconsts(), variables@.len()),
            goals_fit(sub_goals@, data.relations@.len() as nat, nv),
            forall|i: int|
                0 <= i < result@.len() ==> candidate(
                    #[trigger] bindings_view(result@)[i],
                    nv,
                    nc,
                ) && all_hold(goal_models(sub_goals@), bindings_view(result@)[i], data.rels()) && radix_val(
                    seq_int(bindings_view(result@)[i]),
                    nc as int,
                ) < counter.emitted(),
            forall|b: Seq<usize>|
                #[trigger] candidate(b, nv, nc) && all_hold(goal_models(sub_goals@), b, data.rels())
                    && radix_val(seq_int(b), nc as int) < counter.emitted()
                    ==> bindings_view(result@).contains(b),
            forall|i: int, j: int|
                0 <= i < j < result@.len() ==> radix_val(
                    seq_int(bindings_view(result@)[i]),
                    nc as int,
                ) < radix_val(seq_int(bindings_view(result@)[j]), nc as int),
        decreases counter.total() - counter.emitted(),
    {
        let ghost k = counter.emitted();
        let ghost res0 = bindings_view(result@);
        proof {
            assert(k < counter_total(nv, nc));
            assert(nv > 0 && nc > 0);
            lemma_pow_positive(nc as int, nv);
            assert(k < pow(nc as int, nv));
        }
        let next = counter.next();
        match next {
            Some(values) => {
                proof {
                    lemma_cand_vec_props(k as int, nv, nc as int);
                }
                let binding = Binding::from_values(values);
                proof {
                    assert(seq_int(binding@) == cand_vec(k as int, nv, nc as int));
                    assert(seq_int(binding@).len() == binding@.len());
                    assert(candidate(binding@, nv, nc)) by {
                        assert(forall|i: int|
                            0 <= i < binding@.len() ==> seq_int(binding@)[i] == (
                            #[trigger] binding@[i]) as int);
                    }
                    assert(radix_val(seq_int(binding@), nc as int) == k);
                }
                let sat = satisfies_all(&binding, sub_goals, data);
                if sat {
                    let ghost bv = binding@;
                    result.push(binding);
                    proof {
                        assert(bindings_view(result@) =~= res0.push(bv));
                        assert(forall|i: int|
                            0 <= i < res0.len() ==> bindings_view(result@)[i] == res0[i]);
                        assert(bindings_view(result@).last() == bv);
                    }
                }
                proof {
                    assert forall|x: Seq<usize>| res0.contains(x) implies bindings_view(
                        result@,
                    ).contains(x) by {
                        let j = choose|j: int| 0 <= j < res0.len() && res0[j] == x;
                        assert(bindings_view(result@)[j] == x);
                    }
                    assert forall|b: Seq<usize>|
                        #[trigger] candidate(b, nv, nc) && all_hold(goal_models(sub_goals@), b, data.rels())
                            && radix_val(seq_int(b), nc as int) < counter.emitted()
                            implies bindings_view(result@).contains(b) by {
                        lemma_candidate_digits(b, nv, nc);
                        let vb = radix_val(seq_int(b), nc as int);
                        if vb == k {
                            assert(cand_vec(vb, nv, nc as int) == seq_int(b));
                            assert(seq_int(b) == seq_int(binding@));
                            lemma_digits_injective(b, binding@);
                            assert(sat);
                            assert(bindings_view(result@).last() == b);
                        } else {
                            assert(vb < k);
                            assert(res0.contains(b));
                        }
                    }
                }
            }
            None => {
                proof {
                    assert(false);
                }
            }
        }
    }
    proof {
        assert forall|b: Seq<usize>|
            #[trigger] candidate(b, nv, nc) && all_hold(goal_models(sub_goals@), b, data.rels())
                implies bindings_view(result@).contains(b) by {
            lemma_candidate_digits(b, nv, nc);
        }
        assert(bindings_view(result@).no_duplicates()) by {
            assert forall|i: int, j: int|
                0 <= i < j < bindings_view(result@).len() implies bindings_view(result@)[i]
                != bindings_view(result@)[j] by {
                assert(radix_val(seq_int(bindings_view(result@)[i]), nc as int) < radix_val(
                    seq_int(bindings_view(result@)[j]),
                    nc as int,
                ));
            }
        }
    }
    result
}

} // verus!
