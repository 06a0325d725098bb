//! A goal: one relation reference with a fixed list of terms.  Against a
//! value binding it grounds to a tuple, and holds when that tuple is among
//! the relation's facts.

use vstd::prelude::*;

use crate::ast;
use crate::ast::{AtomView, TermView};
use crate::binding::Binding;
use crate::data_set::fixpoint::{lemma_prefix_refl, lemma_prefix_trans};
use crate::data_set::{DataSet, Term, Tuple, rel_bounded, tuple_bounded};
use crate::intern::{first_index, found, interned, lemma_first_index};

verus! {

/// A relation id applied to resolved terms.
#[derive(Debug)]
pub struct Goal {
    pub relation: usize,
    pub terms: Vec<Term>,
}

/// The mathematical shape of a [`Goal`].
pub ghost struct GoalModel {
    pub rel: int,
    pub terms: Seq<Term>,
}

impl View for Goal {
    type V = GoalModel;

    open spec fn view(&self) -> GoalModel {
        GoalModel { rel: self.relation as int, terms: self.terms@ }
    }
}

/// The value a term takes under a binding: its constant id, or the value of
/// its variable's slot.
pub open spec fn term_val(t: Term, b: Seq<usize>) -> usize {
    match t {
        Term::Constant(c) => c,
        Term::Variable(v) => b[v as int],
    }
}

/// The grounding of a term list under a binding.
pub open spec fn tuple_of(terms: Seq<Term>, b: Seq<usize>) -> Seq<usize> {
    Seq::new(terms.len(), |i: int| term_val(terms[i], b))
}

impl GoalModel {
    /// Every variable slot is below `nvars`, every constant id below
    /// `nconsts`, and the relation id below `nrels`.
    pub open spec fn wf(self, nrels: nat, nconsts: nat, nvars: nat) -> bool {
        &&& 0 <= self.rel < nrels
        &&& forall|i: int|
            0 <= i < self.terms.len() ==> match #[trigger] self.terms[i] {
                Term::Constant(c) => (c as nat) < nconsts,
                Term::Variable(v) => (v as nat) < nvars,
            }
    }
}

/// Does this goal's grounding hold among the given relation contents?
pub open spec fn goal_holds(g: GoalModel, b: Seq<usize>, rels: Seq<Seq<Seq<usize>>>) -> bool {
    rels[g.rel].contains(tuple_of(g.terms, b))
}

/// A grounding of well-formed terms under a bounded binding is bounded.
pub proof fn lemma_tuple_of_bounded(g: GoalModel, b: Seq<usize>, nrels: nat, nconsts: nat)
    requires
        g.wf(nrels, nconsts, b.len()),
        forall|i: int| 0 <= i < b.len() ==> (#[trigger] b[i] as nat) < nconsts,
    ensures
        tuple_bounded(tuple_of(g.terms, b), nconsts),
{
    let t = tuple_of(g.terms, b);
    assert forall|i: int| 0 <= i < t.len() implies (#[trigger] t[i] as nat) < nconsts by {
        assert(t[i] == term_val(g.terms[i], b));
    }
}

/// A goal stays well formed when the pools only grow.
pub proof fn lemma_goal_wf_monotone(
    g: GoalModel,
    nrels1: nat,
    nc1: nat,
    nv1: nat,
    nrels2: nat,
    nc2: nat,
    nv2: nat,
)
    requires
        g.wf(nrels1, nc1, nv1),
        nrels1 <= nrels2,
        nc1 <= nc2,
        nv1 <= nv2,
    ensures
        g.wf(nrels2, nc2, nv2),
{
    assert forall|i: int| 0 <= i < g.terms.len() implies match #[trigger] g.terms[i] {
        Term::Constant(c) => (c as nat) < nc2,
        Term::Variable(v) => (v as nat) < nv2,
    } by {
        assert(match g.terms[i] {
            Term::Constant(c) => (c as nat) < nc1,
            Term::Variable(v) => (v as nat) < nv1,
        });
    }
}

/// The pools and slot assignment a goal is resolved against.
pub ghost struct BuildState {
    pub rel_names: Seq<Seq<char>>,
    pub rels: Seq<Seq<Seq<usize>>>,
    pub consts: Seq<Seq<char>>,
    pub var_names: Seq<Seq<char>>,
    pub vars: Seq<usize>,
}

/// Resolving one term: a constant name is interned into the constant pool;
/// a variable name is interned into the variable-name pool and its name id
/// then interned into the slot assignment.
pub open spec fn build_term(
    t: TermView,
    consts: Seq<Seq<char>>,
    var_names: Seq<Seq<char>>,
    vars: Seq<usize>,
) -> (Seq<Seq<char>>, Seq<Seq<char>>, Seq<usize>, Term) {
    match t {
        TermView::Const(c) => (
            interned(consts, c),
            var_names,
            vars,
            Term::Constant(first_index(consts, c) as usize),
        ),
        TermView::Var(v) => {
            let vid = first_index(var_names, v) as usize;
            (
                consts,
                interned(var_names, v),
                interned(vars, vid),
                Term::Variable(first_index(vars, vid as usize) as usize),
            )
        },
    }
}

/// Resolving a term list, left to right.
pub open spec fn build_terms(
    ts: Seq<TermView>,
    consts: Seq<Seq<char>>,
    var_names: Seq<Seq<char>>,
    vars: Seq<usize>,
    acc: Seq<Term>,
) -> (Seq<Seq<char>>, Seq<Seq<char>>, Seq<usize>, Seq<Term>)
    decreases ts.len(),
{
    if ts.len() == 0 {
        (consts, var_names, vars, acc)
    } else {
        let (c2, vn2, vs2, t) = build_term(ts[0], consts, var_names, vars);
        build_terms(ts.drop_first(), c2, vn2, vs2, acc.push(t))
    }
}

/// Resolving a whole atom: its relation name is declared, then its terms
/// resolved in order.
pub open spec fn build_goal(a: AtomView, st: BuildState) -> (BuildState, GoalModel) {
    let rel = first_index(st.rel_names, a.rel);
    let rel_names2 = interned(st.rel_names, a.rel);
    let rels2 = if found(st.rel_names, a.rel) {
        st.rels
    } else {
        st.rels.push(Seq::empty())
    };
    let (c2, vn2, vs2, ts) = build_terms(a.terms, st.consts, st.var_names, st.vars, Seq::empty());
    (
        BuildState { rel_names: rel_names2, rels: rels2, consts: c2, var_names: vn2, vars: vs2 },
        GoalModel { rel, terms: ts },
    )
}

/// Resolving a list of atoms, left to right.
pub open spec fn build_goals(atoms: Seq<AtomView>, st: BuildState, acc: Seq<GoalModel>) -> (
    BuildState,
    Seq<GoalModel>,
)
    decreases atoms.len(),
{
    if atoms.len() == 0 {
        (st, acc)
    } else {
        let (st2, g) = build_goal(atoms[0], st);
        build_goals(atoms.drop_first(), st2, acc.push(g))
    }
}

/// The build state a data set and a slot assignment present.
pub open spec fn data_build_state(d: DataSet, vars: Seq<usize>) -> BuildState {
    BuildState {
        rel_names: d.relation_names@,
        rels: d.rels(),
        consts: d.constant_names@,
        var_names: d.variable_names@,
        vars,
    }
}

impl Goal {
    /// Resolves an atom against the pools: the relation name is declared,
    /// each constant name is interned, and each variable name gets the slot
    /// held for it in `variables`, a fresh one on first sight.
    pub fn new(atom: &ast::Atom, variables: &mut Binding, data: &mut DataSet) -> (g: Goal)
        requires
            old(data).wf(),
        ensures
            final(data).wf(),
            (data_build_state(*final(data), final(variables)@), g@) == build_goal(
                atom@,
                data_build_state(*old(data), old(variables)@),
            ),
            final(data).rules == old(data).rules,
            final(data).last_len == old(data).last_len,
            old(data).constant_names@.is_prefix_of(final(data).constant_names@),
            old(data).variable_names@.is_prefix_of(final(data).variable_names@),
            old(data).relation_names@.is_prefix_of(final(data).relation_names@),
            old(data).rels().len() <= final(data).rels().len(),
            forall|r: int|
                0 <= r < old(data).rels().len() ==> final(data).rels()[r] == #[trigger] old(
                    data,
                ).rels()[r],
            old(variables)@.is_prefix_of(final(variables)@),
            g@.wf(final(data).rels().len() as nat, final(data).nconsts(), final(variables)@.len()),
            old(variables)@.no_duplicates() ==> final(variables)@.no_duplicates(),
            (forall|i: int|
                0 <= i < old(variables)@.len() ==> (#[trigger] old(variables)@[i] as nat) < old(
                    data,
                ).variable_names@.len()) ==> forall|i: int|
                0 <= i < final(variables)@.len() ==> (#[trigger] final(variables)@[i] as nat)
                    < final(data).variable_names@.len(),
    {
        let ghost o_data = *old(data);
        let ghost o_vars = old(variables)@;
        let relation = data.declare_relation(atom.0.0.as_str());
        let ghost d1 = *data;
        let n = atom.1.len();
        let mut terms: Vec<Term> = Vec::new();
        proof {
            assert(atom@.terms =~= atom@.terms.skip(0));
            assert(terms@ =~= Seq::<Term>::empty());
            lemma_prefix_refl(data.constant_names@);
            lemma_prefix_refl(data.variable_names@);
            lemma_prefix_refl(variables@);
        }
        for i in 0..n
            invariant
                n == atom.1@.len(),
                atom@.terms.len() == n,
                data.wf(),
                d1.wf(),
                data.relation_names == d1.relation_names,
                data.relations == d1.relations,
                data.rules == d1.rules,
                data.last_len == d1.last_len,
                d1.constant_names@.is_prefix_of(data.constant_names@),
                d1.variable_names@.is_prefix_of(data.variable_names@),
                o_vars.is_prefix_of(variables@),
                build_terms(
                    atom@.terms.skip(i as int),
                    data.constant_names@,
                    data.variable_names@,
                    variables@,
                    terms@,
                ) == build_terms(
                    atom@.terms,
                    d1.constant_names@,
                    d1.variable_names@,
                    o_vars,
                    Seq::<Term>::empty(),
                ),
                forall|j: int|
                    0 <= j < terms@.len() ==> match #[trigger] terms@[j] {
                        Term::Constant(c) => (c as nat) < data.nconsts(),
                        Term::Variable(v) => (v as nat) < variables@.len(),
                    },
                o_vars.no_duplicates() ==> variables@.no_duplicates(),
                (forall|k: int|
                    0 <= k < o_vars.len() ==> (#[trigger] o_vars[k] as nat)
                        < d1.variable_names@.len()) ==> forall|k: int|
                    0 <= k < variables@.len() ==> (#[trigger] variables@[k] as nat)
                        < data.variable_names@.len(),
        {
            let ghost pre_c = data.constant_names@;
            let ghost pre_vn = data.variable_names@;
            let ghost pre_v = variables@;
            let ghost pre_t = terms@;
            match &atom.1[i] {
                ast::Term::Const(c) => {
                    let id = data.constant_names.add_name(c.0.as_str());
                    terms.push(Term::Constant(id));
                    proof {
                        assert(atom@.terms[i as int] == TermView::Const(c.0@));
                    }
                },
                ast::Term::Var(v) => {
                    let vid = data.variable_names.add_name(v.0.as_str());
                    let slot = variables.insert(vid);
                    terms.push(Term::Variable(slot));
                    proof {
                        assert(atom@.terms[i as int] == TermView::Var(v.0@));
                        if o_vars.no_duplicates() {
                            assert(pre_v.no_duplicates());
                            if !found(pre_v, vid) {
                                lemma_first_index(pre_v, vid);
                                assert(variables@ =~= pre_v.push(vid));
                                assert forall|a: int, b: int|
                                    0 <= a < b < variables@.len() implies variables@[a]
                                    != variables@[b] by {
                                    if b < pre_v.len() {
                                        assert(variables@[a] == pre_v[a]);
                                        assert(variables@[b] == pre_v[b]);
                                    } else {
                                        assert(variables@[b] == vid);
                                        assert(variables@[a] == pre_v[a]);
                                    }
                                }
                            }
                        }
                    }
                },
            }
            proof {
                assert(atom@.terms.skip(i as int)[0] == atom@.terms[i as int]);
                assert(atom@.terms.skip(i as int).drop_first() =~= atom@.terms.skip(i + 1));
                assert(build_terms(
                    atom@.terms.skip(i as int),
                    pre_c,
                    pre_vn,
                    pre_v,
                    pre_t,
                ) == build_terms(
                    atom@.terms.skip(i + 1),
                    data.constant_names@,
                    data.variable_names@,
                    variables@,
                    terms@,
                )) by {
                    assert(build_term(atom@.terms[i as int], pre_c, pre_vn, pre_v) == (
                        data.constant_names@,
                        data.variable_names@,
                        variables@,
                        terms@.last(),
                    ));
                    assert(terms@ =~= pre_t.push(terms@.last()));
                }
                lemma_prefix_trans(
                    d1.constant_names@,
                    pre_c,
                    data.constant_names@,
                );
                lemma_prefix_trans(
                    d1.variable_names@,
                    pre_vn,
                    data.variable_names@,
                );
                lemma_prefix_trans(o_vars, pre_v, variables@);
                lemma_wf_interned_pools(d1, *data);
            }
        }
        proof {
            assert(atom@.terms.skip(n as int) =~= Seq::<TermView>::empty());
        }
        let g = Goal { relation, terms };
        proof {
            assert(g@.wf(
                data.rels().len() as nat,
                data.nconsts(),
                variables@.len(),
            )) by {
                assert((relation as nat) < d1.rels().len());
            }
        }
        g
    }

    /// Do all this goal's variable slots fit the binding?
    pub open spec fn fits(&self, nvars: nat) -> bool {
        forall|i: int|
            0 <= i < self.terms@.len() ==> match #[trigger] self.terms@[i] {
                Term::Constant(_) => true,
                Term::Variable(v) => (v as nat) < nvars,
            }
    }

    /// Ground this goal's terms with the binding: each constant keeps its
    /// id, each variable takes its slot's value.
    pub fn make_tuple(&self, binding: &Binding) -> (r: Tuple)
        requires
            self.fits(binding@.len()),
        ensures
            r@ == tuple_of(self@.terms, binding@),
    {
        let mut elements: Vec<usize> = Vec::new();
        let n = self.terms.len();
        for i in 0..n
            invariant
                n == self.terms@.len(),
                self.fits(binding@.len()),
                elements@.len() == i,
                forall|j: int| 0 <= j < i ==> elements@[j] == term_val(self.terms@[j], binding@),
        {
            let e = match self.terms[i] {
                Term::Constant(c) => c,
                Term::Variable(v) => binding.get(v),
            };
            elements.push(e);
        }
        let r = Tuple(elements);
        proof {
            assert(r@ =~= tuple_of(self@.terms, binding@));
        }
        r
    }

    /// Does the grounding of this goal under `binding` hold in `data`?
    pub fn is_satisfied_by(&self, binding: &Binding, data: &DataSet) -> (r: bool)
        requires
            self.fits(binding@.len()),
            (self.relation as nat) < data.relations@.len(),
        ensures
            r == goal_holds(self@, binding@, data.rels()),
    {
        let tuple = self.make_tuple(binding);
        let r = data.relations[self.relation].contains(&tuple);
        proof {
            assert(data.rels()[self.relation as int] == data.relations@[self.relation as int]@);
        }
        r
    }
}

/// A data set whose name pools were only extended, everything else equal,
/// is still well formed.
pub proof fn lemma_wf_interned_pools(pre: DataSet, post: DataSet)
    requires
        pre.wf(),
        post.relation_names == pre.relation_names,
        post.relations == pre.relations,
        post.rules == pre.rules,
        post.constant_names.wf(),
        post.variable_names.wf(),
        pre.constant_names@.is_prefix_of(post.constant_names@),
        pre.variable_names@.is_prefix_of(post.variable_names@),
    ensures
        post.wf(),
{
    assert(pre.nconsts() <= post.nconsts());
    assert forall|i: int| 0 <= i < post.relations@.len() implies rel_bounded(
        #[trigger] post.relations@[i]@,
        post.nconsts(),
    ) by {
        assert(rel_bounded(pre.relations@[i]@, pre.nconsts()));
        assert forall|j: int|
            0 <= j < post.relations@[i]@.len() implies tuple_bounded(
            #[trigger] post.relations@[i]@[j],
            post.nconsts(),
        ) by {
            assert(tuple_bounded(pre.relations@[i]@[j], pre.nconsts()));
        }
    }
    assert forall|i: int| 0 <= i < post.rules@.len() implies (#[trigger] post.rules@[i])@.wf(
        post.relations@.len() as nat,
        post.nconsts(),
        post.variable_names@.len(),
    ) by {
        let rm = post.rules@[i]@;
        assert(rm.wf(pre.relations@.len() as nat, pre.nconsts(), pre.variable_names@.len()));
        lemma_goal_wf_monotone(
            rm.head,
            pre.relations@.len() as nat,
            pre.nconsts(),
            rm.vars.len(),
            post.relations@.len() as nat,
            post.nconsts(),
            rm.vars.len(),
        );
        assert forall|k: int| 0 <= k < rm.body.len() implies (#[trigger] rm.body[k]).wf(
            post.relations@.len() as nat,
            post.nconsts(),
            rm.vars.len(),
        ) by {
            lemma_goal_wf_monotone(
                rm.body[k],
                pre.relations@.len() as nat,
                pre.nconsts(),
                rm.vars.len(),
                post.relations@.len() as nat,
                post.nconsts(),
                rm.vars.len(),
            );
        }
        assert forall|k: int| 0 <= k < rm.vars.len() implies (#[trigger] rm.vars[k] as nat)
            < post.variable_names@.len() by {
            assert((rm.vars[k] as nat) < pre.variable_names@.len());
        }
    }
}

} // verus!
