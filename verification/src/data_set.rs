//! The data set: the pools of interned names, the relations (deduplicating
//! stores of tuples), and the rules, together with ingestion, fixpoint
//! iteration and query answering.

use vstd::prelude::*;
use vstd::relations::sorted_by;
use vstd::seq_lib::lemma_sorted_unique;

use crate::ast;
use crate::ast::{FactView, RuleView, StatementView};
use crate::intern::{first_index, found, interned};
use crate::name_pool::NamePool;
use crate::order::{lemma_sorted_insert, lemma_tuple_order_total, tuple_le, tuple_le_exec,
    tuple_order};

pub mod answer;
pub mod fixpoint;
pub mod goal;
pub mod query;
pub mod rule;

use self::answer::{Answer, answer_of, answers_view, lemma_answer_of_injective};
use self::fixpoint::{all_hold_in, appended_witness, capacity, closed, family_contains, family_le,
    lemma_contains_prefix,
    goal_holds_in, in_lfp, lemma_all_hold_in_family, lemma_family_cap, lemma_prefix_refl,
    lemma_prefix_snoc, lemma_prefix_subset_eq, lemma_prefix_trans, lemma_sum_facts_grow,
    rels_as_sets};
use self::goal::{BuildState, GoalModel, build_goal, build_goals, data_build_state, goal_holds,
    lemma_tuple_of_bounded, tuple_of};
use self::query::{Query, all_hold, bindings_view};
use self::rule::{Rule, RuleModel, candidate, derives};

verus! {

/// A ground tuple: the constant ids a relation holds, in argument order.
///
/// Arity is never validated: two tuples of different lengths may sit in one
/// relation.  That permissiveness is deliberate and kept; tuples compare as
/// whole value sequences.
#[derive(Debug, Clone, PartialEq, Eq)]
pub struct Tuple(pub Vec<usize>);

impl View for Tuple {
    type V = Seq<usize>;

    open spec fn view(&self) -> Seq<usize> {
        self.0@
    }
}

/// One argument position of a goal, resolved at construction time: either a
/// constant id or a variable slot local to the enclosing rule or query.
#[derive(Debug, Clone, Copy, PartialEq, Eq)]
pub enum Term {
    Constant(usize),
    Variable(usize),
}

/// The views of a sequence of tuples.
pub open spec fn tuples_view(s: Seq<Tuple>) -> Seq<Seq<usize>> {
    s.map_values(|t: Tuple| t@)
}

/// Every element of the tuple is a known constant id.
pub open spec fn tuple_bounded(t: Seq<usize>, nconsts: nat) -> bool {
    forall|i: int| 0 <= i < t.len() ==> (#[trigger] t[i] as nat) < nconsts
}

/// Every tuple of the relation is bounded by the constant pool.
pub open spec fn rel_bounded(r: Seq<Seq<usize>>, nconsts: nat) -> bool {
    forall|j: int| 0 <= j < r.len() ==> tuple_bounded(#[trigger] r[j], nconsts)
}

/// Do two tuples hold the same elements?
pub fn tuple_eq(a: &Tuple, b: &Tuple) -> (r: bool)
    ensures
        r == (a@ == b@),
{
    if a.0.len() != b.0.len() {
        return false;
    }
    let n = a.0.len();
    for i in 0..n
        invariant
            n == a@.len(),
            n == b@.len(),
            forall|j: int| 0 <= j < i ==> a@[j] == b@[j],
    {
        if a.0[i] != b.0[i] {
            return false;
        }
    }
    proof {
        assert(a@ =~= b@);
    }
    true
}

/// A relation: a deduplicating store of tuples, kept in first-insertion
/// order.
#[derive(Debug)]
pub struct Relation {
    pub tuples: Vec<Tuple>,
}

impl View for Relation {
    type V = Seq<Seq<usize>>;

    open spec fn view(&self) -> Seq<Seq<usize>> {
        tuples_view(self.tuples@)
    }
}

impl Relation {
    /// No tuple occurs twice.
    pub open spec fn wf(&self) -> bool {
        self@.no_duplicates()
    }

    pub fn new() -> (r: Relation)
        ensures
            r@ == Seq::<Seq<usize>>::empty(),
            r.wf(),
    {
        let r = Relation { tuples: Vec::new() };
        proof {
            assert(r@ =~= Seq::<Seq<usize>>::empty());
        }
        r
    }

    /// The number of (distinct) tuples held.
    pub fn len(&self) -> (r: usize)
        ensures
            r == self@.len(),
    {
        self.tuples.len()
    }

    /// Is this tuple among the facts of the relation?
    pub fn contains(&self, t: &Tuple) -> (r: bool)
        ensures
            r == self@.contains(t@),
    {
        let n = self.tuples.len();
        for i in 0..n
            invariant
                n == self@.len(),
                forall|j: int| 0 <= j < i ==> self@[j] != t@,
        {
            if tuple_eq(&self.tuples[i], t) {
                proof {
                    assert(self@[i as int] == t@);
                }
                return true;
            }
        }
        proof {
            if self@.contains(t@) {
                let j = choose|j: int| 0 <= j < self@.len() && self@[j] == t@;
                assert(false);
            }
        }
        false
    }

    /// Add a tuple unless it is already present.
    pub fn insert(&mut self, t: Tuple) -> (added: bool)
        requires
            old(self).wf(),
        ensures
            final(self).wf(),
            added == !old(self)@.contains(t@),
            final(self)@ == if old(self)@.contains(t@) {
                old(self)@
            } else {
                old(self)@.push(t@)
            },
            old(self)@.is_prefix_of(final(self)@),
    {
        if self.contains(&t) {
            return false;
        }
        self.tuples.push(t);
        proof {
            assert(self@ =~= old(self)@.push(self.tuples@.last()@));
        }
        true
    }
}

/// How many facts a family of relations holds in all.
pub open spec fn sum_facts(rels: Seq<Seq<Seq<usize>>>) -> nat
    decreases rels.len(),
{
    if rels.len() == 0 {
        0
    } else {
        sum_facts(rels.drop_last()) + rels.last().len()
    }
}

/// A count clipped to what a `usize` can hold.
pub open spec fn sat_of(n: nat) -> nat {
    if n > usize::MAX as nat {
        usize::MAX as nat
    } else {
        n
    }
}

/// The engine state a program is ingested into, as one mathematical value
/// (the fixpoint bookkeeping aside).
pub ghost struct EngineModel {
    pub rel_names: Seq<Seq<char>>,
    pub consts: Seq<Seq<char>>,
    pub var_names: Seq<Seq<char>>,
    pub rules: Seq<RuleModel>,
    pub rels: Seq<Seq<Seq<usize>>>,
}

/// Interning a fact's constant names, left to right.
pub open spec fn build_consts(cs: Seq<Seq<char>>, consts: Seq<Seq<char>>, acc: Seq<usize>) -> (
    Seq<Seq<char>>,
    Seq<usize>,
)
    decreases cs.len(),
{
    if cs.len() == 0 {
        (consts, acc)
    } else {
        build_consts(
            cs.drop_first(),
            interned(consts, cs[0]),
            acc.push(first_index(consts, cs[0]) as usize),
        )
    }
}

/// Ingesting one fact: its constants interned, its relation declared, and
/// its tuple added to that relation unless already present.
pub open spec fn fact_ingested(m: EngineModel, f: FactView) -> EngineModel {
    let (consts2, t) = build_consts(f.consts, m.consts, Seq::empty());
    let rel = first_index(m.rel_names, f.rel);
    let rel_names2 = interned(m.rel_names, f.rel);
    let rels1 = if found(m.rel_names, f.rel) {
        m.rels
    } else {
        m.rels.push(Seq::empty())
    };
    let rels2 = if rels1[rel].contains(t) {
        rels1
    } else {
        rels1.update(rel, rels1[rel].push(t))
    };
    EngineModel {
        rel_names: rel_names2,
        consts: consts2,
        var_names: m.var_names,
        rules: m.rules,
        rels: rels2,
    }
}

/// Ingesting one rule: resolved against the pools and appended to the rule
/// list.
pub open spec fn rule_ingested(m: EngineModel, r: RuleView) -> EngineModel {
    let st0 = BuildState {
        rel_names: m.rel_names,
        rels: m.rels,
        consts: m.consts,
        var_names: m.var_names,
        vars: Seq::empty(),
    };
    let (st1, h) = build_goal(r.head, st0);
    let (st2, gs) = build_goals(r.body, st1, Seq::empty());
    EngineModel {
        rel_names: st2.rel_names,
        consts: st2.consts,
        var_names: st2.var_names,
        rules: m.rules.push(RuleModel { head: h, body: gs, vars: st2.vars }),
        rels: st2.rels,
    }
}

pub open spec fn statement_ingested(m: EngineModel, s: StatementView) -> EngineModel {
    match s {
        StatementView::Fact(f) => fact_ingested(m, f),
        StatementView::Rule(r) => rule_ingested(m, r),
    }
}

/// Ingesting a whole program, statement by statement.
pub open spec fn program_ingested(m: EngineModel, stmts: Seq<StatementView>) -> EngineModel
    decreases stmts.len(),
{
    if stmts.len() == 0 {
        m
    } else {
        program_ingested(statement_ingested(m, stmts[0]), stmts.drop_first())
    }
}

/// Some satisfying assignment renders to this answer.
pub open spec fn answer_witnessed(
    a: Seq<(Seq<char>, Seq<char>)>,
    body: Seq<GoalModel>,
    vars: Seq<usize>,
    rels: Seq<Seq<Seq<usize>>>,
    nconsts: nat,
    var_names: Seq<Seq<char>>,
    const_names: Seq<Seq<char>>,
) -> bool {
    exists|b: Seq<usize>|
        #[trigger] candidate(b, vars.len(), nconsts) && all_hold(body, b, rels) && a == answer_of(
            b,
            vars,
            var_names,
            const_names,
        )
}

/// The answers are exactly the satisfying assignments, rendered as name
/// pairs: every answer has a satisfying witness, every satisfying
/// assignment is answered, and no answer repeats.
pub open spec fn answers_match(
    ans: Seq<Seq<(Seq<char>, Seq<char>)>>,
    body: Seq<GoalModel>,
    vars: Seq<usize>,
    rels: Seq<Seq<Seq<usize>>>,
    nconsts: nat,
    var_names: Seq<Seq<char>>,
    const_names: Seq<Seq<char>>,
) -> bool {
    &&& forall|i: int|
        0 <= i < ans.len() ==> answer_witnessed(
            #[trigger] ans[i],
            body,
            vars,
            rels,
            nconsts,
            var_names,
            const_names,
        )
    &&& forall|b: Seq<usize>|
        #[trigger] candidate(b, vars.len(), nconsts) && all_hold(body, b, rels) ==> ans.contains(
            answer_of(b, vars, var_names, const_names),
        )
    &&& ans.no_duplicates()
}

/// The engine state: three independent name pools, the rules in declaration
/// order, and one relation per interned relation name.
#[derive(Debug)]
pub struct DataSet {
    /// The total fact count as of the last fixpoint check.
    pub last_len: usize,
    /// The names of all the relations in this data set.
    pub relation_names: NamePool,
    /// The names of all the constant values in this data set.
    pub constant_names: NamePool,
    /// The names of variables seen in rules and queries.
    pub variable_names: NamePool,
    /// The deduction rules, in declaration order.
    pub rules: Vec<Rule>,
    /// The relation contents; index `i` belongs to relation name id `i`.
    pub relations: Vec<Relation>,
}

impl DataSet {
    /// The relation contents, as sequences of tuples.
    pub open spec fn rels(&self) -> Seq<Seq<Seq<usize>>> {
        self.relations@.map_values(|r: Relation| r@)
    }

    /// The number of interned constants.
    pub open spec fn nconsts(&self) -> nat {
        self.constant_names@.len()
    }

    /// The rules, as mathematical values.
    pub open spec fn rule_models(&self) -> Seq<RuleModel> {
        self.rules@.map_values(|r: Rule| r@)
    }

    /// The exact number of facts over all relations.
    pub open spec fn fact_count(&self) -> nat {
        sum_facts(self.rels())
    }

    /// The fact count as [`DataSet::len`] reports it: clipped to `usize`.
    pub open spec fn sat_count(&self) -> nat {
        sat_of(self.fact_count())
    }

    /// All derived facts have been counted: the fixpoint loop would stop
    /// here.
    pub open spec fn saturated(&self) -> bool {
        self.last_len as nat == self.sat_count()
    }

    /// The whole engine state as one mathematical value.
    pub open spec fn model(&self) -> EngineModel {
        EngineModel {
            rel_names: self.relation_names@,
            consts: self.constant_names@,
            var_names: self.variable_names@,
            rules: self.rule_models(),
            rels: self.rels(),
        }
    }

    pub open spec fn wf(&self) -> bool {
        &&& self.relation_names.wf()
        &&& self.constant_names.wf()
        &&& self.variable_names.wf()
        &&& self.relations@.len() == self.relation_names@.len()
        &&& forall|i: int| 0 <= i < self.relations@.len() ==> (#[trigger] self.relations@[i]).wf()
        &&& forall|i: int|
            0 <= i < self.relations@.len() ==> rel_bounded(
                #[trigger] self.relations@[i]@,
                self.nconsts(),
            )
        &&& forall|i: int|
            0 <= i < self.rules@.len() ==> (#[trigger] self.rules@[i])@.wf(
                self.relations@.len() as nat,
                self.nconsts(),
                self.variable_names@.len(),
            )
    }

    pub fn new() -> (r: DataSet)
        ensures
            r.wf(),
            r.last_len == 0,
            r.relation_names@ == Seq::<Seq<char>>::empty(),
            r.constant_names@ == Seq::<Seq<char>>::empty(),
            r.variable_names@ == Seq::<Seq<char>>::empty(),
            r.rule_models() == Seq::<RuleModel>::empty(),
            r.rels() == Seq::<Seq<Seq<usize>>>::empty(),
    {
        let r = DataSet {
            last_len: 0,
            relation_names: NamePool::new(),
            constant_names: NamePool::new(),
            variable_names: NamePool::new(),
            rules: Vec::new(),
            relations: Vec::new(),
        };
        proof {
            assert(r.rule_models() =~= Seq::<RuleModel>::empty());
            assert(r.rels() =~= Seq::<Seq<Seq<usize>>>::empty());
        }
        r
    }

    /// The number of facts currently known, clipped to `usize::MAX`.
    pub fn len(&self) -> (r: usize)
        ensures
            r as nat == self.sat_count(),
    {
        let mut total: usize = 0;
        let n = self.relations.len();
        for i in 0..n
            invariant
                n == self.relations@.len(),
                total as nat == sat_of(sum_facts(self.rels().take(i as int))),
        {
            let l = self.relations[i].len();
            proof {
                assert(self.rels().take(i + 1).drop_last() =~= self.rels().take(i as int));
                assert(self.rels().take(i + 1).last() == self.rels()[i as int]);
            }
            if total > usize::MAX - l {
                total = usize::MAX;
            } else {
                total = total + l;
            }
        }
        proof {
            assert(self.rels().take(self.rels().len() as int) =~= self.rels());
        }
        total
    }

    /// Is this data set empty of facts?
    pub fn is_empty(&self) -> (r: bool)
        ensures
            r == (self.fact_count() == 0),
    {
        self.len() == 0
    }

    /// True while there may be rules not fully expanded yet.
    pub fn is_dirty(&self) -> (r: bool)
        ensures
            r == !self.saturated(),
    {
        self.last_len != self.len()
    }

    /// The number of constant names in this data set.
    pub fn constants_count(&self) -> (r: usize)
        ensures
            r as nat == self.nconsts(),
    {
        self.constant_names.len()
    }

    /// Makes sure some relation name exists in the data set, interning the
    /// name and adding an empty relation for it if it is new.
    pub fn declare_relation(&mut self, name: &str) -> (rel: usize)
        requires
            old(self).wf(),
        ensures
            final(self).wf(),
            rel as int == crate::intern::first_index(old(self).relation_names@, name@),
            final(self).relation_names@ == crate::intern::interned(
                old(self).relation_names@,
                name@,
            ),
            final(self).rels() == if crate::intern::found(old(self).relation_names@, name@) {
                old(self).rels()
            } else {
                old(self).rels().push(Seq::empty())
            },
            (rel as nat) < final(self).rels().len(),
            final(self).constant_names == old(self).constant_names,
            final(self).variable_names == old(self).variable_names,
            final(self).rules == old(self).rules,
            final(self).last_len == old(self).last_len,
            old(self).relation_names@.is_prefix_of(final(self).relation_names@),
            forall|r: int|
                0 <= r < old(self).rels().len() ==> final(self).rels()[r] == #[trigger] old(
                    self,
                ).rels()[r],
    {
        let rel = self.relation_names.add_name(name);
        let ghost pre = *self;
        if rel == self.relations.len() {
            self.relations.push(Relation::new());
            proof {
                assert(self.rels() =~= pre.rels().push(Seq::empty()));
            }
        }
        proof {
            crate::intern::lemma_first_index(old(self).relation_names@, name@);
            if crate::intern::found(old(self).relation_names@, name@) {
                assert(rel < old(self).relations@.len());
                assert(self.rels() == pre.rels());
            } else {
                assert(rel == old(self).relation_names@.len());
            }
            assert(self.wf()) by {
                assert forall|i: int| 0 <= i < self.relations@.len() implies (
                #[trigger] self.relations@[i]).wf() && rel_bounded(
                    self.relations@[i]@,
                    self.nconsts(),
                ) by {
                    if i < pre.relations@.len() {
                        assert(self.relations@[i] == old(self).relations@[i]);
                    }
                }
                assert forall|i: int| 0 <= i < self.rules@.len() implies (
                #[trigger] self.rules@[i])@.wf(
                    self.relations@.len() as nat,
                    self.nconsts(),
                    self.variable_names@.len(),
                ) by {
                    let rm = self.rules@[i]@;
                    assert(rm.wf(
                        old(self).relations@.len() as nat,
                        old(self).nconsts(),
                        old(self).variable_names@.len(),
                    ));
                    goal::lemma_goal_wf_monotone(
                        rm.head,
                        old(self).relations@.len() as nat,
                        old(self).nconsts(),
                        rm.vars.len(),
                        self.relations@.len() as nat,
                        self.nconsts(),
                        rm.vars.len(),
                    );
                    assert forall|k: int| 0 <= k < rm.body.len() implies (
                    #[trigger] rm.body[k]).wf(
                        self.relations@.len() as nat,
                        self.nconsts(),
                        rm.vars.len(),
                    ) by {
                        goal::lemma_goal_wf_monotone(
                            rm.body[k],
                            old(self).relations@.len() as nat,
                            old(self).nconsts(),
                            rm.vars.len(),
                            self.relations@.len() as nat,
                            self.nconsts(),
                            rm.vars.len(),
                        );
                    }
                }
            }
        }
        rel
    }

    /// Takes a step in the fact-expanding loop: applies every rule once, in
    /// declaration order, unioning each rule's derivations into its head
    /// relation before the next rule runs.  A rule later in the order can
    /// thus see facts derived earlier in the same pass.
    pub fn step(&mut self)
        requires
            old(self).wf(),
        ensures
            final(self).wf(),
            final(self).last_len == old(self).last_len,
            final(self).relation_names == old(self).relation_names,
            final(self).constant_names == old(self).constant_names,
            final(self).variable_names == old(self).variable_names,
            final(self).rules == old(self).rules,
            final(self).rels().len() == old(self).rels().len(),
            forall|r: int|
                0 <= r < old(self).rels().len() ==> (#[trigger] old(self).rels()[r]).is_prefix_of(
                    final(self).rels()[r],
                ),
            forall|r: int, j: int|
                0 <= r < final(self).rels().len() && old(self).rels()[r].len() <= j
                    < final(self).rels()[r].len() ==> appended_witness(
                    #[trigger] final(self).rels()[r][j],
                    r,
                    final(self).rule_models(),
                    final(self).nconsts(),
                ),
            forall|ri: int, b: Seq<usize>|
                0 <= ri < old(self).rule_models().len() && #[trigger] derives(
                    old(self).rule_models()[ri],
                    b,
                    old(self).rels(),
                    old(self).nconsts(),
                ) ==> final(self).rels()[old(self).rule_models()[ri].head.rel].contains(
                    tuple_of(old(self).rule_models()[ri].head.terms, b),
                ),
            forall|fam: Seq<Set<Seq<usize>>>|
                #[trigger] closed(old(self).rule_models(), fam, old(self).nconsts()) && family_le(
                    rels_as_sets(old(self).rels()),
                    fam,
                ) ==> family_le(rels_as_sets(final(self).rels()), fam),
            final(self).fact_count() == old(self).fact_count() ==> final(self).rels()
                == old(self).rels() && closed(
                final(self).rule_models(),
                rels_as_sets(final(self).rels()),
                final(self).nconsts(),
            ),
    {
        let n = self.rules.len();
        proof {
            assert forall|r: int| 0 <= r < old(self).rels().len() implies (
            #[trigger] old(self).rels()[r]).is_prefix_of(self.rels()[r]) by {
                lemma_prefix_refl(old(self).rels()[r]);
            }
        }
        for i in 0..n
            invariant
                n == self.rules@.len(),
                self.wf(),
                old(self).wf(),
                self.last_len == old(self).last_len,
                self.relation_names == old(self).relation_names,
                self.constant_names == old(self).constant_names,
                self.variable_names == old(self).variable_names,
                self.rules == old(self).rules,
                self.rels().len() == old(self).rels().len(),
                forall|r: int|
                    0 <= r < old(self).rels().len() ==> (
                    #[trigger] old(self).rels()[r]).is_prefix_of(self.rels()[r]),
                forall|r: int, j: int|
                    0 <= r < self.rels().len() && old(self).rels()[r].len() <= j < self.rels()[r].len()
                        ==> appended_witness(
                        #[trigger] self.rels()[r][j],
                        r,
                        self.rule_models(),
                        self.nconsts(),
                    ),
                forall|ri: int, b: Seq<usize>|
                    0 <= ri < i && #[trigger] derives(
                        old(self).rule_models()[ri],
                        b,
                        old(self).rels(),
                        old(self).nconsts(),
                    ) ==> self.rels()[old(self).rule_models()[ri].head.rel].contains(
                        tuple_of(old(self).rule_models()[ri].head.terms, b),
                    ),
                forall|fam: Seq<Set<Seq<usize>>>|
                    #[trigger] closed(old(self).rule_models(), fam, old(self).nconsts())
                        && family_le(rels_as_sets(old(self).rels()), fam) ==> family_le(
                        rels_as_sets(self.rels()),
                        fam,
                    ),
                self.rels() == old(self).rels() ==> forall|ri: int, b: Seq<usize>|
                    0 <= ri < i && #[trigger] derives(
                        self.rule_models()[ri],
                        b,
                        self.rels(),
                        self.nconsts(),
                    ) ==> self.rels()[self.rule_models()[ri].head.rel].contains(
                        tuple_of(self.rule_models()[ri].head.terms, b),
                    ),
        {
            let new_facts = self.rules[i].step(self);
            let rel = self.rules[i].relation();
            let ghost mid = *self;
            proof {
                assert(mid.rule_models()[i as int] == self.rules@[i as int]@);
                assert((rel as nat) < mid.rels().len());
                assert forall|r: int| 0 <= r < mid.rels().len() implies (
                #[trigger] mid.rels()[r]).is_prefix_of(self.rels()[r]) by {
                    lemma_prefix_refl(mid.rels()[r]);
                }
            }
            let m = new_facts.len();
            for j in 0..m
                invariant
                    m == new_facts@.len(),
                    (rel as int) == mid.rule_models()[i as int].head.rel,
                    0 <= i < mid.rule_models().len(),
                    mid.rule_models() == self.rule_models(),
                    self.wf(),
                    mid.wf(),
                    old(self).wf(),
                    mid.rules == old(self).rules,
                    mid.rels().len() == old(self).rels().len(),
                    self.last_len == mid.last_len,
                    self.relation_names == mid.relation_names,
                    self.constant_names == mid.constant_names,
                    self.variable_names == mid.variable_names,
                    self.rules == mid.rules,
                    self.rels().len() == mid.rels().len(),
                    tuples_view(new_facts@).no_duplicates(),
                    forall|t: Seq<usize>|
                        #[trigger] tuples_view(new_facts@).contains(t) <==> exists|b: Seq<usize>|
                            #[trigger] derives(
                                mid.rule_models()[i as int],
                                b,
                                mid.rels(),
                                mid.nconsts(),
                            ) && t == tuple_of(mid.rule_models()[i as int].head.terms, b),
                    forall|r: int|
                        0 <= r < mid.rels().len() ==> (#[trigger] mid.rels()[r]).is_prefix_of(
                            self.rels()[r],
                        ),
                    forall|r: int|
                        0 <= r < mid.rels().len() && r != rel as int ==> mid.rels()[r]
                            == #[trigger] self.rels()[r],
                    forall|jj: int|
                        mid.rels()[rel as int].len() <= jj < self.rels()[rel as int].len()
                            ==> tuples_view(new_facts@).contains(
                            #[trigger] self.rels()[rel as int][jj],
                        ),
                    self.rels() == mid.rels() ==> forall|jj: int|
                        0 <= jj < j ==> mid.rels()[rel as int].contains(
                            #[trigger] tuples_view(new_facts@)[jj],
                        ),
                    forall|jj: int|
                        0 <= jj < j ==> self.rels()[rel as int].contains(
                            #[trigger] tuples_view(new_facts@)[jj],
                        ),
                    forall|ri: int, b: Seq<usize>|
                        0 <= ri < i && #[trigger] derives(
                            old(self).rule_models()[ri],
                            b,
                            old(self).rels(),
                            old(self).nconsts(),
                        ) ==> self.rels()[old(self).rule_models()[ri].head.rel].contains(
                            tuple_of(old(self).rule_models()[ri].head.terms, b),
                        ),
                    forall|fam: Seq<Set<Seq<usize>>>|
                        #[trigger] closed(mid.rule_models(), fam, mid.nconsts()) && family_le(
                            rels_as_sets(mid.rels()),
                            fam,
                        ) ==> family_le(rels_as_sets(self.rels()), fam),
            {
                let t = copy_tuple(&new_facts[j]);
                let ghost rm = mid.rule_models()[i as int];
                proof {
                    assert(tuples_view(new_facts@)[j as int] == t@);
                    assert(tuples_view(new_facts@).contains(t@));
                }
                let ghost b0 = choose|b: Seq<usize>|
                    #[trigger] derives(rm, b, mid.rels(), mid.nconsts()) && t@ == tuple_of(
                        rm.head.terms,
                        b,
                    );
                proof {
                    assert(rm.wf(mid.rels().len() as nat, mid.nconsts(), mid.variable_names@.len()));
                    assert(b0.len() == rm.vars.len());
                    lemma_tuple_of_bounded(rm.head, b0, mid.rels().len() as nat, mid.nconsts());
                    assert(tuple_bounded(t@, mid.nconsts()));
                }
                let ghost pre = *self;
                let added = self.relations[rel].insert(t);
                proof {
                    assert(self.rels() =~= pre.rels().update(
                        rel as int,
                        self.relations@[rel as int]@,
                    ));
                    if added {
                        assert(self.rels()[rel as int] =~= pre.rels()[rel as int].push(t@));
                    } else {
                        assert(self.rels() =~= pre.rels());
                    }
                    assert forall|r: int| 0 <= r < mid.rels().len() implies (
                    #[trigger] mid.rels()[r]).is_prefix_of(self.rels()[r]) by {
                        if r == rel as int {
                            if added {
                                lemma_prefix_snoc(mid.rels()[r], pre.rels()[r], t@);
                            }
                        }
                    }
                    assert(self.wf()) by {
                        assert forall|r: int|
                            0 <= r < self.relations@.len() implies rel_bounded(
                            #[trigger] self.relations@[r]@,
                            self.nconsts(),
                        ) && (self.relations@[r]).wf() by {
                            assert(rel_bounded(pre.relations@[r]@, pre.nconsts()));
                            assert((pre.relations@[r]).wf());
                            if r == rel as int && added {
                                assert(self.relations@[r]@ =~= pre.relations@[r]@.push(t@));
                                assert forall|jj: int|
                                    0 <= jj < self.relations@[r]@.len() implies tuple_bounded(
                                    #[trigger] self.relations@[r]@[jj],
                                    self.nconsts(),
                                ) by {
                                    if jj < pre.relations@[r]@.len() {
                                        assert(self.relations@[r]@[jj] == pre.relations@[r]@[jj]);
                                    }
                                }
                            } else {
                                assert(self.relations@[r]@ == pre.relations@[r]@);
                            }
                        }
                    }
                    assert forall|jj: int|
                        mid.rels()[rel as int].len() <= jj < self.rels()[rel as int].len()
                            implies tuples_view(new_facts@).contains(
                        #[trigger] self.rels()[rel as int][jj],
                    ) by {
                        if jj < pre.rels()[rel as int].len() {
                            assert(self.rels()[rel as int][jj] == pre.rels()[rel as int][jj]);
                        } else {
                            assert(self.rels()[rel as int][jj] == t@);
                        }
                    }
                    assert forall|r: int| 0 <= r < pre.rels().len() implies (
                    #[trigger] pre.rels()[r]).is_prefix_of(self.rels()[r]) by {
                        lemma_prefix_refl(pre.rels()[r]);
                        if r == rel as int && added {
                            lemma_prefix_snoc(pre.rels()[r], pre.rels()[r], t@);
                        }
                    }
                    assert forall|jj: int| 0 <= jj < j + 1 implies self.rels()[rel as int].contains(
                        #[trigger] tuples_view(new_facts@)[jj],
                    ) by {
                        if jj == j {
                            if added {
                                assert(self.rels()[rel as int].last() == t@);
                            } else {
                                assert(pre.rels()[rel as int].contains(t@));
                                lemma_contains_prefix(
                                    pre.rels()[rel as int],
                                    self.rels()[rel as int],
                                    t@,
                                );
                            }
                        } else {
                            assert(pre.rels()[rel as int].contains(tuples_view(new_facts@)[jj]));
                            lemma_contains_prefix(
                                pre.rels()[rel as int],
                                self.rels()[rel as int],
                                tuples_view(new_facts@)[jj],
                            );
                        }
                    }
                    assert forall|ri: int, b: Seq<usize>|
                        0 <= ri < i && #[trigger] derives(
                            old(self).rule_models()[ri],
                            b,
                            old(self).rels(),
                            old(self).nconsts(),
                        ) implies self.rels()[old(self).rule_models()[ri].head.rel].contains(
                        tuple_of(old(self).rule_models()[ri].head.terms, b),
                    ) by {
                        let orm = old(self).rule_models()[ri];
                        assert(orm == old(self).rules@[ri]@);
                        assert(old(self).rules@[ri]@.wf(
                            old(self).relations@.len() as nat,
                            old(self).nconsts(),
                            old(self).variable_names@.len(),
                        ));
                        assert(0 <= orm.head.rel < pre.rels().len());
                        assert(pre.rels()[orm.head.rel].contains(tuple_of(orm.head.terms, b)));
                        lemma_contains_prefix(
                            pre.rels()[orm.head.rel],
                            self.rels()[orm.head.rel],
                            tuple_of(orm.head.terms, b),
                        );
                    }
                    if self.rels() == mid.rels() {
                        assert(pre.rels() =~= mid.rels()) by {
                            assert forall|r: int| 0 <= r < pre.rels().len() implies pre.rels()[r]
                                == mid.rels()[r] by {
                                if r == rel as int {
                                    assert(mid.rels()[r].is_prefix_of(pre.rels()[r]));
                                    assert(pre.rels()[r].is_prefix_of(self.rels()[r]));
                                    assert(self.rels()[r] == mid.rels()[r]);
                                    assert(pre.rels()[r].len() == mid.rels()[r].len());
                                    assert(pre.rels()[r] =~= mid.rels()[r]);
                                }
                            }
                        }
                        assert(!added);
                        assert(mid.rels()[rel as int].contains(t@));
                        assert forall|jj: int| 0 <= jj < j + 1 implies mid.rels()[rel as int].contains(
                            #[trigger] tuples_view(new_facts@)[jj],
                        ) by {
                            if jj < j {
                                assert(pre.rels() == mid.rels());
                            }
                        }
                    }
                    assert forall|fam: Seq<Set<Seq<usize>>>|
                        #[trigger] closed(mid.rule_models(), fam, mid.nconsts()) && family_le(
                            rels_as_sets(mid.rels()),
                            fam,
                        ) implies family_le(rels_as_sets(self.rels()), fam) by {
                        assert(family_le(rels_as_sets(pre.rels()), fam));
                        if added {
                            assert(all_hold(rm.body, b0, mid.rels()));
                            lemma_all_hold_in_family(rm.body, b0, mid.rels(), fam);
                            assert(candidate(b0, rm.vars.len(), mid.nconsts()));
                            assert(family_contains(fam, rm.head.rel, t@));
                            assert forall|r: int|
                                0 <= r < rels_as_sets(self.rels()).len() implies (
                            #[trigger] rels_as_sets(self.rels())[r]).subset_of(fam[r]) by {
                                assert(rels_as_sets(self.rels())[r] == self.rels()[r].to_set());
                                assert(rels_as_sets(pre.rels())[r] == pre.rels()[r].to_set());
                                assert(rels_as_sets(pre.rels())[r].subset_of(fam[r]));
                                assert forall|x: Seq<usize>|
                                    self.rels()[r].to_set().contains(x) implies fam[r].contains(
                                    x,
                                ) by {
                                    assert(self.rels()[r].contains(x));
                                    let jj = choose|jj: int|
                                        0 <= jj < self.rels()[r].len() && self.rels()[r][jj] == x;
                                    if r == rel as int && jj == pre.rels()[r].len() {
                                        assert(x == t@);
                                    } else {
                                        assert(pre.rels()[r][jj] == x);
                                        assert(pre.rels()[r].to_set().contains(x));
                                    }
                                }
                            }
                        } else {
                            assert(self.rels() == pre.rels());
                        }
                    }
                }
            }
            proof {
                assert forall|r: int| 0 <= r < old(self).rels().len() implies (
                #[trigger] old(self).rels()[r]).is_prefix_of(self.rels()[r]) by {
                    lemma_prefix_trans(old(self).rels()[r], mid.rels()[r], self.rels()[r]);
                }
                assert forall|r: int, j: int|
                    0 <= r < self.rels().len() && old(self).rels()[r].len() <= j < self.rels()[r].len()
                        implies appended_witness(
                    #[trigger] self.rels()[r][j],
                    r,
                    self.rule_models(),
                    self.nconsts(),
                ) by {
                    if j < mid.rels()[r].len() {
                        assert(mid.rels()[r][j] == self.rels()[r][j]);
                        assert(appended_witness(
                            mid.rels()[r][j],
                            r,
                            mid.rule_models(),
                            mid.nconsts(),
                        ));
                    } else {
                        assert(r == rel as int);
                        let t = self.rels()[r][j];
                        assert(tuples_view(new_facts@).contains(t));
                        let rm = mid.rule_models()[i as int];
                        let b = choose|b: Seq<usize>|
                            #[trigger] derives(rm, b, mid.rels(), mid.nconsts()) && t == tuple_of(
                                rm.head.terms,
                                b,
                            );
                        assert(candidate(b, rm.vars.len(), mid.nconsts()));
                        assert(0 <= i < self.rule_models().len() && self.rule_models()[i as int].head.rel
                            == r && candidate(b, self.rule_models()[i as int].vars.len(), self.nconsts())
                            && t == tuple_of(self.rule_models()[i as int].head.terms, b));
                        assert(appended_witness(t, r, self.rule_models(), self.nconsts()));
                    }
                }
                assert forall|fam: Seq<Set<Seq<usize>>>|
                    #[trigger] closed(old(self).rule_models(), fam, old(self).nconsts())
                        && family_le(rels_as_sets(old(self).rels()), fam) implies family_le(
                    rels_as_sets(self.rels()),
                    fam,
                ) by {
                    assert(family_le(rels_as_sets(mid.rels()), fam));
                    assert(closed(mid.rule_models(), fam, mid.nconsts()));
                }
                assert forall|ri: int, b: Seq<usize>|
                    0 <= ri < i + 1 && #[trigger] derives(
                        old(self).rule_models()[ri],
                        b,
                        old(self).rels(),
                        old(self).nconsts(),
                    ) implies self.rels()[old(self).rule_models()[ri].head.rel].contains(
                    tuple_of(old(self).rule_models()[ri].head.terms, b),
                ) by {
                    if ri == i as int {
                        let orm = old(self).rule_models()[i as int];
                        assert(orm == old(self).rules@[i as int]@);
                        assert(mid.rules == old(self).rules);
                        assert(orm == mid.rule_models()[i as int]);
                        assert(old(self).rules@[i as int]@.wf(
                            old(self).relations@.len() as nat,
                            old(self).nconsts(),
                            old(self).variable_names@.len(),
                        ));
                        assert(all_hold(orm.body, b, old(self).rels()));
                        assert forall|gi: int| 0 <= gi < orm.body.len() implies 0 <= (
                        #[trigger] orm.body[gi]).rel < old(self).rels().len() by {
                            assert(orm.body[gi].wf(
                                old(self).relations@.len() as nat,
                                old(self).nconsts(),
                                orm.vars.len(),
                            ));
                        }
                        crate::data_set::fixpoint::lemma_all_hold_grow(
                            orm.body,
                            b,
                            old(self).rels(),
                            mid.rels(),
                        );
                        assert(mid.nconsts() == old(self).nconsts());
                        assert(derives(orm, b, mid.rels(), mid.nconsts()));
                        assert(tuples_view(new_facts@).contains(tuple_of(orm.head.terms, b)));
                        let jj = choose|jj: int|
                            0 <= jj < tuples_view(new_facts@).len() && tuples_view(new_facts@)[jj]
                                == tuple_of(orm.head.terms, b);
                        assert(self.rels()[rel as int].contains(tuples_view(new_facts@)[jj]));
                        assert((rel as int) == orm.head.rel);
                    }
                }
                if self.rels() == old(self).rels() {
                    assert(mid.rels() =~= old(self).rels()) by {
                        assert forall|r: int| 0 <= r < mid.rels().len() implies mid.rels()[r]
                            == old(self).rels()[r] by {
                            assert(old(self).rels()[r].is_prefix_of(mid.rels()[r]));
                            assert(mid.rels()[r].is_prefix_of(self.rels()[r]));
                            assert(self.rels()[r] == old(self).rels()[r]);
                            assert(mid.rels()[r] =~= old(self).rels()[r]);
                        }
                    }
                    assert forall|ri: int, b: Seq<usize>|
                        0 <= ri < i + 1 && #[trigger] derives(
                            self.rule_models()[ri],
                            b,
                            self.rels(),
                            self.nconsts(),
                        ) implies self.rels()[self.rule_models()[ri].head.rel].contains(
                        tuple_of(self.rule_models()[ri].head.terms, b),
                    ) by {
                        if ri == i as int {
                            let rm = mid.rule_models()[i as int];
                            assert(derives(rm, b, mid.rels(), mid.nconsts()));
                            assert(tuples_view(new_facts@).contains(tuple_of(rm.head.terms, b)));
                            let jj = choose|jj: int|
                                0 <= jj < tuples_view(new_facts@).len() && tuples_view(
                                    new_facts@,
                                )[jj] == tuple_of(rm.head.terms, b);
                            assert(mid.rels()[rel as int].contains(tuples_view(new_facts@)[jj]));
                        }
                    }
                }
            }
        }
        proof {
            if self.fact_count() == old(self).fact_count() {
                lemma_sum_facts_grow(old(self).rels(), self.rels());
                assert(self.rels() == old(self).rels());
                assert forall|ri: int, b: Seq<usize>|
                    0 <= ri < self.rule_models().len() && #[trigger] candidate(
                        b,
                        self.rule_models()[ri].vars.len(),
                        self.nconsts(),
                    ) && all_hold_in(
                        self.rule_models()[ri].body,
                        b,
                        rels_as_sets(self.rels()),
                    ) implies family_contains(
                    rels_as_sets(self.rels()),
                    self.rule_models()[ri].head.rel,
                    tuple_of(self.rule_models()[ri].head.terms, b),
                ) by {
                    let rm = self.rule_models()[ri];
                    assert(rm.wf(self.rels().len() as nat, self.nconsts(), self.variable_names@.len()));
                    assert(all_hold(rm.body, b, self.rels())) by {
                        assert forall|gi: int| 0 <= gi < rm.body.len() implies goal_holds(
                            #[trigger] rm.body[gi],
                            b,
                            self.rels(),
                        ) by {
                            assert(goal_holds_in(rm.body[gi], b, rels_as_sets(self.rels())));
                            assert(rels_as_sets(self.rels())[rm.body[gi].rel] == self.rels()[rm.body[gi].rel].to_set());
                        }
                    }
                    assert(derives(rm, b, self.rels(), self.nconsts()));
                    assert(self.rels()[rm.head.rel].contains(tuple_of(rm.head.terms, b)));
                    assert(rels_as_sets(self.rels())[rm.head.rel] == self.rels()[rm.head.rel].to_set());
                }
                assert(closed(
                    self.rule_models(),
                    rels_as_sets(self.rels()),
                    self.nconsts(),
                ));
            }
        }
    }

    /// Applies the known rules until there are no more facts to discover.
    ///
    /// Afterwards the fact base is saturated; unless the fact count has hit
    /// `usize::MAX` it is closed under every rule, and it never holds a
    /// fact beyond the least fixpoint of the rules over the facts it
    /// started from.  Relations only ever grow — the fact count at any
    /// relation never decreases — and a fact base that is already closed
    /// comes back with its relations unchanged, so running twice leaves
    /// the fact count where the first run put it.
    pub fn run(&mut self)
        requires
            old(self).wf(),
        ensures
            final(self).wf(),
            final(self).relation_names == old(self).relation_names,
            final(self).constant_names == old(self).constant_names,
            final(self).variable_names == old(self).variable_names,
            final(self).rules == old(self).rules,
            final(self).rels().len() == old(self).rels().len(),
            forall|r: int|
                0 <= r < old(self).rels().len() ==> (#[trigger] old(self).rels()[r]).is_prefix_of(
                    final(self).rels()[r],
                ),
            final(self).saturated(),
            final(self).fact_count() < usize::MAX as nat ==> closed(
                final(self).rule_models(),
                rels_as_sets(final(self).rels()),
                final(self).nconsts(),
            ),
            forall|r: int, j: int|
                0 <= r < final(self).rels().len() && 0 <= j < final(self).rels()[r].len()
                    ==> in_lfp(
                    #[trigger] final(self).rels()[r][j],
                    r,
                    rels_as_sets(old(self).rels()),
                    old(self).rule_models(),
                    old(self).nconsts(),
                ),
            closed(old(self).rule_models(), rels_as_sets(old(self).rels()), old(self).nconsts())
                ==> final(self).rels() == old(self).rels(),
    {
        let ghost o = *self;
        proof {
            assert forall|r: int| 0 <= r < o.rels().len() implies (
            #[trigger] o.rels()[r]).is_prefix_of(self.rels()[r]) by {
                lemma_prefix_refl(o.rels()[r]);
            }
            assert(family_le(rels_as_sets(o.rels()), rels_as_sets(o.rels()))) by {
                assert(forall|i: int|
                    0 <= i < rels_as_sets(o.rels()).len() ==> (
                    #[trigger] rels_as_sets(o.rels())[i]).subset_of(rels_as_sets(o.rels())[i]));
            }
        }
        loop
            invariant
                o.wf(),
                self.wf(),
                self.relation_names == o.relation_names,
                self.constant_names == o.constant_names,
                self.variable_names == o.variable_names,
                self.rules == o.rules,
                self.rels().len() == o.rels().len(),
                forall|r: int|
                    0 <= r < o.rels().len() ==> (#[trigger] o.rels()[r]).is_prefix_of(
                        self.rels()[r],
                    ),
                forall|r: int, j: int|
                    0 <= r < self.rels().len() && o.rels()[r].len() <= j < self.rels()[r].len()
                        ==> appended_witness(
                        #[trigger] self.rels()[r][j],
                        r,
                        self.rule_models(),
                        self.nconsts(),
                    ),
                forall|fam: Seq<Set<Seq<usize>>>|
                    #[trigger] closed(o.rule_models(), fam, o.nconsts()) && family_le(
                        rels_as_sets(o.rels()),
                        fam,
                    ) ==> family_le(rels_as_sets(self.rels()), fam),
                sum_facts(self.rels()) <= capacity(o.rels(), o.rule_models(), o.nconsts()),
                closed(o.rule_models(), rels_as_sets(o.rels()), o.nconsts()) ==> self.rels()
                    == o.rels(),
            ensures
                self.saturated(),
                self.fact_count() < usize::MAX as nat ==> closed(
                    self.rule_models(),
                    rels_as_sets(self.rels()),
                    self.nconsts(),
                ),
            decreases capacity(o.rels(), o.rule_models(), o.nconsts()) - self.fact_count(),
        {
            let l = self.len();
            self.last_len = l;
            let ghost p = *self;
            self.step();
            proof {
                assert(p.wf());
                lemma_chain_invariants(o, p, *self);
            }
            if !self.is_dirty() {
                proof {
                    if self.fact_count() < usize::MAX as nat {
                        assert(self.last_len as nat == sat_of(p.fact_count()));
                        assert(self.last_len as nat == sat_of(self.fact_count()));
                        assert(sat_of(self.fact_count()) == self.fact_count());
                        lemma_sum_facts_grow(p.rels(), self.rels());
                        assert(p.fact_count() <= self.fact_count());
                        assert(sat_of(p.fact_count()) <= p.fact_count());
                        assert(p.fact_count() == self.fact_count());
                    }
                }
                break;
            }
            proof {
                lemma_sum_facts_grow(p.rels(), self.rels());
                if p.fact_count() == self.fact_count() {
                    assert(sat_of(p.fact_count()) == sat_of(self.fact_count()));
                    assert(!self.saturated() == false);
                    assert(false);
                }
            }
        }
        proof {
            assert forall|r: int, j: int|
                0 <= r < self.rels().len() && 0 <= j < self.rels()[r].len() implies in_lfp(
                #[trigger] self.rels()[r][j],
                r,
                rels_as_sets(o.rels()),
                o.rule_models(),
                o.nconsts(),
            ) by {
                let t = self.rels()[r][j];
                assert forall|fam: Seq<Set<Seq<usize>>>|
                    family_le(rels_as_sets(o.rels()), fam) && #[trigger] closed(
                        o.rule_models(),
                        fam,
                        o.nconsts(),
                    ) implies family_contains(fam, r, t) by {
                    assert(family_le(rels_as_sets(self.rels()), fam));
                    assert(rels_as_sets(self.rels())[r] == self.rels()[r].to_set());
                    assert(self.rels()[r].contains(t));
                    assert(self.rels()[r].to_set().contains(t));
                    assert(rels_as_sets(self.rels())[r].subset_of(fam[r]));
                }
            }
        }
    }

    /// Interns a fact's constants, declares its relation, and inserts its
    /// tuple into that relation unless it is already there.
    fn fact(&mut self, fact: &ast::Fact)
        requires
            old(self).wf(),
        ensures
            final(self).wf(),
            final(self).model() == fact_ingested(old(self).model(), fact@),
            final(self).last_len == old(self).last_len,
    {
        let ghost o = *old(self);
        let n = fact.1.len();
        let mut elements: Vec<usize> = Vec::new();
        proof {
            assert(fact@.consts =~= fact@.consts.skip(0));
            assert(elements@ =~= Seq::<usize>::empty());
        }
        for i in 0..n
            invariant
                n == fact.1@.len(),
                fact@.consts.len() == n,
                self.wf(),
                o.wf(),
                self.relation_names == o.relation_names,
                self.variable_names == o.variable_names,
                self.relations == o.relations,
                self.rules == o.rules,
                self.last_len == o.last_len,
                o.constant_names@.is_prefix_of(self.constant_names@),
                build_consts(fact@.consts.skip(i as int), self.constant_names@, elements@)
                    == build_consts(fact@.consts, o.constant_names@, Seq::<usize>::empty()),
                forall|k: int|
                    0 <= k < elements@.len() ==> (#[trigger] elements@[k] as nat) < self.nconsts(),
        {
            let ghost pre_c = self.constant_names@;
            let ghost pre_e = elements@;
            let c = match &fact.1[i] {
                ast::Const(name) => name,
            };
            let id = self.constant_names.add_name(c.as_str());
            elements.push(id);
            proof {
                assert(fact@.consts[i as int] == fact.1@[i as int].0@);
                assert(fact@.consts.skip(i as int)[0] == fact@.consts[i as int]);
                assert(fact@.consts.skip(i as int).drop_first() =~= fact@.consts.skip(i + 1));
                assert(elements@ =~= pre_e.push(id));
                goal::lemma_wf_interned_pools(o, *self);
                crate::data_set::fixpoint::lemma_prefix_refl(self.variable_names@);
            }
        }
        proof {
            assert(fact@.consts.skip(n as int) =~= Seq::<Seq<char>>::empty());
        }
        let tuple = Tuple(elements);
        let ghost d1 = *self;
        let rel = self.declare_relation(fact.0.0.as_str());
        let ghost d2 = *self;
        let added = self.relations[rel].insert(tuple);
        proof {
            let t = build_consts(fact@.consts, o.constant_names@, Seq::<usize>::empty()).1;
            assert(self.rels() =~= d2.rels().update(rel as int, self.relations@[rel as int]@));
            if added {
                assert(self.rels()[rel as int] =~= d2.rels()[rel as int].push(t));
            } else {
                assert(self.rels() =~= d2.rels());
            }
            assert(self.wf()) by {
                assert forall|r: int|
                    0 <= r < self.relations@.len() implies (#[trigger] self.relations@[r]).wf()
                    && rel_bounded(self.relations@[r]@, self.nconsts()) by {
                    if r != rel as int {
                        assert(self.relations@[r] == d2.relations@[r]);
                    } else {
                        assert(tuple_bounded(t, d2.nconsts())) by {
                            assert(forall|k: int|
                                0 <= k < t.len() ==> (#[trigger] t[k] as nat) < d1.nconsts());
                        }
                        assert(rel_bounded(d2.relations@[r]@, d2.nconsts()));
                        assert forall|jj: int|
                            0 <= jj < self.relations@[r]@.len() implies tuple_bounded(
                            #[trigger] self.relations@[r]@[jj],
                            self.nconsts(),
                        ) by {
                            if jj < d2.relations@[r]@.len() {
                                assert(self.relations@[r]@[jj] == d2.relations@[r]@[jj]);
                            } else {
                                assert(self.relations@[r]@[jj] == t);
                            }
                        }
                    }
                }
            }
            assert(self.model() =~= fact_ingested(o.model(), fact@)) by {
                assert(self.rels() =~= fact_ingested(o.model(), fact@).rels);
            }
        }
    }

    /// Builds a rule against the current pools and appends it to the rule
    /// list, fixing the ids of every name it mentions.
    pub fn add_rule(&mut self, rule: &ast::Rule)
        requires
            old(self).wf(),
        ensures
            final(self).wf(),
            final(self).model() == rule_ingested(old(self).model(), rule@),
            final(self).last_len == old(self).last_len,
    {
        let ghost o = *old(self);
        let r = Rule::new(&rule.0, rule.1.as_slice(), self);
        let ghost d1 = *self;
        self.rules.push(r);
        proof {
            assert(self.rule_models() =~= d1.rule_models().push(r@));
            assert(self.wf()) by {
                assert forall|i: int| 0 <= i < self.rules@.len() implies (
                #[trigger] self.rules@[i])@.wf(
                    self.relations@.len() as nat,
                    self.nconsts(),
                    self.variable_names@.len(),
                ) by {
                    if i < d1.rules@.len() {
                        assert(self.rules@[i] == d1.rules@[i]);
                    }
                }
            }
            assert(self.model() =~= rule_ingested(o.model(), rule@));
        }
    }

    /// Add the facts and rules of a program into this data set, in order.
    pub fn program(&mut self, program: &ast::Program)
        requires
            old(self).wf(),
        ensures
            final(self).wf(),
            final(self).model() == program_ingested(old(self).model(), program@),
            final(self).last_len == old(self).last_len,
    {
        let ghost o = *old(self);
        let n = program.0.len();
        proof {
            assert(program@ =~= program@.skip(0));
        }
        for i in 0..n
            invariant
                n == program.0@.len(),
                program@.len() == n,
                self.wf(),
                self.last_len == o.last_len,
                program_ingested(self.model(), program@.skip(i as int)) == program_ingested(
                    o.model(),
                    program@,
                ),
        {
            let ghost pre = *self;
            match &program.0[i] {
                ast::Statement::Fact(f) => {
                    self.fact(f);
                    proof {
                        assert(program@[i as int] == StatementView::Fact(f@));
                    }
                },
                ast::Statement::Rule(r) => {
                    self.add_rule(r);
                    proof {
                        assert(program@[i as int] == StatementView::Rule(r@));
                    }
                },
            }
            proof {
                assert(program@.skip(i as int)[0] == program@[i as int]);
                assert(program@.skip(i as int).drop_first() =~= program@.skip(i + 1));
                assert(self.model() == statement_ingested(pre.model(), program@[i as int]));
            }
        }
        proof {
            assert(program@.skip(n as int) =~= Seq::<StatementView>::empty());
        }
    }

    /// The same as [`DataSet::program`], under the name some callers use.
    pub fn add_program(&mut self, program: &ast::Program)
        requires
            old(self).wf(),
        ensures
            final(self).wf(),
            final(self).model() == program_ingested(old(self).model(), program@),
            final(self).last_len == old(self).last_len,
    {
        self.program(program)
    }

    /// Maps every satisfying binding of the query to an answer, in the
    /// candidate-enumeration order the bindings come in.
    fn search(&self, query: &Query) -> (r: Vec<Answer>)
        requires
            self.wf(),
            query@.wf(self.relations@.len() as nat, self.nconsts(), self.variable_names@.len()),
        ensures
            answers_match(
                answers_view(r@),
                query@.body,
                query@.vars,
                self.rels(),
                self.nconsts(),
                self.variable_names@,
                self.constant_names@,
            ),
    {
        let bindings = query.bindings(self);
        let mut result: Vec<Answer> = Vec::new();
        let n = bindings.len();
        for i in 0..n
            invariant
                n == bindings@.len(),
                self.wf(),
                query@.wf(
                    self.relations@.len() as nat,
                    self.nconsts(),
                    self.variable_names@.len(),
                ),
                forall|k: int|
                    0 <= k < bindings@.len() ==> candidate(
                        #[trigger] bindings_view(bindings@)[k],
                        query@.vars.len(),
                        self.nconsts(),
                    ) && all_hold(query@.body, bindings_view(bindings@)[k], self.rels()),
                forall|b: Seq<usize>|
                    #[trigger] candidate(b, query@.vars.len(), self.nconsts()) && all_hold(
                        query@.body,
                        b,
                        self.rels(),
                    ) ==> bindings_view(bindings@).contains(b),
                bindings_view(bindings@).no_duplicates(),
                result@.len() == i,
                forall|k: int|
                    0 <= k < i ==> #[trigger] answers_view(result@)[k] == answer_of(
                        bindings_view(bindings@)[k],
                        query@.vars,
                        self.variable_names@,
                        self.constant_names@,
                    ),
        {
            proof {
                assert(bindings_view(bindings@)[i as int] == bindings@[i as int]@);
                assert(candidate(bindings@[i as int]@, query@.vars.len(), self.nconsts()));
            }
            let a = Answer::new(&bindings[i], query.variables(), self);
            let ghost pre = result@;
            result.push(a);
            proof {
                assert(answers_view(result@) =~= answers_view(pre).push(a@));
                assert forall|k: int| 0 <= k < i + 1 implies #[trigger] answers_view(result@)[k]
                    == answer_of(
                    bindings_view(bindings@)[k],
                    query@.vars,
                    self.variable_names@,
                    self.constant_names@,
                ) by {
                    if k < i {
                        assert(answers_view(result@)[k] == answers_view(pre)[k]);
                    } else {
                        assert(answers_view(result@)[k] == a@);
                    }
                }
            }
        }
        proof {
            assert forall|i: int|
                0 <= i < answers_view(result@).len() implies answer_witnessed(
                #[trigger] answers_view(result@)[i],
                query@.body,
                query@.vars,
                self.rels(),
                self.nconsts(),
                self.variable_names@,
                self.constant_names@,
            ) by {
                let b = bindings_view(bindings@)[i];
                assert(candidate(b, query@.vars.len(), self.nconsts()) && all_hold(
                    query@.body,
                    b,
                    self.rels(),
                ) && answers_view(result@)[i] == answer_of(
                    b,
                    query@.vars,
                    self.variable_names@,
                    self.constant_names@,
                ));
            }
            assert forall|b: Seq<usize>|
                #[trigger] candidate(b, query@.vars.len(), self.nconsts()) && all_hold(
                    query@.body,
                    b,
                    self.rels(),
                ) implies answers_view(result@).contains(
                answer_of(b, query@.vars, self.variable_names@, self.constant_names@),
            ) by {
                assert(bindings_view(bindings@).contains(b));
                let k = choose|k: int|
                    0 <= k < bindings_view(bindings@).len() && bindings_view(bindings@)[k] == b;
                assert(answers_view(result@)[k] == answer_of(
                    b,
                    query@.vars,
                    self.variable_names@,
                    self.constant_names@,
                ));
            }
            assert(answers_view(result@).no_duplicates()) by {
                assert forall|i: int, j: int|
                    0 <= i < j < answers_view(result@).len() implies answers_view(result@)[i]
                    != answers_view(result@)[j] by {
                    let b1 = bindings_view(bindings@)[i];
                    let b2 = bindings_view(bindings@)[j];
                    assert(b1 != b2);
                    assert(candidate(b1, query@.vars.len(), self.nconsts()));
                    assert(candidate(b2, query@.vars.len(), self.nconsts()));
                    lemma_answer_of_injective(
                        b1,
                        b2,
                        query@.vars,
                        self.variable_names@,
                        self.constant_names@,
                    );
                }
            }
            assert(answers_match(
                answers_view(result@),
                query@.body,
                query@.vars,
                self.rels(),
                self.nconsts(),
                self.variable_names@,
                self.constant_names@,
            ));
        }
        result
    }

    /// Builds a query against the current pools — which may intern new
    /// constant, variable and relation names — and returns its answers:
    /// one per satisfying assignment, deduplicated.
    ///
    /// The list comes in candidate-enumeration order of the underlying
    /// bindings (slot 0 fastest-varying; the order [`Query::bindings`]
    /// pins), a deliberate choice over sorting the answers by value; each
    /// answer renders its pairs in ascending name order.
    ///
    /// Querying does not saturate the fact base first: callers run the
    /// rules before querying or miss derivable facts.  An empty or
    /// unsatisfiable goal list yields an empty answer list.
    pub fn query(&mut self, query: &ast::Query) -> (r: Vec<Answer>)
        requires
            old(self).wf(),
        ensures
            final(self).wf(),
            final(self).rules == old(self).rules,
            final(self).last_len == old(self).last_len,
            ({
                let st0 = data_build_state(*old(self), Seq::empty());
                let (st2, gs) = build_goals(query@, st0, Seq::empty());
                &&& final(self).relation_names@ == st2.rel_names
                &&& final(self).rels() == st2.rels
                &&& final(self).constant_names@ == st2.consts
                &&& final(self).variable_names@ == st2.var_names
                &&& answers_match(
                    answers_view(r@),
                    gs,
                    st2.vars,
                    final(self).rels(),
                    final(self).nconsts(),
                    final(self).variable_names@,
                    final(self).constant_names@,
                )
                &&& (forall|b: Seq<usize>|
                    !(#[trigger] candidate(b, st2.vars.len(), final(self).nconsts()) && all_hold(
                        gs,
                        b,
                        final(self).rels(),
                    ))) ==> r@.len() == 0
            }),
            answers_view(r@).no_duplicates(),
            query@.len() == 0 ==> r@.len() == 0,
    {
        let q = Query::new(query.0.as_slice(), self);
        let r = self.search(&q);
        proof {
            let st0 = data_build_state(*old(self), Seq::empty());
            let (st2, gs) = build_goals(query@, st0, Seq::empty());
            assert(query@ == ast::atoms_view(query.0@));
            assert(data_build_state(*self, q@.vars) == st2);
            assert(st2.vars == q@.vars);
            assert(gs == q@.body);
            assert(answers_match(
                answers_view(r@),
                gs,
                st2.vars,
                self.rels(),
                self.nconsts(),
                self.variable_names@,
                self.constant_names@,
            ));
            if (forall|b: Seq<usize>|
                !(#[trigger] candidate(b, q@.vars.len(), self.nconsts()) && all_hold(
                    q@.body,
                    b,
                    self.rels(),
                ))) && r@.len() > 0 {
                assert(answers_view(r@).len() == r@.len());
                assert(answer_witnessed(
                    answers_view(r@)[0],
                    q@.body,
                    q@.vars,
                    self.rels(),
                    self.nconsts(),
                    self.variable_names@,
                    self.constant_names@,
                ));
                let b0 = choose|b: Seq<usize>|
                    #[trigger] candidate(b, q@.vars.len(), self.nconsts()) && all_hold(
                        q@.body,
                        b,
                        self.rels(),
                    ) && answers_view(r@)[0] == answer_of(
                        b,
                        q@.vars,
                        self.variable_names@,
                        self.constant_names@,
                    );
                assert(candidate(b0, q@.vars.len(), self.nconsts()) && all_hold(
                    q@.body,
                    b0,
                    self.rels(),
                ));
                assert(false);
            }
            if query@.len() == 0 {
                assert(query.0@.len() == 0);
                assert(q@.vars.len() == 0);
                if r@.len() > 0 {
                    assert(answers_view(r@).len() == r@.len());
                    assert(answer_witnessed(
                        answers_view(r@)[0],
                        q@.body,
                        q@.vars,
                        self.rels(),
                        self.nconsts(),
                        self.variable_names@,
                        self.constant_names@,
                    ));
                    let b = choose|b: Seq<usize>|
                        #[trigger] candidate(b, q@.vars.len(), self.nconsts()) && all_hold(
                            q@.body,
                            b,
                            self.rels(),
                        ) && answers_view(r@)[0] == answer_of(
                            b,
                            q@.vars,
                            self.variable_names@,
                            self.constant_names@,
                        );
                    assert(candidate(b, q@.vars.len(), self.nconsts()));
                    assert(false);
                }
            }
        }
        r
    }

    /// The whole fact base as text: for each relation in pool order, each
    /// tuple as `name(c1, c2).` on its own line, the tuples of a relation
    /// in ascending value order, as a set of tuples prints.
    pub fn render(&self) -> (r: String)
        requires
            self.wf(),
        ensures
            r@ == render_rels(
                self.relation_names@,
                sorted_rels(self.rels()),
                self.constant_names@,
                0,
            ),
    {
        let ghost leq = tuple_order();
        let mut out = String::new();
        let nr = self.relations.len();
        proof {
            assert(sorted_rels(self.rels()).len() == self.rels().len());
            assert(out@ + render_rels(
                self.relation_names@,
                sorted_rels(self.rels()),
                self.constant_names@,
                0,
            ) =~= render_rels(
                self.relation_names@,
                sorted_rels(self.rels()),
                self.constant_names@,
                0,
            ));
        }
        for rel in 0..nr
            invariant
                nr == self.relations@.len(),
                self.wf(),
                leq == tuple_order(),
                out@ + render_rels(
                    self.relation_names@,
                    sorted_rels(self.rels()),
                    self.constant_names@,
                    rel as int,
                ) == render_rels(
                    self.relation_names@,
                    sorted_rels(self.rels()),
                    self.constant_names@,
                    0,
                ),
        {
            let ghost rel_start = out@;
            let ghost name = self.relation_names@[rel as int];
            let ghost orig = self.rels()[rel as int];
            proof {
                lemma_tuple_order_total();
                broadcast use vstd::seq_lib::group_to_multiset_ensures;

                assert(orig.take(0) =~= Seq::<Seq<usize>>::empty());
            }
            let mut in_order: Vec<Tuple> = Vec::new();
            proof {
                assert(tuples_view(in_order@) =~= Seq::<Seq<usize>>::empty());
                assert(tuples_view(in_order@).to_multiset() =~= orig.take(0).to_multiset());
            }
            let nt0 = self.relations[rel].tuples.len();
            for j in 0..nt0
                invariant
                    nr == self.relations@.len(),
                    rel < nr,
                    self.wf(),
                    leq == tuple_order(),
                    orig == self.rels()[rel as int],
                    nt0 == self.relations@[rel as int].tuples@.len(),
                    nt0 == orig.len(),
                    sorted_by(tuples_view(in_order@), leq),
                    tuples_view(in_order@).to_multiset() == orig.take(j as int).to_multiset(),
                    forall|k: int|
                        0 <= k < tuples_view(in_order@).len() ==> tuple_bounded(
                            #[trigger] tuples_view(in_order@)[k],
                            self.nconsts(),
                        ),
            {
                proof {
                    lemma_tuple_order_total();
                    assert(rel_bounded(self.rels()[rel as int], self.nconsts()));
                    assert(tuple_bounded(orig[j as int], self.nconsts()));
                }
                let t = copy_tuple(&self.relations[rel].tuples[j]);
                let ghost pre = tuples_view(in_order@);
                let ghost x = orig[j as int];
                proof {
                    assert(t@ == x);
                }
                let mut pos: usize = 0;
                let m = in_order.len();
                while pos < m && tuple_le_exec(&in_order[pos], &t)
                    invariant
                        m == in_order@.len(),
                        pre == tuples_view(in_order@),
                        x == t@,
                        pos <= m,
                        forall|k: int| 0 <= k < pos ==> #[trigger] tuple_le(pre[k], x),
                    decreases m - pos,
                {
                    proof {
                        assert(tuples_view(in_order@)[pos as int] == in_order@[pos as int]@);
                    }
                    pos = pos + 1;
                }
                proof {
                    if pos < m {
                        assert(tuples_view(in_order@)[pos as int] == in_order@[pos as int]@);
                        assert(!tuple_le(pre[pos as int], x));
                    }
                    lemma_sorted_insert(pre, x, pos as int, leq);
                }
                in_order.insert(pos, t);
                proof {
                    assert(tuples_view(in_order@) =~= pre.insert(pos as int, x));
                    broadcast use vstd::seq_lib::group_to_multiset_ensures;

                    assert(orig.take(j + 1) =~= orig.take(j as int).push(x));
                    assert(tuples_view(in_order@).to_multiset() =~= orig.take(
                        j + 1,
                    ).to_multiset());
                    assert forall|k: int|
                        0 <= k < tuples_view(in_order@).len() implies tuple_bounded(
                        #[trigger] tuples_view(in_order@)[k],
                        self.nconsts(),
                    ) by {
                        if k < pos {
                            assert(tuples_view(in_order@)[k] == pre[k]);
                        } else if k == pos {
                            assert(tuples_view(in_order@)[k] == x);
                        } else {
                            assert(tuples_view(in_order@)[k] == pre[k - 1]);
                        }
                    }
                }
            }
            let ghost tuples = sorted_tuples(orig);
            proof {
                assert(orig.take(nt0 as int) =~= orig);
                lemma_tuple_order_total();
                orig.lemma_sort_by_ensures(leq);
                lemma_sorted_unique(tuples_view(in_order@), orig.sort_by(leq), leq);
                assert(tuples_view(in_order@) == tuples);
                assert(tuples =~= tuples.skip(0));
            }
            let nt = in_order.len();
            for j in 0..nt
                invariant
                    nr == self.relations@.len(),
                    rel < nr,
                    self.wf(),
                    name == self.relation_names@[rel as int],
                    tuples == tuples_view(in_order@),
                    nt == tuples.len(),
                    nt == in_order@.len(),
                    forall|k: int|
                        0 <= k < tuples.len() ==> tuple_bounded(
                            #[trigger] tuples[k],
                            self.nconsts(),
                        ),
                    out@ + render_relation(name, tuples.skip(j as int), self.constant_names@)
                        == rel_start + render_relation(name, tuples, self.constant_names@),
            {
                let ghost tup_start = out@;
                let ghost t = tuples[j as int];
                out.append(self.relation_names.get(rel).as_str());
                out.append("(");
                let ne = in_order[j].0.len();
                proof {
                    assert(in_order@[j as int]@ == t);
                    assert(ne == t.len());
                    assert(tuple_bounded(t, self.nconsts()));
                    assert(t.take(0) =~= Seq::<usize>::empty());
                }
                for e in 0..ne
                    invariant
                        nr == self.relations@.len(),
                        rel < nr,
                        j < nt,
                        nt == in_order@.len(),
                        self.wf(),
                        t == in_order@[j as int]@,
                        ne == t.len(),
                        tuple_bounded(t, self.nconsts()),
                        out@ == tup_start + self.relation_names@[rel as int] + "("@
                            + render_elems(t.take(e as int), self.constant_names@),
                {
                    let ghost pre = out@;
                    if e > 0 {
                        out.append(", ");
                    }
                    let c = in_order[j].0[e];
                    proof {
                        assert(c == t[e as int]);
                        assert((c as nat) < self.nconsts());
                    }
                    out.append(self.constant_names.get(c).as_str());
                    proof {
                        lemma_render_elems_snoc(t.take(e as int), c, self.constant_names@);
                        assert(t.take(e + 1) =~= t.take(e as int).push(c));
                        if e == 0 {
                            assert(out@ =~= pre + self.constant_names@[c as int]);
                            assert(out@ =~= tup_start + self.relation_names@[rel as int] + "("@
                                + render_elems(t.take(e + 1), self.constant_names@));
                        } else {
                            assert(out@ =~= pre + ", "@ + self.constant_names@[c as int]);
                            assert(out@ =~= tup_start + self.relation_names@[rel as int] + "("@
                                + (render_elems(t.take(e as int), self.constant_names@) + ", "@
                                + self.constant_names@[c as int]));
                        }
                    }
                }
                out.append(").");
                out.append("\n");
                proof {
                    assert(t.take(ne as int) =~= t);
                    assert(out@ =~= tup_start + render_tuple(name, t, self.constant_names@));
                    assert(tuples.skip(j as int)[0] == t);
                    assert(tuples.skip(j as int).drop_first() =~= tuples.skip(j + 1));
                    assert(render_relation(name, tuples.skip(j as int), self.constant_names@)
                        == render_tuple(name, t, self.constant_names@) + render_relation(
                        name,
                        tuples.skip(j + 1),
                        self.constant_names@,
                    ));
                    assert(out@ + render_relation(name, tuples.skip(j + 1), self.constant_names@)
                        =~= tup_start + render_relation(
                        name,
                        tuples.skip(j as int),
                        self.constant_names@,
                    ));
                }
            }
            proof {
                assert(tuples.skip(nt as int) =~= Seq::<Seq<usize>>::empty());
                assert(out@ =~= rel_start + render_relation(name, tuples, self.constant_names@));
                assert(sorted_rels(self.rels())[rel as int] == tuples);
                assert(render_rels(
                    self.relation_names@,
                    sorted_rels(self.rels()),
                    self.constant_names@,
                    rel as int,
                ) == render_relation(name, tuples, self.constant_names@) + render_rels(
                    self.relation_names@,
                    sorted_rels(self.rels()),
                    self.constant_names@,
                    rel + 1,
                ));
                assert(out@ + render_rels(
                    self.relation_names@,
                    sorted_rels(self.rels()),
                    self.constant_names@,
                    rel + 1,
                ) =~= rel_start + render_rels(
                    self.relation_names@,
                    sorted_rels(self.rels()),
                    self.constant_names@,
                    rel as int,
                ));
            }
        }
        proof {
            assert(render_rels(
                self.relation_names@,
                sorted_rels(self.rels()),
                self.constant_names@,
                nr as int,
            ) =~= Seq::<char>::empty());
            assert(out@ =~= render_rels(
                self.relation_names@,
                sorted_rels(self.rels()),
                self.constant_names@,
                0,
            ));
        }
        out
    }
}

/// The facts of one engine state, relative to another it grew out of, are
/// still within reach of a third such step: the invariants of the fixpoint
/// loop compose across one call of [`DataSet::step`].
proof fn lemma_chain_invariants(o: DataSet, p: DataSet, c: DataSet)
    requires
        o.wf(),
        p.wf(),
        c.wf(),
        p.rule_models() == o.rule_models(),
        p.nconsts() == o.nconsts(),
        p.rels().len() == o.rels().len(),
        forall|r: int|
            0 <= r < o.rels().len() ==> (#[trigger] o.rels()[r]).is_prefix_of(p.rels()[r]),
        forall|r: int, j: int|
            0 <= r < p.rels().len() && o.rels()[r].len() <= j < p.rels()[r].len()
                ==> appended_witness(#[trigger] p.rels()[r][j], r, p.rule_models(), p.nconsts()),
        forall|fam: Seq<Set<Seq<usize>>>|
            #[trigger] closed(o.rule_models(), fam, o.nconsts()) && family_le(
                rels_as_sets(o.rels()),
                fam,
            ) ==> family_le(rels_as_sets(p.rels()), fam),
        c.rule_models() == p.rule_models(),
        c.nconsts() == p.nconsts(),
        c.rels().len() == p.rels().len(),
        forall|r: int|
            0 <= r < p.rels().len() ==> (#[trigger] p.rels()[r]).is_prefix_of(c.rels()[r]),
        forall|r: int, j: int|
            0 <= r < c.rels().len() && p.rels()[r].len() <= j < c.rels()[r].len()
                ==> appended_witness(#[trigger] c.rels()[r][j], r, c.rule_models(), c.nconsts()),
        forall|fam: Seq<Set<Seq<usize>>>|
            #[trigger] closed(p.rule_models(), fam, p.nconsts()) && family_le(
                rels_as_sets(p.rels()),
                fam,
            ) ==> family_le(rels_as_sets(c.rels()), fam),
    ensures
        forall|r: int|
            0 <= r < o.rels().len() ==> (#[trigger] o.rels()[r]).is_prefix_of(c.rels()[r]),
        forall|r: int, j: int|
            0 <= r < c.rels().len() && o.rels()[r].len() <= j < c.rels()[r].len()
                ==> appended_witness(#[trigger] c.rels()[r][j], r, c.rule_models(), c.nconsts()),
        forall|fam: Seq<Set<Seq<usize>>>|
            #[trigger] closed(o.rule_models(), fam, o.nconsts()) && family_le(
                rels_as_sets(o.rels()),
                fam,
            ) ==> family_le(rels_as_sets(c.rels()), fam),
        sum_facts(c.rels()) <= capacity(o.rels(), o.rule_models(), o.nconsts()),
        closed(o.rule_models(), rels_as_sets(o.rels()), o.nconsts()) ==> c.rels() == o.rels(),
{
    assert forall|r: int| 0 <= r < o.rels().len() implies (#[trigger] o.rels()[r]).is_prefix_of(
        c.rels()[r],
    ) by {
        lemma_prefix_trans(o.rels()[r], p.rels()[r], c.rels()[r]);
    }
    assert forall|r: int, j: int|
        0 <= r < c.rels().len() && o.rels()[r].len() <= j < c.rels()[r].len()
            implies appended_witness(
        #[trigger] c.rels()[r][j],
        r,
        c.rule_models(),
        c.nconsts(),
    ) by {
        if j < p.rels()[r].len() {
            assert(c.rels()[r][j] == p.rels()[r][j]) by {
                assert(p.rels()[r][j] == c.rels()[r].subrange(0, p.rels()[r].len() as int)[j]);
            }
            assert(appended_witness(p.rels()[r][j], r, p.rule_models(), p.nconsts()));
        }
    }
    assert forall|r: int| 0 <= r < c.rels().len() implies (#[trigger] c.rels()[r]).no_duplicates()
        by {
        assert(c.rels()[r] == c.relations@[r]@);
    }
    lemma_family_cap(c.rels(), o.rels(), o.rule_models(), o.nconsts());
    if closed(o.rule_models(), rels_as_sets(o.rels()), o.nconsts()) {
        let os = rels_as_sets(o.rels());
        assert(family_le(os, os)) by {
            assert(forall|i: int|
                0 <= i < os.len() ==> (#[trigger] os[i]).subset_of(os[i]));
        }
        assert(family_le(rels_as_sets(c.rels()), os));
        assert forall|r: int| 0 <= r < c.rels().len() implies c.rels()[r] == o.rels()[r] by {
            assert(rels_as_sets(c.rels())[r] == c.rels()[r].to_set());
            assert(rels_as_sets(o.rels())[r] == o.rels()[r].to_set());
            lemma_prefix_subset_eq(o.rels()[r], c.rels()[r]);
        }
        assert(c.rels() =~= o.rels());
    }
}

/// The constant names of a tuple, joined by `, `.
pub open spec fn render_elems(t: Seq<usize>, cns: Seq<Seq<char>>) -> Seq<char>
    decreases t.len(),
{
    if t.len() == 0 {
        Seq::empty()
    } else if t.len() == 1 {
        cns[t[0] as int]
    } else {
        cns[t[0] as int] + ", "@ + render_elems(t.drop_first(), cns)
    }
}

/// One fact as text: `name(c1, c2).` on its own line.
pub open spec fn render_tuple(name: Seq<char>, t: Seq<usize>, cns: Seq<Seq<char>>) -> Seq<char> {
    name + "("@ + render_elems(t, cns) + ")."@ + "\n"@
}

/// All facts of one relation, line by line, in the order given; the
/// renderer passes the tuples in ascending value order.
pub open spec fn render_relation(
    name: Seq<char>,
    tuples: Seq<Seq<usize>>,
    cns: Seq<Seq<char>>,
) -> Seq<char>
    decreases tuples.len(),
{
    if tuples.len() == 0 {
        Seq::empty()
    } else {
        render_tuple(name, tuples[0], cns) + render_relation(name, tuples.drop_first(), cns)
    }
}

/// All facts of all relations from index `i` on, in pool order.
pub open spec fn render_rels(
    names: Seq<Seq<char>>,
    rels: Seq<Seq<Seq<usize>>>,
    cns: Seq<Seq<char>>,
    i: int,
) -> Seq<char>
    decreases rels.len() - i,
{
    if i < 0 || i >= rels.len() {
        Seq::empty()
    } else {
        render_relation(names[i], rels[i], cns) + render_rels(names, rels, cns, i + 1)
    }
}

/// The tuples of one relation in ascending value order: the order a
/// rendered relation lists them in, whatever order they were inserted in.
pub open spec fn sorted_tuples(ts: Seq<Seq<usize>>) -> Seq<Seq<usize>> {
    ts.sort_by(tuple_order())
}

/// Every relation's tuples in ascending value order.
pub open spec fn sorted_rels(rels: Seq<Seq<Seq<usize>>>) -> Seq<Seq<Seq<usize>>> {
    rels.map_values(|r: Seq<Seq<usize>>| sorted_tuples(r))
}

/// Two duplicate-free relations holding the same set of tuples sort — and
/// so render — identically: the rendered text depends only on the fact
/// sets, which [`DataSet::run`]'s contract pins, not on insertion order.
pub proof fn lemma_sorted_tuples_of_set(a: Seq<Seq<usize>>, b: Seq<Seq<usize>>)
    requires
        a.no_duplicates(),
        b.no_duplicates(),
        a.to_set() == b.to_set(),
    ensures
        sorted_tuples(a) == sorted_tuples(b),
{
    broadcast use vstd::seq_lib::group_to_multiset_ensures;

    a.lemma_multiset_has_no_duplicates();
    b.lemma_multiset_has_no_duplicates();
    assert(a.to_multiset() =~= b.to_multiset()) by {
        assert forall|x: Seq<usize>| a.to_multiset().count(x) == b.to_multiset().count(x) by {
            assert(a.contains(x) == a.to_set().contains(x));
            assert(b.contains(x) == b.to_set().contains(x));
            if a.contains(x) {
                assert(a.to_multiset().count(x) == 1);
                assert(b.to_multiset().count(x) == 1);
            } else {
                assert(a.to_multiset().count(x) == 0);
                assert(b.to_multiset().count(x) == 0);
            }
        }
    }
    let leq = tuple_order();
    lemma_tuple_order_total();
    a.lemma_sort_by_ensures(leq);
    b.lemma_sort_by_ensures(leq);
    lemma_sorted_unique(a.sort_by(leq), b.sort_by(leq), leq);
}

/// Appending one constant appends `, ` and its name, except to an empty
/// list.
pub proof fn lemma_render_elems_snoc(t: Seq<usize>, x: usize, cns: Seq<Seq<char>>)
    ensures
        render_elems(t.push(x), cns) == if t.len() == 0 {
            cns[x as int]
        } else {
            render_elems(t, cns) + ", "@ + cns[x as int]
        },
    decreases t.len(),
{
    let q = t.push(x);
    if t.len() == 0 {
        assert(q[0] == x);
    } else {
        assert(q[0] == t[0]);
        assert(q.drop_first() =~= t.drop_first().push(x));
        lemma_render_elems_snoc(t.drop_first(), x, cns);
        if t.len() == 1 {
            assert(t.drop_first().len() == 0);
        } else {
            assert(render_elems(q, cns) == cns[t[0] as int] + ", "@ + (render_elems(
                t.drop_first(),
                cns,
            ) + ", "@ + cns[x as int]));
            assert(cns[t[0] as int] + ", "@ + (render_elems(t.drop_first(), cns) + ", "@
                + cns[x as int]) =~= (cns[t[0] as int] + ", "@ + render_elems(t.drop_first(), cns))
                + ", "@ + cns[x as int]);
        }
    }
}

impl Default for DataSet {
    /// An empty data set: empty pools, no rules, no relations.
    fn default() -> (r: DataSet)
        ensures
            r.wf(),
            r.last_len == 0,
            r.relation_names@ == Seq::<Seq<char>>::empty(),
            r.constant_names@ == Seq::<Seq<char>>::empty(),
            r.variable_names@ == Seq::<Seq<char>>::empty(),
            r.rule_models() == Seq::<RuleModel>::empty(),
            r.rels() == Seq::<Seq<Seq<usize>>>::empty(),
    {
        DataSet::new()
    }
}

/// A copy of a tuple with the same elements.
fn copy_tuple(t: &Tuple) -> (r: Tuple)
    ensures
        r@ == t@,
{
    let mut elements: Vec<usize> = Vec::new();
    let n = t.0.len();
    for i in 0..n
        invariant
            n == t@.len(),
            elements@.len() == i,
            forall|j: int| 0 <= j < i ==> elements@[j] == t@[j],
    {
        elements.push(t.0[i]);
    }
    let r = Tuple(elements);
    proof {
        assert(r@ =~= t@);
    }
    r
}

} // verus!
