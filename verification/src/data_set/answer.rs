//! An answer: the human-facing rendering of one satisfying value binding,
//! as (variable name, constant name) pairs.  The pairs are held in slot
//! order and rendered in ascending name order, as a set of pairs prints.

use vstd::prelude::*;
use vstd::relations::sorted_by;
use vstd::seq_lib::lemma_sorted_unique;
use vstd::string::StringExecFns;

use crate::binding::Binding;
use crate::data_set::DataSet;
use crate::order::{lemma_pair_order_total, lemma_sorted_insert, pair_le, pair_le_exec,
    pair_order};

verus! {

/// The views of a sequence of name pairs.
pub open spec fn pairs_view(s: Seq<(String, String)>) -> Seq<(Seq<char>, Seq<char>)> {
    s.map_values(|p: (String, String)| (p.0@, p.1@))
}

/// The pairs in ascending name order: by variable name, then constant
/// name.  This is the order an answer renders its pairs in, whatever order
/// its slots have.
pub open spec fn sorted_pairs(ps: Seq<(Seq<char>, Seq<char>)>) -> Seq<(Seq<char>, Seq<char>)> {
    ps.sort_by(pair_order())
}

/// One satisfying assignment, as name pairs: held in slot order, rendered
/// in ascending name order.
#[derive(Debug)]
pub struct Answer(pub Vec<(String, String)>);

impl View for Answer {
    type V = Seq<(Seq<char>, Seq<char>)>;

    open spec fn view(&self) -> Seq<(Seq<char>, Seq<char>)> {
        pairs_view(self.0@)
    }
}

/// The views of a sequence of answers.
pub open spec fn answers_view(s: Seq<Answer>) -> Seq<Seq<(Seq<char>, Seq<char>)>> {
    s.map_values(|a: Answer| a@)
}

/// The name pairs of one value binding: slot `i` pairs the name of the
/// `i`-th variable with the name of the constant bound to it.
pub open spec fn answer_of(
    b: Seq<usize>,
    vars: Seq<usize>,
    var_names: Seq<Seq<char>>,
    const_names: Seq<Seq<char>>,
) -> Seq<(Seq<char>, Seq<char>)> {
    Seq::new(b.len(), |i: int| (var_names[vars[i] as int], const_names[b[i] as int]))
}

/// Distinct bindings render to distinct answers: the constant pool holds no
/// name twice, so differing constant ids yield differing names.
pub proof fn lemma_answer_of_injective(
    b1: Seq<usize>,
    b2: Seq<usize>,
    vars: Seq<usize>,
    var_names: Seq<Seq<char>>,
    const_names: Seq<Seq<char>>,
)
    requires
        b1.len() == vars.len(),
        b2.len() == vars.len(),
        b1 != b2,
        forall|i: int| 0 <= i < b1.len() ==> (#[trigger] b1[i] as nat) < const_names.len(),
        forall|i: int| 0 <= i < b2.len() ==> (#[trigger] b2[i] as nat) < const_names.len(),
        forall|i: int, j: int|
            0 <= i < j < const_names.len() ==> const_names[i] != const_names[j],
    ensures
        answer_of(b1, vars, var_names, const_names) != answer_of(b2, vars, var_names, const_names),
{
    let a1 = answer_of(b1, vars, var_names, const_names);
    let a2 = answer_of(b2, vars, var_names, const_names);
    if a1 == a2 {
        assert forall|i: int| 0 <= i < b1.len() implies b1[i] == b2[i] by {
            assert(a1[i] == a2[i]);
            if b1[i] != b2[i] {
                let x = b1[i] as int;
                let y = b2[i] as int;
                assert(const_names[x] == const_names[y]);
                if x < y {
                    assert(const_names[x] != const_names[y]);
                } else {
                    assert(const_names[y] != const_names[x]);
                }
            }
        }
        assert(b1 =~= b2);
    }
}

/// One rendered pair: `variable = constant`.
pub open spec fn render_pair(p: (Seq<char>, Seq<char>)) -> Seq<char> {
    p.0 + " = "@ + p.1
}

/// Rendered pairs joined by `, `.
pub open spec fn render_pairs(ps: Seq<(Seq<char>, Seq<char>)>) -> Seq<char>
    decreases ps.len(),
{
    if ps.len() == 0 {
        Seq::empty()
    } else if ps.len() == 1 {
        render_pair(ps[0])
    } else {
        render_pair(ps[0]) + ", "@ + render_pairs(ps.drop_first())
    }
}

/// A whole answer: the pairs joined by `, `, in braces.
pub open spec fn render_answer(ps: Seq<(Seq<char>, Seq<char>)>) -> Seq<char> {
    "{"@ + render_pairs(ps) + "}"@
}

/// Appending one pair appends `, ` and the pair, except to an empty list.
pub proof fn lemma_render_pairs_snoc(ps: Seq<(Seq<char>, Seq<char>)>, p: (Seq<char>, Seq<char>))
    ensures
        render_pairs(ps.push(p)) == if ps.len() == 0 {
            render_pair(p)
        } else {
            render_pairs(ps) + ", "@ + render_pair(p)
        },
    decreases ps.len(),
{
    let q = ps.push(p);
    if ps.len() == 0 {
        assert(q[0] == p);
    } else {
        assert(q[0] == ps[0]);
        assert(q.drop_first() =~= ps.drop_first().push(p));
        lemma_render_pairs_snoc(ps.drop_first(), p);
        if ps.len() == 1 {
            assert(ps.drop_first().len() == 0);
            assert(render_pairs(q) == render_pair(ps[0]) + ", "@ + render_pair(p));
        } else {
            assert(render_pairs(q) == render_pair(ps[0]) + ", "@ + (render_pairs(ps.drop_first())
                + ", "@ + render_pair(p)));
            assert(render_pair(ps[0]) + ", "@ + (render_pairs(ps.drop_first()) + ", "@
                + render_pair(p)) =~= (render_pair(ps[0]) + ", "@ + render_pairs(ps.drop_first()))
                + ", "@ + render_pair(p));
        }
    }
}

impl Answer {
    /// Resolves one value binding to its name pairs: for each slot, the
    /// variable name the slot stands for and the name of the constant the
    /// binding chose for it.
    pub fn new(binding: &Binding, variables: &Binding, data: &DataSet) -> (r: Answer)
        requires
            binding@.len() == variables@.len(),
            forall|i: int|
                0 <= i < binding@.len() ==> (#[trigger] binding@[i] as nat) < data.nconsts(),
            forall|i: int|
                0 <= i < variables@.len() ==> (#[trigger] variables@[i] as nat)
                    < data.variable_names@.len(),
        ensures
            r@ == answer_of(binding@, variables@, data.variable_names@, data.constant_names@),
    {
        let mut pairs: Vec<(String, String)> = Vec::new();
        let n = binding.len();
        for i in 0..n
            invariant
                n == binding@.len(),
                n == variables@.len(),
                forall|k: int|
                    0 <= k < binding@.len() ==> (#[trigger] binding@[k] as nat) < data.nconsts(),
                forall|k: int|
                    0 <= k < variables@.len() ==> (#[trigger] variables@[k] as nat)
                        < data.variable_names@.len(),
                pairs@.len() == i,
                forall|k: int|
                    0 <= k < i ==> (#[trigger] pairs@[k]).0@ == data.variable_names@[variables@[k] as int]
                        && pairs@[k].1@ == data.constant_names@[binding@[k] as int],
        {
            let vid = variables.get(i);
            let cid = binding.get(i);
            let var_name = String::from_str(data.variable_names.get(vid).as_str());
            let const_name = String::from_str(data.constant_names.get(cid).as_str());
            proof {
                assert(var_name@ == data.variable_names@[variables@[i as int] as int]);
                assert(const_name@ == data.constant_names@[binding@[i as int] as int]);
            }
            pairs.push((var_name, const_name));
            proof {
                assert(pairs@.last().0@ == data.variable_names@[variables@[i as int] as int]);
                assert(pairs@.last().1@ == data.constant_names@[binding@[i as int] as int]);
            }
        }
        let r = Answer(pairs);
        proof {
            assert(r@ =~= answer_of(
                binding@,
                variables@,
                data.variable_names@,
                data.constant_names@,
            ));
        }
        r
    }

    /// The answer as text: `{X = vader}` style, the pairs in ascending
    /// name order (by variable name, then constant name), as a set of
    /// pairs prints.
    pub fn render(&self) -> (r: String)
        ensures
            r@ == render_answer(sorted_pairs(self@)),
    {
        let ghost leq = pair_order();
        proof {
            lemma_pair_order_total();
            broadcast use vstd::seq_lib::group_to_multiset_ensures;

            assert(self@.take(0) =~= Seq::<(Seq<char>, Seq<char>)>::empty());
        }
        let mut sorted: Vec<(String, String)> = Vec::new();
        proof {
            assert(pairs_view(sorted@) =~= Seq::<(Seq<char>, Seq<char>)>::empty());
            assert(pairs_view(sorted@).to_multiset() =~= self@.take(0).to_multiset());
        }
        let n = self.0.len();
        for i in 0..n
            invariant
                n == self.0@.len(),
                n == self@.len(),
                leq == pair_order(),
                sorted_by(pairs_view(sorted@), leq),
                pairs_view(sorted@).to_multiset() == self@.take(i as int).to_multiset(),
        {
            proof {
                lemma_pair_order_total();
            }
            let ghost pre = pairs_view(sorted@);
            let ghost x = self@[i as int];
            let mut j: usize = 0;
            let m = sorted.len();
            while j < m && pair_le_exec(&sorted[j], &self.0[i])
                invariant
                    m == sorted@.len(),
                    i < self.0@.len(),
                    j <= m,
                    pre == pairs_view(sorted@),
                    x == self@[i as int],
                    x == (self.0@[i as int].0@, self.0@[i as int].1@),
                    forall|k: int| 0 <= k < j ==> #[trigger] pair_le(pre[k], x),
                decreases m - j,
            {
                proof {
                    assert(pairs_view(sorted@)[j as int] == (sorted@[j as int].0@, sorted@[j as int].1@));
                }
                j = j + 1;
            }
            proof {
                if j < m {
                    assert(pairs_view(sorted@)[j as int] == (sorted@[j as int].0@, sorted@[j as int].1@));
                    assert(!pair_le(pre[j as int], x));
                }
                lemma_sorted_insert(pre, x, j as int, leq);
            }
            let pair = (
                String::from_str(self.0[i].0.as_str()),
                String::from_str(self.0[i].1.as_str()),
            );
            sorted.insert(j, pair);
            proof {
                assert(pairs_view(sorted@) =~= pre.insert(j as int, x));
                broadcast use vstd::seq_lib::group_to_multiset_ensures;

                assert(self@.take(i + 1) =~= self@.take(i as int).push(x));
                assert(pairs_view(sorted@).to_multiset() =~= self@.take(i + 1).to_multiset());
            }
        }
        let ghost sv = pairs_view(sorted@);
        proof {
            assert(self@.take(n as int) =~= self@);
            lemma_pair_order_total();
            self@.lemma_sort_by_ensures(leq);
            lemma_sorted_unique(sv, self@.sort_by(leq), leq);
            assert(sv == sorted_pairs(self@));
        }
        let mut out = String::new();
        out.append("{");
        proof {
            assert(out@ =~= "{"@ + render_pairs(sv.take(0)));
        }
        let n2 = sorted.len();
        for i in 0..n2
            invariant
                n2 == sorted@.len(),
                n2 == sv.len(),
                sv == pairs_view(sorted@),
                out@ == "{"@ + render_pairs(sv.take(i as int)),
        {
            let ghost pre = out@;
            if i > 0 {
                out.append(", ");
            }
            out.append(sorted[i].0.as_str());
            out.append(" = ");
            out.append(sorted[i].1.as_str());
            proof {
                let ps = sv.take(i as int);
                let p = sv[i as int];
                assert(p == (sorted@[i as int].0@, sorted@[i as int].1@));
                lemma_render_pairs_snoc(ps, p);
                assert(sv.take(i + 1) =~= ps.push(p));
                if i == 0 {
                    assert(out@ =~= pre + (p.0 + " = "@ + p.1));
                    assert(out@ =~= "{"@ + render_pairs(sv.take(i + 1)));
                } else {
                    assert(out@ =~= pre + ", "@ + (p.0 + " = "@ + p.1));
                    assert(out@ =~= "{"@ + (render_pairs(ps) + ", "@ + render_pair(p)));
                }
            }
        }
        out.append("}");
        proof {
            assert(sv.take(n2 as int) =~= sv);
            assert(out@ =~= render_answer(sv));
        }
        out
    }
}

} // verus!
