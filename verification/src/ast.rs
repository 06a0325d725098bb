//! The abstract syntax the engine consumes.  A program is a sequence of
//! statements, each a ground fact or a deduction rule; a query is a
//! conjunction of atoms.  How such trees are produced (parsing, a REPL) is
//! outside the engine; it only reads them.

use vstd::prelude::*;
use vstd::string::StrSliceExecFns;

verus! {

/// A relation name, as written in the source.
#[derive(Debug, Clone)]
pub struct Relation(pub String);

/// A constant name: a name with at least one letter and no upper-case one.
#[derive(Debug, Clone)]
pub struct Const(pub String);

/// A variable name: any other name.
#[derive(Debug, Clone)]
pub struct Var(pub String);

/// One argument of an atom.
#[derive(Debug, Clone)]
pub enum Term {
    Const(Const),
    Var(Var),
}

/// A relation name applied to a list of terms, as in `ancestor(X, Y)`.
#[derive(Debug, Clone)]
pub struct Atom(pub Relation, pub Vec<Term>);

/// A ground statement: a relation name applied to constants, as in
/// `parent(padme, luke).`.
#[derive(Debug, Clone)]
pub struct Fact(pub Relation, pub Vec<Const>);

/// A head atom derived from a conjunction of body atoms, as in
/// `ancestor(X, Y) :- parent(X, Z), ancestor(Z, Y).`.
#[derive(Debug, Clone)]
pub struct Rule(pub Atom, pub Vec<Atom>);

#[derive(Debug, Clone)]
pub enum Statement {
    Fact(Fact),
    Rule(Rule),
}

/// An ordered sequence of statements.
#[derive(Debug, Clone)]
pub struct Program(pub Vec<Statement>);

/// A conjunction of atoms with no head.
#[derive(Debug, Clone)]
pub struct Query(pub Vec<Atom>);

/// The mathematical shape of a [`Term`]: just the name it carries.
pub ghost enum TermView {
    Const(Seq<char>),
    Var(Seq<char>),
}

/// The mathematical shape of an [`Atom`].
pub ghost struct AtomView {
    pub rel: Seq<char>,
    pub terms: Seq<TermView>,
}

/// The mathematical shape of a [`Fact`].
pub ghost struct FactView {
    pub rel: Seq<char>,
    pub consts: Seq<Seq<char>>,
}

/// The mathematical shape of a [`Rule`].
pub ghost struct RuleView {
    pub head: AtomView,
    pub body: Seq<AtomView>,
}

pub ghost enum StatementView {
    Fact(FactView),
    Rule(RuleView),
}

/// The views of a list of atoms.
pub open spec fn atoms_view(s: Seq<Atom>) -> Seq<AtomView> {
    s.map_values(|a: Atom| a@)
}

impl View for Term {
    type V = TermView;

    open spec fn view(&self) -> TermView {
        match self {
            Term::Const(c) => TermView::Const(c.0@),
            Term::Var(v) => TermView::Var(v.0@),
        }
    }
}

impl View for Atom {
    type V = AtomView;

    open spec fn view(&self) -> AtomView {
        AtomView { rel: self.0.0@, terms: self.1@.map_values(|t: Term| t@) }
    }
}

impl View for Fact {
    type V = FactView;

    open spec fn view(&self) -> FactView {
        FactView { rel: self.0.0@, consts: self.1@.map_values(|c: Const| c.0@) }
    }
}

impl View for Rule {
    type V = RuleView;

    open spec fn view(&self) -> RuleView {
        RuleView { head: self.0@, body: atoms_view(self.1@) }
    }
}

impl View for Statement {
    type V = StatementView;

    open spec fn view(&self) -> StatementView {
        match self {
            Statement::Fact(f) => StatementView::Fact(f@),
            Statement::Rule(r) => StatementView::Rule(r@),
        }
    }
}

impl View for Program {
    type V = Seq<StatementView>;

    open spec fn view(&self) -> Seq<StatementView> {
        self.0@.map_values(|s: Statement| s@)
    }
}

impl View for Query {
    type V = Seq<AtomView>;

    open spec fn view(&self) -> Seq<AtomView> {
        atoms_view(self.0@)
    }
}

impl Program {
    pub fn statements(&self) -> (r: &Vec<Statement>)
        ensures
            r@.map_values(|s: Statement| s@) == self@,
    {
        &self.0
    }
}

pub open spec fn is_lower_letter(c: char) -> bool {
    97 <= c as u32 <= 122
}

pub open spec fn is_upper_letter(c: char) -> bool {
    65 <= c as u32 <= 90
}

pub open spec fn is_letter(c: char) -> bool {
    is_lower_letter(c) || is_upper_letter(c)
}

/// A name reads as a constant when it has at least one ASCII letter and
/// every ASCII letter in it is lower case.
pub open spec fn spec_is_constant_name(s: Seq<char>) -> bool {
    &&& exists|i: int| 0 <= i < s.len() && is_letter(#[trigger] s[i])
    &&& forall|i: int| 0 <= i < s.len() ==> !is_upper_letter(#[trigger] s[i])
}

/// Decides whether a name denotes a constant rather than a variable.
pub fn is_constant_name(name: &str) -> (r: bool)
    ensures
        r == spec_is_constant_name(name@),
{
    let n = name.unicode_len();
    let mut has_letter: bool = false;
    for i in 0..n
        invariant
            n == name@.len(),
            has_letter == exists|j: int| 0 <= j < i && is_letter(#[trigger] name@[j]),
            forall|j: int| 0 <= j < i ==> !is_upper_letter(#[trigger] name@[j]),
    {
        let c = name.get_char(i);
        let u = c as u32;
        if 65 <= u && u <= 90 {
            return false;
        }
        if 97 <= u && u <= 122 {
            has_letter = true;
        }
    }
    has_letter
}

} // verus!
