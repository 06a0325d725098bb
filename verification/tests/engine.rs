use datalog::ast::{Atom, Const, Fact, Program, Query, Relation, Rule as RuleSyntax, Statement,
    Term, Var};
use datalog::data_set::rule::Rule;
use datalog::data_set::{DataSet, Tuple};

fn fact(rel: &str, consts: &[&str]) -> Statement {
    Statement::Fact(Fact(
        Relation(rel.to_string()),
        consts.iter().map(|c| Const(c.to_string())).collect(),
    ))
}

fn var_atom(rel: &str, terms: &[&str]) -> Atom {
    Atom(
        Relation(rel.to_string()),
        terms
            .iter()
            .map(|t| {
                if datalog::ast::is_constant_name(t) {
                    Term::Const(Const(t.to_string()))
                } else {
                    Term::Var(Var(t.to_string()))
                }
            })
            .collect(),
    )
}

/// The program ` p(a). p(b). q(X) :- p(X). ` as a syntax tree.
fn single_clause_program() -> Program {
    Program(vec![
        fact("p", &["a"]),
        fact("p", &["b"]),
        Statement::Rule(RuleSyntax(var_atom("q", &["X"]), vec![var_atom("p", &["X"])])),
    ])
}

fn star_wars_data() -> DataSet {
    let program = Program(vec![
        fact("father", &["vader", "luke"]),
        fact("father", &["vader", "leia"]),
        fact("mother", &["padme", "luke"]),
        fact("mother", &["padme", "leia"]),
    ]);

    let mut data = DataSet::default();
    data.program(&program);
    data
}

#[test]
fn variables() {
    let program = Program(vec![fact("p", &["a"]), fact("p", &["b"])]);
    let mut data = DataSet::default();
    data.program(&program);

    let head = var_atom("q", &["X"]);
    let clauses = vec![var_atom("p", &["X"])];

    let rule = Rule::new(&head, &clauses, &mut data);
    assert_eq!(rule.variables.iter(), vec![(0, 0)]);
}

#[test]
fn step() {
    let program = Program(vec![fact("p", &["a"]), fact("p", &["b"]), fact("q", &["c"])]);
    let mut data = DataSet::default();
    data.program(&program);

    let head = var_atom("q", &["X"]);
    let clauses = vec![var_atom("p", &["X"])];

    let rule = Rule::new(&head, &clauses, &mut data);

    assert_eq!(rule.step(&data), vec![Tuple(vec![0]), Tuple(vec![1])]);
}

#[test]
fn single_clause_rule() {
    let program = single_clause_program();
    let mut data = DataSet::default();
    data.program(&program);

    assert_eq!(data.len(), 2);
    data.run();
    assert_eq!(data.len(), 4, "{}", data.render());
}

#[test]
fn spoiler() {
    let mut data = star_wars_data();
    data.run();

    let query = Query(vec![var_atom("father", &["X", "luke"])]);
    let answers = data.query(&query);
    assert!(answers.iter().any(|a| a.render() == "{X = vader}"))
}

#[test]
fn run_reaches_exactly_the_fixpoint() {
    let program = single_clause_program();
    let mut data = DataSet::default();
    data.program(&program);
    data.run();

    assert_eq!(data.len(), 4);
    assert_eq!(data.render(), "p(a).\np(b).\nq(a).\nq(b).\n");
}

#[test]
fn run_twice_changes_nothing() {
    let program = single_clause_program();
    let mut data = DataSet::default();
    data.program(&program);

    data.run();
    let after_first = data.len();
    let rendered_first = data.render();
    data.run();
    assert_eq!(data.len(), after_first);
    assert_eq!(data.render(), rendered_first);
}

#[test]
fn run_never_shrinks_a_relation() {
    let program = single_clause_program();
    let mut data = DataSet::default();
    data.program(&program);

    let before: Vec<usize> = data.relations.iter().map(|r| r.len()).collect();
    data.run();
    for (i, len_before) in before.iter().enumerate() {
        assert!(data.relations[i].len() >= *len_before);
    }
}

#[test]
fn empty_query_has_no_answers() {
    let mut data = star_wars_data();
    data.run();
    let answers = data.query(&Query(vec![]));
    assert!(answers.is_empty());
}

#[test]
fn unsatisfiable_query_has_no_answers() {
    let mut data = star_wars_data();
    data.run();
    let query = Query(vec![var_atom("grandfather", &["X", "luke"])]);
    let answers = data.query(&query);
    assert!(answers.is_empty());
}

#[test]
fn answers_are_deduplicated() {
    let mut data = star_wars_data();
    data.run();

    // Both goals are satisfied by the same assignments; each answer still
    // appears once.
    let query = Query(vec![
        var_atom("father", &["X", "Y"]),
        var_atom("father", &["X", "Y"]),
    ]);
    let answers = data.query(&query);
    assert_eq!(answers.len(), 2);
    let rendered: Vec<String> = answers.iter().map(|a| a.render()).collect();
    assert!(rendered.contains(&"{X = vader, Y = luke}".to_string()));
    assert!(rendered.contains(&"{X = vader, Y = leia}".to_string()));
}

#[test]
fn chained_rules_saturate() {
    // parent facts plus grandparent(X, Z) :- parent(X, Y), parent(Y, Z).
    let program = Program(vec![
        fact("parent", &["shmi", "anakin"]),
        fact("parent", &["anakin", "luke"]),
        Statement::Rule(RuleSyntax(
            var_atom("grandparent", &["X", "Z"]),
            vec![var_atom("parent", &["X", "Y"]), var_atom("parent", &["Y", "Z"])],
        )),
    ]);
    let mut data = DataSet::default();
    data.program(&program);
    data.run();

    let answers = data.query(&Query(vec![var_atom("grandparent", &["A", "B"])]));
    assert_eq!(answers.len(), 1);
    assert_eq!(answers[0].render(), "{A = shmi, B = luke}");
}

#[test]
fn dirty_until_run() {
    let program = single_clause_program();
    let mut data = DataSet::default();
    assert!(data.is_empty());
    data.program(&program);
    assert!(data.is_dirty());
    data.run();
    assert!(!data.is_dirty());
    assert!(!data.is_empty());
}

#[test]
fn repeated_facts_are_stored_once() {
    let program = Program(vec![fact("p", &["a"]), fact("p", &["a"])]);
    let mut data = DataSet::default();
    data.program(&program);
    assert_eq!(data.len(), 1);
    assert_eq!(data.render(), "p(a).\n");
}

#[test]
fn mixed_arities_share_a_relation() {
    // Arity is not validated: both tuples live under `p`.
    let program = Program(vec![fact("p", &["a"]), fact("p", &["a", "b"])]);
    let mut data = DataSet::default();
    data.program(&program);
    assert_eq!(data.len(), 2);
    assert_eq!(data.render(), "p(a).\np(a, b).\n");
}

#[test]
fn rendered_tuples_come_in_value_order() {
    // q holds c before the derived a and b; the rendering still lists the
    // tuples of each relation in ascending value order.
    let program = Program(vec![
        fact("p", &["a"]),
        fact("p", &["b"]),
        fact("q", &["c"]),
        Statement::Rule(RuleSyntax(var_atom("q", &["X"]), vec![var_atom("p", &["X"])])),
    ]);
    let mut data = DataSet::default();
    data.program(&program);
    data.run();
    assert_eq!(data.render(), "p(a).\np(b).\nq(a).\nq(b).\nq(c).\n");
}

#[test]
fn rendered_pairs_come_in_name_order() {
    // Y gets slot 0 and X slot 1, but an answer renders its pairs sorted
    // by variable name.
    let mut data = star_wars_data();
    data.run();
    let query = Query(vec![var_atom("father", &["Y", "X"])]);
    let answers = data.query(&query);
    let rendered: Vec<String> = answers.iter().map(|a| a.render()).collect();
    assert!(rendered.contains(&"{X = luke, Y = vader}".to_string()));
    assert!(rendered.contains(&"{X = leia, Y = vader}".to_string()));
}

#[test]
fn later_rules_see_earlier_derivations() {
    // q is derived from p, and r from q, within the same run.
    let program = Program(vec![
        fact("p", &["a"]),
        Statement::Rule(RuleSyntax(var_atom("q", &["X"]), vec![var_atom("p", &["X"])])),
        Statement::Rule(RuleSyntax(var_atom("r", &["X"]), vec![var_atom("q", &["X"])])),
    ]);
    let mut data = DataSet::default();
    data.program(&program);
    data.run();
    assert_eq!(data.render(), "p(a).\nq(a).\nr(a).\n");
}
