use csp_solver::assignment::Assignment;
use csp_solver::csp::{Constraint, CspError, CSP};
use csp_solver::map_coloring::MapColoringConstraint;
use csp_solver::not_equal::NotEqualConstraint;

fn s(x: &str) -> String {
    x.to_string()
}

fn pair_csp() -> CSP<String, i32, NotEqualConstraint<String>> {
    let variables = vec![s("X"), s("Y")];
    let domains: Vec<(String, Vec<i32>)> = vec![(s("X"), vec![1]), (s("Y"), vec![1])];
    let mut csp = CSP::new(variables, domains).unwrap();
    csp.add_constraint(NotEqualConstraint::new(vec![s("X"), s("Y")]))
        .unwrap();
    csp
}

#[test]
fn single_value_domains_are_unsatisfiable() {
    // two variables with the single candidate 1 each and a not-equal
    // constraint between them: the only assignment forces X = Y = 1
    let csp = pair_csp();
    let result = csp.backtracking_search(Assignment::new());
    assert!(result.is_none());
}

#[test]
fn empty_domain_means_no_solution() {
    let variables = vec![s("A")];
    let domains: Vec<(String, Vec<i32>)> = vec![(s("A"), vec![])];
    let csp: CSP<String, i32, NotEqualConstraint<String>> =
        CSP::new(variables, domains).unwrap();
    let result = csp.backtracking_search(Assignment::new());
    assert!(result.is_none());
}

#[test]
fn missing_domain_entry_fails_construction() {
    let variables = vec![s("A"), s("B")];
    let domains: Vec<(String, Vec<i32>)> = vec![(s("A"), vec![1, 2])];
    let result: Result<CSP<String, i32, NotEqualConstraint<String>>, CspError> =
        CSP::new(variables, domains);
    assert_eq!(result.err(), Some(CspError::MissingDomain));
}

#[test]
fn unknown_variable_fails_registration() {
    let variables = vec![s("A"), s("B")];
    let domains: Vec<(String, Vec<i32>)> =
        vec![(s("A"), vec![1, 2]), (s("B"), vec![1, 2])];
    let mut csp = CSP::new(variables, domains).unwrap();
    let bad = NotEqualConstraint::new(vec![s("A"), s("Z")]);
    assert_eq!(csp.add_constraint(bad).err(), Some(CspError::UnknownVariable));
    // the CSP is left usable and unchanged: the good constraint still
    // registers and the search still runs
    let good = NotEqualConstraint::new(vec![s("A"), s("B")]);
    assert!(csp.add_constraint(good).is_ok());
    let result = csp.backtracking_search(Assignment::new());
    let solution = result.unwrap();
    assert_ne!(solution.get(&s("A")), solution.get(&s("B")));
}

#[test]
fn repeated_searches_return_identical_results() {
    // determinism: the same model searched twice, and an identically built
    // model searched again, give the same single solution
    let build = || {
        let variables = vec![s("A"), s("B"), s("C")];
        let domains: Vec<(String, Vec<i32>)> = vec![
            (s("A"), vec![1, 2, 3]),
            (s("B"), vec![1, 2, 3]),
            (s("C"), vec![1, 2, 3]),
        ];
        let mut csp = CSP::new(variables, domains).unwrap();
        csp.add_constraint(NotEqualConstraint::new(vec![s("A"), s("B")]))
            .unwrap();
        csp.add_constraint(NotEqualConstraint::new(vec![s("B"), s("C")]))
            .unwrap();
        csp
    };
    let csp = build();
    let first = csp.backtracking_search(Assignment::new());
    let second = csp.backtracking_search(Assignment::new());
    let third = build().backtracking_search(Assignment::new());
    assert_eq!(first, second);
    assert_eq!(first, third);
    assert!(first.is_some());
}

#[test]
fn not_equal_is_vacuous_on_missing_scope_variables() {
    // partial information: a scope variable absent from the assignment is
    // "not yet determined", so nothing is violated yet
    let c: NotEqualConstraint<String> = NotEqualConstraint::new(vec![s("A"), s("B"), s("C")]);
    let empty: Assignment<String, i32> = Assignment::new();
    assert!(c.satisfied(&empty));
    let mut partial: Assignment<String, i32> = Assignment::new();
    partial.insert(s("A"), 1);
    assert!(c.satisfied(&partial));
    let mut clash: Assignment<String, i32> = Assignment::new();
    clash.insert(s("A"), 1);
    clash.insert(s("B"), 1);
    assert!(!c.satisfied(&clash));
}

#[test]
fn map_coloring_is_vacuous_on_missing_scope_variables() {
    let c = MapColoringConstraint::new(s("P"), s("Q"));
    let empty: Assignment<String, String> = Assignment::new();
    assert!(c.satisfied(&empty));
    let mut one: Assignment<String, String> = Assignment::new();
    one.insert(s("P"), s("red"));
    assert!(c.satisfied(&one));
    let mut same: Assignment<String, String> = Assignment::new();
    same.insert(s("P"), s("red"));
    same.insert(s("Q"), s("red"));
    assert!(!c.satisfied(&same));
    let mut diff: Assignment<String, String> = Assignment::new();
    diff.insert(s("P"), s("red"));
    diff.insert(s("Q"), s("green"));
    assert!(c.satisfied(&diff));
}

#[test]
fn seeded_search_extends_the_seed() {
    let variables = vec![s("A"), s("B"), s("C")];
    let domains: Vec<(String, Vec<i32>)> = vec![
        (s("A"), vec![1, 2, 3]),
        (s("B"), vec![1, 2, 3]),
        (s("C"), vec![1, 2, 3]),
    ];
    let mut csp = CSP::new(variables, domains).unwrap();
    csp.add_constraint(NotEqualConstraint::new(vec![s("A"), s("B")]))
        .unwrap();
    csp.add_constraint(NotEqualConstraint::new(vec![s("B"), s("C")]))
        .unwrap();
    let mut seed: Assignment<String, i32> = Assignment::new();
    seed.insert(s("B"), 3);
    let solution = csp.backtracking_search(seed).unwrap();
    assert_eq!(solution.get(&s("B")), Some(&3));
    assert_eq!(solution.len(), 3);
    assert_ne!(solution.get(&s("A")), solution.get(&s("B")));
    assert_ne!(solution.get(&s("B")), solution.get(&s("C")));
}

#[test]
fn solutions_draw_values_from_the_domains() {
    let variables = vec![s("A"), s("B")];
    let domains: Vec<(String, Vec<i32>)> =
        vec![(s("A"), vec![7]), (s("B"), vec![9, 7])];
    let csp: CSP<String, i32, NotEqualConstraint<String>> =
        CSP::new(variables, domains).unwrap();
    let solution = csp.backtracking_search(Assignment::new()).unwrap();
    assert_eq!(solution.get(&s("A")), Some(&7));
    assert_eq!(solution.get(&s("B")), Some(&9));
    assert!(!solution.contains_key(&s("C")));
}

#[test]
fn assignment_behaves_like_a_map() {
    let mut a: Assignment<String, i32> = Assignment::new();
    assert_eq!(a.len(), 0);
    assert!(!a.contains_key(&s("k")));
    a.insert(s("k"), 5);
    assert_eq!(a.get(&s("k")), Some(&5));
    assert_eq!(a.len(), 1);
    a.insert(s("k"), 6);
    assert_eq!(a.get(&s("k")), Some(&6));
    assert_eq!(a.len(), 1);
    let b = a.dup();
    assert_eq!(b.get(&s("k")), Some(&6));
}
