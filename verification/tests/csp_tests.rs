use csp_solver::assignment::Assignment;
use csp_solver::csp::CSP;
use csp_solver::not_equal::NotEqualConstraint;

fn s(x: &str) -> String {
    x.to_string()
}

#[test]
fn test_csp() {
    let variables = vec![s("A"), s("B"), s("C")];
    let domains: Vec<(String, Vec<i32>)> = vec![
        (s("A"), vec![1, 2, 3]),
        (s("B"), vec![1, 2, 3]),
        (s("C"), vec![1, 2, 3]),
    ];

    let mut csp = match CSP::new(variables, domains) {
        Ok(c) => c,
        Err(_) => panic!("construction failed"),
    };

    let a_b_not_equal = NotEqualConstraint::new(vec![s("A"), s("B")]);
    let b_c_not_equal = NotEqualConstraint::new(vec![s("B"), s("C")]);
    let a_c_not_equal = NotEqualConstraint::new(vec![s("A"), s("C")]);

    assert!(csp.add_constraint(a_b_not_equal).is_ok());
    assert!(csp.add_constraint(b_c_not_equal).is_ok());
    assert!(csp.add_constraint(a_c_not_equal).is_ok());

    let result = csp.backtracking_search(Assignment::new());

    assert!(result.is_some());

    let mut expected: Assignment<String, i32> = Assignment::new();
    expected.insert(s("A"), 1);
    expected.insert(s("B"), 2);
    expected.insert(s("C"), 3);

    assert_eq!(result.unwrap(), expected);
}
