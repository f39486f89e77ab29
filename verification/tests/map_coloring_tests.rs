use csp_solver::assignment::Assignment;
use csp_solver::csp::CSP;
use csp_solver::map_coloring::MapColoringConstraint;

fn s(x: &str) -> String {
    x.to_string()
}

#[test]
fn test_australia_map_coloring() {
    // Define the variables (regions) and their domains (colors)
    let variables = vec![
        s("Western Australia"),
        s("Northern Territory"),
        s("South Australia"),
        s("Queensland"),
        s("New South Wales"),
        s("Victoria"),
        s("Tasmania"),
    ];

    let domains: Vec<(String, Vec<String>)> = vec![
        (s("Western Australia"), vec![s("red"), s("green"), s("blue")]),
        (s("Northern Territory"), vec![s("red"), s("green"), s("blue")]),
        (s("South Australia"), vec![s("red"), s("green"), s("blue")]),
        (s("Queensland"), vec![s("red"), s("green"), s("blue")]),
        (s("New South Wales"), vec![s("red"), s("green"), s("blue")]),
        (s("Victoria"), vec![s("red"), s("green"), s("blue")]),
        (s("Tasmania"), vec![s("red"), s("green"), s("blue")]),
    ];

    // Define the constraints (no two adjacent regions should share a color)
    let constraints = vec![
        MapColoringConstraint::new(s("Western Australia"), s("Northern Territory")),
        MapColoringConstraint::new(s("Western Australia"), s("South Australia")),
        MapColoringConstraint::new(s("Northern Territory"), s("South Australia")),
        MapColoringConstraint::new(s("Northern Territory"), s("Queensland")),
        MapColoringConstraint::new(s("South Australia"), s("Queensland")),
        MapColoringConstraint::new(s("South Australia"), s("New South Wales")),
        MapColoringConstraint::new(s("South Australia"), s("Victoria")),
        MapColoringConstraint::new(s("Queensland"), s("New South Wales")),
        MapColoringConstraint::new(s("New South Wales"), s("Victoria")),
        MapColoringConstraint::new(s("Victoria"), s("Tasmania")),
    ];

    // Create the CSP and solve it using backtracking search
    let mut csp = match CSP::new(variables, domains) {
        Ok(c) => c,
        Err(_) => panic!("construction failed"),
    };

    for constraint in constraints.iter() {
        assert!(csp.add_constraint((*constraint).clone()).is_ok());
    }

    let solution = csp.backtracking_search(Assignment::new());

    // Check that the solution is valid (no two adjacent regions share a color)
    assert!(solution.is_some());

    let solution = solution.unwrap();

    assert_eq!(solution.len(), 7);

    assert!(solution
        .get(&s("Western Australia"))
        .ne(&solution.get(&s("Northern Territory"))));

    assert!(solution
        .get(&s("Western Australia"))
        .ne(&solution.get(&s("South Australia"))));

    assert!(solution
        .get(&s("Northern Territory"))
        .ne(&solution.get(&s("South Australia"))));

    assert!(solution
        .get(&s("Northern Territory"))
        .ne(&solution.get(&s("Queensland"))));

    assert!(solution
        .get(&s("South Australia"))
        .ne(&solution.get(&s("Queensland"))));

    assert!(solution
        .get(&s("South Australia"))
        .ne(&solution.get(&s("New South Wales"))));

    assert!(solution
        .get(&s("South Australia"))
        .ne(&solution.get(&s("Victoria"))));

    assert!(solution
        .get(&s("Queensland"))
        .ne(&solution.get(&s("New South Wales"))));

    assert!(solution
        .get(&s("New South Wales"))
        .ne(&solution.get(&s("Victoria"))));

    assert!(solution.get(&s("Victoria")).ne(&solution.get(&s("Tasmania"))));
}
