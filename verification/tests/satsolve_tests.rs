use satsolver::assignment::Assignment;
use satsolver::cnf::Cnf;
use satsolver::input::parse_cnf_from_str;
use satsolver::satsolve::{backtrack, is_satisfiable, BacktrackResult, DecisionLevel};

#[test]
fn test_sat_sanity() {
    assert!(is_satisfiable(&Cnf::new()).0);
    assert!(!is_satisfiable(&parse_cnf_from_str("false").unwrap()).0);
    assert!(!is_satisfiable(&parse_cnf_from_str("1\nfalse").unwrap()).0);
    assert!(!is_satisfiable(&parse_cnf_from_str("-1\nfalse").unwrap()).0);
    assert!(!is_satisfiable(&parse_cnf_from_str("false\n1").unwrap()).0);
    assert!(!is_satisfiable(&parse_cnf_from_str("false\n-1").unwrap()).0);
    assert!(is_satisfiable(&parse_cnf_from_str("1").unwrap()).0);
}

#[test]
fn test_sat_deep_dl() {
    assert!(is_satisfiable(&parse_cnf_from_str("1 2 3\n4 5 6\n7 8 9").unwrap()).0);
    assert!(is_satisfiable(&parse_cnf_from_str("-1 -2 -3\n-4 -5 -6\n-7 -8 -9").unwrap()).0);
    assert!(is_satisfiable(&parse_cnf_from_str("-1 -2 -3 4\n1\n2\n3").unwrap()).0);
    assert!(!is_satisfiable(&parse_cnf_from_str("1 2 3\n-1\n-2\n-3").unwrap()).0);
    assert!(!is_satisfiable(&parse_cnf_from_str("-1 2 -3\n1\n-2\n3").unwrap()).0);
}

#[test]
fn test_sat() {
    assert!(is_satisfiable(&parse_cnf_from_str("1 2 3\n-2 -3\n-3\n-1").unwrap()).0);
    assert!(is_satisfiable(&parse_cnf_from_str("1 2 3 4\n-2 -3\n-3\n-1").unwrap()).0);
    assert!(is_satisfiable(&parse_cnf_from_str("1 2 3\n-2 -3\n-3 2\n-1").unwrap()).0);
}

#[test]
fn test_sat_large() {
    let input = r"-02 -08 -10 +11 -12 -13 -14 +17 -19
        -01 -02 -03 -04 -05 -06 +07 -08 +09 +10 -11 -12 -13 +14 -15 -16 +17 -18 -19
        -15
        -01 -02 -06 -09 +10 +14 -15 -16 +17
        +01 +02 -03 -04 +05 -06 -07 +09 -10 -11 +12 -13 -14 -15 +16 +17 -18 -19
        -01 +02 -04 -06 -07 +08 -09 +12 +13 +15 -16 -19
        +01 -02 +03 +04 -05 +06 +07 -08 +09 -10 +12 +13 +14 +15 -17 +18 +19
        +01 -02 -03 -04 +05 +06 -07 -08 -09 +10 +11 +12 +13 +14 -15 -16 -17 -18 +19
        +01 +15 +18
        -09 -12 +17
        -01 +09 +19
        -06 +09 +17
        +01 -11 +14
        +02 +05 -07 -10 +14
        +02 +03 +04 -05 -06 -07 -08 -09 +10 +14 -15 +16 +17 +19
        +02 -03 +04 +08 +09 +12 +15 -17
        -01 -02 +03 +04 +05 +06 -07 +08 -09 +10 +11 +12 -13 -14 +15 +16 +17 +18 -19
        -01 -02 -03 +04 -05 +07 +08 -09 +10 -12 -13 -15 +18 +19
        -13 -16 +18
        -05 +14
        -01 +02 +03 -04 -05 +06 -07 +08 +09 +10 +11 -12 +13 +14 +15 +16 +17 -18
        +01 +02 -03 +04 +05 +06 -07 +08 +10 +11 -12 -13 +14 +15 +18 -19
        +01 +04 -07 +10 -11 +12 -18 +19
        -01 -06 -08 +11 -14 -18
        -01 +05 -06 -07 +08 -12 +13 +14 +15 +16 -19
        +01 +02 +03 -04 +05 -08 +09 -11 -12 +13 -14 -15 +16 -17 -18 -19
        -02 +05 +06 -08 +11 +14 -17 -18 +19
        -01 +02 -03 +04 +05 -06 -07 +08 +09 +11 -13 +14 +15 +16 +18 -19
        +01 +02 +04 +05 -06 +08 -09 +14 +15 -16 +17
        -04 +09 -11 -14 +17 -18
        -03 -08 +09 +15 -18
        +01 -02 +04 -05 -06 +07 +08 -11 +12 +13 +14 +15 +16 -17 +19
        -02 +03 -04 +05 -06 -07 +08 -10 +11 -12 -13 +14 +15 -18 -19
        +01 +02 -03 +04 +05 +06 -07 +08 +09 +10 -11 -12 -13 -14 +15 -16 +18 -19
        +03 +04 +05 -07 +09 +10 -12 -13 +15 -16 +19
        -01 +02 +04 -05 +06 -07 +08 -09 -11 +12 -13 +16 +17 -18 -19
        +07 -18
        +01 +02 +03 -04 +05 +06 -07 -09 -10 +11 -13 +14 +15 -16 -17 -18 +19
        +01 -02 +05 +09 +12 +14 -15
        +08 +16
        +02 -04 -06 -07 +08 +09 +10 +13 +14 +16 +17 -19
        +01 +03 +06 +10 -13 +16 -18
        +01 +02 -03 +04 -05 -06 +07 -08 +09 +10 -11 -12 -13 +14 -15 -16 -17 -18
        +01 +02 +03 -04 +05 +06 +07 +08 -09 +10 -11 +12 +13 +14 -15 +16 +17 +18
        +02 +06 -10 -11 +13 +14 +15 +19
        -01 +02 +03 +04 -05 -06 +07 +08 +10 +11 -12 +13 +14 +15 +16 +18 +19
        +01 -05 -06 +07 +08 -09 -10 -11 +12 -13 -14 +15 +16 +17 -18 -19
        -02 +03 -04 -05 -06 -07 +10 +13 -14 -18 +19
        -01 -02 +03 +05 +06 -07 -08 -09 +10 -12 -13 -14 +15 +16 +18 -19
        +01 +03 -04 +05 -08 -09 +11 -12 +13 -14 +15 -16 -17 +19
        -04 -12 +19
        -03 -11 +12
        +01 -07 -19
        -01 +10 -11 +15 +18
        -01 -03 +04 -05 +07 -08 +11 -12 +14 +15 +16 +18
        +01 -02 +03 +08 -10 +11 -14 +16
        +02 +07 -08 +10 +15 +17
        -01 +05 +07 -08 -09 +12 -15 +18
        -07 +18
        -01 -02 -03 -04 -05 -06 -07 -08 -10 -12 +15 +16 +17 +19
        +11
        -02 -04 +06 +08 -12 -16 -18
        -01 +02 +03 -04 +05 +06 +07 -09 -10 +11 +12 +16 -17 +19
        +07 +08 -12
        -02 -11 +15
        +02 -03 +05 +06 -09 -10 +11 -14 +15 +17 -18 +19
        +01 -02 +04 -05 -06 +07 -08 -09 +10 -12 +14 -15 +16 -17 +18 +19
        -01 +02 -03 +04 +05 -06 -07 +08 -09 +10 +11 +12 -13 +14 -15 +16 -17 +18 +19"
        .trim_start();

    let cnf = parse_cnf_from_str(&input).unwrap();
    // e.g.: -1 -2 -3 -4 -5 -6 7 -8 -9 -10 11 12 -13 14 -15 16 -17 18 -19
    assert!(is_satisfiable(&cnf).0);
}

#[test]
fn test_backtrack_empty() {
    let mut dls = vec![];
    assert!(matches!(
        backtrack(&mut dls),
        BacktrackResult::UnsatisfiableFormula
    ));
    assert!(dls.is_empty());
}

#[test]
fn test_backtrack_one_completed() {
    let mut dls = vec![DecisionLevel {
        assignment: Assignment::new_with(100, true),
        changed_var: 100,
        next_var_at_least: 0,
        flipped: true,
    }];

    assert!(matches!(
        backtrack(&mut dls),
        BacktrackResult::UnsatisfiableFormula
    ));
    assert!(dls.is_empty());
}

#[test]
fn test_backtrack_multiple_completed() {
    let mut dls = vec![
        DecisionLevel {
            assignment: Assignment::new_with(100, true),
            changed_var: 100,
            next_var_at_least: 0,
            flipped: true,
        },
        DecisionLevel {
            assignment: Assignment::new_with(10, true),
            changed_var: 10,
            next_var_at_least: 0,
            flipped: true,
        },
        DecisionLevel {
            assignment: Assignment::new_with(50, true),
            changed_var: 50,
            next_var_at_least: 0,
            flipped: true,
        },
        DecisionLevel {
            assignment: Assignment::new_with(120, true),
            changed_var: 120,
            next_var_at_least: 0,
            flipped: true,
        },
    ];

    assert!(matches!(
        backtrack(&mut dls),
        BacktrackResult::UnsatisfiableFormula
    ));

    assert!(dls.is_empty());
}

#[test]
fn test_backtrack_one_not_flipped() {
    let mut dls = vec![DecisionLevel {
        assignment: Assignment::new_with(100, true),
        changed_var: 100,
        next_var_at_least: 0,
        flipped: false,
    }];

    assert!(matches!(
        backtrack(&mut dls),
        BacktrackResult::ContinueWith((100, false))
    ));
    assert_eq!(
        dls,
        vec![DecisionLevel {
            assignment: Assignment::new_with(100, false),
            changed_var: 100,
            next_var_at_least: 0,
            flipped: true,
        }]
    );
}

#[test]
fn test_backtrack_multiple_not_flipped() {
    let mut dls = vec![
        DecisionLevel {
            assignment: Assignment::new_with(100, true),
            changed_var: 100,
            next_var_at_least: 0,
            flipped: false,
        },
        DecisionLevel {
            assignment: Assignment::new_with(100, true).with(50, false),
            changed_var: 50,
            next_var_at_least: 0,
            flipped: false,
        },
        DecisionLevel {
            assignment: Assignment::new_with(100, true)
                .with(50, false)
                .with(120, true),
            changed_var: 120,
            next_var_at_least: 0,
            flipped: true,
        },
    ];

    assert!(matches!(
        backtrack(&mut dls),
        BacktrackResult::ContinueWith((50, true))
    ));
    assert_eq!(
        dls,
        vec![
            DecisionLevel {
                assignment: Assignment::new_with(100, true),
                changed_var: 100,
                next_var_at_least: 0,
                flipped: false,
            },
            DecisionLevel {
                assignment: Assignment::new_with(100, true).with(50, true),
                changed_var: 50,
                next_var_at_least: 0,
                flipped: true,
            },
        ]
    );
}
