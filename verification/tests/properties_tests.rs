use satsolver::assignment::Assignment;
use satsolver::cnf::Cnf;
use satsolver::input::parse_cnf_from_str;
use satsolver::satsolve::is_satisfiable;

/// Exhaustively searches for a satisfying assignment over the variables
/// 1..=highest_var, as an independent reference for the solver's verdict.
fn brute_force_has_model(cnf: &Cnf) -> bool {
    let n = cnf.highest_var() as u64;
    assert!(n <= 20, "brute force only covers small formulas");
    for bits in 0..(1u64 << n) {
        let mut a = Assignment::new();
        for v in 1..=n {
            a.change(v as u32, bits & (1 << (v - 1)) != 0);
        }
        if cnf.is_satisfied(&a) {
            return true;
        }
    }
    // the empty assignment covers formulas without variables
    cnf.is_satisfied(&Assignment::new())
}

fn check_against_brute_force(text: &str) -> bool {
    let cnf = parse_cnf_from_str(text).unwrap();
    let (verdict, _stats) = is_satisfiable(&cnf);
    assert_eq!(verdict, brute_force_has_model(&cnf), "on input {:?}", text);
    verdict
}

#[test]
fn scenario_empty_input_is_sat() {
    let (verdict, stats) = is_satisfiable(&parse_cnf_from_str("").unwrap());
    assert!(verdict);
    // the empty formula needs no evaluation at all
    assert_eq!(stats.tries, 0);
}

#[test]
fn scenario_empty_clause_is_unsat() {
    let (verdict, stats) = is_satisfiable(&parse_cnf_from_str("false").unwrap());
    assert!(!verdict);
    // an empty clause is decided without any propagation or evaluation
    assert_eq!(stats.tries, 0);
}

#[test]
fn scenario_single_positive_literal() {
    assert!(check_against_brute_force("1"));
}

#[test]
fn scenario_contradicting_singletons() {
    let (verdict, stats) = is_satisfiable(&parse_cnf_from_str("1\n-1").unwrap());
    assert!(!verdict);
    // detected while gathering singleton clauses, before any decision
    assert_eq!(stats.tries, 0);
}

#[test]
fn scenario_all_polarities_blocked() {
    assert!(!check_against_brute_force("1 2 3\n-1\n-2\n-3"));
}

#[test]
fn scenario_propagation_chain() {
    let verdict = check_against_brute_force("-1 -2 -3 4\n1\n2\n3");
    assert!(verdict);
}

#[test]
fn scenario_mixed_clauses() {
    assert!(check_against_brute_force("1 2 3\n-2 -3\n-3 2\n-1"));
}

#[test]
fn both_polarities_of_one_variable_are_sat() {
    // a formula of one clause with one literal is satisfiable either way
    assert!(is_satisfiable(&parse_cnf_from_str("1").unwrap()).0);
    assert!(is_satisfiable(&parse_cnf_from_str("-1").unwrap()).0);
}

#[test]
fn unit_clauses_settle_without_decision() {
    // all clauses are singletons: propagation of the initial assignment
    // decides the formula with the single initial evaluation
    let (verdict, stats) = is_satisfiable(&parse_cnf_from_str("1\n-2\n3").unwrap());
    assert!(verdict);
    assert_eq!(stats.tries, 1);
}

#[test]
fn only_model_needs_flipped_root() {
    // every model sets variable 1 true, but the search tries false first:
    // the verdict needs the root decision flipped
    assert!(check_against_brute_force("1 2\n1 -2"));
}

#[test]
fn deep_backtracking_formulas() {
    assert!(check_against_brute_force("1 2 3\n4 5 6\n7 8 9"));
    assert!(check_against_brute_force("-1 -2 -3\n-4 -5 -6\n-7 -8 -9"));
    assert!(!check_against_brute_force("-1 2 -3\n1\n-2\n3"));
    assert!(check_against_brute_force("1 2 3 4\n-2 -3\n-3\n-1"));
}

#[test]
fn assignment_with_extends_functionally() {
    // the extension carries the new value; other variables are unchanged;
    // the original assignment is untouched
    let a = Assignment::new().with(3, true).with(7, false);
    let b = a.with(5, true);
    assert_eq!(b.get(5), Some(true));
    assert_eq!(b.get(3), Some(true));
    assert_eq!(b.get(7), Some(false));
    assert_eq!(b.get(4), None);
    assert_eq!(a.get(5), None);
    let c = a.with(7, true);
    assert_eq!(c.get(7), Some(true));
    assert_eq!(a.get(7), Some(false));
}

#[test]
fn assignment_operations() {
    let mut a = Assignment::new();
    assert_eq!(a.highest_assigned_var(), None);
    a.change(4, true);
    a.change(2, false);
    assert_eq!(a.get_lit((4, true)), Some(true));
    assert_eq!(a.get_lit((4, false)), Some(false));
    assert_eq!(a.get_lit((9, true)), None);
    assert!(a.satisfies((2, false)));
    assert!(!a.satisfies((2, true)));
    assert!(!a.satisfies((9, true)));
    assert_eq!(a.highest_assigned_var(), Some(4));
    a.change(4, false);
    assert_eq!(a.get(4), Some(false));
    let b = a.with_all(&vec![(1, true), (2, true)]);
    assert_eq!(b.get(1), Some(true));
    assert_eq!(b.get(2), Some(true));
    assert_eq!(b.get(4), Some(false));
}

#[test]
fn clause_and_cnf_queries() {
    let cnf = parse_cnf_from_str("1 -2\nfalse\n3").unwrap();
    assert_eq!(cnf.highest_var(), 3);
    assert!(!cnf.clauses[0].is_empty());
    assert!(cnf.clauses[1].is_empty());
    assert_eq!(cnf.clauses[0].get(1), Some(true));
    assert_eq!(cnf.clauses[0].get(2), Some(false));
    assert_eq!(cnf.clauses[0].get(3), None);
    assert_eq!(cnf.clauses[0].literals(), vec![(1, true), (2, false)]);
    let a = Assignment::new().with(1, false).with(2, false).with(3, true);
    assert!(cnf.clauses[0].is_satisfied(&a));
    // the empty clause can never be satisfied
    assert!(!cnf.clauses[1].is_satisfied(&a));
    assert!(!cnf.is_satisfied(&a));
}
