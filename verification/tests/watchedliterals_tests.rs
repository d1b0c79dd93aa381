use satsolver::assignment::Assignment;
use satsolver::cnf::LiteralTpl;
use satsolver::input::parse_cnf_from_str;
use satsolver::watchedliterals::{
    CheckClauseAfterUpdateResult, FindOtherSuitableLiteral, UpdateResult, WatchedLiterals,
};

fn two_literal_eq((a0, a1): (LiteralTpl, LiteralTpl), b0: LiteralTpl, b1: LiteralTpl) -> bool {
    (a0 == b0 && a1 == b1) || (a0 == b1 && a1 == b0)
}

#[test]
fn test_watchedliteral_new() {
    let cnf = parse_cnf_from_str("false\n1\n-15\n2 3\n1 -4\n1 2 3\n-4 5 -6").unwrap();
    let wl = WatchedLiterals::new(&cnf);

    // the watched pairs
    assert_eq!(wl.watched_pair(0), None);
    assert_eq!(wl.watched_pair(1), None);
    assert_eq!(wl.watched_pair(2), None);
    assert!(two_literal_eq(wl.watched_pair(3).unwrap(), (2, true), (3, true)));
    assert!(two_literal_eq(wl.watched_pair(4).unwrap(), (1, true), (4, false)));
    assert!(two_literal_eq(wl.watched_pair(5).unwrap(), (1, true), (2, true)));
    assert!(two_literal_eq(wl.watched_pair(6).unwrap(), (4, false), (5, true)));

    // the access map
    assert_eq!(wl.watchers((1, true)), vec![4, 5]);
    assert_eq!(wl.watchers((2, true)), vec![3, 5]);
    assert_eq!(wl.watchers((3, true)), vec![3]);
    assert_eq!(wl.watchers((4, false)), vec![4, 6]);
    assert_eq!(wl.watchers((5, true)), vec![6]);
    // literals of unwatched clauses have no entry
    assert_eq!(wl.watchers((1, false)), Vec::<usize>::new());
    assert_eq!(wl.watchers((15, false)), Vec::<usize>::new());
    assert_eq!(wl.watchers((6, false)), Vec::<usize>::new());
}

#[test]
fn test_watchedliteral_replacement() {
    let cnf = parse_cnf_from_str("2 3\n1 -4\n1 2 3\n-4 5 -6").unwrap();

    assert_eq!(
        WatchedLiterals::find_replacement_literal(
            &cnf.clauses[0],
            &Assignment::new().with(2, false),
            (3, true)
        ),
        FindOtherSuitableLiteral::UnitClauseWithGiven
    );

    assert_eq!(
        WatchedLiterals::find_replacement_literal(
            &cnf.clauses[3],
            &Assignment::new().with(4, true).with(6, true),
            (5, true)
        ),
        FindOtherSuitableLiteral::UnitClauseWithGiven
    );

    assert_eq!(
        WatchedLiterals::find_replacement_literal(
            &cnf.clauses[3],
            &Assignment::new().with(4, true).with(6, true),
            (6, false)
        ),
        FindOtherSuitableLiteral::UnitClause((5, true))
    );

    assert_eq!(
        WatchedLiterals::find_replacement_literal(
            &cnf.clauses[3],
            &Assignment::new().with(4, true).with(6, false),
            (6, false)
        ),
        FindOtherSuitableLiteral::GivenLiteralSatisfying
    );

    assert_eq!(
        WatchedLiterals::find_replacement_literal(
            &cnf.clauses[3],
            &Assignment::new().with(4, true).with(6, false),
            (5, true)
        ),
        FindOtherSuitableLiteral::OtherLiteralSatisfying((6, false))
    );

    assert_eq!(
        WatchedLiterals::find_replacement_literal(
            &cnf.clauses[3],
            &Assignment::new().with(6, true),
            (5, true)
        ),
        FindOtherSuitableLiteral::MultipleUnassigned((4, false))
    );

    assert_eq!(
        WatchedLiterals::find_replacement_literal(
            &cnf.clauses[3],
            &Assignment::new().with(4, true).with(5, false).with(6, true),
            (5, true)
        ),
        FindOtherSuitableLiteral::UnsatisfiableClause
    );
}

#[test]
fn test_watchedliteral_checkclauseafterupdate_simple() {
    let cnf = parse_cnf_from_str("2 3\n1 -4\n1 2 3\n-4 5 -6").unwrap();
    let mut wl = WatchedLiterals::new(&cnf);
    let mut propagations = Vec::new();
    let result = wl.check_clause_after_update(
        0,
        &cnf.clauses[0],
        &Assignment::new().with(2, false),
        (2, false),
        &mut propagations,
    );

    // check correct result: the literal is kept, as the other (3) is now
    // forced to be satisfying
    assert_eq!(result, CheckClauseAfterUpdateResult::KeepLiteral);

    // test correct propagations
    assert_eq!(propagations, vec![(3, true)]);
}

#[test]
fn test_watchedliteral_update_simple() {
    let cnf = parse_cnf_from_str("2 3").unwrap();
    let mut wl = WatchedLiterals::new(&cnf);
    let result = wl.update(&cnf, &Assignment::new().with(2, false), (2, false));

    assert!(matches!(
    result,
    UpdateResult::Satisfiable {
        propagations
    } if propagations == vec![(3, true)]));
}

#[test]
fn test_watchedliteral_update_multi() {
    let cnf = parse_cnf_from_str("2 3 -4 5 -6").unwrap();
    let mut wl = WatchedLiterals::new(&cnf);
    let mut assignment = Assignment::new();

    // watched: 2 3
    assignment.change(5, false);
    let result = wl.update(&cnf, &assignment, (5, false));
    assert_eq!(
        result,
        UpdateResult::Satisfiable {
            propagations: vec![]
        }
    );

    // watched: 2 3
    assignment.change(3, false);
    let result = wl.update(&cnf, &assignment, (3, false));
    assert_eq!(
        result,
        UpdateResult::Satisfiable {
            propagations: vec![]
        }
    );
    let (lit0, lit1) = wl.watched_pair(0).unwrap();
    assert!([lit0, lit1].contains(&(2, true)));
    assert!([lit0, lit1].contains(&(4, false)) || [lit0, lit1].contains(&(6, false)));
}

#[test]
fn test_watchedliteral_replace() {
    let mut wl = WatchedLiterals::new(&parse_cnf_from_str("1 2 3").unwrap());
    wl.replace_watched_literal(0, (2, true), (3, true));

    assert_eq!(wl.watched_pair(0), Some(((1, true), (3, true))));
    assert_eq!(wl.watchers((1, true)), vec![0]);
    assert_eq!(wl.watchers((2, true)), Vec::<usize>::new());
    assert_eq!(wl.watchers((3, true)), vec![0]);
}

#[test]
fn test_watchedliterals_prop() {
    let _wl = WatchedLiterals::new(&parse_cnf_from_str("1 2 3\n-2 4\n-3\n-4 -1 -5").unwrap());
}
