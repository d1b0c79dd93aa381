use satsolver::cnf::{Clause, Cnf};
use satsolver::input::{parse_cnf_from_str, print_cnf_to_str};

#[test]
fn test_parse_empty_formula() {
    assert_eq!(parse_cnf_from_str(""), Some(Cnf::new()));
    assert_eq!(parse_cnf_from_str("    "), Some(Cnf::new()));
}

#[test]
fn test_parse_empty_clauses() {
    assert_eq!(
        parse_cnf_from_str("false\n"),
        Some(Cnf::new_with(vec![Clause::new()]))
    );
    assert_eq!(
        parse_cnf_from_str("1\nfalse\n2"),
        Some(Cnf::new_with(vec![
            {
                let mut cls = Clause::new();
                cls.add_positive(1);
                cls
            },
            Clause::new(),
            {
                let mut cls = Clause::new();
                cls.add_positive(2);
                cls
            }
        ]))
    );
}

#[test]
fn test_parse() {
    let (mut cls0, mut cls1, mut cls2) = (Clause::new(), Clause::new(), Clause::new());
    cls0.add_positive(1);
    cls0.add_positive(2);
    cls0.add_positive(4);
    cls0.add_negative(3);
    cls0.add_negative(5);
    cls0.add_negative(6);

    cls1.add_negative(7);
    cls1.add_negative(8);
    cls1.add_negative(9);

    cls2.add_positive(10);
    cls2.add_negative(11);
    cls2.add_positive(12);

    assert_eq!(
        parse_cnf_from_str(
            "1 2 -3 4 -5 -6
        -7 -8 -9
        10 -11 12"
        ),
        Some(Cnf::new_with(vec![cls0, cls1, cls2]))
    );
}

#[test]
fn test_parse_signs_and_rejects() {
    // explicit plus signs are accepted
    let parsed = parse_cnf_from_str("+1 -2").unwrap();
    assert_eq!(parsed.clauses.len(), 1);
    assert_eq!(parsed.clauses[0].get(1), Some(true));
    assert_eq!(parsed.clauses[0].get(2), Some(false));
    // zero is not a variable
    assert_eq!(parse_cnf_from_str("0"), None);
    assert_eq!(parse_cnf_from_str("1 0 2"), None);
    // non-numeric tokens are rejected
    assert_eq!(parse_cnf_from_str("abc"), None);
    assert_eq!(parse_cnf_from_str("1.5"), None);
    assert_eq!(parse_cnf_from_str("--1"), None);
    assert_eq!(parse_cnf_from_str("+"), None);
    // `false` only stands alone
    assert_eq!(parse_cnf_from_str("false 1"), None);
    // a variable with both polarities in one clause is rejected
    assert_eq!(parse_cnf_from_str("1 -1"), None);
    // a repeated literal is kept once
    let parsed = parse_cnf_from_str("3 3 -4 -4").unwrap();
    assert_eq!(parsed.clauses[0].positives(), vec![3]);
    assert_eq!(parsed.clauses[0].negatives(), vec![4]);
}

#[test]
fn test_parse_variable_range() {
    // the largest representable variable is accepted
    let parsed = parse_cnf_from_str("4294967295").unwrap();
    assert_eq!(parsed.highest_var(), u32::MAX);
    // one past it is rejected
    assert_eq!(parse_cnf_from_str("4294967296"), None);
}

#[test]
fn test_print_format() {
    let cnf = parse_cnf_from_str("1 2 -3").unwrap();
    assert_eq!(print_cnf_to_str(&cnf), "1 2 -3\n");
    let cnf = parse_cnf_from_str("false").unwrap();
    assert_eq!(print_cnf_to_str(&cnf), "false\n");
    let cnf = parse_cnf_from_str("").unwrap();
    assert_eq!(print_cnf_to_str(&cnf), "");
    let cnf = parse_cnf_from_str("-10 42").unwrap();
    assert_eq!(print_cnf_to_str(&cnf), "42 -10\n");
}

#[test]
fn test_print_parse_round_trip() {
    let texts = [
        "",
        "false\n",
        "1",
        "1 2 -3\n-4 5\nfalse\n6",
        "4294967295 -123456789",
        "1 2 3\n-2 -3\n-3 2\n-1",
    ];
    for text in texts {
        let cnf = parse_cnf_from_str(text).unwrap();
        let printed = print_cnf_to_str(&cnf);
        let reparsed = parse_cnf_from_str(&printed).unwrap();
        assert_eq!(reparsed, cnf, "round trip through {:?}", printed);
    }
}

#[test]
fn test_clause_equality_ignores_order() {
    // clause equality is set equality: insertion order does not matter
    let mut a = Clause::new();
    a.add_positive(1);
    a.add_positive(2);
    a.add_negative(3);
    let mut b = Clause::new();
    b.add_positive(2);
    b.add_negative(3);
    b.add_positive(1);
    assert_eq!(a, b);
    let mut c = Clause::new();
    c.add_positive(1);
    c.add_positive(2);
    assert_ne!(a, c);
    assert_eq!(
        parse_cnf_from_str("1 2 -3"),
        parse_cnf_from_str("-3 2 1")
    );
}
