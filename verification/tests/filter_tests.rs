use csv::StringRecord;
use csvpeek::error::{ColumnSuggestion, CsvpeekError};
use csvpeek::filter::{CompareOp, Expr, Filter, Literal};
use csvpeek::parser::{find_operator, parse_array, parse_func_args};
use csvpeek::text::to_chars;

fn text(v: &[char]) -> String {
    v.iter().collect()
}

fn header() -> StringRecord {
    StringRecord::from(vec!["id", "name", "age", "salary", "active", "status"])
}

fn people() -> Vec<StringRecord> {
    vec![
        StringRecord::from(vec!["1", "Alice", "30", "50000.50", "true", "VIP"]),
        StringRecord::from(vec!["2", "Bob", "25", "45000", "false", "basic"]),
        StringRecord::from(vec!["3", "Charlie", "35", "60000.75", "true", "basic"]),
        StringRecord::from(vec!["4", "Diana", "28", "", "true", "VIP"]),
        StringRecord::from(vec!["5", "Eve", "42", "75000", "false", "n/a"]),
    ]
}

fn compile(filter: &str) -> Filter {
    Filter::parse(filter, &header()).expect("a filter")
}

fn count(filter: &str) -> usize {
    let f = compile(filter);
    let h = header();
    people().iter().filter(|r| f.matches(r, &h).unwrap()).count()
}

fn failure(filter: &str) -> CsvpeekError {
    Filter::parse(filter, &header()).expect_err("no filter")
}

#[test]
fn comparisons_with_numbers() {
    assert_eq!(count("age > 30"), 2);
    assert_eq!(count("age >= 30"), 3);
    assert_eq!(count("age < 30"), 2);
    assert_eq!(count("age <= 30"), 3);
    assert_eq!(count("age == 30"), 1);
    assert_eq!(count("age != 30"), 4);
    assert_eq!(count("age == 30.0"), 1);
    assert_eq!(count("age == 3e1"), 1);
    assert_eq!(count("salary > 50000"), 3);
    assert_eq!(count("salary >= 50000.5"), 3);
    assert_eq!(count("salary < 1e5"), 4);
}

#[test]
fn a_cell_that_is_no_number_fails_every_numeric_comparison() {
    assert_eq!(count("name > 5"), 0);
    assert_eq!(count("name != 5"), 0);
    assert_eq!(count("salary != 0"), 4);
    assert_eq!(count("salary == 0"), 0);
}

#[test]
fn comparisons_with_texts() {
    assert_eq!(count("name == \"Alice\""), 1);
    assert_eq!(count("name == Alice"), 1);
    assert_eq!(count("name != \"Alice\""), 4);
    assert_eq!(count("name < \"Bob\""), 1);
    assert_eq!(count("name <= \"Bob\""), 2);
    assert_eq!(count("name > \"Charlie\""), 2);
    assert_eq!(count("name >= \"Charlie\""), 3);
    assert_eq!(count("active == true"), 3);
    assert_eq!(count("name == \"alice\""), 0);
}

#[test]
fn quoted_numbers_are_texts() {
    assert_eq!(count("age == \"30\""), 1);
    assert_eq!(count("age == \"30.0\""), 0);
    assert_eq!(count("age < \"4\""), 4);
}

#[test]
fn function_calls() {
    assert_eq!(count("contains(name, \"a\")"), 2);
    assert_eq!(count("contains(name, \"li\")"), 2);
    assert_eq!(count("contains(name, \"\")"), 5);
    assert_eq!(count("contains(name, li)"), 2);
    assert_eq!(count("in(name, [\"Alice\", \"Bob\"])"), 2);
    assert_eq!(count("in(name, [Alice, \"Eve\", Zed])"), 2);
    assert_eq!(count("in(name, [])"), 0);
    assert_eq!(count("is_null(salary)"), 1);
    assert_eq!(count("is_not_null(salary)"), 4);
    assert_eq!(count("is_null(status)"), 1);
    assert_eq!(count("is_null( name )"), 0);
    assert_eq!(count("matches(name, \"^[AB]\")"), 2);
    assert_eq!(count("matches(name, \"e$\")"), 3);
    assert_eq!(count("matches(name, \"^\\w{3}$\")"), 2);
}

#[test]
fn logic() {
    assert_eq!(count("age > 25 && active == true"), 3);
    assert_eq!(count("age > 40 || name == \"Bob\""), 2);
    assert_eq!(count("!(age > 30)"), 3);
    assert_eq!(count("!is_null(salary)"), 4);
    assert_eq!(count("(age > 25 && age < 35) || status == \"VIP\""), 2);
    assert_eq!(count("age > 20 && age < 30 || status == \"VIP\""), 3);
    assert_eq!(count("  ( ( age > 30 ) )  "), 2);
    assert_eq!(count("name != \"a || b\""), 5);
    assert_eq!(count("contains(name, \"&&\") || age == 25"), 1);
}

#[test]
fn null_tests_are_complementary() {
    let h = header();
    let rows = vec![
        StringRecord::from(vec!["", " ", "NA", "n/a", "NULL", "none"]),
        StringRecord::from(vec!["0", "x", "null ", "N/A", "nul", ""]),
        StringRecord::from(vec!["1"]),
    ];
    for column in ["id", "name", "age", "salary", "active", "status"] {
        let yes = Filter::parse(&format!("is_null({})", column), &h).unwrap();
        let no = Filter::parse(&format!("is_not_null({})", column), &h).unwrap();
        for row in &rows {
            assert_eq!(yes.matches(row, &h).unwrap(), !no.matches(row, &h).unwrap());
        }
    }
    let yes = compile("is_null(status)");
    assert!(!yes.matches(&rows[0], &h).unwrap());
    assert!(yes.matches(&rows[1], &h).unwrap());
    assert!(yes.matches(&rows[2], &h).unwrap());
}

#[test]
fn a_row_that_is_too_short_reads_as_empty() {
    let h = header();
    let short = StringRecord::from(vec!["7", "Zed"]);
    assert!(compile("is_null(age)").matches(&short, &h).unwrap());
    assert!(compile("age == \"\"").matches(&short, &h).unwrap());
    assert!(!compile("age > 0").matches(&short, &h).unwrap());
    assert!(compile("name == Zed").matches(&short, &h).unwrap());
}

#[test]
fn the_text_is_split_at_the_first_or_outside_quotes_and_brackets() {
    let f = compile("age > 20 && age < 30 || status == \"VIP\"");
    match f.expr() {
        Expr::Or(left, right) => {
            match &**left {
                Expr::And(a, b) => {
                    match &**a {
                        Expr::Compare(c, CompareOp::Gt, Literal::Number(n)) => {
                            assert_eq!(text(&c.name), "age");
                            assert_eq!(c.index, 2);
                            assert_eq!(n.to_string(), "20");
                        }
                        other => panic!("not a comparison: {:?}", other),
                    }
                    match &**b {
                        Expr::Compare(c, CompareOp::Lt, Literal::Number(n)) => {
                            assert_eq!(text(&c.name), "age");
                            assert_eq!(n.to_string(), "30");
                        }
                        other => panic!("not a comparison: {:?}", other),
                    }
                }
                other => panic!("not a conjunction: {:?}", other),
            }
            match &**right {
                Expr::Compare(c, CompareOp::Eq, Literal::Text(t)) => {
                    assert_eq!(text(&c.name), "status");
                    assert_eq!(c.index, 5);
                    assert_eq!(text(t), "VIP");
                }
                other => panic!("not a comparison: {:?}", other),
            }
        }
        other => panic!("not a disjunction: {:?}", other),
    }
}

#[test]
fn chains_are_split_at_their_first_sign() {
    match compile("age > 1 || age > 2 || age > 3").expr() {
        Expr::Or(left, right) => {
            assert!(matches!(&**left, Expr::Compare(..)));
            assert!(matches!(&**right, Expr::Or(..)));
        }
        other => panic!("not a disjunction: {:?}", other),
    }
    match compile("age > 1 && age > 2 || age > 3 && age > 4").expr() {
        Expr::Or(left, right) => {
            assert!(matches!(&**left, Expr::And(..)));
            assert!(matches!(&**right, Expr::And(..)));
        }
        other => panic!("not a disjunction: {:?}", other),
    }
    match compile("(age > 1 || age > 2) && age > 3").expr() {
        Expr::And(left, right) => {
            assert!(matches!(&**left, Expr::Or(..)));
            assert!(matches!(&**right, Expr::Compare(..)));
        }
        other => panic!("not a conjunction: {:?}", other),
    }
}

#[test]
fn the_shapes_of_the_other_nodes() {
    match compile("!(name == x)").expr() {
        Expr::Not(inner) => assert!(matches!(&**inner, Expr::Compare(_, CompareOp::Eq, _))),
        other => panic!("not a negation: {:?}", other),
    }
    match compile("contains(name, \"a, b\")").expr() {
        Expr::Contains(c, p) => {
            assert_eq!(text(&c.name), "name");
            assert_eq!(c.index, 1);
            assert_eq!(text(p), "a, b");
        }
        other => panic!("not a call: {:?}", other),
    }
    match compile("in(status, [\"a\", b , , \"c d\"])").expr() {
        Expr::In(c, items) => {
            assert_eq!(c.index, 5);
            let items: Vec<String> = items.iter().map(|i| text(i)).collect();
            assert_eq!(items, vec!["a", "b", "c d"]);
        }
        other => panic!("not a call: {:?}", other),
    }
    match compile("matches(name, \"^A.*e$\")").expr() {
        Expr::Matches(c, re) => {
            assert_eq!(c.index, 1);
            assert_eq!(re.as_str(), "^A.*e$");
        }
        other => panic!("not a call: {:?}", other),
    }
    assert!(matches!(compile("is_null(id)").expr(), Expr::IsNull(c) if c.index == 0));
    assert!(matches!(compile("is_not_null(age)").expr(), Expr::IsNotNull(c) if c.index == 2));
    for (sign, op) in [
        ("==", CompareOp::Eq),
        ("!=", CompareOp::Ne),
        ("<=", CompareOp::Le),
        (">=", CompareOp::Ge),
        ("<", CompareOp::Lt),
        (">", CompareOp::Gt),
    ] {
        match compile(&format!("age {} 3", sign)).expr() {
            Expr::Compare(c, found, Literal::Number(_)) => {
                assert_eq!(text(&c.name), "age");
                assert_eq!(*found, op);
            }
            other => panic!("not a comparison: {:?}", other),
        }
    }
}

#[test]
fn literals() {
    let literal = |filter: &str| match compile(filter).expr() {
        Expr::Compare(_, _, Literal::Text(t)) => format!("text {}", text(t)),
        Expr::Compare(_, _, Literal::Number(n)) => format!("number {}", n.to_string()),
        other => panic!("not a comparison: {:?}", other),
    };
    assert_eq!(literal("age == 30"), "number 30");
    assert_eq!(literal("age == -2.50"), "number -2.5");
    assert_eq!(literal("age == 1e3"), "number 1000");
    assert_eq!(literal("age == \"30\""), "text 30");
    assert_eq!(literal("age == abc"), "text abc");
    assert_eq!(literal("age == \"a b\""), "text a b");
    assert_eq!(literal("age == inf"), "text inf");
    assert_eq!(literal("age == 1e999"), "text 1e999");
    assert_eq!(literal("age == \""), "text \"");
    assert_eq!(literal("age =="), "text ");
}

#[test]
fn an_unknown_column_is_reported_with_a_suggestion() {
    let h = StringRecord::from(vec!["name"]);
    match Filter::parse("nmae == \"x\"", &h) {
        Err(CsvpeekError::ColumnNotFound { name, suggestion }) => {
            assert_eq!(name, "nmae");
            assert_eq!(suggestion, Some(ColumnSuggestion { suggested: "name".to_string() }));
        }
        other => panic!("unexpected: {:?}", other.map(|_| ())),
    }
    assert_eq!(
        failure("invalid_column > 5"),
        CsvpeekError::ColumnNotFound { name: "invalid_column".to_string(), suggestion: None }
    );
    assert_eq!(
        failure("is_null(NAME)"),
        CsvpeekError::ColumnNotFound {
            name: "NAME".to_string(),
            suggestion: Some(ColumnSuggestion { suggested: "name".to_string() }),
        }
    );
    assert_eq!(
        failure("contains(nam, \"x\")"),
        CsvpeekError::ColumnNotFound {
            name: "nam".to_string(),
            suggestion: Some(ColumnSuggestion { suggested: "name".to_string() }),
        }
    );
    assert!(matches!(failure("age > 1 && agee > 2"), CsvpeekError::ColumnNotFound { .. }));
    assert!(matches!(failure("zzz > 1 || contains(name)"), CsvpeekError::ColumnNotFound { .. }));
}

#[test]
fn what_is_no_filter_is_reported() {
    assert_eq!(
        failure("contains(name)"),
        CsvpeekError::InvalidFilter("Invalid function arguments".to_string())
    );
    assert_eq!(
        failure("in(name, \"a\")"),
        CsvpeekError::InvalidFilter("Expected array".to_string())
    );
    assert_eq!(
        failure("in(name, [a, b)"),
        CsvpeekError::InvalidFilter("Expected array".to_string())
    );
    assert_eq!(
        failure("in([name, a])"),
        CsvpeekError::InvalidFilter("Invalid function arguments".to_string())
    );
    assert_eq!(
        failure("  just words "),
        CsvpeekError::InvalidFilter("Cannot parse expression: just words".to_string())
    );
    assert_eq!(failure(""), CsvpeekError::InvalidFilter("Cannot parse expression: ".to_string()));
    assert_eq!(failure("()"), CsvpeekError::InvalidFilter("Cannot parse expression: ".to_string()));
    match failure("matches(name, \"(\")") {
        CsvpeekError::InvalidFilter(m) => {
            assert!(m.starts_with("Invalid regex pattern '(': "), "{}", m);
            assert!(m.len() > "Invalid regex pattern '(': ".len());
        }
        other => panic!("unexpected: {:?}", other),
    }
}

#[test]
fn the_first_of_two_columns_of_one_name_is_read() {
    let h = StringRecord::from(vec!["a", "b", "a"]);
    let f = Filter::parse("a == 1", &h).unwrap();
    assert!(matches!(f.expr(), Expr::Compare(c, _, _) if c.index == 0));
    assert!(f.matches(&StringRecord::from(vec!["1", "2", "3"]), &h).unwrap());
    assert!(!f.matches(&StringRecord::from(vec!["3", "2", "1"]), &h).unwrap());
}

#[test]
fn operators_are_found_outside_quotes_and_brackets() {
    let find = |s: &str, op: &str| find_operator(&to_chars(s), &to_chars(op));
    assert_eq!(find("a || b", "||"), Some(2));
    assert_eq!(find("a || b || c", "||"), Some(2));
    assert_eq!(find("(a || b) || c", "||"), Some(9));
    assert_eq!(find("[a || b] || c", "||"), Some(9));
    assert_eq!(find("\"a || b\" || c", "||"), Some(9));
    assert_eq!(find("\"a \\\" || b\" || c", "||"), Some(12));
    assert_eq!(find("(a || b)", "||"), None);
    assert_eq!(find(") || (", "||"), None);
    assert_eq!(find("a && b", "||"), None);
    assert_eq!(find("a && b", "&&"), Some(2));
    assert_eq!(find("a |", "||"), None);
    assert_eq!(find("é || b", "||"), Some(2));
    assert_eq!(find("a \\|| b", "||"), None);
    assert_eq!(find("", "||"), None);
}

#[test]
fn arguments_are_split_at_the_first_comma_outside_quotes_and_brackets() {
    let args = |s: &str| parse_func_args(&to_chars(s)).map(|(a, b)| (text(&a), text(&b)));
    assert_eq!(args("name, \"x\""), Ok(("name".to_string(), "x".to_string())));
    assert_eq!(args(" name ,  x y "), Ok(("name".to_string(), "x y".to_string())));
    assert_eq!(args("name, [a, b]"), Ok(("name".to_string(), "[a, b]".to_string())));
    assert_eq!(args("f(a, b), c"), Ok(("f(a, b)".to_string(), "c".to_string())));
    assert_eq!(args("\"a,b\", c"), Ok(("\"a,b\"".to_string(), "c".to_string())));
    assert_eq!(args("name, \""), Ok(("name".to_string(), "\"".to_string())));
    assert_eq!(args("name,"), Ok(("name".to_string(), "".to_string())));
    assert_eq!(
        args("name"),
        Err(CsvpeekError::InvalidFilter("Invalid function arguments".to_string()))
    );
    assert_eq!(
        args("(a, b)"),
        Err(CsvpeekError::InvalidFilter("Invalid function arguments".to_string()))
    );
}

#[test]
fn arrays() {
    let array = |s: &str| {
        parse_array(&to_chars(s)).map(|v| v.iter().map(|i| text(i)).collect::<Vec<String>>())
    };
    assert_eq!(array("[a, b]"), Ok(vec!["a".to_string(), "b".to_string()]));
    assert_eq!(array(" [ \"a\" , \" b \" ] "), Ok(vec!["a".to_string(), " b ".to_string()]));
    assert_eq!(array("[]"), Ok(vec![]));
    assert_eq!(array("[,a,,]"), Ok(vec!["a".to_string()]));
    assert_eq!(array("[\"\"]"), Ok(vec![]));
    assert_eq!(array("a, b"), Err(CsvpeekError::InvalidFilter("Expected array".to_string())));
    assert_eq!(array("["), Err(CsvpeekError::InvalidFilter("Expected array".to_string())));
    assert_eq!(array(""), Err(CsvpeekError::InvalidFilter("Expected array".to_string())));
}

#[test]
fn no_text_breaks_the_parser() {
    let pieces = [
        "age", "name", " ", "(", ")", "[", "]", "\"", "\\", ",", "||", "&&", "!", "!=", "==", "<",
        "<=", ">", ">=", "=", "contains(", "in(", "is_null(", "is_not_null(", "matches(", "1",
        "-2.5e3", "é", "x", ".", "|", "&",
    ];
    let h = header();
    let rows = people();
    let mut state: u64 = 42;
    let mut compiled = 0;
    for _ in 0..3000 {
        let mut text = String::new();
        state = state.wrapping_mul(6364136223846793005).wrapping_add(1442695040888963407);
        let parts = 1 + (state >> 60) as usize % 8;
        for _ in 0..parts {
            state = state.wrapping_mul(6364136223846793005).wrapping_add(1442695040888963407);
            text.push_str(pieces[(state >> 33) as usize % pieces.len()]);
        }
        if let Ok(filter) = Filter::parse(&text, &h) {
            compiled += 1;
            for row in &rows {
                assert!(filter.matches(row, &h).is_ok());
            }
        }
    }
    assert!(compiled > 0);
}

#[test]
fn a_call_is_read_from_its_trimmed_text() {
    let names: Vec<String> = header().iter().map(|h| h.to_string()).collect();
    let call = |s: &str| csvpeek::parser::parse_function(&to_chars(s), &names);
    assert!(matches!(call(" is_null(age) "), Ok(Some(Expr::IsNull(c))) if c.index == 2));
    assert!(matches!(call("\tcontains(name, \"a\")\n"), Ok(Some(Expr::Contains(..)))));
    assert!(matches!(call("is_not_null( name )"), Ok(Some(Expr::IsNotNull(c))) if c.index == 1));
    assert!(matches!(call(" age > 3 "), Ok(None)));
    assert!(matches!(call(""), Ok(None)));
    assert!(matches!(call(" is_null(nothing) "), Err(CsvpeekError::ColumnNotFound { .. })));
}
