use l_system_rs::expr::{parse_expr, Expr};
use l_system_rs::parametric::{is_alphabetic_symbol, parse_modules, substitute_placeholders};

/// Value of a parsed expression for the given parameters.
fn eval(e: &Expr, params: &[f64]) -> f64 {
    match e {
        Expr::Add(l, r) => eval(l, params) + eval(r, params),
        Expr::Sub(l, r) => eval(l, params) - eval(r, params),
        Expr::Mul(l, r) => eval(l, params) * eval(r, params),
        Expr::Div(l, r) => eval(l, params) / eval(r, params),
        Expr::Param(i) => {
            if *i < params.len() {
                params[*i]
            } else {
                0.0
            }
        }
        Expr::BadParam => 0.0,
        Expr::Literal(text) => text.parse::<f64>().unwrap_or(0.0),
    }
}

fn eval_simple_expr(expr: &str, params: &[f64]) -> f64 {
    eval(&parse_expr(expr), params)
}

/// Modules of a successor string with their parameter values.
fn modules_with_values(s: &str, params: &[f64]) -> Vec<(char, Vec<f64>)> {
    parse_modules(s)
        .iter()
        .map(|(c, arg)| {
            (
                *c,
                match arg {
                    Some(e) => vec![eval(e, params)],
                    None => Vec::new(),
                },
            )
        })
        .collect()
}

#[test]
fn test_parse_modules_simple() {
    let modules = modules_with_values("F+G", &[]);
    assert_eq!(modules.len(), 3);
    assert_eq!(modules[0].0, 'F');
    assert_eq!(modules[1].0, '+');
    assert_eq!(modules[2].0, 'G');
}

#[test]
fn test_parse_modules_parametric() {
    let modules = modules_with_values("F(3.5)", &[]);
    assert_eq!(modules.len(), 1);
    assert_eq!(modules[0].0, 'F');
    assert!((modules[0].1[0] - 3.5).abs() < 1e-10);
}

#[test]
fn test_parse_modules_expr() {
    let modules = modules_with_values("F($0+1)", &[2.0]);
    assert_eq!(modules.len(), 1);
    assert!((modules[0].1[0] - 3.0).abs() < 1e-10);
}

#[test]
fn test_eval_simple_number() {
    assert!((eval_simple_expr("3.5", &[]) - 3.5).abs() < 1e-10);
}

#[test]
fn test_eval_param_ref() {
    assert!((eval_simple_expr("$0", &[7.0]) - 7.0).abs() < 1e-10);
    assert!((eval_simple_expr("$1", &[1.0, 2.0]) - 2.0).abs() < 1e-10);
}

#[test]
fn test_eval_addition() {
    assert!((eval_simple_expr("$0+1", &[2.0]) - 3.0).abs() < 1e-10);
}

#[test]
fn test_eval_division() {
    assert!((eval_simple_expr("$0/2", &[4.0]) - 2.0).abs() < 1e-10);
}

#[test]
fn substitute_whole_number_values() {
    let result = substitute_placeholders("F($0)F($1)", &vec!["3".to_string(), "5".to_string()]);
    assert_eq!(result, "F(3)F(5)");
}

#[test]
fn substitute_fractional_values() {
    let result = substitute_placeholders("F($0)", &vec!["1.5000".to_string()]);
    assert_eq!(result, "F(1.5000)");
}

#[test]
fn expression_splits_at_last_top_level_operator() {
    // 10 - 2 - 3 is read as (10 - 2) - 3
    assert!((eval_simple_expr("10-2-3", &[]) - 5.0).abs() < 1e-10);
    // products bind tighter than sums
    assert!((eval_simple_expr("2+3*4", &[]) - 14.0).abs() < 1e-10);
    // a parenthesised sum is not split
    assert!((eval_simple_expr("(2+3)*4", &[]) - 20.0).abs() < 1e-10);
    match parse_expr("(2+3)*4") {
        Expr::Mul(l, r) => {
            assert!(matches!(*l, Expr::Add(_, _)));
            assert!(matches!(*r, Expr::Literal(ref t) if t == "4"));
        }
        other => panic!("unexpected tree {other:?}"),
    }
}

#[test]
fn expression_is_trimmed() {
    match parse_expr("  3.5\t") {
        Expr::Literal(t) => assert_eq!(t, "3.5"),
        other => panic!("unexpected tree {other:?}"),
    }
    assert!((eval_simple_expr(" $0 + 1 ", &[2.0]) - 3.0).abs() < 1e-10);
}

#[test]
fn leading_minus_is_part_of_a_number() {
    match parse_expr("-3") {
        Expr::Literal(t) => assert_eq!(t, "-3"),
        other => panic!("unexpected tree {other:?}"),
    }
}

#[test]
fn parameter_references() {
    assert!(matches!(parse_expr("$12"), Expr::Param(12)));
    assert!(matches!(parse_expr("$x"), Expr::BadParam));
    assert!(matches!(parse_expr("$"), Expr::BadParam));
    assert!(matches!(parse_expr("$99999999999999999999999"), Expr::BadParam));
    assert_eq!(eval_simple_expr("$5", &[1.0]), 0.0);
    assert_eq!(eval_simple_expr("abc", &[]), 0.0);
}

#[test]
fn module_arguments_span_nested_parentheses() {
    let modules = parse_modules("F((1+2)*3)G");
    assert_eq!(modules.len(), 2);
    assert_eq!(modules[0].0, 'F');
    assert_eq!(modules[1].0, 'G');
    assert!(modules[1].1.is_none());
    assert!((eval(modules[0].1.as_ref().unwrap(), &[]) - 9.0).abs() < 1e-10);
}

#[test]
fn unclosed_argument_runs_to_the_end() {
    let modules = parse_modules("F(1+2");
    assert_eq!(modules.len(), 1);
    assert!((eval(modules[0].1.as_ref().unwrap(), &[]) - 3.0).abs() < 1e-10);
}

#[test]
fn only_alphabetic_symbols_take_arguments() {
    let modules = parse_modules("+(1)");
    let symbols: Vec<char> = modules.iter().map(|m| m.0).collect();
    assert_eq!(symbols, vec!['+', '(', '1', ')']);
    assert!(modules.iter().all(|m| m.1.is_none()));
    let modules = parse_modules("é(2)");
    assert_eq!(modules.len(), 1);
    assert_eq!(modules[0].0, 'é');
}

#[test]
fn placeholder_takes_its_whole_index() {
    let mut values: Vec<String> = vec!["0".to_string(); 11];
    values[1] = "2".to_string();
    values[10] = "9".to_string();
    // `$10` is parameter 10, not parameter 1 followed by `0`
    assert_eq!(substitute_placeholders("F($10)", &values), "F(9)");
    assert_eq!(substitute_placeholders("F($1)F($10)", &values), "F(2)F(9)");
}

#[test]
fn placeholders_follow_sequential_replacement() {
    let values = vec!["a".to_string(), "b".to_string()];
    assert_eq!(substitute_placeholders("$0+$0", &values), "a+a");
    // `$1` is a placeholder with a value; the `2` after it stays
    assert_eq!(substitute_placeholders("F($12)", &values), "F(b2)");
    assert_eq!(substitute_placeholders("$01", &values), "a1");
    assert_eq!(substitute_placeholders("F($2)$", &values), "F($2)$");
    assert_eq!(substitute_placeholders("$x$1", &values), "$xb");
    assert_eq!(substitute_placeholders("", &values), "");
    assert_eq!(substitute_placeholders("F($0)", &Vec::new()), "F($0)");
}

#[test]
fn alphabetic_symbols() {
    assert!(is_alphabetic_symbol('F'));
    assert!(is_alphabetic_symbol('é'));
    assert!(!is_alphabetic_symbol('+'));
    assert!(!is_alphabetic_symbol('1'));
}
