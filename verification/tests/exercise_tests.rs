use stack_exercises::stack::StackError;
use stack_exercises::stack_exercise::{
    bracket_matching, calculate_from_postfix, convert_infix_to_postfix, divide_by_n, do_calc,
    get_require_left_bracket, get_require_right_bracket, is_left_bracket, is_right_bracket,
};

#[test]
fn test_bracket_matching() {
    assert!(bracket_matching("(a+b)(c*d)func()"));
    assert!(!bracket_matching("()][()"));
    assert!(bracket_matching("(){}[]"));
    assert!(!bracket_matching("(){)[}"));
    assert!(bracket_matching("()"));
    assert!(bracket_matching("()[]{}"));
    assert!(!bracket_matching("(]"));
    assert!(!bracket_matching("([)]"));
    assert!(bracket_matching("{[]}"));
}

#[test]
fn unclosed_openers_still_validate() {
    // The scan never requires the stack to be empty at the end.
    assert!(bracket_matching("((("));
    assert!(bracket_matching(""));
    assert!(bracket_matching("no brackets at all"));
}

#[test]
fn bracket_helpers_pair_up() {
    assert!(is_left_bracket('('));
    assert!(is_left_bracket('['));
    assert!(is_left_bracket('{'));
    assert!(!is_left_bracket(')'));
    assert!(is_right_bracket(')'));
    assert!(is_right_bracket(']'));
    assert!(is_right_bracket('}'));
    assert!(!is_right_bracket('('));
    assert_eq!(get_require_left_bracket(')'), '(');
    assert_eq!(get_require_left_bracket(']'), '[');
    assert_eq!(get_require_left_bracket('}'), '{');
    assert_eq!(get_require_right_bracket('('), ')');
    assert_eq!(get_require_right_bracket('['), ']');
    assert_eq!(get_require_right_bracket('{'), '}');
}

#[test]
fn test_divide_by_n() {
    assert_eq!(divide_by_n(3, 2), "11");
    assert_eq!(divide_by_n(7, 2), "111");
    assert_eq!(divide_by_n(8, 8), "10");
    assert_eq!(divide_by_n(15, 8), "17");
    assert_eq!(divide_by_n(31, 16), "1F");
    assert_eq!(divide_by_n(11, 16), "B");
}

#[test]
fn divide_by_n_of_zero_is_empty() {
    // Zero emits no digit at all, not "0".
    assert_eq!(divide_by_n(0, 2), "");
    assert_eq!(divide_by_n(0, 16), "");
}

#[test]
fn test_postfix_eval() {
    let infix = "( 1 + 2 ) * ( 3 + 4 )";
    let postfix = convert_infix_to_postfix(infix);
    match postfix {
        Ok(Some(val)) => {
            println!("infix: {infix} -> postfix: {val}");
            let val = calculate_from_postfix(&val);
            match val {
                Ok(Some(val)) => {
                    assert_eq!(val, 21);
                }
                _ => panic!("postfix evaluation failed"),
            }
        }
        _ => {
            println!("{infix} is not a corret infix string");
            panic!("conversion failed");
        }
    }
}

#[test]
fn conversion_output_has_trailing_spaces() {
    assert_eq!(
        convert_infix_to_postfix("( 1 + 2 ) * ( 3 + 4 )"),
        Ok(Some(String::from("1 2 + 3 4 + * ")))
    );
    assert_eq!(
        convert_infix_to_postfix("A + B * C"),
        Ok(Some(String::from("A B C * + ")))
    );
    // Equal precedence associates to the left.
    assert_eq!(
        convert_infix_to_postfix("8 - 3 - 2"),
        Ok(Some(String::from("8 3 - 2 - ")))
    );
}

#[test]
fn conversion_rejects_unbalanced_brackets() {
    assert_eq!(convert_infix_to_postfix(") ("), Ok(None));
    assert_eq!(convert_infix_to_postfix("( 1 + 2 ) )"), Ok(None));
}

#[test]
fn postfix_eval_divides_by_zero() {
    assert_eq!(
        calculate_from_postfix("4 0 /"),
        Err(StackError::DivisionByZeroError)
    );
}

#[test]
fn tokens_split_on_any_unicode_whitespace() {
    assert_eq!(
        calculate_from_postfix("4\u{000B}0 /"),
        Err(StackError::DivisionByZeroError)
    );
    assert_eq!(calculate_from_postfix("1\u{00A0}2 +"), Ok(Some(3)));
    assert_eq!(
        convert_infix_to_postfix("1\u{2003}+\u{2003}2"),
        Ok(Some(String::from("1 2 + ")))
    );
}

#[test]
fn postfix_eval_rejects_short_input() {
    assert_eq!(calculate_from_postfix("4 5"), Ok(None));
    assert_eq!(calculate_from_postfix(""), Ok(None));
}

#[test]
fn postfix_eval_reports_missing_operands() {
    assert_eq!(
        calculate_from_postfix("5 5 + +"),
        Err(StackError::EmptyStackError)
    );
    assert_eq!(
        calculate_from_postfix("     "),
        Err(StackError::EmptyStackError)
    );
}

#[test]
fn postfix_eval_small_expressions() {
    assert_eq!(calculate_from_postfix("1 2 +"), Ok(Some(3)));
    assert_eq!(calculate_from_postfix("7 2 /"), Ok(Some(3)));
    assert_eq!(calculate_from_postfix("2 7 -"), Ok(Some(-5)));
    // Leftover operands are not detected; the top value is returned.
    assert_eq!(calculate_from_postfix("9 1 2 +"), Ok(Some(3)));
}

#[test]
fn do_calc_computes_the_four_operations() {
    assert_eq!(do_calc("+", 2, 3), Ok(5));
    assert_eq!(do_calc("-", 2, 3), Ok(-1));
    assert_eq!(do_calc("*", 2, 3), Ok(6));
    assert_eq!(do_calc("/", 7, 2), Ok(3));
    assert_eq!(do_calc("/", -7, 2), Ok(-3));
    assert_eq!(do_calc("/", 7, 0), Err(StackError::DivisionByZeroError));
}
