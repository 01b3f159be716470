use infix_calc::{evalpriority, flatten, is_digit, is_whitespace, EvaluationError, Infix, Operator};

fn to_postfix_skeleton(infix_expression: &str, postfix_expression: &str) {
    let infix = Infix::new(&infix_expression.to_string());
    let postfix = infix.to_postfix().unwrap();

    assert_eq!(postfix.content, postfix_expression,);
}

#[test]
fn to_postfix_test_1() {
    to_postfix_skeleton("10*3 + 25", "10 3 * 25 +");
}

#[test]
fn to_postfix_test_2() {
    to_postfix_skeleton("1+2*2+3", "1 2 2 * + 3 +");
}

#[test]
fn to_postfix_test_3() {
    to_postfix_skeleton("1+2", "1 2 +");
}

#[test]
fn to_postfix_test_4() {
    to_postfix_skeleton(
        "4/1 - 4/3 + 4/5 - 4/7 + 4/9 - 4/11",
        "4 1 / 4 3 / - 4 5 / + 4 7 / - 4 9 / + 4 11 / -",
    );
}

#[test]
fn to_postfix_test_5() {
    to_postfix_skeleton(
        "(4/1) - (4/3) + (4/5) - (4/7) + (4/9) - (4/11)",
        "4 1 / 4 3 / - 4 5 / + 4 7 / - 4 9 / + 4 11 / -",
    );
}

#[test]
fn conversion_is_repeatable() {
    let text = "(1+2)*3 - 4%5".to_string();
    let first = Infix::new(&text).to_postfix().unwrap();
    let second = Infix::new(&text).to_postfix().unwrap();
    assert_eq!(first.content, "1 2 + 3 * 4 5 % -");
    assert_eq!(first, second);
}

#[test]
fn empty_expression_converts_to_empty_sequence() {
    to_postfix_skeleton("", "");
    to_postfix_skeleton("   ", "");
    to_postfix_skeleton("(())", "");
}

#[test]
fn single_number() {
    to_postfix_skeleton("7", "7");
    to_postfix_skeleton("  1234567890  ", "1234567890");
    to_postfix_skeleton("((42))", "42");
}

#[test]
fn equal_priority_goes_left_to_right() {
    to_postfix_skeleton("1-2-3", "1 2 - 3 -");
    to_postfix_skeleton("1-2+3", "1 2 - 3 +");
    to_postfix_skeleton("8/4*2%3", "8 4 / 2 * 3 %");
}

#[test]
fn higher_priority_first() {
    to_postfix_skeleton("1+2*3", "1 2 3 * +");
    to_postfix_skeleton("1*2+3", "1 2 * 3 +");
    to_postfix_skeleton("1+2%3-4/5", "1 2 3 % + 4 5 / -");
}

#[test]
fn parentheses_group() {
    to_postfix_skeleton("(1+2)*3", "1 2 + 3 *");
    to_postfix_skeleton("2*(3+4)", "2 3 4 + *");
    to_postfix_skeleton("(1+2*3)", "1 2 3 * +");
    to_postfix_skeleton("(1+2*3)*4", "1 2 3 * + 4 *");
    to_postfix_skeleton("((1+2)*(3-4))/5", "1 2 + 3 4 - * 5 /");
    to_postfix_skeleton("1-(2-(3-4))", "1 2 3 4 - - -");
}

#[test]
fn whitespace_is_skipped() {
    to_postfix_skeleton(" 1 +\t2\n", "1 2 +");
    to_postfix_skeleton("1\u{a0}*\u{2003}2\u{3000}", "1 2 *");
}

#[test]
fn whitespace_does_not_end_a_number() {
    to_postfix_skeleton("12 34", "1234");
    to_postfix_skeleton("1 (2)", "12");
    to_postfix_skeleton("1 2 + 3", "12 3 +");
}

#[test]
fn operators_without_operands_are_kept() {
    to_postfix_skeleton("+", "+");
    to_postfix_skeleton("+1", "1 +");
    to_postfix_skeleton("1+", "1 +");
    to_postfix_skeleton("++", "+ +");
    to_postfix_skeleton("*+", "* +");
    to_postfix_skeleton("+*", "* +");
}

#[test]
fn unknown_symbol_is_named_with_its_position() {
    let result = Infix::new(&"1+a".to_string()).to_postfix();
    assert_eq!(result, Err(EvaluationError::UnknownSymbol('a', 2)));
    let result = Infix::new(&"x".to_string()).to_postfix();
    assert_eq!(result, Err(EvaluationError::UnknownSymbol('x', 0)));
    let result = Infix::new(&"(1 + 2) ^ 3 ! 4".to_string()).to_postfix();
    assert_eq!(result, Err(EvaluationError::UnknownSymbol('^', 8)));
    let result = Infix::new(&"1.5".to_string()).to_postfix();
    assert_eq!(result, Err(EvaluationError::UnknownSymbol('.', 1)));
}

#[test]
fn position_counts_characters() {
    let result = Infix::new(&"1\u{3000}+\u{2003}é".to_string()).to_postfix();
    assert_eq!(result, Err(EvaluationError::UnknownSymbol('é', 4)));
    let result = Infix::new(&"١".to_string()).to_postfix();
    assert_eq!(result, Err(EvaluationError::UnknownSymbol('١', 0)));
}

#[test]
fn priorities() {
    assert_eq!(evalpriority('*'), 2);
    assert_eq!(evalpriority('/'), 2);
    assert_eq!(evalpriority('%'), 2);
    assert_eq!(evalpriority('+'), 1);
    assert_eq!(evalpriority('-'), 1);
    assert_eq!(evalpriority('('), 0);
    assert_eq!(evalpriority(')'), 0);
    assert_eq!(evalpriority('7'), 0);
    assert_eq!(evalpriority(' '), 0);
    assert_eq!(evalpriority('^'), 0);
}

#[test]
fn operators_and_their_symbols() {
    let all = [
        (Operator::Add, '+', true),
        (Operator::Sub, '-', true),
        (Operator::Mul, '*', false),
        (Operator::Div, '/', false),
        (Operator::Rem, '%', false),
    ];
    for (operator, symbol, additive) in all {
        assert_eq!(operator.to_symbol(), symbol);
        assert_eq!(Operator::from_symbol(symbol), Some(operator));
        assert_eq!(operator.is_additive(), additive);
        assert!(evalpriority(symbol) > 0);
    }
    assert_eq!(Operator::from_symbol('('), None);
    assert_eq!(Operator::from_symbol('1'), None);
    assert_eq!(Operator::from_symbol('^'), None);
}

#[test]
fn digits_are_the_ten_decimal_digits() {
    let mut c = '\0';
    loop {
        assert_eq!(is_digit(c), c.is_digit(10));
        if c == char::MAX {
            break;
        }
        c = match char::from_u32(c as u32 + 1) {
            Some(next) => next,
            None => '\u{e000}',
        };
    }
}

#[test]
fn whitespace_is_what_has_the_unicode_property() {
    let mut c = '\0';
    let mut count = 0;
    loop {
        assert_eq!(is_whitespace(c), c.is_whitespace());
        if is_whitespace(c) {
            count += 1;
        }
        if c == char::MAX {
            break;
        }
        c = match char::from_u32(c as u32 + 1) {
            Some(next) => next,
            None => '\u{e000}',
        };
    }
    assert_eq!(count, 25);
}

#[test]
fn flatten_puts_a_space_behind_each_piece() {
    let pieces = vec!["1".to_string(), "+".to_string(), "2".to_string()];
    assert_eq!(flatten(pieces), "1 + 2 ");
    assert_eq!(flatten(vec!["(1+2)*3".to_string()]), "(1+2)*3 ");
    assert_eq!(flatten(vec![String::new(), String::new()]), "  ");
    assert_eq!(flatten(Vec::new()), "");
}

#[test]
fn nothing_is_lost_in_conversion() {
    let expressions = [
        "1+2*3",
        "(1+2)*(3-4)/5%6",
        "12 34 + + (5) * ",
        "((7))",
        "+-*/%",
        "1(2)3",
        "(1+)(*2)",
    ];
    for expression in expressions {
        let postfix = Infix::new(&expression.to_string()).to_postfix().unwrap();
        let digits = |text: &str| text.chars().filter(|c| is_digit(*c)).collect::<String>();
        assert_eq!(digits(&postfix.content), digits(expression));
        for symbol in ['+', '-', '*', '/', '%'] {
            let count = |text: &str| text.chars().filter(|c| *c == symbol).count();
            assert_eq!(count(&postfix.content), count(expression));
        }
        assert!(!postfix.content.contains('('));
        assert!(!postfix.content.contains(')'));
        assert!(!postfix.content.contains("  "));
        assert!(!postfix.content.starts_with(' '));
        assert!(!postfix.content.ends_with(' '));
    }
}

#[test]
fn spare_parentheses_and_whitespace_change_nothing() {
    let groups = [
        vec!["1+2*3", "1+(2*3)", "(1+(2*3))", " ( 1 ) + ( ( 2 ) * 3 ) ", "((1))+2*((3))"],
        vec!["1-2-3", "(1-2)-3", "((1 - 2) - 3)", "1\t-2\n-3"],
        vec!["8/4/2*3", "(8/4)/2*3", "((8/4)/2)*3"],
    ];
    let expected = ["1 2 3 * +", "1 2 - 3 -", "8 4 / 2 / 3 *"];
    for (group, postfix) in groups.iter().zip(expected) {
        for expression in group {
            to_postfix_skeleton(expression, postfix);
        }
    }
}
