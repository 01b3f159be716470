use infix_calc::is_correctly_wrapped;

#[test]
fn wrapper_test_1() {
    assert!(is_correctly_wrapped(&"(1+2)*3".to_string()));
}

#[test]
fn wrapper_test_2() {
    assert!(is_correctly_wrapped(&"(())".to_string()));
}

#[test]
fn wrapper_test_3() {
    assert!(!is_correctly_wrapped(&"()(".to_string()));
}

#[test]
fn wrapper_test_4() {
    assert!(!is_correctly_wrapped(&"))((".to_string()));
}

#[test]
fn empty_expression_is_balanced() {
    assert!(is_correctly_wrapped(&String::new()));
}

#[test]
fn text_without_parentheses_is_balanced() {
    assert!(is_correctly_wrapped(&"1 + 2 * 3".to_string()));
    assert!(is_correctly_wrapped(&"no parentheses at all".to_string()));
}

#[test]
fn close_before_open_is_unbalanced() {
    assert!(!is_correctly_wrapped(&")(".to_string()));
    assert!(!is_correctly_wrapped(&"1)+(2".to_string()));
    assert!(!is_correctly_wrapped(&"())(()".to_string()));
}

#[test]
fn unclosed_open_is_unbalanced() {
    assert!(!is_correctly_wrapped(&"(".to_string()));
    assert!(!is_correctly_wrapped(&"((1+2)".to_string()));
}

#[test]
fn other_characters_do_not_count() {
    assert!(is_correctly_wrapped(&"(a[b]{c})é(\t)".to_string()));
    assert!(!is_correctly_wrapped(&"(a[b]{c})é(\t".to_string()));
}

#[test]
fn deep_nesting_is_balanced() {
    let mut text = String::new();
    for _ in 0..10_000 {
        text.push('(');
    }
    text.push('1');
    for _ in 0..10_000 {
        text.push(')');
    }
    assert!(is_correctly_wrapped(&text));
    text.push(')');
    assert!(!is_correctly_wrapped(&text));
}
