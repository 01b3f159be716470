use infix_calc::{
    evaluate, is_number, is_vacant, EvaluationError, Expr, Infix, Node, Operator, Postfix, Token,
};

fn number(tree: &Expr) -> f64 {
    let mut values: Vec<f64> = Vec::new();
    for node in tree.nodes() {
        let value = match node {
            Node::Zero => 0.0,
            Node::One => 1.0,
            Node::Number(digits) => digits.parse().unwrap(),
            Node::Apply(operator, left, right) => {
                let a = values[*left];
                let b = values[*right];
                match operator {
                    Operator::Add => a + b,
                    Operator::Sub => -b + a,
                    Operator::Mul => a * b,
                    Operator::Div => a / b,
                    Operator::Rem => a % b,
                }
            },
        };
        values.push(value);
    }
    values[tree.root()]
}

#[derive(Debug, PartialEq)]
enum Tree {
    Zero,
    One,
    Number(String),
    Apply(Operator, Box<Tree>, Box<Tree>),
}

fn tree_at(nodes: &[Node], at: usize) -> Tree {
    match &nodes[at] {
        Node::Zero => Tree::Zero,
        Node::One => Tree::One,
        Node::Number(digits) => Tree::Number(digits.clone()),
        Node::Apply(operator, left, right) => {
            assert!(*left < at && *right < at);
            Tree::Apply(
                *operator,
                Box::new(tree_at(nodes, *left)),
                Box::new(tree_at(nodes, *right)),
            )
        },
    }
}

fn tree(expr: &Expr) -> Tree {
    tree_at(expr.nodes(), expr.root())
}

fn postfix(content: &str) -> Postfix {
    Postfix { content: content.to_string() }
}

fn literal(digits: &str) -> Box<Tree> {
    Box::new(Tree::Number(digits.to_string()))
}

fn tree_of(content: &str) -> Tree {
    tree(&postfix(content).value().unwrap())
}

fn value_of(content: &str) -> f64 {
    number(&postfix(content).value().unwrap())
}

fn result_of(expression: &str) -> f64 {
    number(&evaluate(&expression.to_string()).unwrap())
}

fn unknown_token(content: &str) -> String {
    match postfix(content).value() {
        Err(EvaluationError::UnknownToken(part)) => part,
        other => panic!("{:?}", other),
    }
}

fn error_of(expression: &str) -> EvaluationError {
    evaluate(&expression.to_string()).unwrap_err()
}

#[test]
fn parenthesis_test_1() {
    assert_eq!(
        number(
            &Infix::new(&"(4/1) - (4/3) + (4/5) - (4/7) + (4/9) - (4/11)".to_string())
                .to_postfix()
                .unwrap()
                .value()
                .unwrap()
        ),
        2.9760461760461765
    )
}

#[test]
fn parentheses_around_quotients_change_nothing() {
    let plain = Infix::new(&"4/1 - 4/3 + 4/5 - 4/7 + 4/9 - 4/11".to_string())
        .to_postfix()
        .unwrap();
    let wrapped = Infix::new(&"(4/1) - (4/3) + (4/5) - (4/7) + (4/9) - (4/11)".to_string())
        .to_postfix()
        .unwrap();
    assert_eq!(plain, wrapped);
    assert_eq!(number(&plain.value().unwrap()), 2.9760461760461765);
    assert_eq!(number(&wrapped.value().unwrap()), 2.9760461760461765);
    assert_eq!(result_of("4/1 - 4/3 + 4/5 - 4/7 + 4/9 - 4/11"), 2.9760461760461765);
}

#[test]
fn left_to_right_among_equals() {
    assert_eq!(result_of("1+2*2+3"), 8.0);
    assert_eq!(value_of("1 2 2 * + 3 +"), 8.0);
    assert_eq!(result_of("1+2*2+2"), 7.0);
    assert_eq!(value_of("1 2 2 * + 2 +"), 7.0);
}

#[test]
fn multiplication_before_addition() {
    assert_eq!(result_of("10*3 + 25"), 55.0);
    assert_eq!(value_of("10 3 * 25 +"), 55.0);
}

#[test]
fn simple_addition() {
    assert_eq!(result_of("1+2"), 3.0);
    assert_eq!(value_of("1 2 +"), 3.0);
}

#[test]
fn value_is_a_tree_of_the_tokens() {
    assert_eq!(tree_of("1 2 +"), Tree::Apply(Operator::Add, literal("1"), literal("2")));
    assert_eq!(
        tree_of("10 3 * 25 +"),
        Tree::Apply(
            Operator::Add,
            Box::new(Tree::Apply(Operator::Mul, literal("10"), literal("3"))),
            literal("25"),
        )
    );
    assert_eq!(
        tree_of("7 2 3 - /"),
        Tree::Apply(
            Operator::Div,
            literal("7"),
            Box::new(Tree::Apply(Operator::Sub, literal("2"), literal("3"))),
        )
    );
}

#[test]
fn each_operator_takes_left_then_right() {
    assert_eq!(value_of("7 2 +"), 9.0);
    assert_eq!(value_of("7 2 -"), 5.0);
    assert_eq!(value_of("7 2 *"), 14.0);
    assert_eq!(value_of("7 2 /"), 3.5);
    assert_eq!(value_of("7 2 %"), 1.0);
    assert_eq!(value_of("2 7 -"), -5.0);
    assert_eq!(value_of("2 7 /"), 2.0 / 7.0);
    assert_eq!(value_of("2 7 %"), 2.0);
}

#[test]
fn empty_sequence_is_zero() {
    assert_eq!(tree_of(""), Tree::Zero);
    assert_eq!(value_of(""), 0.0);
}

#[test]
fn operator_alone_takes_identities() {
    assert_eq!(
        tree_of("+"),
        Tree::Apply(Operator::Add, Box::new(Tree::Zero), Box::new(Tree::Zero))
    );
    assert_eq!(
        tree_of("%"),
        Tree::Apply(Operator::Rem, Box::new(Tree::One), Box::new(Tree::One))
    );
    assert_eq!(value_of("+"), 0.0);
    assert_eq!(value_of("-"), 0.0);
    assert_eq!(value_of("*"), 1.0);
    assert_eq!(value_of("/"), 1.0);
    assert_eq!(value_of("%"), 0.0);
}

#[test]
fn operator_with_one_operand_takes_an_identity_on_the_left() {
    assert_eq!(tree_of("5 -"), Tree::Apply(Operator::Sub, Box::new(Tree::Zero), literal("5")));
    assert_eq!(tree_of("4 /"), Tree::Apply(Operator::Div, Box::new(Tree::One), literal("4")));
    assert_eq!(value_of("5 +"), 5.0);
    assert_eq!(value_of("5 -"), -5.0);
    assert_eq!(value_of("5 *"), 5.0);
    assert_eq!(value_of("4 /"), 0.25);
    assert_eq!(value_of("4 %"), 1.0);
    assert_eq!(value_of("5 - -"), 5.0);
}

#[test]
fn value_is_the_top_of_the_stack() {
    assert_eq!(tree_of("1 2"), Tree::Number("2".to_string()));
    assert_eq!(value_of("1 2 3 +"), 5.0);
    assert_eq!(value_of("9"), 9.0);
}

#[test]
fn leading_space_is_passed_over() {
    assert_eq!(value_of(" 1 2 +"), 3.0);
    assert_eq!(unknown_token(" "), "");
    assert_eq!(unknown_token("  1"), "");
}

#[test]
fn unknown_token_is_named() {
    assert_eq!(postfix("1 a +").value(), Err(EvaluationError::UnknownToken("a".to_string())));
    assert_eq!(unknown_token("12a"), "12a");
    assert_eq!(unknown_token("1 2 ++"), "++");
    assert_eq!(unknown_token("1 2 ^ x"), "^");
    assert_eq!(unknown_token("( 1 )"), "(");
    assert_eq!(unknown_token("1\t2"), "1\t2");
    assert_eq!(unknown_token("1.5"), "1.5");
    assert_eq!(unknown_token("-1"), "-1");
}

#[test]
fn empty_part_is_an_unknown_token() {
    assert_eq!(unknown_token("1  2 +"), "");
    assert_eq!(unknown_token("1 2 + "), "");
}

#[test]
fn long_numbers_keep_all_their_digits() {
    let digits = "123456789012345678901234567890";
    assert_eq!(tree_of(digits), Tree::Number(digits.to_string()));
    assert_eq!(value_of(digits), 123456789012345678901234567890.0);
    assert_eq!(value_of("007"), 7.0);
}

#[test]
fn division_by_zero_is_not_refused() {
    assert_eq!(result_of("1/0"), f64::INFINITY);
    assert!(result_of("0/0").is_nan());
    assert!(result_of("1%0").is_nan());
}

#[test]
fn evaluate_refuses_unbalanced_parentheses() {
    assert_eq!(evaluate(&"(1+2".to_string()), Err(EvaluationError::UnbalancedParentheses));
    assert_eq!(error_of("1+2)"), EvaluationError::UnbalancedParentheses);
    assert_eq!(error_of(")("), EvaluationError::UnbalancedParentheses);
    assert_eq!(error_of("(a"), EvaluationError::UnbalancedParentheses);
}

#[test]
fn evaluate_refuses_empty_expressions() {
    assert_eq!(evaluate(&String::new()), Err(EvaluationError::EmptyExpression));
    assert_eq!(error_of("   "), EvaluationError::EmptyExpression);
    assert_eq!(error_of("()"), EvaluationError::EmptyExpression);
    assert_eq!(error_of(" ( (\t) )\n"), EvaluationError::EmptyExpression);
}

#[test]
fn evaluate_refuses_unknown_symbols() {
    assert_eq!(evaluate(&"1 + a".to_string()), Err(EvaluationError::UnknownSymbol('a', 4)));
    assert_eq!(error_of("2^3"), EvaluationError::UnknownSymbol('^', 1));
    assert_eq!(error_of(" (x) "), EvaluationError::UnknownSymbol('x', 2));
}

#[test]
fn evaluate_follows_priorities_and_parentheses() {
    assert_eq!(result_of("(1+2)*3"), 9.0);
    assert_eq!(result_of("1+2*3"), 7.0);
    assert_eq!(result_of("(1+2*3)*2"), 14.0);
    assert_eq!(result_of("2*(3+4)-5%3"), 12.0);
    assert_eq!(result_of("100/8/5"), 2.5);
    assert_eq!(result_of("1-2-3"), -4.0);
    assert_eq!(result_of("1-(2-3)"), 2.0);
    assert_eq!(result_of(" 42 \n"), 42.0);
}

#[test]
fn evaluate_lets_operators_without_operands_pass() {
    assert_eq!(result_of("+"), 0.0);
    assert_eq!(result_of("*"), 1.0);
    assert_eq!(result_of("-5"), -5.0);
    assert_eq!(result_of("5-"), -5.0);
    assert_eq!(result_of("/4"), 0.25);
}

#[test]
fn numbers_are_made_of_digits() {
    assert!(is_number("0"));
    assert!(is_number("1234567890"));
    assert!(is_number(""));
    assert!(!is_number("12a"));
    assert!(!is_number(" 1"));
    assert!(!is_number("-1"));
    assert!(!is_number("1.0"));
    assert!(!is_number("١٢٣"));
}

#[test]
fn tokens_are_numbers_and_operators() {
    assert_eq!(Token::parse("42".to_string()), Ok(Token::Number("42".to_string())));
    assert_eq!(Token::parse("+".to_string()), Ok(Token::Operator(Operator::Add)));
    assert_eq!(Token::parse("-".to_string()), Ok(Token::Operator(Operator::Sub)));
    assert_eq!(Token::parse("*".to_string()), Ok(Token::Operator(Operator::Mul)));
    assert_eq!(Token::parse("/".to_string()), Ok(Token::Operator(Operator::Div)));
    assert_eq!(Token::parse("%".to_string()), Ok(Token::Operator(Operator::Rem)));
    assert_eq!(Token::parse(String::new()), Err(EvaluationError::UnknownToken(String::new())));
    assert_eq!(
        Token::parse("4+".to_string()),
        Err(EvaluationError::UnknownToken("4+".to_string()))
    );
    assert_eq!(Token::parse("é".to_string()), Err(EvaluationError::UnknownToken("é".to_string())));
}

#[test]
fn vacant_expressions() {
    assert!(is_vacant(""));
    assert!(is_vacant(" () \t(\n)"));
    assert!(is_vacant(")("));
    assert!(!is_vacant("(1)"));
    assert!(!is_vacant(" + "));
    assert!(!is_vacant("_"));
}

#[test]
fn evaluate_gives_the_tree_of_the_expression() {
    let expr = evaluate(&"(1 + 2) * 3 - 4".to_string()).unwrap();
    assert_eq!(
        tree(&expr),
        Tree::Apply(
            Operator::Sub,
            Box::new(Tree::Apply(
                Operator::Mul,
                Box::new(Tree::Apply(Operator::Add, literal("1"), literal("2"))),
                literal("3"),
            )),
            literal("4"),
        )
    );
    let expr = evaluate(&"1 - (2 - 3)".to_string()).unwrap();
    assert_eq!(
        tree(&expr),
        Tree::Apply(
            Operator::Sub,
            literal("1"),
            Box::new(Tree::Apply(Operator::Sub, literal("2"), literal("3"))),
        )
    );
}

#[test]
fn operands_stand_before_their_operator() {
    let expr = evaluate(&"1+2*3-(4/5%6)+7".to_string()).unwrap();
    let nodes = expr.nodes();
    assert!(expr.root() < nodes.len());
    for (at, node) in nodes.iter().enumerate() {
        if let Node::Apply(_, left, right) = node {
            assert!(*left < at && *right < at);
        }
    }
}

#[test]
fn long_sums_are_reduced() {
    let mut text = String::from("1");
    for _ in 0..200_000 {
        text.push_str("+1");
    }
    assert_eq!(result_of(&text), 200_001.0);
}

#[test]
fn deep_groups_are_reduced() {
    let mut text = String::new();
    for _ in 0..100_000 {
        text.push_str("(1+");
    }
    text.push('1');
    for _ in 0..100_000 {
        text.push(')');
    }
    assert_eq!(result_of(&text), 100_001.0);
}
