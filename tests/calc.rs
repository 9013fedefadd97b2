use calc::containers::{Queue, Stack};
use calc::postfix::{postfix_tree, Expr};
use calc::shunting::{has_equal_precedence, has_precedence, is_operator, rpn};
use calc::tokenizer::Config;
use calc::CalcError;

fn tokens(expression: &str) -> Vec<String> {
    let mut config = Config { expression: String::from(expression) };
    config.parse_expression()
}

fn fold(e: &Expr, toks: &[&str]) -> f64 {
    match e {
        Expr::Operand(i) => toks[*i].parse::<f64>().unwrap(),
        Expr::Apply(op, l, r) => {
            let (a, b) = (fold(l, toks), fold(r, toks));
            match op {
                '+' => a + b,
                '-' => a - b,
                '*' => a * b,
                '/' => a / b,
                _ => a.powf(b),
            }
        }
    }
}

fn calculate(ex_in_rpn: Vec<&str>) -> Result<String, CalcError> {
    let tree = postfix_tree(&ex_in_rpn)?;
    Ok(fold(&tree, &ex_in_rpn).to_string())
}

fn evaluate(expression: &str) -> Result<String, CalcError> {
    let toks = tokens(expression);
    let refs: Vec<&str> = toks.iter().map(|s| s.as_str()).collect();
    calculate(rpn(refs)?)
}

#[test]
fn test_queue() {
    let mut q = Queue::new();
    q.enqueue("3");
    q.enqueue("4");
    q.enqueue("+");

    assert_eq!(q.length(), 3);
    assert_eq!(q.dequeue().unwrap(), "3");
    assert_eq!(q.dequeue().unwrap(), "4");
    assert_eq!(q.dequeue().unwrap(), "+");
    assert_eq!(q.length(), 0);
}

#[test]
fn test_stack() {
    let mut s = Stack::new();
    s.push("3");
    s.push("4");
    s.push("+");

    assert_eq!(s.length(), 3);
    assert_eq!(s.peek().unwrap(), "+");
    assert_eq!(s.pop().unwrap(), "+");
    assert_eq!(s.pop().unwrap(), "4");
    assert_eq!(s.pop().unwrap(), "3");
    assert_eq!(s.length(), 0);
}

#[test]
fn test_operator() {
    assert!(is_operator("+"));
    assert!(is_operator("-"));
    assert!(is_operator("/"));
    assert!(is_operator("*"));
    assert!(is_operator("^"));
    assert_eq!(is_operator("c"), false);
}

#[test]
fn test_rpn() {
    let result1 = vec!["3", "4", "+"];
    assert_eq!(rpn(vec!["3", "+", "4"]), Ok(result1));

    let result2 = vec!["3", "4", "2", "*", "1", "5", "-", "2", "3", "^", "^", "/", "+"];
    assert_eq!(
        rpn(vec!["3", "+", "4", "*", "2", "/", "(", "1", "-", "5", ")", "^", "2", "^", "3"]),
        Ok(result2)
    );
}

#[test]
fn test_calculate() {
    let result1 = String::from("7");
    assert_eq!(result1, calculate(vec!["3", "4", "+"]).unwrap());

    let result2 = String::from("3.5");
    assert_eq!(
        result2,
        calculate(vec!["3", "4", "2", "*", "1", "5", "-", "2", "^", "/", "+"]).unwrap()
    );
}

#[test]
fn queue_dequeue_on_empty_is_none() {
    let mut q: Queue<&str> = Queue::new();
    assert_eq!(q.dequeue(), None);
    assert_eq!(q.length(), 0);
}

#[test]
fn stack_peek_and_pop_on_empty_are_none() {
    let mut s: Stack<&str> = Stack::new();
    assert_eq!(s.peek(), None);
    assert_eq!(s.pop(), None);
}

#[test]
fn operator_is_exactly_one_of_five() {
    assert!(!is_operator(""));
    assert!(!is_operator("+-"));
    assert!(!is_operator("("));
    assert!(!is_operator("12"));
}

#[test]
fn precedence_table() {
    assert!(has_precedence("^", "*"));
    assert!(has_precedence("/", "-"));
    assert!(!has_precedence("+", "*"));
    assert!(!has_precedence("*", "/"));
    assert!(has_equal_precedence("*", "/"));
    assert!(has_equal_precedence("+", "-"));
    assert!(!has_equal_precedence("^", "*"));
}

#[test]
fn tokenize_simple_sum() {
    assert_eq!(tokens("3+4"), vec!["3", "+", "4"]);
}

#[test]
fn tokenize_inserts_implicit_multiply() {
    assert_eq!(
        tokens("(1-5)(2+3)"),
        vec!["(", "1", "-", "5", ")", "*", "(", "2", "+", "3", ")"]
    );
}

#[test]
fn tokenize_drops_spaces_and_keeps_multi_digit_numbers() {
    assert_eq!(tokens("  12 *  (30 - 4) "), vec!["12", "*", "(", "30", "-", "4", ")"]);
    assert_eq!(tokens("1 2"), vec!["12"]);
}

#[test]
fn tokenize_edge_cases() {
    assert_eq!(tokens(""), Vec::<String>::new());
    assert_eq!(tokens("   "), Vec::<String>::new());
    assert_eq!(tokens("+-"), vec!["+", "-"]);
    assert_eq!(tokens("(2)"), vec!["(", "2", ")"]);
    assert_eq!(tokens("(1)23"), vec!["(", "1", ")", "23"]);
    assert_eq!(tokens("(1) (2)"), vec!["(", "1", ")", "(", "2", ")"]);
    assert_eq!(tokens("1.5+x"), vec!["1.5", "+", "x"]);
}

#[test]
fn rpn_simple_conversion() {
    assert_eq!(rpn(vec!["3", "+", "4"]), Ok(vec!["3", "4", "+"]));
}

#[test]
fn rpn_left_and_right_associativity() {
    assert_eq!(rpn(vec!["8", "-", "3", "-", "2"]), Ok(vec!["8", "3", "-", "2", "-"]));
    assert_eq!(rpn(vec!["2", "^", "3", "^", "2"]), Ok(vec!["2", "3", "2", "^", "^"]));
}

#[test]
fn rpn_unbalanced_parentheses() {
    assert_eq!(rpn(vec!["(", "1", "+", "2"]), Err(CalcError::UnbalancedParentheses));
    assert_eq!(rpn(vec!["1", "+", "2", ")"]), Err(CalcError::UnbalancedParentheses));
}

#[test]
fn postfix_tree_of_sum() {
    assert_eq!(
        postfix_tree(&vec!["3", "4", "+"]),
        Ok(Expr::Apply('+', Box::new(Expr::Operand(0)), Box::new(Expr::Operand(1))))
    );
}

#[test]
fn postfix_tree_keeps_operand_order() {
    let toks = vec!["3", "4", "2", "*", "1", "5", "-", "2", "^", "/", "+"];
    let op = |i: usize| Box::new(Expr::Operand(i));
    let expected = Expr::Apply(
        '+',
        op(0),
        Box::new(Expr::Apply(
            '/',
            Box::new(Expr::Apply('*', op(1), op(2))),
            Box::new(Expr::Apply('^', Box::new(Expr::Apply('-', op(4), op(5))), op(7))),
        )),
    );
    assert_eq!(postfix_tree(&toks), Ok(expected));
}

#[test]
fn postfix_tree_errors() {
    assert_eq!(postfix_tree(&vec!["3", "+"]), Err(CalcError::MissingOperand));
    assert_eq!(postfix_tree(&vec!["3", "4"]), Err(CalcError::ResidualOperands));
    assert_eq!(postfix_tree(&vec![]), Err(CalcError::ResidualOperands));
}

#[test]
fn evaluate_simple_sum() {
    assert_eq!(evaluate("3+4"), Ok(String::from("7")));
}

#[test]
fn evaluate_whole_pipeline() {
    assert_eq!(evaluate("3 + 4 * 2 / (1 - 5) ^ 2"), Ok(String::from("3.5")));
    assert_eq!(evaluate("(1-5)(2+3)"), Ok(String::from("-20")));
    assert_eq!(evaluate("2^3^2"), Ok(String::from("512")));
    assert_eq!(evaluate("10-4-3"), Ok(String::from("3")));
    assert_eq!(evaluate("1/0"), Ok(String::from("inf")));
}

#[test]
fn evaluate_unbalanced_is_an_error() {
    assert_eq!(evaluate("(1+2"), Err(CalcError::UnbalancedParentheses));
}
