use lisp_repl::buffer::{Balanced, UserCode};

#[test]
fn append_code_works() {
    let mut code = UserCode::new(
        "(define fib (lambda (n)\n\t\t(if (< n 2)\n\t\t\tn(+ (fib (- n 1))",
    );
    code.append("(fib (- n 2))");
    assert!(code.text().ends_with("\n\t\t\t\t(fib (- n 2))"));
    code.append(")");
    assert!(code.text().ends_with("(- n 2)))"));
    code.append(")))");
    assert!(code.text().ends_with("(- n 2))))))"));
}

#[test]
fn balance_reports_counts() {
    assert!(matches!(UserCode::new("").balance(), Balanced::Yes));
    assert!(matches!(UserCode::new("(+ 1 2)").balance(), Balanced::Yes));
    assert!(matches!(UserCode::new("(+ 1 2").balance(), Balanced::NoMissing(1)));
    assert!(matches!(UserCode::new("(((").balance(), Balanced::NoMissing(3)));
    assert!(matches!(UserCode::new("(+ 1 2))").balance(), Balanced::NoTrailing(1)));
    assert!(matches!(UserCode::new("no brackets at all").balance(), Balanced::Yes));
}

#[test]
fn closers_append_verbatim() {
    let mut code = UserCode::new("(a (b");
    code.append("))");
    assert_eq!(code.text(), "(a (b))");
}

#[test]
fn append_indents_to_depth() {
    let mut code = UserCode::new("(a");
    code.append("x");
    assert_eq!(code.text(), "(a\tx");
    let mut deeper = UserCode::new("((a");
    deeper.append("y");
    assert_eq!(deeper.text(), "((a\t\ty");
}

#[test]
fn append_strips_markup_first() {
    let mut code = UserCode::new("(a");
    code.append("```lisp\nx```");
    assert_eq!(code.text(), "(a\tx");
}

#[test]
fn delete_last_line() {
    let mut code = UserCode::new("a\nb\nc");
    assert_eq!(code.del(0), Some(String::from("c")));
    assert_eq!(code.text(), "a\nb\n");
}

#[test]
fn delete_saturates_at_first_line() {
    let mut code = UserCode::new("a\nb\nc");
    assert_eq!(code.del(5), Some(String::from("a")));
    assert_eq!(code.text(), "b\nc\n");
}

#[test]
fn delete_negative_is_noop() {
    let mut code = UserCode::new("a\nb");
    assert_eq!(code.del(-1), None);
    assert_eq!(code.text(), "a\nb");
}

#[test]
fn delete_on_empty_buffer() {
    let mut code = UserCode::new("");
    assert_eq!(code.del(0), None);
    assert_eq!(code.text(), "");
}

#[test]
fn new_keeps_text_verbatim() {
    let code = UserCode::new("```lisp\n(a)\n```");
    assert_eq!(code.text(), "```lisp\n(a)\n```");
}
