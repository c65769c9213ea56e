use lisp_repl::buffer::{Balanced, UserCode};
use lisp_repl::session::render_outcomes;

#[test]
fn close_then_evaluate() {
    let mut code = UserCode::new("(+ 1 2");
    assert!(matches!(code.balance(), Balanced::NoMissing(1)));
    code.append(")");
    assert!(matches!(code.balance(), Balanced::Yes));
    assert_eq!(code.eval(), "3\n");
}

#[test]
fn print_output_on_own_line() {
    let code = UserCode::new("(print 5)");
    assert!(matches!(code.balance(), Balanced::Yes));
    assert_eq!(code.eval(), "5\n\n5\n");
}

#[test]
fn print_without_argument_is_recoverable() {
    let code = UserCode::new("(print)");
    let rendered = code.eval();
    assert!(rendered.starts_with("Runtime error:"));
}

#[test]
fn capture_does_not_bleed_between_forms() {
    let code = UserCode::new("(print 1) (print 2)");
    assert_eq!(code.eval(), "1\n\n1\n2\n\n2\n");
}

#[test]
fn bindings_accumulate_within_a_pass() {
    let code = UserCode::new("(define x 4) (+ x 1)");
    let rendered = code.eval();
    assert!(rendered.ends_with("5\n"));
}

#[test]
fn runtime_error_rendered_per_form() {
    let code = UserCode::new("(undefined-fn 1) (+ 1 1)");
    let rendered = code.eval();
    assert!(rendered.starts_with("Runtime error:"));
    assert!(rendered.ends_with("\n2\n"));
}

#[test]
fn long_value_clipped() {
    let value: String = std::iter::repeat('x').take(100).collect();
    let outcomes = vec![(Ok(value.clone()), String::new())];
    let rendered = render_outcomes(&outcomes);
    assert_eq!(rendered.len(), 32 + 3 + 29 + 1);
    let expected = format!("{}...{}\n", &value[..32], &value[(100 - 29)..]);
    assert_eq!(rendered, expected);
}

#[test]
fn clip_threshold_is_sixty_four() {
    let at: String = std::iter::repeat('a').take(64).collect();
    let outcomes = vec![(Ok(at.clone()), String::new())];
    assert_eq!(render_outcomes(&outcomes), format!("{}\n", at));
    let over: String = std::iter::repeat('b').take(65).collect();
    let outcomes = vec![(Ok(over.clone()), String::new())];
    let expected = format!("{}...{}\n", &over[..32], &over[(65 - 29)..]);
    assert_eq!(render_outcomes(&outcomes), expected);
}

#[test]
fn short_value_not_clipped() {
    let outcomes = vec![(Ok(String::from("abc")), String::new())];
    assert_eq!(render_outcomes(&outcomes), "abc\n");
}

#[test]
fn error_text_not_clipped() {
    let long: String = std::iter::repeat('e').take(100).collect();
    let outcomes = vec![(Err(long.clone()), String::new())];
    assert_eq!(render_outcomes(&outcomes), format!("{}\n", long));
}

#[test]
fn respond_wraps_buffer_only_when_unbalanced() {
    let code = UserCode::new("(+ 2 3");
    assert_eq!(code.respond(), "```lisp\n(+ 2 3\n```");
}

#[test]
fn respond_appends_wrapped_result_when_balanced() {
    let code = UserCode::new("(+ 2 3)");
    assert_eq!(code.respond(), "```lisp\n(+ 2 3)\n``````lisp\n5\n\n```");
}

#[test]
fn malformed_form_skipped() {
    let code = UserCode::new("(+ 1 2) )");
    assert_eq!(code.eval(), "3\n");
}
