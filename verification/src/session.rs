//! The evaluation session: the boundary to the rust_lisp interpreter, and the
//! verified rendering of evaluation outcomes into one bounded display string.
//!
//! Each outcome pairs the textual rendering of one expression's value or
//! error with the side output captured while that expression evaluated.
use vstd::prelude::*;

use std::cell::RefCell;
use std::fmt::Write;
use std::rc::Rc;

use rust_lisp::model::{Env, RuntimeError, Symbol, Value};
use rust_lisp::parser::ParseError;

use crate::text::{chars_to_string, push_range, str_to_chars, sub_vec};

verus! {

/// rust_lisp's binding environment, carried opaquely.
#[verifier::external_type_specification]
#[verifier::external_body]
pub struct ExEnv(Env);

/// rust_lisp's expression value, carried opaquely.
#[verifier::external_type_specification]
#[verifier::external_body]
pub struct ExValue(Value);

/// rust_lisp's evaluation error, carried opaquely.
#[verifier::external_type_specification]
#[verifier::external_body]
pub struct ExRuntimeError(RuntimeError);

/// rust_lisp's parse error, carried opaquely.
#[verifier::external_type_specification]
#[verifier::external_body]
pub struct ExParseError(ParseError);

/// The standard library's shared-mutability cell, carried opaquely; the
/// session's environment lives in one, as rust_lisp's interface asks.
#[verifier::external_type_specification]
#[verifier::external_body]
#[verifier::reject_recursive_types(T)]
pub struct ExRefCell<T: ?Sized>(RefCell<T>);

/// One conversation's evaluation state: the binding environment, which
/// persists across the forms of one pass. The overridden `print` primitive
/// captures side output into a reserved binding of this environment.
struct Session {
    env: Rc<RefCell<Env>>,
}

/// Relies on rust_lisp's native-function calling convention and on
/// `Env::get`/`Env::set`: the replacement for the standard `print` primitive.
/// It appends its first argument's rendering plus a newline to the session's
/// capture binding and returns the argument; a call without arguments is a
/// recoverable runtime error, as with rust_lisp's own `print`.
#[verifier::external_body]
fn capture_print(env: Rc<RefCell<Env>>, args: Vec<Value>) -> (r: Result<Value, RuntimeError>) {
    let expr = rust_lisp::utils::require_arg("print", &args, 0)?;
    let sym = Symbol::from("__captured-output");
    let mut text = match env.borrow().get(&sym) {
        Some(Value::String(s)) => s,
        _ => String::new(),
    };
    match write!(text, "{}\n", expr) {
        Ok(()) => match env.borrow_mut().set(sym, Value::String(text)) {
            Ok(()) => Ok(expr.clone()),
            Err(e) => Err(e),
        },
        Err(_) => Err(RuntimeError { msg: String::from("Failed to print output") }),
    }
}

/// Relies on rust_lisp's `default_env` and `Env::define`/`Env::undefine`: a
/// fresh standard environment whose `print` binding is replaced by the
/// capturing override, with the capture binding starting empty.
#[verifier::external_body]
fn session_new() -> (s: Session) {
    let mut env = rust_lisp::default_env();
    let print = Symbol::from("print");
    env.undefine(&print);
    env.define(print, Value::NativeFunc(capture_print));
    env.define(Symbol::from("__captured-output"), Value::String(String::new()));
    Session { env: Rc::new(RefCell::new(env)) }
}

/// Relies on rust_lisp's `parser::parse`: one entry per top-level form
/// attempted, a parsed expression or a parse error. The parser's lazy
/// iterator does not advance past a failure and would repeat it forever, so
/// collecting stops at the first error entry.
#[verifier::external_body]
fn parse_source(text: &str) -> (forms: Vec<Result<Value, ParseError>>) {
    let mut forms = Vec::new();
    for form in rust_lisp::parser::parse(text) {
        let stop = form.is_err();
        forms.push(form);
        if stop {
            break ;
        }
    }
    forms
}

/// Relies on rust_lisp's `interpreter::eval`: evaluates one form against the
/// session's environment, then takes the output the print override captured
/// during this evaluation and clears the capture binding for the next form.
#[verifier::external_body]
fn eval_form(s: &mut Session, form: &Value) -> (r: (Result<Value, RuntimeError>, String)) {
    let res = rust_lisp::interpreter::eval(s.env.clone(), form);
    let sym = Symbol::from("__captured-output");
    let printed = match s.env.borrow().get(&sym) {
        Some(Value::String(text)) => text,
        _ => String::new(),
    };
    s.env.borrow_mut().define(sym, Value::String(String::new()));
    (res, printed)
}

/// Relies on the `Display` rendering of rust_lisp's `Value`.
#[verifier::external_body]
fn value_text(v: &Value) -> (r: String) {
    format!("{}", v)
}

/// Relies on the `Display` rendering of rust_lisp's `RuntimeError`: the
/// message behind a "Runtime error: " prefix.
#[verifier::external_body]
fn error_text(e: &RuntimeError) -> (r: String) {
    format!("{}", e)
}

/// A rendered value bounded for display: text longer than 64 characters is
/// shown as its first 32 characters, an ellipsis, and its last 29.
pub open spec fn clip(v: Seq<char>) -> Seq<char> {
    if v.len() > 64 {
        v.take(32) + seq!['.', '.', '.'] + v.skip(v.len() - 29)
    } else {
        v
    }
}

/// The display text of one outcome: the captured output on its own line when
/// there is any, then the clipped value or the error text, then a newline.
pub open spec fn render_one(o: (Result<Seq<char>, Seq<char>>, Seq<char>)) -> Seq<char> {
    let head = if o.1.len() > 0 {
        o.1 + seq!['\n']
    } else {
        Seq::<char>::empty()
    };
    let body = match o.0 {
        Ok(v) => clip(v),
        Err(e) => e,
    };
    head + body + seq!['\n']
}

/// The display text of a sequence of outcomes, in order.
pub open spec fn render_all(os: Seq<(Result<Seq<char>, Seq<char>>, Seq<char>)>) -> Seq<char>
    decreases os.len(),
{
    if os.len() == 0 {
        Seq::empty()
    } else {
        render_one(os[0]) + render_all(os.drop_first())
    }
}

/// The outcomes of one pass, seen as sequences of characters.
pub open spec fn outcome_views(os: Seq<(Result<String, String>, String)>) -> Seq<
    (Result<Seq<char>, Seq<char>>, Seq<char>),
> {
    os.map_values(
        |o: (Result<String, String>, String)|
            (
                match o.0 {
                    Ok(s) => Ok(s@),
                    Err(e) => Err(e@),
                },
                o.1@,
            ),
    )
}

proof fn lemma_render_all_push(
    os: Seq<(Result<Seq<char>, Seq<char>>, Seq<char>)>,
    x: (Result<Seq<char>, Seq<char>>, Seq<char>),
)
    ensures
        render_all(os.push(x)) == render_all(os) + render_one(x),
    decreases os.len(),
{
    let p = os.push(x);
    if os.len() == 0 {
        assert(p[0] == x);
        assert(p.drop_first() =~= Seq::<(Result<Seq<char>, Seq<char>>, Seq<char>)>::empty());
        assert(render_all(p) == render_one(x) + render_all(p.drop_first()));
        assert(render_all(os) =~= Seq::<char>::empty());
        assert(render_all(p) =~= render_all(os) + render_one(x));
    } else {
        assert(p[0] == os[0]);
        assert(p.drop_first() =~= os.drop_first().push(x));
        lemma_render_all_push(os.drop_first(), x);
        assert(render_all(p) == render_one(os[0]) + (render_all(os.drop_first()) + render_one(x)));
        assert(render_all(p) =~= render_all(os) + render_one(x));
    }
}

/// The characters of `v` clipped for display, as `clip` states.
pub fn clip_chars(v: &Vec<char>) -> (r: Vec<char>)
    ensures
        r@ == clip(v@),
{
    if v.len() > 64 {
        let mut r = sub_vec(v, 0, 32);
        r.push('.');
        r.push('.');
        r.push('.');
        push_range(&mut r, v, v.len() - 29, v.len());
        proof {
            assert(r@ =~= clip(v@));
        }
        r
    } else {
        let r = sub_vec(v, 0, v.len());
        proof {
            assert(r@ =~= v@);
        }
        r
    }
}

/// Renders a sequence of outcomes into one display string, each outcome's
/// captured output on its own line before its clipped value or error text.
pub fn render_outcomes(outcomes: &Vec<(Result<String, String>, String)>) -> (r: String)
    ensures
        r@ == render_all(outcome_views(outcomes@)),
{
    let ghost views = outcome_views(outcomes@);
    let mut acc: Vec<char> = Vec::new();
    let n = outcomes.len();
    let mut i: usize = 0;
    proof {
        assert(views.take(0) =~= Seq::<(Result<Seq<char>, Seq<char>>, Seq<char>)>::empty());
    }
    while i < n
        invariant
            i <= n,
            n == outcomes@.len(),
            views == outcome_views(outcomes@),
            views.len() == n,
            acc@ == render_all(views.take(i as int)),
        decreases n - i,
    {
        let ghost before = acc@;
        let o = &outcomes[i];
        let printed = str_to_chars(o.1.as_str());
        if printed.len() > 0 {
            push_range(&mut acc, &printed, 0, printed.len());
            acc.push('\n');
        }
        let ghost head_done = acc@;
        proof {
            assert(printed@.subrange(0, printed@.len() as int) =~= printed@);
            if o.1@.len() > 0 {
                assert(head_done =~= before + (views[i as int].1 + seq!['\n']));
            } else {
                assert(head_done =~= before + Seq::<char>::empty());
            }
        }
        match &o.0 {
            Ok(s) => {
                let vc = str_to_chars(s.as_str());
                let clipped = clip_chars(&vc);
                push_range(&mut acc, &clipped, 0, clipped.len());
                proof {
                    assert(clipped@.subrange(0, clipped@.len() as int) =~= clipped@);
                }
            },
            Err(e) => {
                let ec = str_to_chars(e.as_str());
                push_range(&mut acc, &ec, 0, ec.len());
                proof {
                    assert(ec@.subrange(0, ec@.len() as int) =~= ec@);
                }
            },
        }
        acc.push('\n');
        proof {
            lemma_render_all_push(views.take(i as int), views[i as int]);
            assert(views.take(i + 1 as int) =~= views.take(i as int).push(views[i as int]));
            assert(acc@ =~= before + render_one(views[i as int]));
            assert(acc@ =~= render_all(views.take(i + 1 as int)));
        }
        i += 1;
    }
    proof {
        assert(views.take(n as int) =~= views);
    }
    chars_to_string(&acc)
}

/// Parses every top-level form of the text and evaluates each in order
/// against one fresh session; forms that fail to parse are skipped. Returns
/// the rendering of the outcomes, each with the output captured while it
/// evaluated.
pub fn eval_source(text: &str) -> (r: String)
    ensures
        exists|os: Seq<(Result<Seq<char>, Seq<char>>, Seq<char>)>| r@ == render_all(os),
{
    let forms = parse_source(text);
    let mut session = session_new();
    let mut outcomes: Vec<(Result<String, String>, String)> = Vec::new();
    let n = forms.len();
    let mut i: usize = 0;
    while i < n
        invariant
            i <= n,
            n == forms@.len(),
        decreases n - i,
    {
        match &forms[i] {
            Ok(form) => {
                let (res, printed) = eval_form(&mut session, form);
                let shown: Result<String, String> = match res {
                    Ok(v) => Ok(value_text(&v)),
                    Err(e) => Err(error_text(&e)),
                };
                outcomes.push((shown, printed));
            },
            Err(_) => {},
        }
        i += 1;
    }
    let r = render_outcomes(&outcomes);
    proof {
        assert(exists|os: Seq<(Result<Seq<char>, Seq<char>>, Seq<char>)>| r@ == render_all(os)) by {
            assert(r@ == render_all(outcome_views(outcomes@)));
        }
    }
    r
}

} // verus!
