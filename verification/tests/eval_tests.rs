use lisp::env::{default_env, Env};
use lisp::error::LispError;
use lisp::eval::{apply_native, eval, eval_all, eval_ast, eval_let, eval_values, is_def, is_let};
use lisp::reader::read_str;
use lisp::types::{LispTerm, NativeFn};
use lisp::{print, read, rep};

fn esym(name: &str) -> LispTerm {
    LispTerm::Symbol(name.to_string())
}

fn enum_(n: isize) -> LispTerm {
    LispTerm::Number(n)
}

fn run(text: &str, env: &mut Env) -> Result<LispTerm, LispError> {
    eval(&read_str(text).unwrap(), env)
}

fn show(text: &str, env: &mut Env) -> String {
    rep(text.to_string(), env)
}

#[test]
fn arithmetic_on_two_numbers() {
    let mut env = default_env();
    assert_eq!(run("(+ 1 2)", &mut env), Ok(enum_(3)));
    assert_eq!(run("(- 5 2)", &mut env), Ok(enum_(3)));
    assert_eq!(run("(* 3 4)", &mut env), Ok(enum_(12)));
    assert_eq!(run("(/ 10 2)", &mut env), Ok(enum_(5)));
    assert_eq!(run("(+ (* 2 3) (- 10 (/ 8 4)))", &mut env), Ok(enum_(14)));
}

#[test]
fn division_rounds_towards_zero() {
    let mut env = default_env();
    assert_eq!(run("(/ 7 2)", &mut env), Ok(enum_(3)));
    assert_eq!(run("(/ -7 2)", &mut env), Ok(enum_(-3)));
    assert_eq!(run("(/ 7 -2)", &mut env), Ok(enum_(-3)));
    assert_eq!(run("(/ -7 -2)", &mut env), Ok(enum_(3)));
    assert_eq!(run("(/ 0 5)", &mut env), Ok(enum_(0)));
}

#[test]
fn arithmetic_type_errors() {
    let mut env = default_env();
    assert_eq!(run("(+ 1 \"a\")", &mut env), Err(LispError::TypeError));
    assert_eq!(run("(+ 1)", &mut env), Err(LispError::TypeError));
    assert_eq!(run("(+)", &mut env), Err(LispError::TypeError));
    assert_eq!(run("(+ 1 2 3)", &mut env), Err(LispError::TypeError));
    assert_eq!(run("(* nil 2)", &mut env), Err(LispError::TypeError));
    assert_eq!(run("(/ 1 [0])", &mut env), Err(LispError::TypeError));
    assert_eq!(show("(+ 1 \"a\")", &mut env), "Type error");
}

#[test]
fn division_by_zero_is_an_error() {
    let mut env = default_env();
    assert_eq!(run("(/ 1 0)", &mut env), Err(LispError::DivisionByZero));
    assert_eq!(run("(/ 0 0)", &mut env), Err(LispError::DivisionByZero));
    assert_eq!(show("(/ 1 0)", &mut env), "Division by zero");
}

#[test]
fn arithmetic_overflow_is_an_error() {
    let max = LispTerm::Number(isize::MAX);
    let min = LispTerm::Number(isize::MIN);
    assert_eq!(
        apply_native(NativeFn::Add, &[max.clone(), enum_(1)]),
        Err(LispError::Overflow)
    );
    assert_eq!(
        apply_native(NativeFn::Sub, &[min.clone(), enum_(1)]),
        Err(LispError::Overflow)
    );
    assert_eq!(
        apply_native(NativeFn::Mul, &[max.clone(), enum_(2)]),
        Err(LispError::Overflow)
    );
    assert_eq!(
        apply_native(NativeFn::Div, &[min.clone(), enum_(-1)]),
        Err(LispError::Overflow)
    );
    assert_eq!(
        apply_native(NativeFn::Add, &[max.clone(), enum_(0)]),
        Ok(max.clone())
    );
    assert_eq!(
        apply_native(NativeFn::Add, &[max, min]),
        Ok(enum_(-1))
    );
}

#[test]
fn apply_native_wants_exactly_two_numbers() {
    assert_eq!(apply_native(NativeFn::Add, &[]), Err(LispError::TypeError));
    assert_eq!(apply_native(NativeFn::Sub, &[enum_(1)]), Err(LispError::TypeError));
    assert_eq!(
        apply_native(NativeFn::Mul, &[enum_(1), LispTerm::Nil]),
        Err(LispError::TypeError)
    );
    assert_eq!(
        apply_native(NativeFn::Div, &[enum_(1), enum_(0), enum_(2)]),
        Err(LispError::TypeError)
    );
    assert_eq!(apply_native(NativeFn::Sub, &[enum_(2), enum_(5)]), Ok(enum_(-3)));
}

#[test]
fn empty_list_evaluates_to_itself() {
    let mut env = default_env();
    assert_eq!(run("()", &mut env), Ok(LispTerm::List(Vec::new())));
    assert_eq!(show("()", &mut env), "()");
    let mut bare = Env::new();
    assert_eq!(run("()", &mut bare), Ok(LispTerm::List(Vec::new())));
}

#[test]
fn unbound_symbol_is_not_found() {
    let mut env = default_env();
    assert_eq!(
        run("foo", &mut env),
        Err(LispError::SymbolNotFound("foo".to_string()))
    );
    assert_eq!(show("foo", &mut env), "Symbol foo not found in env");
    assert_eq!(
        run("(+ 1 foo)", &mut env),
        Err(LispError::SymbolNotFound("foo".to_string()))
    );
    assert_eq!(
        run("(foo 1 2)", &mut env),
        Err(LispError::SymbolNotFound("foo".to_string()))
    );
}

#[test]
fn def_persists_its_binding() {
    let mut env = default_env();
    assert_eq!(run("(def! x 5)", &mut env), Ok(enum_(5)));
    assert_eq!(run("x", &mut env), Ok(enum_(5)));
    assert_eq!(run("(def! y (+ x 1))", &mut env), Ok(enum_(6)));
    assert_eq!(run("(* x y)", &mut env), Ok(enum_(30)));
    assert_eq!(run("(def! x 7)", &mut env), Ok(enum_(7)));
    assert_eq!(run("x", &mut env), Ok(enum_(7)));
    assert_eq!(env.get("x"), Some(&enum_(7)));
}

#[test]
fn def_with_a_failing_value_binds_nothing() {
    let mut env = default_env();
    assert_eq!(
        run("(def! x (+ 1 nope))", &mut env),
        Err(LispError::SymbolNotFound("nope".to_string()))
    );
    assert_eq!(env.get("x"), None);
}

#[test]
fn malformed_def_fails() {
    let mut env = default_env();
    assert_eq!(run("(def! 1 2)", &mut env), Err(LispError::MalformedDef));
    assert_eq!(run("(def! \"x\" 2)", &mut env), Err(LispError::MalformedDef));
    assert_eq!(show("(def! (x) 2)", &mut env), "Failed to evaluate def! term");
}

#[test]
fn def_of_another_length_is_a_call() {
    let mut env = default_env();
    assert_eq!(
        run("(def! x)", &mut env),
        Err(LispError::SymbolNotFound("def!".to_string()))
    );
    assert_eq!(
        run("(def! x 1 2)", &mut env),
        Err(LispError::SymbolNotFound("def!".to_string()))
    );
}

#[test]
fn let_binds_in_sequence_and_in_isolation() {
    let mut env = default_env();
    assert_eq!(run("(let* (x 2 y (+ x 1)) (+ x y))", &mut env), Ok(enum_(5)));
    assert_eq!(env.get("x"), None);
    assert_eq!(env.get("y"), None);
    assert_eq!(env.depth(), 1);
    assert_eq!(
        run("x", &mut env),
        Err(LispError::SymbolNotFound("x".to_string()))
    );
}

#[test]
fn let_takes_a_vector_of_bindings() {
    let mut env = default_env();
    assert_eq!(run("(let* [a 4 b (* a a)] (- b a))", &mut env), Ok(enum_(12)));
}

#[test]
fn let_without_bindings_evaluates_its_body() {
    let mut env = default_env();
    assert_eq!(run("(let* () 7)", &mut env), Ok(enum_(7)));
    assert_eq!(run("(let* [] (+ 1 1))", &mut env), Ok(enum_(2)));
    assert_eq!(env.depth(), 1);
}

#[test]
fn let_shadows_and_restores() {
    let mut env = default_env();
    assert_eq!(run("(def! x 1)", &mut env), Ok(enum_(1)));
    assert_eq!(run("(let* (x 10) (+ x 1))", &mut env), Ok(enum_(11)));
    assert_eq!(run("x", &mut env), Ok(enum_(1)));
    assert_eq!(run("(let* (x 10) (let* (x 20 y x) (+ x y)))", &mut env), Ok(enum_(40)));
    assert_eq!(run("x", &mut env), Ok(enum_(1)));
}

#[test]
fn def_inside_let_stays_inside() {
    let mut env = default_env();
    assert_eq!(run("(let* (a 1) (def! inner (+ a 1)))", &mut env), Ok(enum_(2)));
    assert_eq!(env.get("inner"), None);
    assert_eq!(env.depth(), 1);
}

#[test]
fn failing_let_drops_its_frame() {
    let mut env = default_env();
    assert_eq!(
        run("(let* (x 1 y nope) x)", &mut env),
        Err(LispError::SymbolNotFound("nope".to_string()))
    );
    assert_eq!(env.depth(), 1);
    assert_eq!(env.get("x"), None);
    assert_eq!(
        run("(let* (x 1) (+ x nope))", &mut env),
        Err(LispError::SymbolNotFound("nope".to_string()))
    );
    assert_eq!(env.depth(), 1);
    assert_eq!(run("(let* (x 1 2 3) x)", &mut env), Err(LispError::MalformedLet));
    assert_eq!(env.depth(), 1);
    assert_eq!(env.get("x"), None);
    assert_eq!(run("(let* (a (let* (b nope) b)) a)", &mut env).is_err(), true);
    assert_eq!(env.depth(), 1);
}

#[test]
fn malformed_let_fails() {
    let mut env = default_env();
    assert_eq!(run("(let* (x) x)", &mut env), Err(LispError::OddBindings));
    assert_eq!(run("(let* (x 1 y) x)", &mut env), Err(LispError::OddBindings));
    assert_eq!(run("(let* x 1)", &mut env), Err(LispError::MissingBindings));
    assert_eq!(run("(let* 5 1)", &mut env), Err(LispError::MissingBindings));
    assert_eq!(run("(let* {:a 1} 1)", &mut env), Err(LispError::MissingBindings));
    assert_eq!(run("(let* (1 2) 3)", &mut env), Err(LispError::MalformedLet));
    assert_eq!(show("(let* (x) x)", &mut env), "Odd number of elements in bindings list");
    assert_eq!(show("(let* x 1)", &mut env), "Bindings list missing in let? term");
    assert_eq!(show("(let* (1 2) 3)", &mut env), "Failed to evaluate let* term");
    assert_eq!(env.depth(), 1);
}

#[test]
fn call_head_must_be_a_function() {
    let mut env = default_env();
    assert_eq!(run("(1 2 3)", &mut env), Err(LispError::NotCallable));
    assert_eq!(run("(\"f\" 1)", &mut env), Err(LispError::NotCallable));
    assert_eq!(run("(nil)", &mut env), Err(LispError::NotCallable));
    assert_eq!(run("(() 1)", &mut env), Err(LispError::NotCallable));
    assert_eq!(show("(1 2 3)", &mut env), "Illegal function call");
}

#[test]
fn call_head_is_evaluated() {
    let mut env = default_env();
    assert_eq!(run("(def! plus +)", &mut env), Ok(LispTerm::Func(NativeFn::Add)));
    assert_eq!(run("(plus 2 3)", &mut env), Ok(enum_(5)));
    assert_eq!(run("((let* (f *) f) 2 3)", &mut env), Ok(enum_(6)));
}

#[test]
fn arguments_are_evaluated_left_to_right() {
    let mut env = default_env();
    assert_eq!(run("(+ (def! a 1) (def! b (+ a 1)))", &mut env), Ok(enum_(3)));
    assert_eq!(env.get("b"), Some(&enum_(2)));
    assert_eq!(
        run("(+ (def! c 1) nope (def! d 2))", &mut env),
        Err(LispError::SymbolNotFound("nope".to_string()))
    );
    assert_eq!(env.get("c"), Some(&enum_(1)));
    assert_eq!(env.get("d"), None);
}

#[test]
fn vectors_and_maps_evaluate_their_elements() {
    let mut env = default_env();
    assert_eq!(run("(def! x 2)", &mut env), Ok(enum_(2)));
    assert_eq!(
        run("[x (+ x 1) \"s\"]", &mut env),
        Ok(LispTerm::Vector(vec![enum_(2), enum_(3), LispTerm::Str("s".to_string())]))
    );
    assert_eq!(
        run("{:a x \"b\" (* x x)}", &mut env),
        Ok(LispTerm::Dict(vec![
            (":a".to_string(), enum_(2)),
            ("b".to_string(), enum_(4)),
        ]))
    );
    assert_eq!(
        run("[1 nope 3]", &mut env),
        Err(LispError::SymbolNotFound("nope".to_string()))
    );
    assert_eq!(
        run("{:a 1 :b nope}", &mut env),
        Err(LispError::SymbolNotFound("nope".to_string()))
    );
    assert_eq!(run("[]", &mut env), Ok(LispTerm::Vector(Vec::new())));
    assert_eq!(run("{}", &mut env), Ok(LispTerm::Dict(Vec::new())));
}

#[test]
fn other_terms_evaluate_to_themselves() {
    let mut env = default_env();
    for text in ["5", "\"s\"", ":k", "nil", "true", "false", "'x", "`(a b)", "~x", "~@(+ 1 2)"] {
        let term = read_str(text).unwrap();
        assert_eq!(eval(&term, &mut env), Ok(term));
    }
    assert_eq!(
        eval(&LispTerm::Func(NativeFn::Sub), &mut env),
        Ok(LispTerm::Func(NativeFn::Sub))
    );
}

#[test]
fn is_def_and_is_let_look_at_length_and_head() {
    let def = vec![esym("def!"), esym("x"), enum_(1)];
    let let_ = vec![esym("let*"), LispTerm::List(Vec::new()), enum_(1)];
    assert!(is_def(&def));
    assert!(!is_let(&def));
    assert!(is_let(&let_));
    assert!(!is_def(&let_));
    assert!(!is_def(&vec![esym("def!"), esym("x")]));
    assert!(!is_def(&vec![esym("def!"), esym("x"), enum_(1), enum_(2)]));
    assert!(!is_def(&vec![LispTerm::Str("def!".to_string()), esym("x"), enum_(1)]));
    assert!(!is_let(&vec![esym("let"), esym("x"), enum_(1)]));
    assert!(!is_def(&Vec::new()));
    assert!(!is_let(&Vec::new()));
}

#[test]
fn eval_ast_evaluates_a_list_without_calling() {
    let mut env = default_env();
    let list = read_str("(+ 1 2)").unwrap();
    assert_eq!(
        eval_ast(&list, &mut env),
        Ok(LispTerm::List(vec![LispTerm::Func(NativeFn::Add), enum_(1), enum_(2)]))
    );
    assert_eq!(eval_ast(&esym("+"), &mut env), Ok(LispTerm::Func(NativeFn::Add)));
    assert_eq!(
        eval_ast(&esym("q"), &mut env),
        Err(LispError::SymbolNotFound("q".to_string()))
    );
}

#[test]
fn eval_all_and_eval_values_keep_order() {
    let mut env = default_env();
    let items = vec![read_str("(+ 1 1)").unwrap(), enum_(5), read_str("(* 2 3)").unwrap()];
    assert_eq!(eval_all(&items, &mut env), Ok(vec![enum_(2), enum_(5), enum_(6)]));
    assert_eq!(eval_all(&Vec::new(), &mut env), Ok(Vec::new()));
    let entries = vec![
        ("z".to_string(), read_str("(- 1 1)").unwrap()),
        ("a".to_string(), enum_(9)),
    ];
    assert_eq!(
        eval_values(&entries, &mut env),
        Ok(vec![("z".to_string(), enum_(0)), ("a".to_string(), enum_(9))])
    );
}

#[test]
fn eval_let_evaluates_a_let_form() {
    let mut env = default_env();
    let form = match read_str("(let* (p 3 q (+ p p)) (* p q))").unwrap() {
        LispTerm::List(items) => items,
        _ => unreachable!(),
    };
    assert!(is_let(&form));
    assert_eq!(eval_let(&form, &mut env), Ok(enum_(18)));
    assert_eq!(env.depth(), 1);
    assert_eq!(env.get("p"), None);
}

#[test]
fn rep_reads_evaluates_and_prints() {
    let mut env = default_env();
    assert_eq!(show("(+ 1 2)\n", &mut env), "3");
    assert_eq!(show("(def! x 5)", &mut env), "5");
    assert_eq!(show("x", &mut env), "5");
    assert_eq!(show("(let* (x 2 y (+ x 1)) (+ x y))", &mut env), "5");
    assert_eq!(show("[x \"s\" :k nil true]", &mut env), "[5 \"s\" :k nil true]");
    assert_eq!(show("{:a (+ x 1)}", &mut env), "{:a 6}");
    assert_eq!(show("+", &mut env), "#<function>");
    assert_eq!(show("'(a b)", &mut env), "(quote (a b))");
    assert_eq!(show("(- 0 7)", &mut env), "-7");
}

#[test]
fn rep_turns_failures_into_messages() {
    let mut env = default_env();
    assert_eq!(show("(+ 1 2", &mut env), "Failed to parse unbalanced list");
    assert_eq!(show("\"abc", &mut env), "Failed to parse unbalanced string");
    assert_eq!(show("", &mut env), "Failed to parse form");
    assert_eq!(show("\n", &mut env), "Failed to parse form");
    assert_eq!(show("{:a}", &mut env), "Odd number of elements in map");
    assert_eq!(show("{1 2}", &mut env), "Non string used as key in map");
    assert_eq!(show("foo", &mut env), "Symbol foo not found in env");
    assert_eq!(show("(9223372036854775807 1)", &mut env), "Illegal function call");
}

#[test]
fn bindings_survive_a_failed_line() {
    let mut env = default_env();
    assert_eq!(show("(def! k 3)", &mut env), "3");
    assert_eq!(show("(+ k nope)", &mut env), "Symbol nope not found in env");
    assert_eq!(show("(+ k", &mut env), "Failed to parse unbalanced list");
    assert_eq!(show("k", &mut env), "3");
    assert_eq!(env.depth(), 1);
}

#[test]
fn read_and_print_are_the_two_ends_of_rep() {
    assert_eq!(read("(a 1)".to_string()), read_str("(a 1)"));
    assert_eq!(read("(a".to_string()), Err(LispError::UnbalancedSequence));
    assert_eq!(print(Ok(LispTerm::List(vec![esym("a"), enum_(1)]))), "(a 1)");
    assert_eq!(print(Err(LispError::TypeError)), "Type error");
}
