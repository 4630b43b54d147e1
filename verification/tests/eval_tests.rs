use minilisp::interpreter::heap::Environment;
use minilisp::interpreter::machine::{eval_program, Error, Interpreter};
use minilisp::interpreter::stdlib::build;
use minilisp::interpreter::value::{ValPtr, Value};
use minilisp::lex::tokenize;
use minilisp::parse::{parse, AST};

fn run_source(source: &str) -> (Interpreter, Result<ValPtr, Error>) {
    let tokens = tokenize(source).unwrap();
    let nodes = parse(&tokens).unwrap();
    let mut interp = Interpreter::new();
    let r = eval_program(&mut interp, &nodes);
    (interp, r)
}

fn expect_integer(source: &str) -> i64 {
    let (interp, r) = run_source(source);
    let p = r.unwrap();
    match interp.heap.get_val(p) {
        Value::Integer(i) => *i,
        other => panic!("expected integer result, got {}", other.to_string(&interp.heap)),
    }
}

fn expect_error(source: &str) -> String {
    let (_interp, r) = run_source(source);
    r.unwrap_err().message
}

#[test]
fn runs_simple_example() {
    let node = AST::List(vec![
        AST::Symbol("+".to_string()),
        AST::Integer(1),
        AST::Integer(2),
    ]);

    let mut interp = Interpreter::new();
    let env = build(&mut interp.heap);
    interp.eval_ast(&node, env);
    let res = interp.run().unwrap();
    if let Value::Integer(i) = interp.heap.get_val(res) {
        assert_eq!(*i, 3);
    } else {
        panic!("expected integer result");
    }
}

#[test]
fn handles_if() {
    // (if #t (if #f 1 2) 3) -> 2
    let node = AST::List(vec![
        AST::Symbol("if".to_string()),
        AST::Bool(true),
        AST::List(vec![
            AST::Symbol("if".to_string()),
            AST::Bool(false),
            AST::Integer(1),
            AST::Integer(2),
        ]),
        AST::Integer(3),
    ]);

    let mut interp = Interpreter::new();
    let env = interp.heap.new_env(Environment::new_with_bindings(Vec::new()));
    interp.eval_ast(&node, env);
    let res = interp.run().unwrap();
    if let Value::Integer(i) = interp.heap.get_val(res) {
        assert_eq!(*i, 2);
    } else {
        panic!("expected integer result");
    }
}

#[test]
fn handles_lambda() {
    // ((lambda (x) (+ x 1)) 2) -> 3
    let node = AST::List(vec![
        AST::List(vec![
            AST::Symbol("lambda".to_string()),
            AST::List(vec![AST::Symbol("x".to_string())]),
            AST::List(vec![
                AST::Symbol("+".to_string()),
                AST::Symbol("x".to_string()),
                AST::Integer(1),
            ]),
        ]),
        AST::Integer(2),
    ]);

    let mut interp = Interpreter::new();
    let env = build(&mut interp.heap);
    interp.eval_ast(&node, env);
    let res = interp.run().unwrap();
    if let Value::Integer(i) = interp.heap.get_val(res) {
        assert_eq!(*i, 3);
    } else {
        panic!("expected integer result");
    }
}

#[test]
fn runs_program() {
    // (define x 1) x
    let program = vec![
        AST::List(vec![
            AST::Symbol("define".to_string()),
            AST::Symbol("x".to_string()),
            AST::Integer(1),
        ]),
        AST::Symbol("x".to_string()),
    ];

    let mut interp = Interpreter::new();
    let res = eval_program(&mut interp, &program).unwrap();
    if let Value::Integer(i) = interp.heap.get_val(res) {
        assert_eq!(*i, 1);
    } else {
        panic!("expected integer result");
    }
}

#[test]
fn adds_two_numbers() {
    assert_eq!(expect_integer("(+ 1 2)"), 3);
}

#[test]
fn empty_sum_is_zero() {
    assert_eq!(expect_integer("(+)"), 0);
}

#[test]
fn sums_many() {
    assert_eq!(expect_integer("(+ 1 2 3 4)"), 10);
}

#[test]
fn empty_product_is_one() {
    assert_eq!(expect_integer("(*)"), 1);
}

#[test]
fn multiplies_many() {
    assert_eq!(expect_integer("(* 2 3 4)"), 24);
}

#[test]
fn subtracts() {
    assert_eq!(expect_integer("(- 7 2)"), 5);
}

#[test]
fn integer_equality() {
    let (interp, r) = run_source("(i= 2 2)");
    let p = r.unwrap();
    assert!(matches!(interp.heap.get_val(p), Value::Bool(true)));
    let (interp2, r2) = run_source("(i= 2 3)");
    let p2 = r2.unwrap();
    assert!(matches!(interp2.heap.get_val(p2), Value::Bool(false)));
}

#[test]
fn nested_if_takes_selected_branch() {
    assert_eq!(expect_integer("(if #t (if #f 1 2) 3)"), 2);
}

#[test]
fn lambda_application() {
    assert_eq!(expect_integer("((lambda (x) (+ x 1)) 2)"), 3);
}

#[test]
fn thunk_returns_value() {
    // ((lambda () v)) = v for a self-evaluating v
    assert_eq!(expect_integer("((lambda () 7))"), 7);
}

#[test]
fn identity_returns_argument() {
    // ((lambda (x) x) v) = v
    assert_eq!(expect_integer("((lambda (x) x) 5)"), 5);
}

#[test]
fn lexical_scope() {
    assert_eq!(expect_integer("((lambda (x) ((lambda (y) x) 99)) 1)"), 1);
}

#[test]
fn closures_capture() {
    assert_eq!(
        expect_integer(
            "(define make-adder (lambda (n) (lambda (x) (+ x n)))) ((make-adder 3) 4)"
        ),
        7
    );
}

#[test]
fn define_then_reference() {
    assert_eq!(expect_integer("(define x 42) x"), 42);
}

#[test]
fn call_cc_identity() {
    assert_eq!(expect_integer("(call/cc (lambda (k) 42))"), 42);
}

#[test]
fn call_cc_escape() {
    assert_eq!(expect_integer("(+ 1 (call/cc (lambda (k) (+ 10 (k 5)))))"), 6);
}

#[test]
fn call_cc_escape_alternate() {
    assert_eq!(expect_integer("(+ 1 (call/cc (lambda (k) (+ 2 (k 10)))))"), 11);
}

#[test]
fn continuation_reinvoked_later() {
    // A continuation saved by the first form is re-invoked from a later,
    // different expression context, restoring the pending define of the
    // first form; the rebinding it performs is then observable.
    assert_eq!(
        expect_integer("(define kk (call/cc (lambda (k) k))) (kk 5) kk"),
        5
    );
}

#[test]
fn last_returns_final_argument() {
    assert_eq!(expect_integer("(last 1 2 3)"), 3);
}

#[test]
fn quote_leaves_list_unevaluated() {
    let (interp, r) = run_source("(quote (1 2))");
    let p = r.unwrap();
    let printed = interp.heap.get_val(p).to_string(&interp.heap);
    assert_eq!(printed, "(1 . (2 . ()))");
}

#[test]
fn cons_prints_as_dotted_pairs() {
    let (interp, r) = run_source("(cons 1 (cons 2 nil))");
    let p = r.unwrap();
    let printed = interp.heap.get_val(p).to_string(&interp.heap);
    assert_eq!(printed, "(1 . (2 . ()))");
}

#[test]
fn unbound_symbol_reports_name() {
    assert_eq!(expect_error("missing-thing"), "unbound symbol: missing-thing");
}

#[test]
fn empty_list_cannot_be_evaluated() {
    assert_eq!(expect_error("( )"), "cannot evaluate empty list");
}

#[test]
fn error_report_discards_pending_work() {
    let mut interp = Interpreter::new();
    let env = build(&mut interp.heap);
    // An empty list records its error as soon as it is evaluated.
    interp.eval_ast(&AST::List(vec![]), env);
    // Work queued behind the recorded error is discarded when the error
    // is reported, so the interpreter stays reusable.
    interp.eval_ast(
        &AST::List(vec![
            AST::Symbol("+".to_string()),
            AST::Integer(1),
            AST::Integer(2),
        ]),
        env,
    );
    let e = interp.run().unwrap_err();
    assert_eq!(e.message, "cannot evaluate empty list");
    interp.eval_ast(
        &AST::List(vec![
            AST::Symbol("+".to_string()),
            AST::Integer(2),
            AST::Integer(3),
        ]),
        env,
    );
    let res = interp.run().unwrap();
    if let Value::Integer(i) = interp.heap.get_val(res) {
        assert_eq!(*i, 5);
    } else {
        panic!("expected integer result");
    }
}

#[test]
fn wrong_arity_reports_expected_and_received() {
    assert_eq!(
        expect_error("((lambda (x) x))"),
        "wrong number of arguments: expected 1, received 0"
    );
}

#[test]
fn bad_lambda_parameter_position() {
    assert_eq!(
        expect_error("(lambda 5 x)"),
        "invalid structure for lambda expression"
    );
}

#[test]
fn non_symbol_parameter_rejected() {
    assert_eq!(
        expect_error("(lambda (1) x)"),
        "invalid structure for lambda expression"
    );
}

#[test]
fn calling_a_non_function_reports_printed_form() {
    assert_eq!(expect_error("(1 2)"), "attempt to call a non-function value: 1");
}

#[test]
fn plus_rejects_non_integers() {
    assert_eq!(expect_error("(+ 1 nil)"), "all arguments to '+' must be integers");
}

#[test]
fn minus_takes_exactly_two() {
    assert_eq!(expect_error("(- 1)"), "'-' takes 2 arguments");
}

#[test]
fn define_persists_across_forms() {
    assert_eq!(expect_integer("(define a 2) (define b 3) (+ a b)"), 5);
}

#[test]
fn empty_program_yields_nil() {
    let (interp, r) = run_source("");
    let p = r.unwrap();
    assert!(matches!(interp.heap.get_val(p), Value::Nil));
}

#[test]
fn gc_frees_unrooted_allocation() {
    let mut interp = Interpreter::new();
    let env = build(&mut interp.heap);
    // An allocation nothing roots: no binding, no pending step.
    let _garbage = interp.heap.new_val(Value::Integer(42));
    let before = interp.heap.profile();
    interp.heap.gc(env);
    let after = interp.heap.profile();
    assert!(after.values_heap_free > before.values_heap_free);
    assert_eq!(after.values_heap_size, before.values_heap_size);
}

#[test]
fn gc_run_keeps_rooted_values() {
    assert_eq!(expect_integer("(define x 41) (gc-run) (+ x 1)"), 42);
}

#[test]
fn lowering_then_destructuring_round_trips() {
    // Lowering a three-element syntax list and walking the cons spine
    // back yields a three-element vector.
    let node = AST::List(vec![AST::Integer(1), AST::Integer(2), AST::Integer(3)]);
    let mut interp = Interpreter::new();
    let p = Value::from_ast(&node, &mut interp.heap);
    match interp.heap.get_val(p) {
        Value::Cons(hd, tl) => {
            let items = interp.cons_list_to_vector(*hd, *tl).unwrap();
            assert_eq!(items.len(), 3);
            for (k, item) in items.iter().enumerate() {
                match interp.heap.get_val(*item) {
                    Value::Integer(i) => assert_eq!(*i, (k as i64) + 1),
                    _ => panic!("expected integer element"),
                }
            }
        }
        _ => panic!("expected a lowered cons chain"),
    }
}
