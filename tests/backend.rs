use acorn::abstract_tree::AbstractTree::{Node, Token};
use acorn::abstract_tree::TokenType::{Flag, Int, Symbol};
use acorn::backend::{generate_function_arguments, LLVMBackend, SpecialForm};
use acorn::utils::Position;

fn empty_backend() -> LLVMBackend {
    LLVMBackend::new(Node(vec![], Position(0, 0)))
}

#[test]
fn function_arguments_list_the_temporaries() {
    assert_eq!(generate_function_arguments(&vec![]), "()");
    assert_eq!(generate_function_arguments(&vec!["ret.3".to_string()]), "(%object %ret.3)");
    assert_eq!(
        generate_function_arguments(&vec!["ret.1".to_string(), "ret.10".to_string(), "ret.4".to_string()]),
        "(%object %ret.1,%object %ret.10,%object %ret.4)"
    );
}

#[test]
fn counters_count_from_zero() {
    let mut backend = empty_backend();
    assert_eq!(backend.get_counter("ret"), "ret.0");
    assert_eq!(backend.get_var_index("ret"), 0);
    assert_eq!(backend.inc_counter("ret"), "ret.0");
    assert_eq!(backend.inc_counter("ret"), "ret.1");
    assert_eq!(backend.get_counter("ret"), "ret.1");
    assert_eq!(backend.get_var_index("ret"), 2);
    assert_eq!(backend.inc_counter("tmp"), "tmp.0");
    assert_eq!(backend.get_counter("ret"), "ret.1");
}

#[test]
fn start_stack_resets_the_result_counter() {
    let mut backend = empty_backend();
    backend.inc_counter("ret");
    backend.inc_counter("ret");
    backend.inc_counter("tmp");
    backend.start_stack();
    assert_eq!(backend.get_var_index("ret"), 0);
    assert_eq!(backend.inc_counter("ret"), "ret.0");
    assert_eq!(backend.inc_counter("tmp"), "tmp.1");
}

#[test]
fn locals_live_in_their_frame() {
    let mut backend = empty_backend();
    backend.start_stack();
    let x = "x".to_string();
    assert!(backend.get_assignee(&x).is_none());
    assert_eq!(backend.set_var_ir(&x, "in_arg.0".to_string()), vec!["store %object %in_arg.0, %object* %x"]);
    assert_eq!(backend.get_assignee(&x).unwrap().name, "x");
    backend.add_assignee(&x);
    let frame = backend.end_stack();
    assert_eq!(frame.len(), 1);
    assert_eq!(frame[0].name, "x");
    assert!(backend.get_assignee(&x).is_none());
}

#[test]
fn load_reads_a_local_into_a_temporary() {
    let backend = empty_backend();
    assert_eq!(
        backend.load_var_ir("ret.4".to_string(), "y".to_string()),
        vec!["%ret.4 = load %object, %object* %y"]
    );
}

#[test]
fn tokens_lower_to_one_line() {
    let mut backend = empty_backend();
    let literal = Token(Int, "42".to_string(), Position(0, 0));
    assert_eq!(backend.compile_token(&literal).unwrap(), vec!["%ret.0 =l 42"]);
    let call = Token(Symbol, "f".to_string(), Position(0, 0));
    assert_eq!(backend.compile_token(&call).unwrap(), vec!["%ret.1 = call %object @f()"]);
    let flag = Token(Flag, ")".to_string(), Position(2, 2));
    let error = backend.compile_token(&flag).err().unwrap();
    assert_eq!(error.description, "compile_token not called on a token.");
    assert_eq!(error.position, Position(2, 2));
}

#[test]
fn registered_forms_are_dispatched() {
    let tree = Node(
        vec![Node(
            vec![
                Token(Symbol, "fn".to_string(), Position(0, 0)),
                Token(Symbol, "main".to_string(), Position(0, 0)),
                Node(
                    vec![
                        Token(Symbol, "block".to_string(), Position(0, 0)),
                        Node(vec![Token(Int, "1".to_string(), Position(0, 0))], Position(0, 0)),
                    ],
                    Position(0, 0),
                ),
            ],
            Position(0, 0),
        )],
        Position(0, 0),
    );
    let mut backend = LLVMBackend::new(tree).handle("fn".to_string(), SpecialForm::Define);
    let ir = backend.compile().unwrap();
    assert_eq!(ir[3], "define %object @main() {");
    assert_eq!(ir[4], "%ret.0 =l 1");
    assert_eq!(ir[5], "ret %object %ret.0");
    assert_eq!(ir[6], "}");
    assert_eq!(ir.len(), 7);
}

#[test]
fn decimal_numerals() {
    assert_eq!(acorn::utils::decimal_string(0), "0");
    assert_eq!(acorn::utils::decimal_string(7), "7");
    assert_eq!(acorn::utils::decimal_string(1234), "1234");
    assert_eq!(acorn::utils::decimal_string(10), "10");
}

#[test]
fn a_bare_form_name_goes_to_its_handler() {
    let tree = Node(vec![Token(Symbol, "define".to_string(), Position(4, 1))], Position(0, 0));
    let mut backend = LLVMBackend::new(tree).handle("define".to_string(), SpecialForm::Define);
    let error = backend.compile().err().unwrap();
    assert_eq!(error.description, "define takes 2 arguments");
    assert_eq!(error.position, Position(4, 1));
}
