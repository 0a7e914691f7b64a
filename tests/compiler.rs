use acorn::abstract_tree::AbstractTree;
use acorn::abstract_tree::AbstractTree::{Node, Token};
use acorn::abstract_tree::TokenType::{Int, Symbol};
use acorn::compiler::compile;
use acorn::parser::parse;
use acorn::utils::{Error, Position};

fn token(kind: acorn::abstract_tree::TokenType, s: &str) -> AbstractTree {
    Token(kind, s.to_string(), Position(0, 0))
}

fn abstract_tree_item(at: Vec<AbstractTree>) -> AbstractTree {
    Node(vec![Node(at, Position(0, 0))], Position(0, 0))
}

fn assert_returns_error<T>(result: Result<T, Error>, description: &str) {
    assert_eq!(result.err().unwrap().description, description)
}

fn construct_define_item(items: Vec<AbstractTree>) -> AbstractTree {
    abstract_tree_item(vec![
        token(Symbol, "define"),
        token(Int, "2"),
        Node(items, Position(0, 0)),
    ])
}

fn preamble() -> Vec<String> {
    vec![
        "target datalayout = \"e-m:e-i64:64-f80:128-n8:16:32:64-S128\"".to_string(),
        "%object = type { i64, i64 }".to_string(),
        "declare %object @print_number(%object) #0".to_string(),
    ]
}

fn compile_source(source: &str) -> Result<Vec<String>, Error> {
    compile(parse(source).unwrap().unwrap())
}

#[test]
fn test_define_constraints() {
    let at = abstract_tree_item(vec![token(Symbol, "define"), token(Int, "2")]);
    assert_returns_error(compile(at), "define takes 2 arguments");

    let at = abstract_tree_item(vec![token(Symbol, "define"), token(Int, "2"), token(Int, "2")]);
    assert_returns_error(compile(at), "define expects a block for its 2th argument");

    let at = construct_define_item(vec![
        token(Symbol, "block"),
        Node(vec![], Position(0, 0)),
        Node(
            vec![construct_define_item(vec![
                token(Symbol, "block"),
                Node(vec![], Position(0, 0)),
                Node(vec![], Position(0, 0)),
            ])],
            Position(0, 0),
        ),
    ]);
    assert_returns_error(compile(at), "define was invoked without being on the top level");
}

#[test]
fn test_block_constraints() {
    let at = construct_define_item(vec![token(Symbol, "block")]);
    assert_returns_error(compile(at), "block takes at least 1 arguments");

    let at = construct_define_item(vec![token(Symbol, "block"), token(Int, "2"), token(Int, "2")]);
    assert_returns_error(
        compile(at),
        "a block takes a list of arguments followed by a list of expressions",
    );

    let at = construct_define_item(vec![
        token(Symbol, "block"),
        token(Int, "2"),
        Node(vec![token(Int, "2")], Position(0, 0)),
    ]);
    compile(at).ok().unwrap();
}

#[test]
fn define_with_three_arguments_is_rejected() {
    let at = abstract_tree_item(vec![
        token(Symbol, "define"),
        token(Symbol, "f"),
        token(Symbol, "g"),
        token(Symbol, "h"),
    ]);
    assert_returns_error(compile(at), "define takes 2 arguments");
}

#[test]
fn define_without_a_block_is_rejected_from_source() {
    assert_returns_error(compile_source("define start go"), "define expects a block for its 2th argument");
}

#[test]
fn define_without_a_name_is_rejected() {
    let at = abstract_tree_item(vec![
        token(Symbol, "define"),
        Node(vec![token(Int, "1")], Position(0, 7)),
        Node(
            vec![token(Symbol, "block"), Node(vec![token(Symbol, "x")], Position(0, 0))],
            Position(0, 0),
        ),
    ]);
    assert_returns_error(compile(at), "define expects a name for its 1th argument");
}

#[test]
fn nested_define_in_source_is_rejected() {
    let result = compile_source("define f { x\ndefine g { y }\n}");
    assert_returns_error(result, "define was invoked without being on the top level");
}

#[test]
fn define_compiles_to_one_function() {
    let ir = compile_source("define start { print_number }").unwrap();
    let mut expected = preamble();
    expected.push("define %object @start() {".to_string());
    expected.push("%ret.0 = call %object @print_number()".to_string());
    expected.push("ret %object %ret.0".to_string());
    expected.push("}".to_string());
    assert_eq!(ir, expected);
}

#[test]
fn two_bare_symbols_compile_as_calls() {
    let ir = compile_source("good morning").unwrap();
    let mut expected = preamble();
    expected.push("%ret.0 = call %object @morning()".to_string());
    expected.push("%ret.1 = call %object @good(%object %ret.0)".to_string());
    assert_eq!(ir, expected);
}

#[test]
fn two_bare_lines_compile_as_zero_argument_calls() {
    let ir = compile_source("good\nmorning").unwrap();
    let mut expected = preamble();
    expected.push("%ret.0 = call %object @good()".to_string());
    expected.push("%ret.1 = call %object @morning()".to_string());
    assert_eq!(ir, expected);
}

#[test]
fn parameters_are_stored_and_loaded() {
    let ir = compile_source("define start { x\n    print_number x\n}").unwrap();
    let mut expected = preamble();
    expected.push("define %object @start(%object %in_arg.0) {".to_string());
    expected.push("%x = alloca %object".to_string());
    expected.push("store %object %in_arg.0, %object* %x".to_string());
    expected.push("%ret.0 = load %object, %object* %x".to_string());
    expected.push("%ret.1 = call %object @print_number(%object %ret.0)".to_string());
    expected.push("ret %object %ret.1".to_string());
    expected.push("}".to_string());
    assert_eq!(ir, expected);
}

#[test]
fn two_parameters_and_a_literal() {
    let at = abstract_tree_item(vec![
        token(Symbol, "define"),
        token(Symbol, "add"),
        Node(
            vec![
                token(Symbol, "block"),
                token(Symbol, "a"),
                token(Symbol, "b"),
                Node(
                    vec![Node(vec![token(Symbol, "plus"), token(Symbol, "a"), token(Int, "7")], Position(1, 0))],
                    Position(1, 0),
                ),
            ],
            Position(0, 0),
        ),
    ]);
    let ir = compile(at).unwrap();
    let mut expected = preamble();
    expected.push("define %object @add(%object %in_arg.0,%object %in_arg.1) {".to_string());
    expected.push("%a = alloca %object".to_string());
    expected.push("%b = alloca %object".to_string());
    expected.push("store %object %in_arg.0, %object* %a".to_string());
    expected.push("store %object %in_arg.1, %object* %b".to_string());
    expected.push("%ret.0 = load %object, %object* %a".to_string());
    expected.push("%ret.1 =l 7".to_string());
    expected.push("%ret.2 = call %object @plus(%object %ret.0,%object %ret.1)".to_string());
    expected.push("ret %object %ret.2".to_string());
    expected.push("}".to_string());
    assert_eq!(ir, expected);
}

#[test]
fn calling_a_computed_head_is_unsupported() {
    let at = abstract_tree_item(vec![
        Node(vec![token(Symbol, "f")], Position(2, 3)),
        token(Symbol, "x"),
    ]);
    let error = compile(at).err().unwrap();
    assert_eq!(error.description, "unimplemented: no support for calling closures yet implemented");
    assert_eq!(error.position, Position(2, 3));
}

#[test]
fn calling_an_integer_is_an_error() {
    let at = abstract_tree_item(vec![token(Int, "3"), token(Symbol, "x")]);
    assert_returns_error(compile(at), "cannot call token 3 of type Int");
}

#[test]
fn an_empty_form_is_an_error() {
    let at = Node(vec![Node(vec![], Position(6, 1))], Position(0, 0));
    let error = compile(at).err().unwrap();
    assert_eq!(error.description, "node with zero items");
    assert_eq!(error.position, Position(6, 1));
}

#[test]
fn empty_tree_compiles_to_the_preamble() {
    let ir = compile(Node(vec![], Position(0, 0))).unwrap();
    assert_eq!(ir, preamble());
}

#[test]
fn call_operands_are_the_arguments_results() {
    let ir = compile_source("f (g x) y").unwrap();
    let mut expected = preamble();
    expected.push("%ret.0 = call %object @x()".to_string());
    expected.push("%ret.1 = call %object @g(%object %ret.0)".to_string());
    expected.push("%ret.2 = call %object @y()".to_string());
    expected.push("%ret.3 = call %object @f(%object %ret.1,%object %ret.2)".to_string());
    assert_eq!(ir, expected);
}


#[test]
fn parameters_named_like_temporaries_are_rejected() {
    for source in ["define f { ret.0\n    g ret.0\n}", "define f { in_arg.0\n    g\n}"] {
        let error = compile_source(source).err().unwrap();
        assert_eq!(error.description, "a parameter cannot be named like a generated temporary");
        assert_eq!(error.position, Position(0, 10));
    }
}

#[test]
fn other_parameter_names_are_accepted() {
    assert!(compile_source("define f { ret\n    g ret\n}").is_ok());
    assert!(compile_source("define f { return.0\n    g\n}").is_ok());
}
