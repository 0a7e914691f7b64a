use acorn::abstract_tree::AbstractTree;
use acorn::abstract_tree::AbstractTree::{Node, Token};
use acorn::abstract_tree::TokenType::Symbol;
use acorn::parser::parse;
use acorn::utils::{Error, Position};

fn sym(s: &str, line: i64, column: i64) -> AbstractTree {
    Token(Symbol, s.to_string(), Position(line, column))
}

fn assert_parses(source: &str, nodes: Vec<AbstractTree>) {
    assert_eq!(parse(source).unwrap().unwrap(), Node(nodes, Position(0, 0)));
}

#[test]
fn test_parse_symbol() {
    assert_parses("symbol", vec![Node(vec![sym("symbol", 0, 0)], Position(0, 0))]);
}

#[test]
fn test_parse_parentheses() {
    assert_parses(
        "(hi there)",
        vec![Node(
            vec![Node(vec![sym("hi", 0, 1), sym("there", 0, 4)], Position(0, 0))],
            Position(0, 0),
        )],
    );

    assert_parses(
        "(hi (one) there)",
        vec![Node(
            vec![Node(
                vec![
                    sym("hi", 0, 1),
                    Node(vec![sym("one", 0, 5)], Position(0, 4)),
                    sym("there", 0, 10),
                ],
                Position(0, 0),
            )],
            Position(0, 0),
        )],
    );
}

#[test]
fn test_fail_parse_parentheses() {
    match parse("(hi there") {
        Ok(_) => panic!("I'm assertng this should not parse correctly"),
        Err(Error { description, position: _ }) => {
            assert_eq!("hit end of file while reading an open paren".to_string(), description);
        }
    }
}

#[test]
fn test_two_lines_of_code() {
    assert_parses(
        "hi there\n(one two)",
        vec![
            Node(vec![sym("hi", 0, 0), sym("there", 0, 3)], Position(0, 0)),
            Node(
                vec![Node(vec![sym("one", 1, 1), sym("two", 1, 5)], Position(1, 0))],
                Position(1, 0),
            ),
        ],
    );
}

#[test]
fn test_parse_parentheses_with_newline() {
    assert_parses(
        "(hi \n\n\nthere)",
        vec![Node(
            vec![Node(vec![sym("hi", 0, 1), sym("there", 3, 0)], Position(0, 0))],
            Position(0, 0),
        )],
    );
}

#[test]
fn test_parses_block_simple() {
    assert_parses(
        "{ one two }",
        vec![Node(
            vec![Node(
                vec![
                    sym("block", 0, 0),
                    Node(vec![sym("one", 0, 2), sym("two", 0, 6)], Position(0, 1)),
                ],
                Position(0, 0),
            )],
            Position(0, 0),
        )],
    );
}

#[test]
fn test_parses_block_newline() {
    assert_parses(
        "{\none two\n}",
        vec![Node(
            vec![Node(
                vec![
                    sym("block", 0, 0),
                    Node(
                        vec![Node(vec![sym("one", 1, 0), sym("two", 1, 4)], Position(1, 0))],
                        Position(1, 0),
                    ),
                ],
                Position(0, 0),
            )],
            Position(0, 0),
        )],
    );
}

#[test]
fn test_parses_block_complete() {
    assert_parses(
        "map { a\ntimes a 2\nreturn 4\n\n}",
        vec![Node(
            vec![
                sym("map", 0, 0),
                Node(
                    vec![
                        sym("block", 0, 0),
                        sym("a", 0, 6),
                        Node(
                            vec![
                                Node(
                                    vec![sym("times", 1, 0), sym("a", 1, 6), sym("2", 1, 8)],
                                    Position(1, 0),
                                ),
                                Node(vec![sym("return", 2, 0), sym("4", 2, 7)], Position(2, 0)),
                            ],
                            Position(1, 0),
                        ),
                    ],
                    Position(0, 5),
                ),
            ],
            Position(0, 0),
        )],
    );
}

#[test]
fn empty_text_parses_to_nothing() {
    assert!(parse("").unwrap().is_none());
}

#[test]
fn whitespace_and_a_symbol_parse_to_one_line() {
    assert_parses("  word ", vec![Node(vec![sym("word", 0, 2)], Position(0, 0))]);
    assert_parses("\n word\n", vec![Node(vec![sym("word", 1, 1)], Position(1, 0))]);
    assert_parses("x", vec![Node(vec![sym("x", 0, 0)], Position(0, 0))]);
}

#[test]
fn whitespace_only_parses_to_an_empty_root() {
    assert_eq!(parse(" \n ").unwrap().unwrap(), Node(vec![], Position(0, 0)));
}

#[test]
fn unmatched_close_paren_is_an_error() {
    let error = parse("a )").err().unwrap();
    assert_eq!(
        error.description,
        "encountered incorrect flag ')',at position Position(0, 3), while reading top level expressions"
    );
    assert_eq!(error.position, Position(0, 0));
}

#[test]
fn close_curly_inside_parens_is_an_error() {
    let error = parse("(a }").err().unwrap();
    assert_eq!(
        error.description,
        "encountered incorrect flag '}',at position Position(0, 4), while reading an open paren"
    );
}

#[test]
fn unclosed_block_is_an_error() {
    let error = parse("f { a\nb").err().unwrap();
    assert_eq!(error.description, "hit end of file while reading a block");
    assert_eq!(error.position, Position(0, 2));
    let error = parse("f { a").err().unwrap();
    assert_eq!(error.description, "hit end of file while reading a block");
}

#[test]
fn block_ends_at_its_closing_curly() {
    assert_parses(
        "f { a\nb\n}\ng",
        vec![
            Node(
                vec![
                    sym("f", 0, 0),
                    Node(
                        vec![
                            sym("block", 0, 0),
                            sym("a", 0, 4),
                            Node(vec![Node(vec![sym("b", 1, 0)], Position(1, 0))], Position(1, 0)),
                        ],
                        Position(0, 3),
                    ),
                ],
                Position(0, 0),
            ),
            Node(vec![sym("g", 3, 0)], Position(3, 0)),
        ],
    );
}
