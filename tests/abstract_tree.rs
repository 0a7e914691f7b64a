use std::cell::Cell;

use acorn::abstract_tree::AbstractTree;
use acorn::abstract_tree::AbstractTree::{Node, Token};
use acorn::abstract_tree::TokenType::{Int, Symbol};
use acorn::utils::{Error, Position};

fn symbol(s: &str) -> AbstractTree {
    Token(Symbol, s.to_string(), Position(0, 0))
}

fn integer(s: &str) -> AbstractTree {
    Token(Int, s.to_string(), Position(0, 0))
}

fn generate_data() -> AbstractTree {
    Node(
        vec![
            Node(
                vec![
                    symbol("foo"),
                    integer("2"),
                    integer("2"),
                    Node(vec![symbol("foo"), symbol("foo")], Position(0, 2)),
                ],
                Position(0, 2),
            ),
            Node(vec![symbol("define"), integer("2")], Position(0, 2)),
        ],
        Position(0, 2),
    )
}

#[test]
fn test_match_symbol() {
    let data = generate_data();
    let count = Cell::new(0);
    let visitor = |_: &AbstractTree| -> Result<(), Error> {
        count.set(count.get() + 1);
        Ok(())
    };
    data.match_symbol("foo", &visitor).ok().unwrap();
    assert_eq!(count.get(), 2);
}

#[test]
fn test_check_length() {
    let data = generate_data();
    assert!(data.match_symbol("define", &|at: &AbstractTree| at.check_length(2)).is_ok());
    assert!(data.match_symbol("define", &|at: &AbstractTree| at.check_length(1)).is_err());
}

#[test]
fn test_err_and_position() {
    let data = generate_data();
    let error = data.err::<()>("this is an error".to_string()).err().unwrap();
    assert_eq!(error.description, "this is an error".to_string());
    assert_eq!(error.position, data.position());
}

#[test]
fn match_symbol_visits_in_pre_order_and_stops_at_first_error() {
    let data = Node(
        vec![
            Node(vec![symbol("foo"), Node(vec![symbol("foo")], Position(1, 1))], Position(1, 0)),
            Node(vec![symbol("foo")], Position(2, 0)),
        ],
        Position(0, 0),
    );
    let seen = Cell::new(0);
    let visitor = |at: &AbstractTree| -> Result<(), Error> {
        seen.set(seen.get() + 1);
        if at.position() == Position(1, 1) {
            at.err("stop".to_string())
        } else {
            Ok(())
        }
    };
    let error = data.match_symbol("foo", &visitor).err().unwrap();
    assert_eq!(error.position, Position(1, 1));
    assert_eq!(error.description, "stop");
    assert_eq!(seen.get(), 2);
}

#[test]
fn check_min_length_reports_name_and_count() {
    let node = Node(vec![symbol("block")], Position(3, 4));
    assert!(node.check_min_length(1).is_ok());
    let error = node.check_min_length(3).err().unwrap();
    assert_eq!(error.description, "block takes at least 2 arguments");
    assert_eq!(error.position, Position(3, 4));
}

#[test]
fn check_length_rejects_other_counts() {
    let node = Node(vec![symbol("define"), integer("2")], Position(0, 7));
    assert!(node.check_length(2).is_ok());
    let error = node.check_length(3).err().unwrap();
    assert_eq!(error.description, "define takes 2 arguments");
    assert_eq!(error.position, Position(0, 7));
    let error = node.check_length(12).err().unwrap();
    assert_eq!(error.description, "define takes 11 arguments");
}

#[test]
fn check_argument_block_accepts_a_block() {
    let node = Node(
        vec![
            symbol("define"),
            symbol("f"),
            Node(vec![symbol("block"), Node(vec![], Position(0, 0))], Position(0, 9)),
        ],
        Position(0, 0),
    );
    assert!(node.check_argument_block(2).is_ok());
}

#[test]
fn check_argument_block_rejects_a_token() {
    let node = Node(vec![symbol("define"), symbol("f"), integer("2")], Position(5, 1));
    let error = node.check_argument_block(2).err().unwrap();
    assert_eq!(error.description, "define expects a block for its 2th argument");
    assert_eq!(error.position, Position(5, 1));
}

#[test]
fn check_argument_block_rejects_a_node_not_headed_by_block() {
    let node = Node(
        vec![
            symbol("define"),
            symbol("f"),
            Node(vec![symbol("blob"), Node(vec![], Position(0, 0))], Position(0, 9)),
        ],
        Position(0, 1),
    );
    let error = node.check_argument_block(2).err().unwrap();
    assert_eq!(error.description, "define expects a block for its 2th argument");
    assert_eq!(error.position, Position(0, 1));
}

#[test]
fn check_argument_block_rejects_a_short_nameless_node() {
    let node = Node(
        vec![symbol("define"), symbol("f"), Node(vec![], Position(0, 9))],
        Position(0, 1),
    );
    let error = node.check_argument_block(2).err().unwrap();
    assert_eq!(error.description, "define expects a block for its 2th argument");
}

#[test]
fn assert_only_top_level_allows_top_level_forms() {
    let data = Node(
        vec![Node(
            vec![
                symbol("define"),
                symbol("f"),
                Node(vec![symbol("block"), Node(vec![symbol("x")], Position(0, 0))], Position(0, 0)),
            ],
            Position(0, 0),
        )],
        Position(0, 0),
    );
    assert!(data.assert_only_top_level("define").is_ok());
}

#[test]
fn assert_only_top_level_rejects_a_nested_form() {
    let nested = Node(vec![symbol("define"), symbol("g")], Position(4, 2));
    let data = Node(
        vec![Node(
            vec![
                symbol("define"),
                symbol("f"),
                Node(vec![symbol("block"), Node(vec![nested], Position(0, 0))], Position(0, 0)),
            ],
            Position(0, 0),
        )],
        Position(0, 0),
    );
    let error = data.assert_only_top_level("define").err().unwrap();
    assert_eq!(error.description, "define was invoked without being on the top level");
    assert_eq!(error.position, Position(4, 2));
}

#[test]
fn assert_only_top_level_rejects_a_form_inside_a_line() {
    let data = Node(
        vec![Node(
            vec![symbol("foo"), Node(vec![symbol("define"), symbol("g")], Position(0, 4))],
            Position(0, 0),
        )],
        Position(0, 0),
    );
    let error = data.assert_only_top_level("define").err().unwrap();
    assert_eq!(error.position, Position(0, 4));
}

#[test]
fn revalidating_a_valid_tree_still_succeeds() {
    let data = Node(
        vec![Node(
            vec![
                symbol("define"),
                symbol("f"),
                Node(vec![symbol("block"), Node(vec![symbol("x")], Position(0, 0))], Position(0, 0)),
            ],
            Position(0, 0),
        )],
        Position(0, 0),
    );
    for _ in 0..2 {
        assert!(acorn::compiler::validate(&data).is_ok());
        assert!(data.assert_only_top_level("define").is_ok());
        assert!(data.match_symbol("define", &|at: &AbstractTree| at.check_length(3)).is_ok());
    }
}

#[test]
fn accessors_read_the_tree() {
    let data = generate_data();
    assert!(data.is_node());
    assert_eq!(data.arguments().len(), 2);
    assert_eq!(data.argument(1).name(), "define");
    assert_eq!(data.argument(0).argument(1).name(), "2");
    assert!(!data.argument(0).argument(1).is_node());
    assert!(data.argument(0).has_name());
    let mut data = data;
    data.arguments_mut().pop();
    assert_eq!(data.arguments().len(), 1);
}
