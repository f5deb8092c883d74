use ll1_analyzer::grammar::Grammar;
use ll1_analyzer::text::{split_production, split_text};

fn lines(productions: &[&str]) -> Vec<String> {
    let mut out: Vec<String> = Vec::new();
    for p in productions {
        out.push(String::from(*p));
    }
    out
}

fn classified(productions: &[&str]) -> Grammar {
    let mut grammar = Grammar::new(lines(productions));
    grammar.find_non_terminals();
    grammar.find_terminals();
    grammar.find_all_productions();
    grammar
}

#[test]
fn new_splits_each_production_at_its_arrow() {
    let grammar = Grammar::new(lines(&["S -> A b", "A -> '"]));
    assert_eq!(grammar.sides.left, lines(&["S", "A"]));
    assert_eq!(grammar.sides.right, lines(&["A b", "'"]));
    assert!(grammar.terminals.is_empty());
    assert!(grammar.non_terminals.is_empty());
    assert!(grammar.firsts.is_empty());
    assert!(grammar.follows.is_empty());
    assert!(grammar.productions.is_empty());
}

#[test]
fn a_production_needs_exactly_one_arrow() {
    assert_eq!(
        split_production(&String::from("S -> a b")),
        Some((String::from("S"), String::from("a b")))
    );
    assert_eq!(split_production(&String::from("S a b")), None);
    assert_eq!(split_production(&String::from("S->a")), None);
    assert_eq!(split_production(&String::from("S -> a -> b")), None);
    assert_eq!(split_production(&String::from("")), None);
    assert_eq!(split_production(&String::from(" -> ")), Some((String::new(), String::new())));
}

#[test]
fn text_is_split_at_every_single_space() {
    assert_eq!(split_text(&String::from("( A )"), ' '), lines(&["(", "A", ")"]));
    assert_eq!(split_text(&String::from("a"), ' '), lines(&["a"]));
    assert_eq!(split_text(&String::from(""), ' '), lines(&[""]));
    assert_eq!(split_text(&String::from("a  b"), ' '), lines(&["a", "", "b"]));
    assert_eq!(split_text(&String::from(" a "), ' '), lines(&["", "a", ""]));
}

#[test]
fn non_terminals_come_in_order_of_first_appearance() {
    let mut grammar = Grammar::new(lines(&["B -> b", "A -> a", "B -> c", "C -> A", "A -> B"]));
    grammar.find_non_terminals();
    assert_eq!(grammar.non_terminals, lines(&["B", "A", "C"]));
}

#[test]
fn terminals_come_in_order_of_first_appearance() {
    let grammar = classified(&["S -> x A y", "A -> y z", "A -> '", "S -> x"]);
    assert_eq!(grammar.non_terminals, lines(&["S", "A"]));
    assert_eq!(grammar.terminals, lines(&["x", "y", "z"]));
}

#[test]
fn terminals_and_non_terminals_share_no_symbol() {
    let grammar = classified(&["S -> A b S", "A -> S a", "A -> '", "b -> c"]);
    for t in &grammar.terminals {
        assert!(!grammar.non_terminals.contains(t));
    }
    assert_eq!(grammar.non_terminals, lines(&["S", "A", "b"]));
    assert_eq!(grammar.terminals, lines(&["a", "c"]));
}

#[test]
fn terminals_found_before_non_terminals_take_every_symbol() {
    let mut grammar = Grammar::new(lines(&["S -> A b", "A -> '"]));
    grammar.find_terminals();
    assert_eq!(grammar.terminals, lines(&["A", "b"]));
}

#[test]
fn productions_are_indexed_as_symbol_lists() {
    let grammar = classified(&["S -> ( S )", "S -> '"]);
    assert_eq!(grammar.productions, vec![lines(&["(", "S", ")"]), lines(&["'"])]);
}

#[test]
fn get_production_indexes_on_demand() {
    let mut grammar = Grammar::new(lines(&["S -> ( S )", "S -> x"]));
    assert_eq!(grammar.get_production(1), lines(&["x"]));
    assert_eq!(grammar.productions.len(), 2);
    assert_eq!(grammar.get_production(0), lines(&["(", "S", ")"]));
}

#[test]
fn side_to_prod_splits_a_body() {
    let grammar = Grammar::new(Vec::new());
    assert_eq!(grammar.side_to_prod(&String::from("a B c")), lines(&["a", "B", "c"]));
}

#[test]
fn indexes_of_a_non_terminal_among_the_left_sides() {
    let grammar = classified(&["A -> a", "B -> b", "A -> c", "A -> d"]);
    assert_eq!(grammar.get_indexes_in_non_terminals(&String::from("A")), vec![0, 2, 3]);
    assert_eq!(grammar.get_indexes_in_non_terminals(&String::from("B")), vec![1]);
    assert_eq!(grammar.get_indexes_in_non_terminals(&String::from("a")), Vec::<usize>::new());
}

#[test]
fn places_of_a_symbol_in_the_bodies() {
    let grammar = classified(&["S -> A b A", "A -> a", "B -> A"]);
    assert_eq!(grammar.find_in_right_side(&String::from("A")), vec![(0, 0), (0, 2), (2, 0)]);
    assert_eq!(grammar.find_in_right_side(&String::from("S")), Vec::<(usize, usize)>::new());
}

#[test]
fn an_empty_grammar_has_no_symbols() {
    let mut grammar = classified(&[]);
    assert!(grammar.non_terminals.is_empty());
    assert!(grammar.terminals.is_empty());
    assert!(grammar.is_ll1());
    assert!(grammar.find_single_first(&String::from("A")).is_empty());
    assert!(grammar.find_follow(&String::from("A")).is_empty());
}
