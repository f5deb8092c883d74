use ll1_analyzer::analyzer::LL1Analyzer;
use ll1_analyzer::grammar::Grammar;

fn lines(productions: &[&str]) -> Vec<String> {
    let mut out: Vec<String> = Vec::new();
    for p in productions {
        out.push(String::from(*p));
    }
    out
}

fn classified(productions: &[&str]) -> Grammar {
    let mut grammar = Grammar::new(lines(productions));
    grammar.find_non_terminals();
    grammar.find_terminals();
    grammar.find_all_productions();
    grammar
}

fn sorted(mut v: Vec<String>) -> Vec<String> {
    v.sort();
    v
}

fn strings(items: &[&str]) -> Vec<String> {
    lines(items)
}

const NESTED: [&str; 5] = ["S -> A", "A -> ( A )", "A -> two", "two -> a", "two -> b"];

#[test]
fn nested_parentheses_symbols() {
    let grammar = classified(&NESTED);
    assert_eq!(grammar.non_terminals, strings(&["S", "A", "two"]));
    assert_eq!(grammar.terminals, strings(&["(", ")", "a", "b"]));
}

#[test]
fn nested_parentheses_first_and_follow() {
    let mut grammar = classified(&NESTED);
    let first = grammar.find_single_first(&String::from("A"));
    assert_eq!(sorted(first), strings(&["(", "a", "b"]));
    let follow = grammar.find_follow(&String::from("A"));
    assert_eq!(sorted(follow), strings(&["$", ")"]));
}

#[test]
fn nested_parentheses_is_ll1() {
    let mut grammar = classified(&NESTED);
    assert!(grammar.is_ll1());
}

#[test]
fn nested_parentheses_accepts_balanced() {
    let mut grammar = classified(&NESTED);
    assert!(grammar.is_ll1());
    let mut analyzer = LL1Analyzer::new(&mut grammar);
    analyzer.build_table();
    assert!(analyzer.eval(&String::from("( ( a ) )")));
    assert!(analyzer.eval(&String::from("( ( ( ( ( b ) ) ) ) )")));
    assert!(analyzer.eval(&String::from("a")));
}

#[test]
fn nested_parentheses_rejects_unbalanced() {
    let mut grammar = classified(&NESTED);
    assert!(grammar.is_ll1());
    let mut analyzer = LL1Analyzer::new(&mut grammar);
    analyzer.build_table();
    assert!(!analyzer.eval(&String::from("( a ) )")));
    assert!(!analyzer.eval(&String::from("( ( ( ( ( a b ) ) ) ) )")));
    assert!(!analyzer.eval(&String::from("( a")));
    assert!(!analyzer.eval(&String::from("")));
}

#[test]
fn left_recursive_expression_grammar_is_not_ll1() {
    let mut grammar = classified(&["E -> E + T", "E -> T", "T -> id"]);
    assert!(!grammar.is_ll1());
}

#[test]
fn the_applied_productions_are_a_leftmost_derivation() {
    let mut grammar = classified(&NESTED);
    let mut analyzer = LL1Analyzer::new(&mut grammar);
    analyzer.build_table();
    assert!(analyzer.eval(&String::from("( a )")));
    assert_eq!(analyzer.parser.rule, vec![0, 1, 2, 3]);
    assert_eq!(analyzer.parser.stack, strings(&["$"]));
    assert_eq!(analyzer.parser.input, strings(&["(", "a", ")", "$"]));
    assert!(!analyzer.eval(&String::from("( b b")));
    assert_eq!(analyzer.parser.rule, vec![0, 1, 2, 4]);
    assert_eq!(analyzer.parser.stack, strings(&["$", ")"]));
}
