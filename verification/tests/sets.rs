use ll1_analyzer::grammar::Grammar;

fn lines(productions: &[&str]) -> Vec<String> {
    let mut out: Vec<String> = Vec::new();
    for p in productions {
        out.push(String::from(*p));
    }
    out
}

fn classified(productions: &[&str]) -> Grammar {
    let mut grammar = Grammar::new(lines(productions));
    grammar.find_non_terminals();
    grammar.find_terminals();
    grammar.find_all_productions();
    grammar
}

fn sorted(mut v: Vec<String>) -> Vec<String> {
    v.sort();
    v
}

fn first(grammar: &mut Grammar, symbol: &str) -> Vec<String> {
    sorted(grammar.find_single_first(&String::from(symbol)))
}

fn follow(grammar: &mut Grammar, symbol: &str) -> Vec<String> {
    sorted(grammar.find_follow(&String::from(symbol)))
}

const EXPRESSIONS: [&str; 8] = [
    "E -> T E'",
    "E' -> + T E'",
    "E' -> '",
    "T -> F T'",
    "T' -> * F T'",
    "T' -> '",
    "F -> ( E )",
    "F -> id",
];

#[test]
fn first_of_a_terminal_is_the_terminal() {
    let mut grammar = classified(&EXPRESSIONS);
    assert_eq!(first(&mut grammar, "id"), lines(&["id"]));
    assert_eq!(first(&mut grammar, "+"), lines(&["+"]));
}

#[test]
fn first_of_the_empty_string_token_is_the_mark() {
    let mut grammar = classified(&EXPRESSIONS);
    assert_eq!(first(&mut grammar, "'"), lines(&["' '"]));
}

#[test]
fn first_of_an_unknown_symbol_is_empty() {
    let mut grammar = classified(&EXPRESSIONS);
    assert!(first(&mut grammar, "unknown").is_empty());
    assert!(first(&mut grammar, "$").is_empty());
}

#[test]
fn first_sets_of_the_expression_grammar() {
    let mut grammar = classified(&EXPRESSIONS);
    assert_eq!(first(&mut grammar, "E"), lines(&["(", "id"]));
    assert_eq!(first(&mut grammar, "T"), lines(&["(", "id"]));
    assert_eq!(first(&mut grammar, "F"), lines(&["(", "id"]));
    assert_eq!(first(&mut grammar, "E'"), lines(&["' '", "+"]));
    assert_eq!(first(&mut grammar, "T'"), lines(&["' '", "*"]));
}

#[test]
fn follow_sets_of_the_expression_grammar() {
    let mut grammar = classified(&EXPRESSIONS);
    assert_eq!(follow(&mut grammar, "E"), lines(&["$", ")"]));
    assert_eq!(follow(&mut grammar, "E'"), lines(&["$", ")"]));
    assert_eq!(follow(&mut grammar, "T"), lines(&["$", ")", "+"]));
    assert_eq!(follow(&mut grammar, "T'"), lines(&["$", ")", "+"]));
    assert_eq!(follow(&mut grammar, "F"), lines(&["$", ")", "*", "+"]));
}

#[test]
fn first_of_a_sequence_stops_at_the_first_symbol_that_cannot_vanish() {
    let mut grammar = classified(&EXPRESSIONS);
    let body = lines(&["E'", "T'", "id", "+"]);
    assert_eq!(sorted(grammar.find_first_production(&body)), lines(&["*", "+", "id"]));
    let vanishing = lines(&["E'", "'", "T'"]);
    assert_eq!(sorted(grammar.find_first_production(&vanishing)), lines(&["' '", "*", "+"]));
    let nothing: Vec<String> = Vec::new();
    assert_eq!(grammar.find_first_production(&nothing), lines(&["' '"]));
    assert_eq!(grammar.find_first_production(&lines(&["'"])), lines(&["' '"]));
}

#[test]
fn quick_first_production_reads_from_a_position() {
    let mut grammar = classified(&EXPRESSIONS);
    grammar.ensure_firsts();
    let body = lines(&["(", "E'", "id"]);
    assert_eq!(sorted(grammar.first_behind(&body, 1)), lines(&["+", "id"]));
    assert_eq!(grammar.first_behind(&body, 3), lines(&["' '"]));
    assert_eq!(grammar.quick_first_production(&body), lines(&["("]));
}

#[test]
fn the_mark_is_in_first_exactly_where_a_body_can_vanish() {
    let mut grammar = classified(&[
        "S -> A B",
        "A -> a",
        "A -> '",
        "B -> A A",
        "C -> A b",
        "D -> C",
        "D -> B B",
    ]);
    let mark = String::from("' '");
    assert!(grammar.find_single_first(&String::from("A")).contains(&mark));
    assert!(grammar.find_single_first(&String::from("B")).contains(&mark));
    assert!(grammar.find_single_first(&String::from("S")).contains(&mark));
    assert!(!grammar.find_single_first(&String::from("C")).contains(&mark));
    assert!(grammar.find_single_first(&String::from("D")).contains(&mark));
    assert_eq!(first(&mut grammar, "C"), lines(&["a", "b"]));
    assert_eq!(first(&mut grammar, "D"), lines(&["' '", "a", "b"]));
}

#[test]
fn the_start_symbol_is_followed_by_the_end_marker() {
    let mut grammar = classified(&["S -> a S b", "S -> c"]);
    assert_eq!(follow(&mut grammar, "S"), lines(&["$", "b"]));
    let mut single = classified(&["Z -> z"]);
    assert_eq!(follow(&mut single, "Z"), lines(&["$"]));
}

#[test]
fn follow_of_a_terminal_is_what_stands_behind_it() {
    let mut grammar = classified(&["S -> a B c", "B -> b"]);
    assert_eq!(follow(&mut grammar, "a"), lines(&["b"]));
    assert_eq!(follow(&mut grammar, "c"), lines(&["$"]));
    assert!(follow(&mut grammar, "unknown").is_empty());
}

// The FOLLOW sets of S, A and B below depend on each other in a circle. The
// sets are computed to the point where nothing can be added any more, so
// each of them is complete whichever is asked for first.
#[test]
fn follow_sets_that_depend_on_each_other_are_complete() {
    let productions = ["S -> A x", "A -> y B", "B -> z A", "B -> w"];
    let mut from_a = classified(&productions);
    assert_eq!(follow(&mut from_a, "A"), lines(&["x"]));
    assert_eq!(follow(&mut from_a, "B"), lines(&["x"]));
    let mut from_b = classified(&productions);
    assert_eq!(follow(&mut from_b, "B"), lines(&["x"]));
    assert_eq!(follow(&mut from_b, "A"), lines(&["x"]));
}

// A production whose body begins with its own left-hand side adds what
// stands behind that symbol when the symbol can vanish.
#[test]
fn first_of_a_left_recursive_non_terminal_that_can_vanish() {
    let mut grammar = classified(&["A -> A a", "A -> '"]);
    assert_eq!(first(&mut grammar, "A"), lines(&["' '", "a"]));
    assert_eq!(follow(&mut grammar, "A"), lines(&["$", "a"]));
}

#[test]
fn first_sets_of_non_terminals_that_call_each_other() {
    let mut grammar = classified(&["A -> B x", "B -> A y", "B -> z"]);
    assert_eq!(first(&mut grammar, "A"), lines(&["z"]));
    assert_eq!(first(&mut grammar, "B"), lines(&["z"]));
    let mut useless = classified(&["A -> B", "B -> A"]);
    assert!(first(&mut useless, "A").is_empty());
    assert!(first(&mut useless, "B").is_empty());
}

#[test]
fn the_sets_are_kept_once_computed() {
    let mut grammar = classified(&EXPRESSIONS);
    assert!(grammar.firsts.is_empty());
    let _ = grammar.find_single_first(&String::from("E"));
    assert_eq!(grammar.firsts.len(), grammar.non_terminals.len());
    let kept = grammar.firsts.clone();
    let _ = grammar.find_follow(&String::from("T"));
    let _ = grammar.find_single_first(&String::from("F"));
    assert_eq!(grammar.firsts, kept);
    assert_eq!(grammar.follows.len(), grammar.non_terminals.len());
    for set in &grammar.firsts {
        let mut seen = set.clone();
        seen.sort();
        seen.dedup();
        assert_eq!(seen.len(), set.len());
    }
}

#[test]
fn a_terminal_is_answered_without_computing_any_set() {
    let mut grammar = classified(&EXPRESSIONS);
    assert_eq!(grammar.find_single_first(&String::from("id")), lines(&["id"]));
    assert_eq!(grammar.find_single_first(&String::from("(")), lines(&["("]));
    assert!(grammar.firsts.is_empty());
    assert!(grammar.follows.is_empty());
    let _ = grammar.find_single_first(&String::from("E"));
    let kept = grammar.firsts.clone();
    assert_eq!(kept.len(), 5);
    assert_eq!(grammar.find_single_first(&String::from("id")), lines(&["id"]));
    assert_eq!(grammar.firsts, kept);
}

#[test]
fn a_sequence_that_begins_with_a_terminal_computes_no_set() {
    let mut grammar = classified(&EXPRESSIONS);
    assert_eq!(grammar.find_first_production(&lines(&["+", "T", "E'"])), lines(&["+"]));
    assert!(grammar.firsts.is_empty());
    let nothing: Vec<String> = Vec::new();
    assert_eq!(grammar.find_first_production(&nothing), lines(&["' '"]));
    assert!(grammar.firsts.is_empty());
    let _ = grammar.find_first_production(&lines(&["T", "E'"]));
    assert_eq!(grammar.firsts.len(), 5);
}

#[test]
fn a_second_call_returns_the_kept_first_set() {
    let mut grammar = classified(&EXPRESSIONS);
    let once = grammar.find_single_first(&String::from("T'"));
    let _ = grammar.find_follow(&String::from("F"));
    let _ = grammar.is_ll1();
    let twice = grammar.find_single_first(&String::from("T'"));
    assert_eq!(once, twice);
    // T' is the fourth non-terminal.
    assert_eq!(grammar.firsts[3], once);
}

#[test]
fn a_second_call_returns_the_kept_follow_set() {
    let mut grammar = classified(&EXPRESSIONS);
    let once = grammar.find_follow(&String::from("F"));
    let _ = grammar.find_single_first(&String::from("E"));
    let _ = grammar.is_ll1();
    let twice = grammar.find_follow(&String::from("F"));
    assert_eq!(once, twice);
    // F is the fifth non-terminal.
    assert_eq!(grammar.follows[4], once);
}
