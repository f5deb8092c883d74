use ll1_analyzer::analyzer::LL1Analyzer;
use ll1_analyzer::grammar::Grammar;
use ll1_analyzer::parser::row_find;

fn lines(productions: &[&str]) -> Vec<String> {
    let mut out: Vec<String> = Vec::new();
    for p in productions {
        out.push(String::from(*p));
    }
    out
}

fn classified(productions: &[&str]) -> Grammar {
    let mut grammar = Grammar::new(lines(productions));
    grammar.find_non_terminals();
    grammar.find_terminals();
    grammar.find_all_productions();
    grammar
}

fn cell(analyzer: &LL1Analyzer, row: usize, lookahead: &str) -> Option<usize> {
    row_find(&analyzer.table[row], &String::from(lookahead))
}

const EXPRESSIONS: [&str; 8] = [
    "E -> T E'",
    "E' -> + T E'",
    "E' -> '",
    "T -> F T'",
    "T' -> * F T'",
    "T' -> '",
    "F -> ( E )",
    "F -> id",
];

#[test]
fn the_expression_grammar_is_ll1() {
    let mut grammar = classified(&EXPRESSIONS);
    assert!(grammar.is_ll1());
}

#[test]
fn two_bodies_with_a_common_first_symbol_conflict() {
    let mut grammar = classified(&["S -> a b", "S -> a c"]);
    assert!(!grammar.is_ll1());
}

#[test]
fn two_bodies_that_both_vanish_conflict() {
    let mut grammar = classified(&["S -> A", "S -> '", "A -> '"]);
    assert!(!grammar.is_ll1());
}

#[test]
fn a_vanishing_body_conflicts_with_what_follows() {
    let mut grammar = classified(&["S -> A a", "A -> a", "A -> '"]);
    assert!(!grammar.is_ll1());
    let mut fine = classified(&["S -> A b", "A -> a", "A -> '"]);
    assert!(fine.is_ll1());
}

#[test]
fn a_conflict_between_the_last_two_of_three_alternatives_is_found() {
    let mut grammar = classified(&["A -> a", "A -> b x", "A -> b y"]);
    assert!(!grammar.is_ll1());
    let mut first_and_last = classified(&["A -> b x", "A -> a", "A -> b y"]);
    assert!(!first_and_last.is_ll1());
    let mut none = classified(&["A -> a", "A -> b x", "A -> c y"]);
    assert!(none.is_ll1());
}

#[test]
fn a_new_analyzer_has_an_empty_row_per_non_terminal() {
    let mut grammar = classified(&EXPRESSIONS);
    let analyzer = LL1Analyzer::new(&mut grammar);
    assert_eq!(analyzer.table.len(), 5);
    for row in &analyzer.table {
        assert!(row.is_empty());
    }
}

#[test]
fn the_table_of_the_expression_grammar() {
    let mut grammar = classified(&EXPRESSIONS);
    assert!(grammar.is_ll1());
    let mut analyzer = LL1Analyzer::new(&mut grammar);
    analyzer.build_table();
    // Rows: E, E', T, T', F.
    assert_eq!(cell(&analyzer, 0, "id"), Some(0));
    assert_eq!(cell(&analyzer, 0, "("), Some(0));
    assert_eq!(cell(&analyzer, 0, "+"), None);
    assert_eq!(cell(&analyzer, 0, "$"), None);
    assert_eq!(cell(&analyzer, 1, "+"), Some(1));
    assert_eq!(cell(&analyzer, 1, ")"), Some(2));
    assert_eq!(cell(&analyzer, 1, "$"), Some(2));
    assert_eq!(cell(&analyzer, 1, "id"), None);
    assert_eq!(cell(&analyzer, 2, "id"), Some(3));
    assert_eq!(cell(&analyzer, 2, "("), Some(3));
    assert_eq!(cell(&analyzer, 3, "*"), Some(4));
    assert_eq!(cell(&analyzer, 3, "+"), Some(5));
    assert_eq!(cell(&analyzer, 3, ")"), Some(5));
    assert_eq!(cell(&analyzer, 3, "$"), Some(5));
    assert_eq!(cell(&analyzer, 4, "("), Some(6));
    assert_eq!(cell(&analyzer, 4, "id"), Some(7));
    assert_eq!(cell(&analyzer, 4, "*"), None);
    assert_eq!(cell(&analyzer, 0, "' '"), None);
    assert_eq!(cell(&analyzer, 1, "' '"), None);
}

#[test]
fn the_later_of_two_productions_has_a_contested_cell() {
    let mut grammar = classified(&["S -> a b", "S -> a c"]);
    let mut analyzer = LL1Analyzer::new(&mut grammar);
    analyzer.build_table();
    assert_eq!(cell(&analyzer, 0, "a"), Some(1));
}

#[test]
fn building_the_table_computes_the_sets() {
    let mut grammar = classified(&EXPRESSIONS);
    {
        let mut analyzer = LL1Analyzer::new(&mut grammar);
        analyzer.build_table();
    }
    assert_eq!(grammar.firsts.len(), 5);
    assert_eq!(grammar.follows.len(), 5);
}

#[test]
fn expressions_are_evaluated() {
    let mut grammar = classified(&EXPRESSIONS);
    assert!(grammar.is_ll1());
    let mut analyzer = LL1Analyzer::new(&mut grammar);
    analyzer.build_table();
    assert!(analyzer.eval(&String::from("id")));
    assert!(analyzer.eval(&String::from("id + id * id")));
    assert!(analyzer.eval(&String::from("( id + id ) * id")));
    assert!(!analyzer.eval(&String::from("id +")));
    assert!(!analyzer.eval(&String::from("id id")));
    assert!(!analyzer.eval(&String::from("( id")));
    assert!(!analyzer.eval(&String::from("")));
    assert!(!analyzer.eval(&String::from("id  + id")));
    assert!(!analyzer.eval(&String::from("E")));
    assert!(!analyzer.eval(&String::from("unknown")));
}

#[test]
fn one_rejection_does_not_affect_the_next_input() {
    let mut grammar = classified(&EXPRESSIONS);
    let mut analyzer = LL1Analyzer::new(&mut grammar);
    analyzer.build_table();
    assert!(!analyzer.eval(&String::from("id + + id")));
    assert!(analyzer.eval(&String::from("id + id")));
    assert!(!analyzer.eval(&String::from(") (")));
    assert!(analyzer.eval(&String::from("( id )")));
}

#[test]
fn bodies_that_vanish_are_skipped() {
    let mut grammar = classified(&["S -> a B c", "B -> b", "B -> '"]);
    assert!(grammar.is_ll1());
    let mut analyzer = LL1Analyzer::new(&mut grammar);
    analyzer.build_table();
    assert!(analyzer.eval(&String::from("a c")));
    assert!(analyzer.eval(&String::from("a b c")));
    assert!(!analyzer.eval(&String::from("a b b c")));
    assert!(!analyzer.eval(&String::from("a")));
}

#[test]
fn many_vanishing_symbols_in_a_row() {
    let mut grammar = classified(&["S -> A A A A A A x", "A -> B B", "B -> '"]);
    assert!(grammar.is_ll1());
    let mut analyzer = LL1Analyzer::new(&mut grammar);
    analyzer.build_table();
    assert!(analyzer.eval(&String::from("x")));
    assert!(!analyzer.eval(&String::from("x x")));
}

#[test]
fn an_empty_table_rejects_everything() {
    let mut grammar = classified(&EXPRESSIONS);
    let mut analyzer = LL1Analyzer::new(&mut grammar);
    assert!(!analyzer.eval(&String::from("id")));
    assert!(!analyzer.eval(&String::from("")));
}

#[test]
fn an_analyzer_without_a_grammar_rejects() {
    let mut grammar = classified(&[]);
    let mut analyzer = LL1Analyzer::new(&mut grammar);
    analyzer.build_table();
    assert!(analyzer.table.is_empty());
    assert!(!analyzer.eval(&String::from("a")));
}

#[test]
fn a_table_that_would_loop_is_rejected() {
    let mut grammar = classified(&["S -> S", "S -> T x", "T -> S"]);
    let mut analyzer = LL1Analyzer::new(&mut grammar);
    analyzer.table[0].push((String::from("x"), 0));
    assert!(!analyzer.eval(&String::from("x")));
    analyzer.build_table_struct();
    analyzer.table[0].push((String::from("x"), 1));
    analyzer.table[1].push((String::from("x"), 2));
    assert!(!analyzer.eval(&String::from("x")));
}

#[test]
fn a_cell_with_an_unknown_production_rejects() {
    let mut grammar = classified(&["S -> a"]);
    let mut analyzer = LL1Analyzer::new(&mut grammar);
    analyzer.table[0].push((String::from("a"), 7));
    assert!(!analyzer.eval(&String::from("a")));
}

#[test]
fn the_last_entry_of_a_row_counts() {
    let row = vec![(String::from("a"), 1), (String::from("b"), 2), (String::from("a"), 3)];
    assert_eq!(row_find(&row, &String::from("a")), Some(3));
    assert_eq!(row_find(&row, &String::from("b")), Some(2));
    assert_eq!(row_find(&row, &String::from("c")), None);
}

#[test]
fn the_input_is_split_at_single_spaces() {
    let mut grammar = classified(&["S -> a"]);
    let analyzer = LL1Analyzer::new(&mut grammar);
    assert_eq!(analyzer.split_input(&String::from("( a )")), lines(&["(", "a", ")"]));
    assert_eq!(analyzer.split_input(&String::from("a")), lines(&["a"]));
    assert_eq!(analyzer.split_input(&String::from("a  b")), lines(&["a", "", "b"]));
}

#[test]
fn the_empty_line_has_no_token() {
    let mut grammar = classified(&["S -> a"]);
    let analyzer = LL1Analyzer::new(&mut grammar);
    assert_eq!(analyzer.split_input(&String::from("")), Vec::<String>::new());
    assert_eq!(analyzer.split_input(&String::from(" ")), lines(&["", ""]));
}

#[test]
fn the_empty_sentence_is_accepted_where_the_start_symbol_can_vanish() {
    let mut grammar = classified(&["S -> a S", "S -> '"]);
    assert!(grammar.is_ll1());
    let mut analyzer = LL1Analyzer::new(&mut grammar);
    analyzer.build_table();
    assert!(analyzer.eval(&String::from("")));
    assert_eq!(analyzer.parser.input, lines(&["$"]));
    assert_eq!(analyzer.parser.rule, vec![1]);
    assert_eq!(analyzer.parser.stack, lines(&["$"]));
    assert!(analyzer.eval(&String::from("a")));
    assert!(analyzer.eval(&String::from("a a a")));
    assert!(!analyzer.eval(&String::from("a b")));
    assert!(!analyzer.eval(&String::from(" ")));
}

#[test]
fn the_empty_sentence_is_rejected_where_the_start_symbol_cannot_vanish() {
    let mut grammar = classified(&["S -> a B", "B -> '"]);
    assert!(grammar.is_ll1());
    let mut analyzer = LL1Analyzer::new(&mut grammar);
    analyzer.build_table();
    assert!(!analyzer.eval(&String::from("")));
    assert!(analyzer.eval(&String::from("a")));
}

#[test]
fn building_the_table_keeps_sets_that_are_there() {
    let mut grammar = classified(&EXPRESSIONS);
    let _ = grammar.find_follow(&String::from("E"));
    let firsts = grammar.firsts.clone();
    let follows = grammar.follows.clone();
    {
        let mut analyzer = LL1Analyzer::new(&mut grammar);
        analyzer.build_table();
    }
    assert_eq!(grammar.firsts, firsts);
    assert_eq!(grammar.follows, follows);
}

#[test]
fn the_table_as_a_page() {
    let mut grammar = classified(&["S -> a B", "B -> b", "B -> '"]);
    let mut analyzer = LL1Analyzer::new(&mut grammar);
    analyzer.build_table();
    let head = "
      <html>
        <style>
          table, th, td {
            border:1px solid black;
          }
        </style>
        <body>
          <table>
            <tr>
              <th>Non Terminal</th>";
    let expected = format!(
        "{}{}{}{}{}",
        head,
        "<th>a</th><th>b</th><th>$</th></tr>",
        "<tr><td>S</td><td>S -> a B</td><td></td><td></td></tr>",
        "<tr><td>B</td><td></td><td>B -> b</td><td>B -> '</td></tr>",
        "</table></html></body>"
    );
    assert_eq!(analyzer.get_table_as_html(), expected);
}

#[test]
fn the_page_of_an_empty_table() {
    let mut grammar = classified(&["S -> a"]);
    let analyzer = LL1Analyzer::new(&mut grammar);
    let page = analyzer.get_table_as_html();
    assert!(page.ends_with(
        "<th>a</th><th>$</th></tr><tr><td>S</td><td></td><td></td></tr></table></html></body>"
    ));
}
