//! The predictive analyzer: it builds the parsing table of a grammar and runs
//! the table-driven parser on tokenized input.

use crate::cfg::{lemma_terminals, Cfg};
use crate::first::first_of;
use crate::follow::follow;
use crate::grammar::Grammar;
use crate::laws::rows_built;
use crate::machine::{accepts, stops_with, Machine};
use crate::parser::{drive, parser_machine};
use crate::report::{table_as_html, table_html};
use crate::symbols::{
    end_marker, end_marker_token, epsilon_mark, epsilon_mark_token, has_name, lemma_names_push,
    names, names2, position_of,
};
use crate::table::{chosen, lemma_row_push, row_lookup, table_cell, TableTerminals};
use crate::text::{split_text, tokens_of};
use vstd::string::StrSliceExecFns;
use vstd::prelude::*;

verus! {

/// The scratch state of one run of the parser.
pub struct Parser {
    /// The symbols still to be matched, the top last.
    pub stack: Vec<String>,
    /// The tokens of the input, with the end marker behind them.
    pub input: Vec<String>,
    /// The productions applied so far, in order.
    pub rule: Vec<usize>,
}

/// An LL(1) analyzer for a grammar that it alone may change while it lives.
pub struct LL1Analyzer<'analyzer> {
    /// The parsing table: one row per non-terminal, in the grammar's order.
    pub table: Vec<TableTerminals>,
    /// The parser's scratch state, reset at the start of each evaluation.
    pub parser: Parser,
    /// The grammar, classified.
    pub grammar: &'analyzer mut Grammar,
}

/// No row holds a cell.
pub open spec fn rows_empty(rows: Seq<Vec<(String, usize)>>) -> bool {
    forall|r: int| 0 <= r < rows.len() ==> (#[trigger] rows[r])@.len() == 0
}

/// Row `r` of `after` is row `r` of `before` with the cells of the table of
/// `g` for the non-terminal `key` written over it, as far as the first `upto`
/// productions enter them.
pub open spec fn row_filled(
    g: Cfg,
    key: Seq<char>,
    before: Seq<(String, usize)>,
    after: Seq<(String, usize)>,
    upto: int,
) -> bool {
    forall|t: Seq<char>| #[trigger]
        row_lookup(after, t) == match chosen(g, key, t, upto) {
            Some(i) => Some(i as usize),
            None => row_lookup(before, t),
        }
}

/// Enters production `index` into `row` under each lookahead of `items`; with
/// `skip_mark`, the mark is left out. An entry made earlier under the same
/// lookahead no longer counts.
pub fn enter(row: &mut TableTerminals, items: &Vec<String>, index: usize, skip_mark: bool)
    ensures
        forall|t: Seq<char>| #[trigger]
            row_lookup(final(row)@, t) == if names(items@).contains(t) && !(skip_mark && t
                == epsilon_mark()) {
                Some(index)
            } else {
                row_lookup(old(row)@, t)
            },
{
    let mark: String = epsilon_mark_token();
    let mut k: usize = 0;
    proof {
        assert(names(items@.take(0)) =~= Seq::<Seq<char>>::empty());
    }
    while k < items.len()
        invariant
            k <= items@.len(),
            mark@ == epsilon_mark(),
            forall|t: Seq<char>| #[trigger]
                row_lookup(row@, t) == if names(items@.take(k as int)).contains(t) && !(skip_mark
                    && t == epsilon_mark()) {
                    Some(index)
                } else {
                    row_lookup(old(row)@, t)
                },
        decreases items@.len() - k,
    {
        let item: &String = &items[k];
        let ghost before: Seq<(String, usize)> = row@;
        let wanted: bool = !(skip_mark && *item == mark);
        if wanted {
            row.push((item.clone(), index));
        }
        proof {
            let seen: Seq<Seq<char>> = names(items@.take(k as int));
            let next: Seq<Seq<char>> = names(items@.take(k + 1));
            assert(next =~= seen.push(item@));
            assert forall|t: Seq<char>| #[trigger]
                row_lookup(row@, t) == if next.contains(t) && !(skip_mark && t == epsilon_mark()) {
                    Some(index)
                } else {
                    row_lookup(old(row)@, t)
                } by {
                assert(next.contains(t) <==> seen.contains(t) || t == item@) by {
                    if seen.contains(t) {
                        let j: int = choose|j: int| 0 <= j < seen.len() && seen[j] == t;
                        assert(next[j] == t);
                    }
                    if t == item@ {
                        assert(next[k as int] == t);
                    }
                }
                if wanted {
                    lemma_row_push(before, (*item, index), t);
                }
                assert(row_lookup(before, t) == if seen.contains(t) && !(skip_mark && t
                    == epsilon_mark()) {
                    Some(index)
                } else {
                    row_lookup(old(row)@, t)
                });
            }
        }
        k += 1;
    }
    proof {
        assert(items@.take(items@.len() as int) =~= items@);
    }
}

impl<'analyzer> LL1Analyzer<'analyzer> {
    /// The parser that this analyzer runs on `tokens`.
    pub open spec fn machine(&self, tokens: Seq<Seq<char>>) -> Machine {
        parser_machine(*self.grammar, self.table@, tokens.push(end_marker()))
    }

    /// The text of the table as an HTML page.
    pub open spec fn page(&self) -> Seq<char> {
        table_html(
            names(self.grammar.terminals@),
            names(self.grammar.non_terminals@),
            self.table@,
            names2(self.grammar.productions@),
        )
    }

    /// Takes the grammar and lays out an empty table, one row per
    /// non-terminal.
    pub fn new(grammar: &'analyzer mut Grammar) -> (analyzer: LL1Analyzer<'analyzer>)
        ensures
            *analyzer.grammar == *old(grammar),
            *final(grammar) == *final(analyzer.grammar),
            analyzer.table@.len() == old(grammar).non_terminals@.len(),
            rows_empty(analyzer.table@),
            analyzer.parser.stack@.len() == 0,
            analyzer.parser.input@.len() == 0,
            analyzer.parser.rule@.len() == 0,
    {
        let mut analyzer: LL1Analyzer<'analyzer> = LL1Analyzer {
            table: Vec::new(),
            parser: Parser { stack: Vec::new(), input: Vec::new(), rule: Vec::new() },
            grammar,
        };
        analyzer.build_table_struct();
        analyzer
    }

    /// Lays out an empty table, one row per non-terminal.
    pub fn build_table_struct(&mut self)
        ensures
            final(self).table@.len() == old(self).grammar.non_terminals@.len(),
            rows_empty(final(self).table@),
            final(self).parser == old(self).parser,
            *final(self).grammar == *old(self).grammar,
            *final(final(self).grammar) == *final(old(self).grammar),
    {
        let n: usize = self.grammar.non_terminals.len();
        let mut rows: Vec<TableTerminals> = Vec::new();
        let mut r: usize = 0;
        while r < n
            invariant
                r <= n,
                rows@.len() == r,
                rows_empty(rows@),
            decreases n - r,
        {
            rows.push(Vec::new());
            r += 1;
        }
        self.table = rows;
    }

    /// Fills the table. Production `i`, which rewrites `A` into a body, is
    /// entered under every member of FIRST of the body but the mark, and,
    /// where the body can vanish, under every member of FOLLOW of `A`. Where
    /// two productions claim one cell, the later one has it; in an LL(1)
    /// grammar none do. Cells that no production claims stay as they were.
    /// The FIRST and FOLLOW sets are computed where they were not.
    pub fn build_table(&mut self)
        requires
            old(self).grammar.classified(),
            old(self).grammar.firsts_valid(),
            old(self).grammar.follows_valid(),
            old(self).table@.len() == old(self).grammar.non_terminals@.len(),
        ensures
            final(self).parser == old(self).parser,
            final(self).table@.len() == old(self).table@.len(),
            forall|r: int|
                0 <= r < final(self).table@.len() ==> row_filled(
                    old(self).grammar.model(),
                    names(old(self).grammar.non_terminals@)[r],
                    old(self).table@[r]@,
                    #[trigger] final(self).table@[r]@,
                    old(self).grammar.sides.left@.len() as int,
                ),
            rows_empty(old(self).table@) ==> rows_built(
                old(self).grammar.model(),
                names(old(self).grammar.non_terminals@),
                final(self).table@,
            ),
            final(self).grammar.classified(),
            final(self).grammar.firsts_ready(),
            final(self).grammar.follows_ready(),
            final(self).grammar.sides == old(self).grammar.sides,
            final(self).grammar.terminals == old(self).grammar.terminals,
            final(self).grammar.non_terminals == old(self).grammar.non_terminals,
            final(self).grammar.productions == old(self).grammar.productions,
            old(self).grammar.firsts@.len() != 0 ==> final(self).grammar.firsts == old(
                self,
            ).grammar.firsts,
            old(self).grammar.follows@.len() != 0 ==> final(self).grammar.follows == old(
                self,
            ).grammar.follows,
            *final(final(self).grammar) == *final(old(self).grammar),
    {
        self.grammar.ensure_follows();
        let ghost g: Cfg = self.grammar.model();
        let ghost keys: Seq<Seq<char>> = names(self.grammar.non_terminals@);
        let ghost start: Seq<Vec<(String, usize)>> = self.table@;
        let ghost settled: Grammar = *self.grammar;
        let total: usize = self.grammar.sides.left.len();
        let n: usize = self.grammar.non_terminals.len();
        let mut i: usize = 0;
        proof {
            lemma_terminals(g);
            assert(names2(self.grammar.productions@).len() == self.grammar.productions@.len());
            assert(g.bodies.len() == self.grammar.sides.right@.len());
        }
        while i < total
            invariant
                i <= total,
                total == self.grammar.sides.left@.len(),
                n == self.grammar.non_terminals@.len(),
                *self.grammar == settled,
                self.parser == old(self).parser,
                *final(self.grammar) == *final(old(self).grammar),
                g == self.grammar.model(),
                keys == names(self.grammar.non_terminals@),
                keys.no_duplicates(),
                self.grammar.classified(),
                self.grammar.firsts_ready(),
                self.grammar.follows_ready(),
                self.grammar.productions@.len() == total,
                self.table@.len() == n,
                start.len() == n,
                forall|r: int|
                    0 <= r < n ==> row_filled(g, keys[r], start[r]@, #[trigger] self.table@[r]@, i as int),
            decreases total - i,
        {
            proof {
                lemma_terminals(g);
                assert(g.is_non_terminal(g.left[i as int]));
                assert(keys.contains(g.left[i as int]));
            }
            match position_of(&self.grammar.non_terminals, &self.grammar.sides.left[i]) {
                Some(r) => {
                    let ghost rows: Seq<Vec<(String, usize)>> = self.table@;
                    let ghost row0: Seq<(String, usize)> = self.table@[r as int]@;
                    proof {
                        assert(names2(self.grammar.productions@)[i as int] == names(
                            self.grammar.productions@[i as int]@,
                        ));
                        assert(names2(self.grammar.follows@)[r as int] == names(
                            self.grammar.follows@[r as int]@,
                        ));
                        assert(keys[r as int] == g.left[i as int]);
                    }
                    let first: Vec<String> = self.grammar.quick_first_production(
                        &self.grammar.productions[i],
                    );
                    let mark: String = epsilon_mark_token();
                    enter(&mut self.table[r], &first, i, true);
                    let ghost row1: Seq<(String, usize)> = self.table@[r as int]@;
                    if has_name(&first, &mark) {
                        enter(&mut self.table[r], &self.grammar.follows[r], i, false);
                    }
                    proof {
                        let row2: Seq<(String, usize)> = self.table@[r as int]@;
                        assert forall|q: int| 0 <= q < n implies row_filled(
                            g,
                            keys[q],
                            start[q]@,
                            #[trigger] self.table@[q]@,
                            i + 1,
                        ) by {
                            assert(row_filled(g, keys[q], start[q]@, rows[q]@, i as int));
                            if q == r {
                                assert forall|t: Seq<char>| #[trigger]
                                    row_lookup(row2, t) == match chosen(g, keys[q], t, i + 1) {
                                        Some(j) => Some(j as usize),
                                        None => row_lookup(start[q]@, t),
                                    } by {
                                    assert(names(first@).contains(t) <==> first_of(
                                        g,
                                        g.bodies[i as int],
                                        0,
                                        t,
                                    ));
                                    assert(names(first@).contains(epsilon_mark()) <==> first_of(
                                        g,
                                        g.bodies[i as int],
                                        0,
                                        epsilon_mark(),
                                    ));
                                    assert(names(self.grammar.follows@[r as int]@).contains(t)
                                        <==> follow(g, g.left[i as int], t)) by {
                                        assert(names2(self.grammar.follows@)[r as int].contains(t)
                                            <==> crate::follow::follow_family(g)(keys[r as int], t));
                                    }
                                    assert(row_lookup(row1, t) == if names(first@).contains(t)
                                        && t != epsilon_mark() {
                                        Some(i)
                                    } else {
                                        row_lookup(row0, t)
                                    });
                                    assert(row_lookup(row0, t) == match chosen(
                                        g,
                                        keys[q],
                                        t,
                                        i as int,
                                    ) {
                                        Some(j) => Some(j as usize),
                                        None => row_lookup(start[q]@, t),
                                    });
                                }
                            } else {
                                assert(self.table@[q] == rows[q]);
                                assert(keys[q] != g.left[i as int]);
                            }
                        }
                    }
                },
                None => {
                    proof {
                        assert(false);
                    }
                },
            }
            i += 1;
        }
        proof {
            if rows_empty(start) {
                assert forall|r: int, t: Seq<char>| 0 <= r < n implies #[trigger] row_lookup(
                    self.table@[r]@,
                    t,
                ) == match table_cell(g, keys[r], t) {
                    Some(j) => Some(j as usize),
                    None => None,
                } by {
                    assert(row_filled(g, keys[r], start[r]@, self.table@[r]@, total as int));
                    assert(start[r]@.len() == 0);
                }
            }
        }
    }

    /// The table as an HTML page: a header with one column per terminal and
    /// one for the end marker, and a row per non-terminal with, in each cell,
    /// the production that the table holds there, or nothing.
    pub fn get_table_as_html(&self) -> (page: String)
        ensures
            page@ == self.page(),
    {
        table_as_html(
            &self.grammar.terminals,
            &self.grammar.non_terminals,
            &self.table,
            &self.grammar.productions,
        )
    }

    /// Runs the parser on `input`, a line of tokens between single spaces
    /// (the empty line has no token), and tells whether it accepts: whether the moves that the table
    /// dictates, from the start symbol on the end marker, consume the tokens
    /// and leave the end marker on top with the end marker ahead. An input
    /// on which those moves would never end is rejected. The scratch state
    /// is reset first; afterwards it holds the tokens with the end marker,
    /// the stack at which the parser stopped and the productions that it
    /// applied up to there.
    pub fn eval(&mut self, input: &String) -> (accepted: bool)
        requires
            old(self).grammar.classified(),
        ensures
            accepted == accepts(old(self).machine(tokens_of(input@))),
            names(final(self).parser.input@) == tokens_of(input@).push(end_marker()),
            old(self).grammar.non_terminals@.len() == 0 ==> final(self).parser.stack@.len() == 0
                && final(self).parser.rule@.len() == 0,
            old(self).grammar.non_terminals@.len() > 0 ==> stops_with(
                old(self).machine(tokens_of(input@)),
                names(final(self).parser.stack@),
                final(self).parser.rule@,
            ),
            final(self).table == old(self).table,
            *final(self).grammar == *old(self).grammar,
            *final(final(self).grammar) == *final(old(self).grammar),
    {
        let mut tokens: Vec<String> = self.split_input(input);
        let end_token: String = end_marker_token();
        proof {
            lemma_names_push(tokens@, end_token);
        }
        tokens.push(end_token);
        self.parser.input = tokens;
        drive(
            &*self.grammar,
            &self.table,
            &self.parser.input,
            &mut self.parser.stack,
            &mut self.parser.rule,
        )
    }

    /// The tokens of `input`: none for the empty line, else its pieces
    /// between single spaces.
    pub fn split_input(&self, input: &String) -> (tokens: Vec<String>)
        ensures
            names(tokens@) == tokens_of(input@),
    {
        if input.as_str().unicode_len() == 0 {
            let tokens: Vec<String> = Vec::new();
            proof {
                assert(names(tokens@) =~= Seq::<Seq<char>>::empty());
            }
            tokens
        } else {
            split_text(input, ' ')
        }
    }
}

} // verus!
