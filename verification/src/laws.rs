//! What holds of every grammar: the facts that tie the symbols, the FIRST and
//! FOLLOW sets, the LL(1) test, the table and the parser together.

use crate::cfg::{lemma_terminals, Cfg};
use crate::completeness::{cells_built, lemma_language_accepted};
use crate::first::{
    first, first_family, first_of, first_step, lemma_first_fixed_point, nullable,
    sequence_first, symbol_first, Family,
};
use crate::follow::{follow, follow_family, follow_step, lemma_follow_fixed_point};
use crate::grammar::{lemma_mark_is_no_symbol, Grammar};
use crate::language::in_language;
use crate::ll1::{compatible, first_first_conflict, first_follow_conflict, ll1};
use crate::lookahead::plain;
use crate::machine::{accepts, Machine};
use crate::parser::parser_machine;
use crate::soundness::{cells_valid, end_free, lemma_accepted_in_language};
use crate::symbols::{end_marker, epsilon, epsilon_mark, names};
use crate::table::{lemma_chosen, row_lookup, table_cell};
use vstd::prelude::*;

verus! {

/// Every symbol of `body` can vanish.
pub open spec fn all_nullable(g: Cfg, body: Seq<Seq<char>>) -> bool {
    forall|p: int| 0 <= p < body.len() ==> nullable(g, #[trigger] body[p])
}

/// The rows of a table hold the table of the grammar, one row per
/// non-terminal.
pub open spec fn rows_built(g: Cfg, keys: Seq<Seq<char>>, rows: Seq<Vec<(String, usize)>>) -> bool {
    &&& rows.len() == keys.len()
    &&& forall|r: int, t: Seq<char>|
        0 <= r < rows.len() ==> #[trigger] row_lookup(rows[r]@, t) == match table_cell(
            g,
            keys[r],
            t,
        ) {
            Some(i) => Some(i as usize),
            None => None,
        }
}

/// No symbol is both a terminal and a non-terminal.
pub proof fn law_terminals_apart(g: Cfg)
    ensures
        forall|x: Seq<char>| !(g.terminals().contains(x) && g.non_terminals().contains(x)),
{
    lemma_terminals(g);
    assert forall|x: Seq<char>| !(g.terminals().contains(x) && g.non_terminals().contains(x)) by {
        if g.terminals().contains(x) {
            assert(g.is_terminal(x));
            assert(!g.is_non_terminal(x));
        }
    }
}

pub proof fn lemma_sequence_nullable(g: Cfg, fam: Family, s: Seq<Seq<char>>, from: int)
    requires
        0 <= from,
    ensures
        sequence_first(g, fam, s, from, epsilon_mark()) <==> forall|p: int|
            from <= p < s.len() ==> symbol_first(g, fam, #[trigger] s[p], epsilon_mark()),
    decreases s.len() - from,
{
    if from < s.len() {
        lemma_sequence_nullable(g, fam, s, from + 1);
        if sequence_first(g, fam, s, from, epsilon_mark()) {
            assert forall|p: int| from <= p < s.len() implies symbol_first(
                g,
                fam,
                #[trigger] s[p],
                epsilon_mark(),
            ) by {
                if p > from {
                    assert(sequence_first(g, fam, s, from + 1, epsilon_mark()));
                }
            }
        }
    }
}

/// The mark is in the FIRST set of a non-terminal exactly if every symbol of
/// the body of one of its productions can vanish; the empty-string token can.
pub proof fn law_mark_in_first(g: Cfg, a: Seq<char>)
    requires
        g.is_non_terminal(a),
        a != epsilon(),
    ensures
        first(g, a, epsilon_mark()) <==> exists|i: int|
            0 <= i < g.left.len() && #[trigger] g.left[i] == a && all_nullable(g, g.bodies[i]),
        nullable(g, epsilon()),
{
    let fam: Family = first_family(g);
    lemma_first_fixed_point(g);
    if first(g, a, epsilon_mark()) {
        assert(fam(a, epsilon_mark()));
        assert(first_step(g, fam)(a, epsilon_mark()));
        let i: int = choose|i: int|
            0 <= i < g.left.len() && #[trigger] g.left[i] == a && sequence_first(
                g,
                fam,
                g.bodies[i],
                0,
                epsilon_mark(),
            );
        lemma_sequence_nullable(g, fam, g.bodies[i], 0);
        assert(all_nullable(g, g.bodies[i]));
    }
    if exists|i: int|
        0 <= i < g.left.len() && #[trigger] g.left[i] == a && all_nullable(g, g.bodies[i]) {
        let i: int = choose|i: int|
            0 <= i < g.left.len() && #[trigger] g.left[i] == a && all_nullable(g, g.bodies[i]);
        lemma_sequence_nullable(g, fam, g.bodies[i], 0);
        assert(forall|p: int|
            0 <= p < g.bodies[i].len() ==> symbol_first(
                g,
                fam,
                #[trigger] g.bodies[i][p],
                epsilon_mark(),
            )) by {
            assert forall|p: int| 0 <= p < g.bodies[i].len() implies symbol_first(
                g,
                fam,
                #[trigger] g.bodies[i][p],
                epsilon_mark(),
            ) by {
                assert(nullable(g, g.bodies[i][p]));
            }
        }
        assert(first_step(g, fam)(a, epsilon_mark()));
    }
}

/// The end marker is in the FOLLOW set of the start symbol.
pub proof fn law_end_follows_start(g: Cfg)
    requires
        g.wf(),
        g.left.len() > 0,
    ensures
        follow(g, g.left[0], end_marker()),
{
    lemma_follow_fixed_point(g);
    assert(follow_step(g, follow_family(g))(g.left[0], end_marker()));
}

/// Productions `i` and `j` compete: the FIRST sets of their bodies share a
/// member, or the body of `i` can vanish and the FIRST set of the body of `j`
/// shares a member with the FOLLOW set of their left-hand side.
pub open spec fn conflict(g: Cfg, i: int, j: int) -> bool {
    first_first_conflict(g, i, j) || first_follow_conflict(g, i, j)
}

/// A grammar fails the LL(1) test exactly if two different productions of one
/// non-terminal have bodies whose FIRST sets share a member, or of which one
/// can vanish while the FIRST set of the other shares a member with the
/// FOLLOW set of the non-terminal.
pub proof fn law_ll1_conflicts(g: Cfg)
    requires
        g.wf(),
    ensures
        !ll1(g) <==> exists|i: int, j: int|
            0 <= i < g.left.len() && 0 <= j < g.left.len() && i != j && g.left[i] == g.left[j]
                && #[trigger] conflict(g, i, j),
{
    if !ll1(g) {
        let (i, j): (int, int) = choose|i: int, j: int|
            0 <= i < j < g.left.len() && g.left[i] == g.left[j] && !#[trigger] compatible(g, i, j);
        if first_first_conflict(g, i, j) || first_follow_conflict(g, i, j) {
            assert(conflict(g, i, j));
        } else {
            assert(first_follow_conflict(g, j, i));
            assert(conflict(g, j, i));
        }
    }
    if exists|i: int, j: int|
        0 <= i < g.left.len() && 0 <= j < g.left.len() && i != j && g.left[i] == g.left[j]
            && #[trigger] conflict(g, i, j) {
        let (i, j): (int, int) = choose|i: int, j: int|
            0 <= i < g.left.len() && 0 <= j < g.left.len() && i != j && g.left[i] == g.left[j]
                && #[trigger] conflict(g, i, j);
        if i < j {
            assert(!compatible(g, i, j));
        } else {
            if first_first_conflict(g, i, j) {
                let t: Seq<char> = choose|t: Seq<char>|
                    first_of(g, g.bodies[i], 0, t) && first_of(g, g.bodies[j], 0, t);
                assert(first_first_conflict(g, j, i));
            }
            assert(!compatible(g, j, i));
        }
    }
}

/// Round trip: with the table of an LL(1) grammar, the parser accepts a line
/// of tokens exactly if the start symbol derives it by leftmost rewriting.
/// The grammar must keep to the reserved symbols, and the end marker must not
/// be among the tokens.
pub proof fn law_round_trip(m: Machine, tokens: Seq<Seq<char>>)
    requires
        m.g.wf(),
        plain(m.g),
        ll1(m.g),
        cells_built(m),
        m.input == tokens.push(end_marker()),
        !tokens.contains(end_marker()),
    ensures
        accepts(m) <==> in_language(m.g, tokens),
{
    assert(cells_valid(m)) by {
        assert forall|a: Seq<char>, t: Seq<char>| (#[trigger] (m.cell)(a, t)) is Some implies 0 <= (
        m.cell)(a, t)->0 < m.g.left.len() && m.g.left[(m.cell)(a, t)->0] == a by {
            lemma_chosen(m.g, a, t, m.g.left.len() as int);
        }
    }
    if accepts(m) {
        lemma_accepted_in_language(m, tokens);
    }
    if in_language(m.g, tokens) {
        lemma_language_accepted(m, tokens);
    }
}

/// Round trip for an analyzer's grammar and table: once the table of an
/// LL(1) grammar is built, evaluating a line of tokens tells whether the
/// grammar derives it. The grammar must not use the end marker as a symbol
/// nor the empty-string token as a left-hand side, and the end marker must
/// not be among the tokens.
pub proof fn law_table_decides(
    grammar: Grammar,
    rows: Seq<Vec<(String, usize)>>,
    tokens: Seq<Seq<char>>,
)
    requires
        grammar.classified(),
        ll1(grammar.model()),
        rows_built(grammar.model(), names(grammar.non_terminals@), rows),
        end_free(grammar.model()),
        !grammar.model().is_non_terminal(epsilon()),
        !tokens.contains(end_marker()),
    ensures
        accepts(parser_machine(grammar, rows, tokens.push(end_marker()))) <==> in_language(
            grammar.model(),
            tokens,
        ),
{
    let g: Cfg = grammar.model();
    let keys: Seq<Seq<char>> = names(grammar.non_terminals@);
    let m: Machine = parser_machine(grammar, rows, tokens.push(end_marker()));
    lemma_mark_is_no_symbol(grammar);
    lemma_terminals(g);
    let total: usize = grammar.sides.left.len();
    assert forall|a: Seq<char>, t: Seq<char>| #[trigger] (m.cell)(a, t) == table_cell(
        g,
        a,
        t,
    ) by {
        lemma_chosen(g, a, t, g.left.len() as int);
        if keys.contains(a) {
            let r: int = keys.index_of(a);
            assert(row_lookup(rows[r]@, t) == match table_cell(g, keys[r], t) {
                Some(i) => Some(i as usize),
                None => None,
            });
            if table_cell(g, a, t) is Some {
                let i: int = table_cell(g, a, t)->0;
                assert(i < total);
            }
        } else {
            assert(!g.is_non_terminal(a));
            if table_cell(g, a, t) is Some {
                assert(g.left.contains(g.left[table_cell(g, a, t)->0]));
            }
        }
    }
    law_round_trip(m, tokens);
}

} // verus!
