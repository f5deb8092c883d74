//! The predictive parsing table: which production a non-terminal is rewritten
//! with under a lookahead.

use crate::cfg::Cfg;
use crate::first::first_of;
use crate::follow::follow;
use crate::ll1::{compatible, first_first_conflict, first_follow_conflict, ll1};
use crate::symbols::epsilon_mark;
use vstd::prelude::*;

verus! {

/// The cells of one row of the table: a lookahead and the number of the
/// production to apply. Where a lookahead stands more than once, the last
/// entry counts.
pub type TableTerminals = Vec<(String, usize)>;

/// Production `i` is entered under the lookahead `t`: `t` is in FIRST of its
/// body and is not the mark, or the body can vanish and `t` is in FOLLOW of
/// its left-hand side.
pub open spec fn applicable(g: Cfg, i: int, t: Seq<char>) -> bool {
    ||| first_of(g, g.bodies[i], 0, t) && t != epsilon_mark()
    ||| first_of(g, g.bodies[i], 0, epsilon_mark()) && follow(g, g.left[i], t)
}

/// The last of the first `upto` productions that rewrites `a` and is entered
/// under `t`.
pub open spec fn chosen(g: Cfg, a: Seq<char>, t: Seq<char>, upto: int) -> Option<int>
    decreases upto,
{
    if upto <= 0 {
        None
    } else if g.left[upto - 1] == a && applicable(g, upto - 1, t) {
        Some(upto - 1)
    } else {
        chosen(g, a, t, upto - 1)
    }
}

/// The cell of the table for the non-terminal `a` and the lookahead `t`.
pub open spec fn table_cell(g: Cfg, a: Seq<char>, t: Seq<char>) -> Option<int> {
    chosen(g, a, t, g.left.len() as int)
}

/// What a row holds for the lookahead `t`.
pub open spec fn row_lookup(row: Seq<(String, usize)>, t: Seq<char>) -> Option<usize>
    decreases row.len(),
{
    if row.len() == 0 {
        None
    } else if row.last().0@ == t {
        Some(row.last().1)
    } else {
        row_lookup(row.drop_last(), t)
    }
}

/// What a table with one row per key holds for the key `a` and the lookahead
/// `t`.
pub open spec fn cell_of(
    keys: Seq<Seq<char>>,
    rows: Seq<Vec<(String, usize)>>,
    a: Seq<char>,
    t: Seq<char>,
) -> Option<int> {
    if keys.contains(a) && keys.index_of(a) < rows.len() {
        match row_lookup(rows[keys.index_of(a)]@, t) {
            Some(i) => Some(i as int),
            None => None,
        }
    } else {
        None
    }
}

pub proof fn lemma_row_push(row: Seq<(String, usize)>, entry: (String, usize), t: Seq<char>)
    ensures
        row_lookup(row.push(entry), t) == if entry.0@ == t {
            Some(entry.1)
        } else {
            row_lookup(row, t)
        },
{
    assert(row.push(entry).drop_last() =~= row);
}

/// A chosen production rewrites the non-terminal and is entered under the
/// lookahead.
pub proof fn lemma_chosen(g: Cfg, a: Seq<char>, t: Seq<char>, upto: int)
    requires
        upto <= g.left.len(),
    ensures
        match chosen(g, a, t, upto) {
            Some(i) => 0 <= i < upto && g.left[i] == a && applicable(g, i, t) && forall|j: int|
                i < j < upto && g.left[j] == a ==> !applicable(g, j, t),
            None => forall|j: int| 0 <= j < upto && g.left[j] == a ==> !applicable(g, j, t),
        },
    decreases upto,
{
    if upto > 0 {
        lemma_chosen(g, a, t, upto - 1);
    }
}

/// In an LL(1) grammar at most one production of a non-terminal is entered
/// under a lookahead, so the table holds it.
pub proof fn lemma_ll1_cell(g: Cfg, i: int, t: Seq<char>)
    requires
        g.wf(),
        ll1(g),
        0 <= i < g.left.len(),
        applicable(g, i, t),
    ensures
        table_cell(g, g.left[i], t) == Some(i),
{
    let a: Seq<char> = g.left[i];
    lemma_chosen(g, a, t, g.left.len() as int);
    let j: int = table_cell(g, a, t)->0;
    if j != i {
        let lo: int = if i < j {
            i
        } else {
            j
        };
        let hi: int = if i < j {
            j
        } else {
            i
        };
        assert(compatible(g, lo, hi));
        assert(applicable(g, i, t) && applicable(g, j, t));
        if first_of(g, g.bodies[i], 0, t) && t != epsilon_mark() {
            if first_of(g, g.bodies[j], 0, t) && t != epsilon_mark() {
                assert(first_first_conflict(g, lo, hi));
            } else {
                assert(first_follow_conflict(g, j, i));
            }
        } else {
            if first_of(g, g.bodies[j], 0, t) && t != epsilon_mark() {
                assert(first_follow_conflict(g, i, j));
            } else {
                assert(first_of(g, g.bodies[i], 0, epsilon_mark()) && first_of(
                    g,
                    g.bodies[j],
                    0,
                    epsilon_mark(),
                ));
                assert(first_first_conflict(g, lo, hi));
            }
        }
        assert(false);
    }
}

} // verus!
