//! Whatever an LL(1) grammar derives, the parser accepts: at every move the
//! table holds the production that the derivation applies next.

use crate::cfg::Cfg;
use crate::first::first_of;
use crate::follow::{follow, follow_family, follow_step, lemma_follow_fixed_point};
use crate::language::{
    erased, in_language, lemma_derive_keeps_head, lemma_derive_with_last, lemma_erased_symbols,
    lemma_leftmost_after, lemma_pushed_erased, leftmost, rewrite, rewrite_all, settled,
};
use crate::ll1::ll1;
use crate::lookahead::{
    ahead, follow_consistent, lemma_ahead_concat, lemma_ahead_skip, lemma_consistent_rewrite,
    lemma_consistent_skip, lemma_derived_begins, lemma_first_of_erased, plain, proper,
};
use crate::machine::{
    accepting, accepts, accepts_from, initial, lemma_step_next, run, step, Config, Machine,
    Step,
};
use crate::soundness::expecting;
use crate::symbols::{end_marker, epsilon, epsilon_mark};
use crate::table::{applicable, lemma_ll1_cell, table_cell};
use vstd::prelude::*;

verus! {

/// The table of the parser is the table of its grammar.
pub open spec fn cells_built(m: Machine) -> bool {
    forall|a: Seq<char>, t: Seq<char>| #[trigger] (m.cell)(a, t) == table_cell(m.g, a, t)
}

/// From a state in which what was consumed and what is expected derive the
/// input, the parser accepts.
pub proof fn lemma_derivation_accepted(
    m: Machine,
    tokens: Seq<Seq<char>>,
    rest: Seq<Seq<char>>,
    pos: int,
    trace: Seq<int>,
)
    requires
        m.g.wf(),
        plain(m.g),
        ll1(m.g),
        cells_built(m),
        m.input == tokens.push(end_marker()),
        settled(m.g, m.input),
        0 <= pos <= tokens.len(),
        proper(m.g, rest),
        follow_consistent(m.g, rest.push(end_marker())),
        rewrite_all(m.g, m.input.take(pos) + rest.push(end_marker()), trace) == Some(m.input),
    ensures
        accepts_from(m, expecting(rest, pos)),
    decreases trace.len(), rest.len(),
{
    let g: Cfg = m.g;
    let c: Config = expecting(rest, pos);
    let whole: Seq<Seq<char>> = rest.push(end_marker());
    let head: Seq<Seq<char>> = m.input.take(pos);
    let form: Seq<Seq<char>> = head + whole;
    assert(c.stack.last() == whole[0]);
    assert forall|k: int| 0 <= k < head.len() implies !g.is_non_terminal(#[trigger] head[k]) by {
        assert(head[k] == m.input[k]);
    }
    lemma_derive_keeps_head(g, head, whole, trace);
    let end: Seq<Seq<char>> = rewrite_all(g, whole, trace)->0;
    assert(m.input == head + end);
    assert(end =~= m.input.skip(pos));
    assert forall|k: int| 0 <= k < end.len() implies !g.is_non_terminal(#[trigger] end[k]) by {
        assert(end[k] == m.input[pos + k]);
    }
    assert(whole.drop_last() =~= rest);
    lemma_derived_begins(g, whole, trace);
    let front: Seq<char> = m.input[pos];
    assert(front == end[0]);
    if rest.len() == 0 {
        assert(whole[0] == end_marker());
        assert(ahead(g, whole, 0, front));
        assert(front == end_marker());
        assert(step(m, c) is Accept);
        assert(run(m, c, 0) == Some(c));
        assert(accepting(m, c, 0));
    } else {
        let top: Seq<char> = rest[0];
        assert(whole[0] == top);
        assert(top != end_marker());
        if !g.is_non_terminal(top) {
            let one: Seq<Seq<char>> = seq![top];
            assert(one + whole.skip(1) =~= whole);
            lemma_derive_keeps_head(g, one, whole.skip(1), trace);
            assert(end[0] == top);
            assert(pos < tokens.len()) by {
                if pos == tokens.len() {
                    assert(m.input[pos] == end_marker());
                }
            }
            let next: Seq<Seq<char>> = rest.skip(1);
            let c1: Config = expecting(next, pos + 1);
            assert(c.stack.drop_last() =~= next.push(end_marker()).reverse());
            assert(step(m, c) == Step::Next(c1));
            assert(m.input.take(pos + 1) + next.push(end_marker()) =~= form);
            lemma_consistent_skip(g, whole);
            assert(whole.skip(1) =~= next.push(end_marker()));
            assert forall|k: int| 0 <= k < next.len() implies (#[trigger] next[k]) != end_marker()
                && next[k] != epsilon() && (g.is_terminal(next[k]) || g.is_non_terminal(
                next[k],
            )) by {
                assert(next[k] == rest[k + 1]);
            }
            lemma_derivation_accepted(m, tokens, next, pos + 1, trace);
            lemma_step_next(m, c, c1);
        } else {
            if trace.len() == 0 {
                assert(form == m.input);
                assert(form[pos] == top);
                assert(false);
            }
            let i: int = trace[0];
            lemma_leftmost_after(g, head, whole);
            assert(leftmost(g, whole) == 0);
            assert(form[pos] == top);
            assert(rewrite(g, form, i) is Some);
            let body: Seq<Seq<char>> = erased(g.bodies[i]);
            let next: Seq<Seq<char>> = body + rest.skip(1);
            assert(rewrite(g, form, i)->0 =~= head + next.push(end_marker()));
            assert(rewrite(g, whole, i)->0 =~= next.push(end_marker()));
            lemma_erased_symbols(g, i);
            assert forall|k: int| 0 <= k < next.len() implies (#[trigger] next[k]) != end_marker()
                && next[k] != epsilon() && (g.is_terminal(next[k]) || g.is_non_terminal(
                next[k],
            )) by {
                if k < body.len() {
                    assert(next[k] == body[k]);
                    assert(g.occurs(body[k]));
                } else {
                    assert(next[k] == rest[k - body.len() + 1]);
                }
            }
            assert(next.push(end_marker()).drop_last() =~= next);
            lemma_derived_begins(g, next.push(end_marker()), trace.drop_first());
            assert(next.push(end_marker()) =~= body + whole.skip(1));
            assert forall|k: int| 0 <= k < body.len() implies #[trigger] body[k]
                != end_marker() by {
                assert(g.occurs(body[k]));
            }
            lemma_ahead_concat(g, body, whole.skip(1), 0, front);
            if first_of(g, body, 0, front) && front != epsilon_mark() {
                lemma_first_of_erased(g, g.bodies[i], front);
            } else {
                lemma_first_of_erased(g, g.bodies[i], epsilon_mark());
                lemma_ahead_skip(g, whole, 1, 0, front);
                assert(ahead(g, whole, 1, front));
                assert(follow(g, whole[0], front));
            }
            assert(applicable(g, i, front));
            lemma_ll1_cell(g, i, front);
            assert((m.cell)(top, front) == Some(i));
            let c1: Config = expecting(next, pos);
            lemma_pushed_erased(g.bodies[i]);
            assert(c.stack.drop_last() + crate::machine::pushed(g.bodies[i]) =~= next.push(
                end_marker(),
            ).reverse());
            assert(step(m, c) == Step::Next(c1));
            lemma_consistent_rewrite(g, whole, i);
            lemma_derivation_accepted(m, tokens, next, pos, trace.drop_first());
            lemma_step_next(m, c, c1);
        }
    }
}

/// What is in the language of an LL(1) grammar, the parser accepts.
pub proof fn lemma_language_accepted(m: Machine, tokens: Seq<Seq<char>>)
    requires
        m.g.wf(),
        plain(m.g),
        ll1(m.g),
        cells_built(m),
        m.input == tokens.push(end_marker()),
        in_language(m.g, tokens),
    ensures
        accepts(m),
{
    let g: Cfg = m.g;
    let start: Seq<Seq<char>> = seq![g.left[0]];
    let trace: Seq<int> = choose|trace: Seq<int>| rewrite_all(g, start, trace) == Some(tokens);
    assert(g.is_non_terminal(g.left[0]));
    lemma_derive_with_last(g, start, end_marker(), trace);
    assert(m.input.take(0) + start.push(end_marker()) =~= start.push(end_marker()));
    assert forall|k: int| 0 <= k < m.input.len() implies !g.is_non_terminal(
        #[trigger] m.input[k],
    ) by {
        if k < tokens.len() {
            assert(m.input[k] == tokens[k]);
        }
    }
    let whole: Seq<Seq<char>> = start.push(end_marker());
    lemma_follow_fixed_point(g);
    assert forall|q: int, t: Seq<char>|
        0 <= q < whole.len() && g.is_non_terminal(whole[q]) && #[trigger] ahead(
            g,
            whole,
            q + 1,
            t,
        ) implies follow(g, whole[q], t) by {
        assert(q == 0);
        assert(t == end_marker());
        assert(follow_step(g, follow_family(g))(g.left[0], end_marker()));
    }
    assert(proper(g, start));
    lemma_derivation_accepted(m, tokens, start, 0, trace);
    assert(initial(m).stack =~= start.push(end_marker()).reverse());
}

} // verus!
