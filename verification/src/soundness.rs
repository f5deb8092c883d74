//! Whatever the parser accepts, the grammar derives: the productions that the
//! parser applies, in order, are a leftmost derivation of the input.

use crate::cfg::Cfg;
use crate::language::{
    rewrite_all, erased, lemma_derive_with_last, lemma_erased_symbols, lemma_leftmost_after,
    lemma_pushed_erased, leftmost, rewrite, settled,
};
use crate::machine::{
    accepting, accepts, initial, lemma_run_compose, run, step, Config, Machine, Step,
};
use crate::symbols::end_marker;
use vstd::prelude::*;

verus! {

/// Every cell of the table holds a production of the grammar that rewrites
/// the non-terminal of its row.
pub open spec fn cells_valid(m: Machine) -> bool {
    forall|a: Seq<char>, t: Seq<char>|
        (#[trigger] (m.cell)(a, t)) is Some ==> 0 <= (m.cell)(a, t)->0 < m.g.left.len()
            && m.g.left[(m.cell)(a, t)->0] == a
}

/// The end marker is no symbol of the grammar.
pub open spec fn end_free(g: Cfg) -> bool {
    !g.is_non_terminal(end_marker()) && !g.occurs(end_marker())
}

/// The state of the parser that has consumed the first `pos` tokens and
/// still expects `rest`, in reading order, and then the end.
pub open spec fn expecting(rest: Seq<Seq<char>>, pos: int) -> Config {
    Config { stack: rest.push(end_marker()).reverse(), pos }
}

/// From a state from which the parser accepts in `n` moves, what was consumed
/// and what is expected derive the input. The derivation is returned.
pub proof fn lemma_accepting_derives(
    m: Machine,
    tokens: Seq<Seq<char>>,
    rest: Seq<Seq<char>>,
    pos: int,
    n: nat,
) -> (trace: Seq<int>)
    requires
        m.g.wf(),
        cells_valid(m),
        end_free(m.g),
        m.input == tokens.push(end_marker()),
        !tokens.contains(end_marker()),
        0 <= pos <= tokens.len(),
        forall|k: int| 0 <= k < rest.len() ==> #[trigger] rest[k] != end_marker(),
        settled(m.g, m.input.take(pos)),
        accepting(m, expecting(rest, pos), n),
    ensures
        rewrite_all(m.g, m.input.take(pos) + rest.push(end_marker()), trace) == Some(m.input),
        settled(m.g, m.input),
    decreases n,
{
    let g: Cfg = m.g;
    let c: Config = expecting(rest, pos);
    let form: Seq<Seq<char>> = m.input.take(pos) + rest.push(end_marker());
    let whole: Seq<Seq<char>> = rest.push(end_marker());
    assert(c.stack.last() == whole[0]);
    assert(run(m, c, 0) == Some(c));
    if n == 0 {
        assert(step(m, c) is Accept);
        if rest.len() > 0 {
            assert(whole[0] == rest[0]);
            assert(false);
        }
        if pos < tokens.len() {
            assert(m.input[pos] == tokens[pos]);
            assert(tokens.contains(tokens[pos]));
            assert(false);
        }
        assert(form =~= m.input);
        assert forall|k: int| 0 <= k < m.input.len() implies !g.is_non_terminal(
            #[trigger] m.input[k],
        ) by {
            if k < pos {
                assert(m.input.take(pos)[k] == m.input[k]);
            }
        }
        Seq::empty()
    } else {
        lemma_run_compose(m, c, 1, (n - 1) as nat);
        assert(run(m, c, 1) is Some) by {
            if run(m, c, 1) is None {
                assert(run(m, c, n) is None);
            }
        }
        let c1: Config = run(m, c, 1)->0;
        assert(step(m, c) == Step::Next(c1));
        assert(accepting(m, c1, (n - 1) as nat));
        let front: Seq<char> = m.input[pos];
        if rest.len() == 0 {
            assert(whole[0] == end_marker());
            assert(false);
        }
        let top: Seq<char> = rest[0];
        assert(whole[0] == top);
        if g.is_non_terminal(top) {
            let i: int = (m.cell)(top, front)->0;
            assert((m.cell)(top, front) is Some);
            let body: Seq<Seq<char>> = erased(g.bodies[i]);
            let next: Seq<Seq<char>> = body + rest.skip(1);
            lemma_pushed_erased(g.bodies[i]);
            lemma_erased_symbols(g, i);
            assert(c1.stack =~= next.push(end_marker()).reverse());
            assert(c1 == expecting(next, pos));
            assert forall|k: int| 0 <= k < next.len() implies #[trigger] next[k]
                != end_marker() by {
                if k < body.len() {
                    assert(g.occurs(body[k]));
                } else {
                    assert(next[k] == rest[k - body.len() + 1]);
                }
            }
            let tail: Seq<int> = lemma_accepting_derives(m, tokens, next, pos, (n - 1) as nat);
            let trace: Seq<int> = seq![i] + tail;
            assert(trace.drop_first() =~= tail);
            lemma_leftmost_after(g, m.input.take(pos), whole);
            assert(leftmost(g, whole) == 0);
            assert(form[pos] == top);
            assert(rewrite(g, form, i)->0 =~= m.input.take(pos) + next.push(end_marker()));
            trace
        } else {
            assert(top == front);
            if pos == tokens.len() {
                assert(front == end_marker());
                assert(false);
            }
            let next: Seq<Seq<char>> = rest.skip(1);
            assert(c1.stack =~= next.push(end_marker()).reverse());
            assert(c1 == expecting(next, pos + 1));
            assert forall|k: int| 0 <= k < m.input.take(pos + 1).len() implies !g.is_non_terminal(
                #[trigger] m.input.take(pos + 1)[k],
            ) by {
                if k < pos {
                    assert(m.input.take(pos)[k] == m.input[k]);
                }
            }
            let trace: Seq<int> = lemma_accepting_derives(
                m,
                tokens,
                next,
                pos + 1,
                (n - 1) as nat,
            );
            assert(m.input.take(pos + 1) + next.push(end_marker()) =~= form);
            trace
        }
    }
}

/// What the parser accepts is in the language.
pub proof fn lemma_accepted_in_language(m: Machine, tokens: Seq<Seq<char>>)
    requires
        m.g.wf(),
        cells_valid(m),
        end_free(m.g),
        m.input == tokens.push(end_marker()),
        !tokens.contains(end_marker()),
        accepts(m),
    ensures
        crate::language::in_language(m.g, tokens),
{
    let g: Cfg = m.g;
    let start: Seq<Seq<char>> = seq![g.left[0]];
    let n: nat = choose|n: nat| accepting(m, initial(m), n);
    assert(initial(m).stack =~= start.push(end_marker()).reverse());
    assert(g.is_non_terminal(g.left[0]));
    assert(m.input.take(0) =~= Seq::<Seq<char>>::empty());
    let trace: Seq<int> = lemma_accepting_derives(m, tokens, start, 0, n);
    assert(m.input.take(0) + start.push(end_marker()) =~= start.push(end_marker()));
    lemma_derive_with_last(g, start, end_marker(), trace);
    let end: Seq<Seq<char>> = rewrite_all(g, start, trace)->0;
    assert(end.push(end_marker()) == tokens.push(end_marker()));
    assert(end =~= tokens) by {
        assert(end.push(end_marker()).drop_last() =~= end);
        assert(tokens.push(end_marker()).drop_last() =~= tokens);
    }
    assert forall|k: int| 0 <= k < tokens.len() implies !g.is_non_terminal(
        #[trigger] tokens[k],
    ) by {
        assert(m.input[k] == tokens[k]);
    }
}

} // verus!
