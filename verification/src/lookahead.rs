//! What can stand first in a sentence that a form derives, when the form
//! ends with the end marker.

use crate::cfg::Cfg;
use crate::first::{
    first, first_family, first_of, lemma_first_fixed_point, nullable, sequence_first,
    symbol_first, Family,
};
use crate::follow::{follow, follow_family, follow_step, follows_at, lemma_follow_fixed_point};
use crate::language::{
    erased, lemma_derive_keeps_head, lemma_erased_at, lemma_erased_symbols, leftmost, rewrite,
    rewrite_all, settled,
};
use crate::soundness::end_free;
use crate::symbols::{end_marker, epsilon, epsilon_mark};
use vstd::prelude::*;

verus! {

/// The grammar keeps to the reserved symbols: the end marker is no symbol of
/// it, the empty-string token is no left-hand side, and the mark of FIRST
/// sets is no terminal.
pub open spec fn plain(g: Cfg) -> bool {
    &&& end_free(g)
    &&& !g.is_non_terminal(epsilon())
    &&& !g.is_terminal(epsilon_mark())
}

/// Every symbol of `rest` is a terminal or a non-terminal of the grammar.
pub open spec fn proper(g: Cfg, rest: Seq<Seq<char>>) -> bool {
    forall|k: int|
        0 <= k < rest.len() ==> (#[trigger] rest[k]) != end_marker() && rest[k] != epsilon() && (
        g.is_terminal(rest[k]) || g.is_non_terminal(rest[k]))
}

/// `t` can stand first in what the symbols of `form` from position `from`
/// on derive: it is in FIRST of a symbol that only symbols that can vanish
/// stand before, or it is the end marker and all before it can vanish.
pub open spec fn ahead(g: Cfg, form: Seq<Seq<char>>, from: int, t: Seq<char>) -> bool
    decreases form.len() - from,
{
    if from < 0 || from >= form.len() {
        false
    } else if form[from] == end_marker() {
        t == end_marker()
    } else if nullable(g, form[from]) {
        (first(g, form[from], t) && t != epsilon_mark()) || ahead(g, form, from + 1, t)
    } else {
        first(g, form[from], t) && t != epsilon_mark()
    }
}

/// Whatever can stand first behind a non-terminal of `form` is in its FOLLOW
/// set.
pub open spec fn follow_consistent(g: Cfg, form: Seq<Seq<char>>) -> bool {
    forall|q: int, t: Seq<char>|
        0 <= q < form.len() && g.is_non_terminal(form[q]) && #[trigger] ahead(g, form, q + 1, t)
            ==> follow(g, form[q], t)
}

pub proof fn lemma_sequence_first_skip(
    g: Cfg,
    fam: Family,
    s: Seq<Seq<char>>,
    j: int,
    k: int,
    t: Seq<char>,
)
    requires
        0 <= j <= s.len(),
        0 <= k,
    ensures
        sequence_first(g, fam, s.skip(j), k, t) == sequence_first(g, fam, s, j + k, t),
    decreases s.len() - j - k,
{
    if j + k < s.len() {
        assert(s.skip(j)[k] == s[j + k]);
        lemma_sequence_first_skip(g, fam, s, j, k + 1, t);
    }
}

pub proof fn lemma_ahead_skip(g: Cfg, form: Seq<Seq<char>>, j: int, k: int, t: Seq<char>)
    requires
        0 <= j <= form.len(),
        0 <= k,
    ensures
        ahead(g, form.skip(j), k, t) == ahead(g, form, j + k, t),
    decreases form.len() - j - k,
{
    if j + k < form.len() {
        assert(form.skip(j)[k] == form[j + k]);
        lemma_ahead_skip(g, form, j, k + 1, t);
    }
}

/// Leaving out the empty-string tokens adds nothing to FIRST of a sequence.
pub proof fn lemma_first_of_erased(g: Cfg, s: Seq<Seq<char>>, t: Seq<char>)
    requires
        first_of(g, erased(s), 0, t),
    ensures
        first_of(g, s, 0, t),
    decreases s.len(),
{
    let fam: Family = first_family(g);
    if s.len() > 0 {
        let rest: Seq<Seq<char>> = s.drop_first();
        lemma_sequence_first_skip(g, fam, s, 1, 0, t);
        assert(s.skip(1) =~= rest);
        if s[0] == epsilon() {
            lemma_first_of_erased(g, rest, t);
        } else {
            let e: Seq<Seq<char>> = erased(s);
            assert(e[0] == s[0]);
            assert(e.skip(1) =~= erased(rest));
            lemma_sequence_first_skip(g, fam, e, 1, 0, t);
            if symbol_first(g, fam, s[0], epsilon_mark()) && !(symbol_first(g, fam, s[0], t) && t
                != epsilon_mark()) {
                lemma_first_of_erased(g, rest, t);
            }
        }
    }
}

/// What can stand first in what two forms derive one behind the other
/// stands first in what the first derives, or the first can vanish and it
/// stands first in what the second derives.
pub proof fn lemma_ahead_concat(
    g: Cfg,
    head: Seq<Seq<char>>,
    tail: Seq<Seq<char>>,
    from: int,
    t: Seq<char>,
)
    requires
        0 <= from <= head.len(),
        forall|k: int| 0 <= k < head.len() ==> #[trigger] head[k] != end_marker(),
        ahead(g, head + tail, from, t),
    ensures
        (first_of(g, head, from, t) && t != epsilon_mark()) || (first_of(
            g,
            head,
            from,
            epsilon_mark(),
        ) && ahead(g, tail, 0, t)),
    decreases head.len() - from,
{
    let form: Seq<Seq<char>> = head + tail;
    if from == head.len() {
        lemma_ahead_skip(g, form, from, 0, t);
        assert(form.skip(from) =~= tail);
    } else {
        assert(form[from] == head[from]);
        if nullable(g, head[from]) && !(first(g, head[from], t) && t != epsilon_mark()) {
            lemma_ahead_concat(g, head, tail, from + 1, t);
        }
    }
}

/// The sentence that a form derives begins with what `ahead` admits.
pub proof fn lemma_derived_begins(g: Cfg, form: Seq<Seq<char>>, trace: Seq<int>)
    requires
        g.wf(),
        plain(g),
        form.len() > 0,
        form.last() == end_marker(),
        proper(g, form.drop_last()),
        rewrite_all(g, form, trace) is Some,
        settled(g, rewrite_all(g, form, trace)->0),
    ensures
        rewrite_all(g, form, trace)->0.len() > 0,
        ahead(g, form, 0, rewrite_all(g, form, trace)->0[0]),
    decreases trace.len(),
{
    let end: Seq<Seq<char>> = rewrite_all(g, form, trace)->0;
    let fam: Family = first_family(g);
    if form.len() > 1 {
        assert(form[0] == form.drop_last()[0]);
    }
    if form[0] == end_marker() {
        assert(form.len() == 1);
        if trace.len() > 0 {
            assert(form.drop_first().len() == 0);
            assert(leftmost(g, form.drop_first()) == 0);
            assert(leftmost(g, form) == 1);
            assert(false);
        }
    } else if !g.is_non_terminal(form[0]) {
        let head: Seq<Seq<char>> = seq![form[0]];
        assert(head + form.skip(1) =~= form);
        lemma_derive_keeps_head(g, head, form.skip(1), trace);
        assert(end[0] == form[0]);
    } else {
        if trace.len() == 0 {
            assert(end == form);
            assert(false);
        }
        let i: int = trace[0];
        let body: Seq<Seq<char>> = erased(g.bodies[i]);
        let next: Seq<Seq<char>> = body + form.skip(1);
        assert(leftmost(g, form) == 0);
        assert(rewrite(g, form, i)->0 =~= next);
        lemma_erased_symbols(g, i);
        assert(next.last() == end_marker());
        assert forall|k: int| 0 <= k < next.drop_last().len() implies (
        #[trigger] next.drop_last()[k]) != end_marker() && next.drop_last()[k] != epsilon() && (
        g.is_terminal(next.drop_last()[k]) || g.is_non_terminal(next.drop_last()[k])) by {
            if k < body.len() {
                assert(next.drop_last()[k] == body[k]);
                assert(g.occurs(body[k]));
            } else {
                assert(next.drop_last()[k] == form.drop_last()[k - body.len() + 1]);
            }
        }
        lemma_derived_begins(g, next, trace.drop_first());
        let t: Seq<char> = end[0];
        assert forall|k: int| 0 <= k < body.len() implies #[trigger] body[k] != end_marker() by {
            assert(g.occurs(body[k]));
        }
        lemma_ahead_concat(g, body, form.skip(1), 0, t);
        lemma_first_fixed_point(g);
        lemma_ahead_skip(g, form, 1, 0, t);
        if first_of(g, body, 0, t) && t != epsilon_mark() {
            lemma_first_of_erased(g, g.bodies[i], t);
            assert(crate::first::first_step(g, fam)(form[0], t));
            assert(fam(form[0], t));
        } else {
            lemma_first_of_erased(g, g.bodies[i], epsilon_mark());
            assert(crate::first::first_step(g, fam)(form[0], epsilon_mark()));
            assert(fam(form[0], epsilon_mark()));
        }
    }
}

/// What can stand first behind a symbol of the body that replaced the first
/// symbol of a form is in the FOLLOW set of that symbol.
pub proof fn lemma_consistent_in_body(g: Cfg, form: Seq<Seq<char>>, i: int, q: int, t: Seq<char>)
    requires
        g.wf(),
        plain(g),
        0 <= i < g.left.len(),
        form.len() > 0,
        form[0] == g.left[i],
        follow_consistent(g, form),
        0 <= q < erased(g.bodies[i]).len(),
        ahead(g, erased(g.bodies[i]) + form.skip(1), q + 1, t),
    ensures
        follow(g, erased(g.bodies[i])[q], t),
{
    let whole: Seq<Seq<char>> = g.bodies[i];
    let body: Seq<Seq<char>> = erased(whole);
    let tail: Seq<Seq<char>> = form.skip(1);
    let fam: Family = first_family(g);
    lemma_erased_symbols(g, i);
    lemma_follow_fixed_point(g);
    assert forall|k: int| 0 <= k < body.len() implies #[trigger] body[k] != end_marker() by {
        assert(g.occurs(body[k]));
    }
    let p: int = lemma_erased_at(whole, q);
    lemma_ahead_concat(g, body, tail, q + 1, t);
    let symbol: Seq<char> = whole[p];
    let behind: Seq<Seq<char>> = whole.skip(p + 1);
    assert(body.skip(q + 1) == erased(behind));
    if first_of(g, body, q + 1, t) && t != epsilon_mark() {
        lemma_sequence_first_skip(g, fam, body, q + 1, 0, t);
        assert(first_of(g, erased(behind), 0, t));
        lemma_first_of_erased(g, behind, t);
        lemma_sequence_first_skip(g, fam, whole, p + 1, 0, t);
        assert(first_of(g, whole, p + 1, t));
        assert(follows_at(g, follow_family(g), i, p, t));
    } else {
        lemma_sequence_first_skip(g, fam, body, q + 1, 0, epsilon_mark());
        assert(first_of(g, erased(behind), 0, epsilon_mark()));
        lemma_first_of_erased(g, behind, epsilon_mark());
        lemma_sequence_first_skip(g, fam, whole, p + 1, 0, epsilon_mark());
        assert(first_of(g, whole, p + 1, epsilon_mark()));
        lemma_ahead_skip(g, form, 1, 0, t);
        assert(ahead(g, form, 1, t));
        assert(g.is_non_terminal(form[0]));
        assert(follow(g, form[0], t));
        assert(follows_at(g, follow_family(g), i, p, t));
    }
    assert(follow_step(g, follow_family(g))(symbol, t));
}

/// What can stand first behind a symbol of a form still can when symbols
/// before it are replaced.
pub proof fn lemma_consistent_behind(
    g: Cfg,
    form: Seq<Seq<char>>,
    body: Seq<Seq<char>>,
    q: int,
    t: Seq<char>,
)
    requires
        form.len() > 0,
        follow_consistent(g, form),
        body.len() <= q < body.len() + form.len() - 1,
        g.is_non_terminal((body + form.skip(1))[q]),
        ahead(g, body + form.skip(1), q + 1, t),
    ensures
        follow(g, (body + form.skip(1))[q], t),
{
    let tail: Seq<Seq<char>> = form.skip(1);
    let next: Seq<Seq<char>> = body + tail;
    let at: int = q - body.len();
    assert(next[q] == tail[at]);
    assert(next.skip(body.len() as int) =~= tail);
    lemma_ahead_skip(g, next, body.len() as int, at + 1, t);
    lemma_ahead_skip(g, form, 1, at + 1, t);
    assert(ahead(g, form, at + 2, t));
    assert(form[at + 1] == tail[at]);
}

/// Rewriting the first symbol of a form keeps the form consistent with the
/// FOLLOW sets.
pub proof fn lemma_consistent_rewrite(g: Cfg, form: Seq<Seq<char>>, i: int)
    requires
        g.wf(),
        plain(g),
        0 <= i < g.left.len(),
        form.len() > 0,
        form[0] == g.left[i],
        follow_consistent(g, form),
    ensures
        follow_consistent(g, erased(g.bodies[i]) + form.skip(1)),
{
    let body: Seq<Seq<char>> = erased(g.bodies[i]);
    let next: Seq<Seq<char>> = body + form.skip(1);
    assert forall|q: int, t: Seq<char>|
        0 <= q < next.len() && g.is_non_terminal(next[q]) && #[trigger] ahead(
            g,
            next,
            q + 1,
            t,
        ) implies follow(g, next[q], t) by {
        if q < body.len() {
            lemma_consistent_in_body(g, form, i, q, t);
            assert(next[q] == body[q]);
        } else {
            lemma_consistent_behind(g, form, body, q, t);
        }
    }
}

/// Taking the first symbol off a form keeps it consistent with the FOLLOW
/// sets.
pub proof fn lemma_consistent_skip(g: Cfg, form: Seq<Seq<char>>)
    requires
        form.len() > 0,
        follow_consistent(g, form),
    ensures
        follow_consistent(g, form.skip(1)),
{
    let tail: Seq<Seq<char>> = form.skip(1);
    assert forall|q: int, t: Seq<char>|
        0 <= q < tail.len() && g.is_non_terminal(tail[q]) && #[trigger] ahead(
            g,
            tail,
            q + 1,
            t,
        ) implies follow(g, tail[q], t) by {
        lemma_ahead_skip(g, form, 1, q + 1, t);
        assert(ahead(g, form, q + 2, t));
        assert(form[q + 1] == tail[q]);
    }
}

} // verus!
