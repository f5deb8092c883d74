//! The language of a grammar: the sentences that the start symbol derives by
//! rewriting the leftmost non-terminal again and again.

use crate::cfg::Cfg;
use crate::machine::pushed;
use crate::symbols::epsilon;
use vstd::prelude::*;

verus! {

/// The symbols of a body in reading order, without the empty-string tokens.
pub open spec fn erased(body: Seq<Seq<char>>) -> Seq<Seq<char>>
    decreases body.len(),
{
    if body.len() == 0 {
        Seq::empty()
    } else if body[0] == epsilon() {
        erased(body.drop_first())
    } else {
        seq![body[0]] + erased(body.drop_first())
    }
}

/// No symbol of `form` is a non-terminal.
pub open spec fn settled(g: Cfg, form: Seq<Seq<char>>) -> bool {
    forall|k: int| 0 <= k < form.len() ==> !g.is_non_terminal(#[trigger] form[k])
}

/// The position of the leftmost non-terminal of `form`, or its length if it
/// has none.
pub open spec fn leftmost(g: Cfg, form: Seq<Seq<char>>) -> int
    decreases form.len(),
{
    if form.len() == 0 {
        0
    } else if g.is_non_terminal(form[0]) {
        0
    } else {
        1 + leftmost(g, form.drop_first())
    }
}

/// `form` with its leftmost non-terminal rewritten by production `i`, if
/// that production rewrites it.
pub open spec fn rewrite(g: Cfg, form: Seq<Seq<char>>, i: int) -> Option<Seq<Seq<char>>> {
    let p: int = leftmost(g, form);
    if 0 <= i < g.left.len() && 0 <= p < form.len() && g.left[i] == form[p] {
        Some(form.take(p) + erased(g.bodies[i]) + form.skip(p + 1))
    } else {
        None
    }
}

/// What `form` becomes when the productions of `trace` are applied in order,
/// each to the leftmost non-terminal, if each of them can be.
pub open spec fn rewrite_all(g: Cfg, form: Seq<Seq<char>>, trace: Seq<int>) -> Option<Seq<Seq<char>>>
    decreases trace.len(),
{
    if trace.len() == 0 {
        Some(form)
    } else {
        match rewrite(g, form, trace[0]) {
            Some(next) => rewrite_all(g, next, trace.drop_first()),
            None => None,
        }
    }
}

/// `form` derives `sentence`, which holds no non-terminal.
pub open spec fn derives(g: Cfg, form: Seq<Seq<char>>, sentence: Seq<Seq<char>>) -> bool {
    settled(g, sentence) && exists|trace: Seq<int>| rewrite_all(g, form, trace) == Some(sentence)
}

/// The start symbol derives `sentence`.
pub open spec fn in_language(g: Cfg, sentence: Seq<Seq<char>>) -> bool {
    g.left.len() > 0 && derives(g, seq![g.left[0]], sentence)
}

/// What the parser pushes is the body in reverse, without the empty-string
/// tokens.
pub proof fn lemma_pushed_erased(body: Seq<Seq<char>>)
    ensures
        pushed(body) == erased(body).reverse(),
    decreases body.len(),
{
    if body.len() > 0 {
        lemma_pushed_erased(body.drop_first());
        if body[0] == epsilon() {
        } else {
            let rest: Seq<Seq<char>> = erased(body.drop_first());
            assert((seq![body[0]] + rest).reverse() =~= rest.reverse().push(body[0]));
        }
    } else {
        assert(erased(body).reverse() =~= Seq::<Seq<char>>::empty());
    }
}

/// A symbol of an erased body is a symbol of the body that is not the
/// empty-string token, and what follows it is what follows it there.
pub proof fn lemma_erased_at(body: Seq<Seq<char>>, q: int) -> (p: int)
    requires
        0 <= q < erased(body).len(),
    ensures
        0 <= p < body.len(),
        body[p] == erased(body)[q],
        body[p] != epsilon(),
        erased(body).skip(q + 1) == erased(body.skip(p + 1)),
    decreases body.len(),
{
    let rest: Seq<Seq<char>> = body.drop_first();
    if body[0] == epsilon() {
        let p: int = lemma_erased_at(rest, q);
        assert(rest.skip(p + 1) =~= body.skip(p + 2));
        p + 1
    } else if q == 0 {
        assert(erased(body).skip(1) =~= erased(rest));
        assert(body.skip(1) =~= rest);
        0
    } else {
        let p: int = lemma_erased_at(rest, q - 1);
        assert(rest.skip(p + 1) =~= body.skip(p + 2));
        assert(erased(body).skip(q + 1) =~= erased(rest).skip(q));
        p + 1
    }
}

/// The leftmost non-terminal stands behind a part without non-terminals.
pub proof fn lemma_leftmost(g: Cfg, form: Seq<Seq<char>>)
    ensures
        0 <= leftmost(g, form) <= form.len(),
        settled(g, form.take(leftmost(g, form))),
        leftmost(g, form) < form.len() ==> g.is_non_terminal(form[leftmost(g, form)]),
    decreases form.len(),
{
    if form.len() > 0 && !g.is_non_terminal(form[0]) {
        let rest: Seq<Seq<char>> = form.drop_first();
        lemma_leftmost(g, rest);
        let p: int = leftmost(g, form);
        assert forall|k: int| 0 <= k < form.take(p).len() implies !g.is_non_terminal(
            #[trigger] form.take(p)[k],
        ) by {
            if k > 0 {
                assert(form.take(p)[k] == rest.take(p - 1)[k - 1]);
            }
        }
    }
}

/// Behind a part without non-terminals, the leftmost non-terminal is that of
/// the rest.
pub proof fn lemma_leftmost_after(g: Cfg, head: Seq<Seq<char>>, rest: Seq<Seq<char>>)
    requires
        settled(g, head),
    ensures
        leftmost(g, head + rest) == head.len() + leftmost(g, rest),
    decreases head.len(),
{
    if head.len() > 0 {
        let form: Seq<Seq<char>> = head + rest;
        assert(form[0] == head[0]);
        assert(form.drop_first() =~= head.drop_first() + rest);
        assert forall|k: int| 0 <= k < head.drop_first().len() implies !g.is_non_terminal(
            #[trigger] head.drop_first()[k],
        ) by {
            assert(head.drop_first()[k] == head[k + 1]);
        }
        lemma_leftmost_after(g, head.drop_first(), rest);
    } else {
        assert(head + rest =~= rest);
    }
}

/// A derivation leaves a beginning without non-terminals as it is.
pub proof fn lemma_derive_keeps_head(
    g: Cfg,
    head: Seq<Seq<char>>,
    rest: Seq<Seq<char>>,
    trace: Seq<int>,
)
    requires
        settled(g, head),
        rewrite_all(g, head + rest, trace) is Some,
    ensures
        rewrite_all(g, rest, trace) is Some,
        rewrite_all(g, head + rest, trace)->0 == head + rewrite_all(g, rest, trace)->0,
    decreases trace.len(),
{
    if trace.len() > 0 {
        let form: Seq<Seq<char>> = head + rest;
        let i: int = trace[0];
        lemma_leftmost_after(g, head, rest);
        lemma_leftmost(g, rest);
        let p: int = leftmost(g, rest);
        assert(form[head.len() + p] == rest[p]);
        let next_rest: Seq<Seq<char>> = rest.take(p) + erased(g.bodies[i]) + rest.skip(p + 1);
        assert(rewrite(g, rest, i) == Some(next_rest));
        assert(rewrite(g, form, i)->0 =~= head + next_rest);
        lemma_derive_keeps_head(g, head, next_rest, trace.drop_first());
    }
}

/// A symbol that is no non-terminal, put behind a form, stays behind what the
/// form derives, and a derivation of the longer form is one of the shorter.
pub proof fn lemma_derive_with_last(g: Cfg, form: Seq<Seq<char>>, last: Seq<char>, trace: Seq<int>)
    requires
        !g.is_non_terminal(last),
    ensures
        rewrite_all(g, form.push(last), trace) == match rewrite_all(g, form, trace) {
            Some(end) => Some(end.push(last)),
            None => None,
        },
    decreases trace.len(),
{
    if trace.len() > 0 {
        let i: int = trace[0];
        lemma_leftmost_push(g, form, last);
        lemma_leftmost(g, form);
        let p: int = leftmost(g, form);
        if p < form.len() {
            assert(form.push(last)[p] == form[p]);
            if rewrite(g, form, i) is Some {
                let next: Seq<Seq<char>> = rewrite(g, form, i)->0;
                assert(rewrite(g, form.push(last), i)->0 =~= next.push(last));
                lemma_derive_with_last(g, next, last, trace.drop_first());
            }
        } else {
            assert(form.push(last)[p] == last);
        }
    }
}

pub proof fn lemma_leftmost_push(g: Cfg, form: Seq<Seq<char>>, last: Seq<char>)
    requires
        !g.is_non_terminal(last),
    ensures
        leftmost(g, form) < form.len() ==> leftmost(g, form.push(last)) == leftmost(g, form),
        leftmost(g, form) >= form.len() ==> leftmost(g, form.push(last)) == form.len() + 1,
    decreases form.len(),
{
    if form.len() > 0 {
        assert(form.push(last).drop_first() =~= form.drop_first().push(last));
        assert(form.push(last)[0] == form[0]);
        if !g.is_non_terminal(form[0]) {
            lemma_leftmost_push(g, form.drop_first(), last);
        }
    } else {
        let one: Seq<Seq<char>> = form.push(last);
        assert(one.drop_first().len() == 0);
        assert(one[0] == last);
        assert(leftmost(g, one.drop_first()) == 0);
        assert(leftmost(g, one) == 1);
    }
}

/// The symbols of an erased body are symbols of the body other than the
/// empty-string token.
pub proof fn lemma_erased_symbols(g: Cfg, i: int)
    requires
        0 <= i < g.bodies.len(),
    ensures
        forall|q: int|
            0 <= q < erased(g.bodies[i]).len() ==> g.occurs(#[trigger] erased(g.bodies[i])[q])
                && erased(g.bodies[i])[q] != epsilon(),
{
    assert forall|q: int| 0 <= q < erased(g.bodies[i]).len() implies g.occurs(
        #[trigger] erased(g.bodies[i])[q],
    ) && erased(g.bodies[i])[q] != epsilon() by {
        let p: int = lemma_erased_at(g.bodies[i], q);
        assert(g.bodies[i][p] == erased(g.bodies[i])[q]);
    }
}

} // verus!
