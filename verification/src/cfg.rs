//! The mathematical model of a grammar: its productions as sequences of
//! symbols, and the classification of symbols that follows from them.

use crate::symbols::epsilon;
use vstd::prelude::*;

verus! {

/// A context-free grammar as a list of productions. Production `i` rewrites
/// `left[i]` into `bodies[i]`; the first left-hand side is the start symbol.
pub struct Cfg {
    pub left: Seq<Seq<char>>,
    pub bodies: Seq<Seq<Seq<char>>>,
}

impl Cfg {
    /// Every production has both sides.
    pub open spec fn wf(self) -> bool {
        self.left.len() == self.bodies.len()
    }

    /// A non-terminal is a symbol that some production defines.
    pub open spec fn is_non_terminal(self, x: Seq<char>) -> bool {
        self.left.contains(x)
    }

    /// Whether `x` stands somewhere in a production body.
    pub open spec fn occurs(self, x: Seq<char>) -> bool {
        exists|i: int, p: int|
            0 <= i < self.bodies.len() && 0 <= p < self.bodies[i].len() && self.bodies[i][p] == x
    }

    /// A terminal is a symbol of some body that is neither the empty-string
    /// token nor a non-terminal.
    pub open spec fn is_terminal(self, x: Seq<char>) -> bool {
        x != epsilon() && !self.is_non_terminal(x) && self.occurs(x)
    }

    /// The non-terminals in order of first appearance on a left-hand side.
    pub open spec fn non_terminals(self) -> Seq<Seq<char>> {
        distinct(self.left)
    }

    /// The terminals in order of first appearance in a body.
    pub open spec fn terminals(self) -> Seq<Seq<char>> {
        terminals_among(self.bodies, self.non_terminals())
    }
}

/// The elements of `s` in order of first occurrence, each once.
pub open spec fn distinct(s: Seq<Seq<char>>) -> Seq<Seq<char>>
    decreases s.len(),
{
    if s.len() == 0 {
        Seq::empty()
    } else {
        let d: Seq<Seq<char>> = distinct(s.drop_last());
        if d.contains(s.last()) {
            d
        } else {
            d.push(s.last())
        }
    }
}

/// Whether a body symbol counts as a terminal when `excluded` are the
/// non-terminals.
pub open spec fn terminal_like(excluded: Seq<Seq<char>>) -> spec_fn(Seq<char>) -> bool {
    |x: Seq<char>| x != epsilon() && !excluded.contains(x)
}

/// The symbols of `bodies` that are neither the empty-string token nor in
/// `excluded`, in order of first occurrence, each once.
pub open spec fn terminals_among(bodies: Seq<Seq<Seq<char>>>, excluded: Seq<Seq<char>>) -> Seq<
    Seq<char>,
> {
    distinct(bodies.flatten().filter(terminal_like(excluded)))
}

pub proof fn lemma_distinct_push(s: Seq<Seq<char>>, x: Seq<char>)
    ensures
        distinct(s.push(x)) == if distinct(s).contains(x) {
            distinct(s)
        } else {
            distinct(s).push(x)
        },
{
    assert(s.push(x).drop_last() =~= s);
}

/// The first element stays first.
pub proof fn lemma_distinct_first(s: Seq<Seq<char>>)
    requires
        s.len() > 0,
    ensures
        distinct(s).len() > 0,
        distinct(s)[0] == s[0],
    decreases s.len(),
{
    if s.len() > 1 {
        lemma_distinct_first(s.drop_last());
        assert(s.drop_last()[0] == s[0]);
    } else {
        assert(distinct(s.drop_last()).len() == 0);
    }
}

/// `distinct` keeps exactly the elements of its argument, and none twice.
pub proof fn lemma_distinct(s: Seq<Seq<char>>)
    ensures
        distinct(s).no_duplicates(),
        forall|x: Seq<char>| distinct(s).contains(x) <==> s.contains(x),
        distinct(s).len() <= s.len(),
    decreases s.len(),
{
    if s.len() > 0 {
        let t: Seq<Seq<char>> = s.drop_last();
        let d: Seq<Seq<char>> = distinct(t);
        lemma_distinct(t);
        assert forall|x: Seq<char>| distinct(s).contains(x) <==> s.contains(x) by {
            if s.contains(x) {
                let i: int = choose|i: int| 0 <= i < s.len() && s[i] == x;
                if i < s.len() - 1 {
                    assert(t[i] == x);
                    assert(t.contains(x));
                    assert(d.contains(x));
                }
                if !d.contains(s.last()) {
                    assert(d.push(s.last())[d.len() as int] == s.last());
                    if d.contains(x) {
                        let j: int = choose|j: int| 0 <= j < d.len() && d[j] == x;
                        assert(d.push(s.last())[j] == x);
                    }
                }
            }
            if distinct(s).contains(x) {
                let j: int = choose|j: int| 0 <= j < distinct(s).len() && distinct(s)[j] == x;
                if j < d.len() {
                    assert(d[j] == x);
                    assert(t.contains(x));
                    let i: int = choose|i: int| 0 <= i < t.len() && t[i] == x;
                    assert(s[i] == x);
                } else {
                    assert(s[s.len() - 1] == x);
                }
            }
        }
    }
}

/// The terminals of a grammar are exactly the symbols that `is_terminal`
/// accepts, each once, and none of them is a non-terminal.
pub proof fn lemma_terminals(g: Cfg)
    ensures
        g.terminals().no_duplicates(),
        forall|x: Seq<char>|
            #![trigger g.terminals().contains(x)]
            #![trigger g.is_terminal(x)]
            g.terminals().contains(x) <==> g.is_terminal(x),
        forall|x: Seq<char>|
            #![trigger g.non_terminals().contains(x)]
            #![trigger g.is_non_terminal(x)]
            g.non_terminals().contains(x) <==> g.is_non_terminal(x),
        g.non_terminals().no_duplicates(),
{
    let nts: Seq<Seq<char>> = g.non_terminals();
    let flat: Seq<Seq<char>> = g.bodies.flatten();
    let pred = terminal_like(nts);
    lemma_distinct(g.left);
    lemma_distinct(flat.filter(pred));
    assert forall|x: Seq<char>|
        #![trigger g.terminals().contains(x)]
        #![trigger g.is_terminal(x)]
        g.terminals().contains(x) <==> g.is_terminal(x) by {
        lemma_flatten_contains(g.bodies, x);
        if g.is_terminal(x) {
            assert(flat.contains(x));
            assert(pred(x));
            let k: int = choose|k: int| 0 <= k < flat.len() && flat[k] == x;
            flat.lemma_filter_contains(pred, k);
            assert(flat.filter(pred).contains(x));
        }
        if g.terminals().contains(x) {
            assert(flat.filter(pred).contains(x));
            let j: int = choose|j: int|
                0 <= j < flat.filter(pred).len() && flat.filter(pred)[j] == x;
            flat.lemma_filter_pred(pred, j);
            flat.lemma_filter_contains_rev(pred, x);
            assert(flat.contains(x));
        }
    }
}

/// A flattened list holds exactly the elements of its rows.
pub proof fn lemma_flatten_contains(rows: Seq<Seq<Seq<char>>>, x: Seq<char>)
    ensures
        rows.flatten().contains(x) <==> exists|i: int, p: int|
            0 <= i < rows.len() && 0 <= p < rows[i].len() && rows[i][p] == x,
    decreases rows.len(),
{
    if rows.len() == 0 {
    } else {
        let rest: Seq<Seq<Seq<char>>> = rows.drop_first();
        lemma_flatten_contains(rest, x);
        assert(rows.flatten() == rows.first() + rest.flatten());
        if rows.flatten().contains(x) {
            let j: int = choose|j: int| 0 <= j < rows.flatten().len() && rows.flatten()[j] == x;
            if j < rows.first().len() {
                assert(rows[0][j] == x);
            } else {
                assert(rest.flatten()[j - rows.first().len()] == x);
                assert(rest.flatten().contains(x));
                let (i, p): (int, int) = choose|i: int, p: int|
                    0 <= i < rest.len() && 0 <= p < rest[i].len() && rest[i][p] == x;
                assert(rows[i + 1][p] == x);
            }
        }
        if exists|i: int, p: int|
            0 <= i < rows.len() && 0 <= p < rows[i].len() && rows[i][p] == x {
            let (i, p): (int, int) = choose|i: int, p: int|
                0 <= i < rows.len() && 0 <= p < rows[i].len() && rows[i][p] == x;
            if i == 0 {
                assert(rows.flatten()[p] == x);
            } else {
                assert(rest[i - 1][p] == x);
                assert(rest.flatten().contains(x));
                let j: int = choose|j: int| 0 <= j < rest.flatten().len() && rest.flatten()[j] == x;
                assert(rows.flatten()[rows.first().len() + j] == x);
            }
        }
    }
}

} // verus!
