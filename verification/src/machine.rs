//! The table-driven parser as a machine on a stack and an input position,
//! and why a run that comes back to a non-terminal under itself never ends.

use crate::cfg::Cfg;
use crate::symbols::{end_marker, epsilon};
use vstd::prelude::*;

verus! {

/// What the parser works with: the grammar, the table as a function from a
/// non-terminal and a lookahead to a production, and the input with the end
/// marker behind it.
pub struct Machine {
    pub g: Cfg,
    pub cell: spec_fn(Seq<char>, Seq<char>) -> Option<int>,
    pub input: Seq<Seq<char>>,
}

/// The parser's state: the stack, its top last, and the position of the
/// lookahead in the input.
pub struct Config {
    pub stack: Seq<Seq<char>>,
    pub pos: int,
}

/// What one move of the parser leads to.
pub enum Step {
    Accept,
    Reject,
    Next(Config),
}

/// What stands on the stack in place of a non-terminal that was rewritten
/// with `body`: its symbols in reverse, so that the first is on top, without
/// the empty-string tokens.
pub open spec fn pushed(body: Seq<Seq<char>>) -> Seq<Seq<char>>
    decreases body.len(),
{
    if body.len() == 0 {
        Seq::empty()
    } else if body[0] == epsilon() {
        pushed(body.drop_first())
    } else {
        pushed(body.drop_first()).push(body[0])
    }
}

/// One move. With nothing on the stack or no input left the parser rejects.
/// It accepts when the end marker is both on top and ahead. A non-terminal on
/// top is replaced by the body that the table gives for the lookahead, and
/// the parser rejects where the table gives none. Any other symbol on top
/// must equal the lookahead, and both are then consumed.
pub open spec fn step(m: Machine, c: Config) -> Step {
    if c.stack.len() == 0 || c.pos < 0 || c.pos >= m.input.len() {
        Step::Reject
    } else {
        let top: Seq<char> = c.stack.last();
        let front: Seq<char> = m.input[c.pos];
        if top == front && front == end_marker() {
            Step::Accept
        } else if m.g.is_non_terminal(top) {
            match (m.cell)(top, front) {
                Some(i) => if 0 <= i < m.g.bodies.len() {
                    Step::Next(
                        Config { stack: c.stack.drop_last() + pushed(m.g.bodies[i]), pos: c.pos },
                    )
                } else {
                    Step::Reject
                },
                None => Step::Reject,
            }
        } else if top == front {
            Step::Next(Config { stack: c.stack.drop_last(), pos: c.pos + 1 })
        } else {
            Step::Reject
        }
    }
}

/// The state after `n` moves from `c`, if the parser has not stopped before.
pub open spec fn run(m: Machine, c: Config, n: nat) -> Option<Config>
    decreases n,
{
    if n == 0 {
        Some(c)
    } else {
        match run(m, c, (n - 1) as nat) {
            Some(d) => match step(m, d) {
                Step::Next(e) => Some(e),
                _ => None,
            },
            None => None,
        }
    }
}

/// The production by which the move from `c` rewrites the top of the stack,
/// if that move is a rewriting.
pub open spec fn rewriting(m: Machine, c: Config) -> Option<int> {
    match step(m, c) {
        Step::Next(d) => if m.g.is_non_terminal(c.stack.last()) {
            (m.cell)(c.stack.last(), m.input[c.pos])
        } else {
            None
        },
        _ => None,
    }
}

/// The productions applied by the first `n` moves from `c`, in order.
pub open spec fn applied(m: Machine, c: Config, n: nat) -> Seq<int>
    decreases n,
{
    if n == 0 {
        Seq::empty()
    } else {
        let before: Seq<int> = applied(m, c, (n - 1) as nat);
        match run(m, c, (n - 1) as nat) {
            Some(d) => match rewriting(m, d) {
                Some(i) => before.push(i),
                None => before,
            },
            None => before,
        }
    }
}

/// After `n` moves from its first state the parser has `stack` before it
/// and has applied the productions `rule`.
pub open spec fn reached(m: Machine, n: nat, stack: Seq<Seq<char>>, rule: Seq<usize>) -> bool {
    &&& run(m, initial(m), n) is Some
    &&& run(m, initial(m), n)->0.stack == stack
    &&& applied(m, initial(m), n) == rule.map_values(|i: usize| i as int)
}

/// The parser comes to have `stack` before it, having applied the
/// productions `rule`.
pub open spec fn stops_with(m: Machine, stack: Seq<Seq<char>>, rule: Seq<usize>) -> bool {
    exists|n: nat| reached(m, n, stack, rule)
}

/// The parser, started in `c`, comes to accept.
pub open spec fn accepts_from(m: Machine, c: Config) -> bool {
    exists|n: nat| accepting(m, c, n)
}

/// After `n` moves from `c` the parser accepts.
pub open spec fn accepting(m: Machine, c: Config, n: nat) -> bool {
    match run(m, c, n) {
        Some(d) => step(m, d) is Accept,
        None => false,
    }
}

/// The state in which the parser starts: the start symbol on the end marker.
pub open spec fn initial(m: Machine) -> Config {
    Config { stack: seq![end_marker(), m.g.left[0]], pos: 0 }
}

/// The parser accepts its input.
pub open spec fn accepts(m: Machine) -> bool {
    m.g.left.len() > 0 && accepts_from(m, initial(m))
}

pub proof fn lemma_run_compose(m: Machine, c: Config, a: nat, b: nat)
    ensures
        run(m, c, a + b) == match run(m, c, a) {
            Some(d) => run(m, d, b),
            None => None,
        },
    decreases b,
{
    if b > 0 {
        lemma_run_compose(m, c, a, (b - 1) as nat);
        assert((a + b - 1) as nat == a + (b - 1) as nat);
    }
}

/// A move to another state changes nothing about whether the parser accepts.
pub proof fn lemma_step_next(m: Machine, c: Config, d: Config)
    requires
        step(m, c) == Step::Next(d),
    ensures
        accepts_from(m, c) == accepts_from(m, d),
{
    assert(run(m, c, 1) == Some(d)) by {
        assert(run(m, c, 0) == Some(c));
    }
    if accepts_from(m, c) {
        let n: nat = choose|n: nat| accepting(m, c, n);
        assert(n > 0);
        lemma_run_compose(m, c, 1, (n - 1) as nat);
        assert(accepting(m, d, (n - 1) as nat));
    }
    if accepts_from(m, d) {
        let n: nat = choose|n: nat| accepting(m, d, n);
        lemma_run_compose(m, c, 1, n);
        assert(accepting(m, c, 1 + n));
    }
}

/// Where the parser stops, it accepts only if that move is to accept.
pub proof fn lemma_step_halt(m: Machine, c: Config)
    requires
        !(step(m, c) is Next),
    ensures
        accepts_from(m, c) == (step(m, c) is Accept),
{
    if step(m, c) is Accept {
        assert(accepting(m, c, 0));
    }
    if accepts_from(m, c) {
        let n: nat = choose|n: nat| accepting(m, c, n);
        if n > 0 {
            assert(run(m, c, 1) is None) by {
                assert(run(m, c, 0) == Some(c));
            }
            lemma_run_compose(m, c, 1, (n - 1) as nat);
        }
    }
}

/// Moves change nothing about whether the parser accepts.
pub proof fn lemma_run_accepts(m: Machine, c: Config, n: nat, d: Config)
    requires
        run(m, c, n) == Some(d),
    ensures
        accepts_from(m, c) == accepts_from(m, d),
    decreases n,
{
    if n > 0 {
        let e: Config = run(m, c, (n - 1) as nat)->0;
        lemma_run_accepts(m, c, (n - 1) as nat, e);
        lemma_step_next(m, e, d);
    }
}

/// During the first `n` moves from `c` the stack stays higher than `h` and
/// nothing is consumed.
pub open spec fn climbs(m: Machine, c: Config, h: int, n: nat) -> bool
    decreases n,
{
    n == 0 || (climbs(m, c, h, (n - 1) as nat) && match run(m, c, n) {
        Some(d) => d.stack.len() > h && d.pos == c.pos,
        None => false,
    })
}

pub proof fn lemma_climbs_runs(m: Machine, c: Config, h: int, n: nat, k: nat)
    requires
        climbs(m, c, h, n),
        k <= n,
    ensures
        run(m, c, k) is Some,
        climbs(m, c, h, k),
    decreases n,
{
    if k < n {
        lemma_climbs_runs(m, c, h, (n - 1) as nat, k);
    }
}

/// A run that stays above the lowest `h` symbols of the stack never reads
/// them: it leaves them as they are, and on any other `h'` symbols the same
/// moves happen.
pub proof fn lemma_lift(m: Machine, c: Config, h: int, n: nat, below: Seq<Seq<char>>)
    requires
        0 <= h < c.stack.len(),
        climbs(m, c, h, n),
    ensures
        run(m, c, n) is Some,
        run(m, c, n)->0.stack.len() > h,
        run(m, c, n)->0.pos == c.pos,
        run(m, c, n)->0.stack.take(h) == c.stack.take(h),
        climbs(m, Config { stack: below + c.stack.skip(h), pos: c.pos }, below.len() as int, n),
        run(m, Config { stack: below + c.stack.skip(h), pos: c.pos }, n) == Some(
            Config { stack: below + run(m, c, n)->0.stack.skip(h), pos: c.pos },
        ),
    decreases n,
{
    let lifted: Config = Config { stack: below + c.stack.skip(h), pos: c.pos };
    if n > 0 {
        let j: nat = (n - 1) as nat;
        lemma_lift(m, c, h, j, below);
        let e: Config = run(m, c, j)->0;
        let d: Config = run(m, c, n)->0;
        let e_up: Config = Config { stack: below + e.stack.skip(h), pos: c.pos };
        assert(run(m, lifted, j) == Some(e_up));
        assert(step(m, e) == Step::Next(d));
        assert(e.stack.skip(h).len() > 0);
        assert(e_up.stack.last() == e.stack.last());
        assert(d.pos == c.pos);
        let top: Seq<char> = e.stack.last();
        let front: Seq<char> = m.input[e.pos];
        assert(m.g.is_non_terminal(top));
        let i: int = (m.cell)(top, front)->0;
        let d_up: Config = Config { stack: below + d.stack.skip(h), pos: c.pos };
        assert(d.stack == e.stack.drop_last() + pushed(m.g.bodies[i]));
        assert(d.stack.take(h) =~= e.stack.take(h));
        assert(e_up.stack.drop_last() + pushed(m.g.bodies[i]) =~= below + d.stack.skip(h));
        assert(step(m, e_up) == Step::Next(d_up));
        assert(run(m, lifted, n) == Some(d_up));
    } else {
        assert(below + c.stack.skip(h) =~= lifted.stack);
    }
}

/// A run from a non-terminal on top that stays above what lies under it,
/// consumes nothing and has the same non-terminal on top again goes on for
/// ever, whatever lies under it.
pub proof fn lemma_pump(
    m: Machine,
    c: Config,
    n: nat,
    below: Seq<Seq<char>>,
    moves: nat,
)
    requires
        c.stack.len() > 0,
        n > 0,
        climbs(m, c, c.stack.len() - 1, n),
        run(m, c, n) is Some,
        run(m, c, n)->0.stack.last() == c.stack.last(),
    ensures
        run(m, Config { stack: below.push(c.stack.last()), pos: c.pos }, moves) is Some,
    decreases moves,
{
    let h: int = c.stack.len() - 1;
    let lifted: Config = Config { stack: below.push(c.stack.last()), pos: c.pos };
    lemma_lift(m, c, h, n, below);
    assert(c.stack.skip(h) =~= seq![c.stack.last()]);
    assert(below + c.stack.skip(h) =~= below.push(c.stack.last()));
    if moves <= n {
        lemma_climbs_runs(m, lifted, below.len() as int, n, moves);
    } else {
        let d: Config = run(m, c, n)->0;
        let d_up: Config = Config { stack: below + d.stack.skip(h), pos: c.pos };
        assert(run(m, lifted, n) == Some(d_up));
        let under: Seq<Seq<char>> = d_up.stack.drop_last();
        assert(d.stack.skip(h).len() > 0);
        assert(d_up.stack.last() == d.stack.last());
        assert(d_up.stack =~= under.push(c.stack.last()));
        lemma_pump(m, c, n, under, (moves - n) as nat);
        lemma_run_compose(m, lifted, n, (moves - n) as nat);
    }
}

/// The parser does not accept from a state that it reached, from the same
/// non-terminal on top, by a run that stayed above what lies under that
/// non-terminal and consumed nothing.
pub proof fn lemma_loop_rejects(m: Machine, c: Config, n: nat)
    requires
        c.stack.len() > 0,
        n > 0,
        climbs(m, c, c.stack.len() - 1, n),
        run(m, c, n) is Some,
        run(m, c, n)->0.stack.last() == c.stack.last(),
    ensures
        !accepts_from(m, run(m, c, n)->0),
{
    let d: Config = run(m, c, n)->0;
    lemma_run_accepts(m, c, n, d);
    if accepts_from(m, c) {
        let k: nat = choose|k: nat| accepting(m, c, k);
        let under: Seq<Seq<char>> = c.stack.drop_last();
        assert(under.push(c.stack.last()) =~= c.stack);
        lemma_pump(m, c, n, under, k + 1);
        assert(run(m, c, k + 1) is Some);
        assert(false);
    }
}

} // verus!
