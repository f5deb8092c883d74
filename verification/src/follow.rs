//! FOLLOW sets, defined as the least family of sets closed under the three
//! rules, and the facts about them that the rest of the library uses.

use crate::cfg::Cfg;
use crate::first::{
    first_of, included, included_on, lemma_first_shaped, lemma_sequence_first_shaped, Family,
};
use crate::symbols::{end_marker, epsilon_mark};
use vstd::prelude::*;

verus! {

/// What the occurrence of a symbol at position `p` of body `i` contributes to
/// its FOLLOW set, when `fol` is what is known of the FOLLOW sets: FIRST of
/// what stands behind it, without the mark; and, where all that stands behind
/// it can vanish, the FOLLOW set of the production's left-hand side.
pub open spec fn follows_at(g: Cfg, fol: Family, i: int, p: int, t: Seq<char>) -> bool {
    ||| first_of(g, g.bodies[i], p + 1, t) && t != epsilon_mark()
    ||| first_of(g, g.bodies[i], p + 1, epsilon_mark()) && fol(g.left[i], t)
}

/// One round of the rules: the end marker for the start symbol, and what each
/// occurrence in a body contributes.
pub open spec fn follow_step(g: Cfg, fol: Family) -> Family {
    |x: Seq<char>, t: Seq<char>|
        {
            ||| g.left.len() > 0 && x == g.left[0] && t == end_marker()
            ||| exists|i: int, p: int|
                0 <= i < g.bodies.len() && 0 <= p < g.bodies[i].len() && #[trigger] g.bodies[i][p]
                    == x && follows_at(g, fol, i, p, t)
        }
}

/// What `k` rounds yield, starting from empty sets.
pub open spec fn follow_stage(g: Cfg, k: nat) -> Family
    decreases k,
{
    if k == 0 {
        |x: Seq<char>, t: Seq<char>| false
    } else {
        follow_step(g, follow_stage(g, (k - 1) as nat))
    }
}

/// The FOLLOW sets: what some number of rounds yields.
pub open spec fn follow_family(g: Cfg) -> Family {
    |x: Seq<char>, t: Seq<char>| exists|k: nat| #[trigger] follow_stage(g, k)(x, t)
}

/// `t` belongs to FOLLOW of the symbol `x`.
pub open spec fn follow(g: Cfg, x: Seq<char>, t: Seq<char>) -> bool {
    follow_family(g)(x, t)
}

/// A family is closed when a round of the rules adds nothing to the sets of
/// the non-terminals.
pub open spec fn follow_closed(g: Cfg, fol: Family) -> bool {
    included_on(g, follow_step(g, fol), fol)
}

pub proof fn lemma_follow_step_monotone(g: Cfg, small: Family, large: Family)
    requires
        g.wf(),
        included_on(g, small, large),
    ensures
        included(follow_step(g, small), follow_step(g, large)),
{
    assert forall|x: Seq<char>, t: Seq<char>| #[trigger]
        follow_step(g, small)(x, t) implies follow_step(g, large)(x, t) by {
        if !(g.left.len() > 0 && x == g.left[0] && t == end_marker()) {
            let (i, p): (int, int) = choose|i: int, p: int|
                0 <= i < g.bodies.len() && 0 <= p < g.bodies[i].len() && #[trigger] g.bodies[i][p]
                    == x && follows_at(g, small, i, p, t);
            if !(first_of(g, g.bodies[i], p + 1, t) && t != epsilon_mark()) {
                assert(g.left.contains(g.left[i]));
                assert(small(g.left[i], t));
            }
            assert(follows_at(g, large, i, p, t));
        }
    }
}

pub proof fn lemma_follow_stage_in_family(g: Cfg, k: nat)
    ensures
        included(follow_stage(g, k), follow_family(g)),
{
}

/// The FOLLOW sets are a fixed point of the rules.
pub proof fn lemma_follow_fixed_point(g: Cfg)
    requires
        g.wf(),
    ensures
        included(follow_step(g, follow_family(g)), follow_family(g)),
        included(follow_family(g), follow_step(g, follow_family(g))),
{
    let fol: Family = follow_family(g);
    assert forall|x: Seq<char>, t: Seq<char>| #[trigger]
        follow_step(g, fol)(x, t) implies fol(x, t) by {
        if g.left.len() > 0 && x == g.left[0] && t == end_marker() {
            assert(follow_step(g, follow_stage(g, 0))(x, t));
            assert(follow_stage(g, 1)(x, t));
        } else {
            let (i, p): (int, int) = choose|i: int, p: int|
                0 <= i < g.bodies.len() && 0 <= p < g.bodies[i].len() && #[trigger] g.bodies[i][p]
                    == x && follows_at(g, fol, i, p, t);
            if first_of(g, g.bodies[i], p + 1, t) && t != epsilon_mark() {
                assert(follows_at(g, follow_stage(g, 0), i, p, t));
                assert(follow_step(g, follow_stage(g, 0))(x, t));
                assert(follow_stage(g, 1)(x, t));
            } else {
                let k: nat = choose|k: nat| #[trigger] follow_stage(g, k)(g.left[i], t);
                assert(follows_at(g, follow_stage(g, k), i, p, t));
                assert(follow_step(g, follow_stage(g, k))(x, t));
                assert(follow_stage(g, k + 1)(x, t));
            }
        }
    }
    assert forall|x: Seq<char>, t: Seq<char>| #[trigger] fol(x, t) implies follow_step(g, fol)(
        x,
        t,
    ) by {
        let k: nat = choose|k: nat| #[trigger] follow_stage(g, k)(x, t);
        assert(k > 0);
        let j: nat = (k - 1) as nat;
        assert(follow_step(g, follow_stage(g, j))(x, t));
        lemma_follow_stage_in_family(g, j);
        lemma_follow_step_monotone(g, follow_stage(g, j), fol);
    }
}

pub proof fn lemma_follow_stage_below(g: Cfg, fol: Family, k: nat)
    requires
        g.wf(),
        follow_closed(g, fol),
    ensures
        included_on(g, follow_stage(g, k), fol),
    decreases k,
{
    if k > 0 {
        let j: nat = (k - 1) as nat;
        lemma_follow_stage_below(g, fol, j);
        lemma_follow_step_monotone(g, follow_stage(g, j), fol);
        assert forall|x: Seq<char>, t: Seq<char>|
            g.is_non_terminal(x) && #[trigger] follow_stage(g, k)(x, t) implies fol(x, t) by {
            assert(follow_step(g, follow_stage(g, j))(x, t));
            assert(follow_step(g, fol)(x, t));
        }
    }
}

/// On the non-terminals, the FOLLOW sets are included in every closed family.
pub proof fn lemma_follow_least(g: Cfg, fol: Family)
    requires
        g.wf(),
        follow_closed(g, fol),
    ensures
        included_on(g, follow_family(g), fol),
{
    assert forall|x: Seq<char>, t: Seq<char>|
        g.is_non_terminal(x) && #[trigger] follow_family(g)(x, t) implies fol(x, t) by {
        let k: nat = choose|k: nat| #[trigger] follow_stage(g, k)(x, t);
        lemma_follow_stage_below(g, fol, k);
    }
}

/// A family whose sets hold only terminals and the end marker.
pub open spec fn follow_shaped(g: Cfg, fol: Family) -> bool {
    forall|x: Seq<char>, t: Seq<char>| #[trigger]
        fol(x, t) ==> t == end_marker() || g.is_terminal(t)
}

pub proof fn lemma_follow_step_shaped(g: Cfg, fol: Family)
    requires
        follow_shaped(g, fol),
    ensures
        follow_shaped(g, follow_step(g, fol)),
{
    assert forall|x: Seq<char>, t: Seq<char>| #[trigger]
        follow_step(g, fol)(x, t) implies t == end_marker() || g.is_terminal(t) by {
        if !(g.left.len() > 0 && x == g.left[0] && t == end_marker()) {
            let (i, p): (int, int) = choose|i: int, p: int|
                0 <= i < g.bodies.len() && 0 <= p < g.bodies[i].len() && #[trigger] g.bodies[i][p]
                    == x && follows_at(g, fol, i, p, t);
            if first_of(g, g.bodies[i], p + 1, t) && t != epsilon_mark() {
                lemma_first_shaped(g);
                lemma_sequence_first_shaped(g, crate::first::first_family(g), g.bodies[i], p + 1, t);
            } else {
                assert(fol(g.left[i], t));
            }
        }
    }
}

pub proof fn lemma_follow_stage_shaped(g: Cfg, k: nat)
    ensures
        follow_shaped(g, follow_stage(g, k)),
    decreases k,
{
    if k > 0 {
        lemma_follow_stage_shaped(g, (k - 1) as nat);
        lemma_follow_step_shaped(g, follow_stage(g, (k - 1) as nat));
    }
}

/// A FOLLOW set holds only terminals and the end marker.
pub proof fn lemma_follow_shaped(g: Cfg)
    ensures
        follow_shaped(g, follow_family(g)),
{
    assert forall|x: Seq<char>, t: Seq<char>| #[trigger]
        follow_family(g)(x, t) implies t == end_marker() || g.is_terminal(t) by {
        let k: nat = choose|k: nat| #[trigger] follow_stage(g, k)(x, t);
        lemma_follow_stage_shaped(g, k);
    }
}

} // verus!
