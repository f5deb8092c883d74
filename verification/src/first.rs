//! FIRST sets, defined as the least family of sets closed under the
//! productions, and the facts about them that the rest of the library uses.

use crate::cfg::Cfg;
use crate::symbols::{epsilon, epsilon_mark};
use vstd::prelude::*;

verus! {

/// A family of sets of symbols, one set per symbol: `fam(a, t)` says that `t`
/// belongs to the set of `a`.
pub type Family = spec_fn(Seq<char>, Seq<char>) -> bool;

/// Whether every member of `small` is a member of `large`.
pub open spec fn included(small: Family, large: Family) -> bool {
    forall|a: Seq<char>, t: Seq<char>| #[trigger] small(a, t) ==> large(a, t)
}

/// Whether every member that `small` gives a non-terminal is a member of
/// `large`.
pub open spec fn included_on(g: Cfg, small: Family, large: Family) -> bool {
    forall|a: Seq<char>, t: Seq<char>| g.is_non_terminal(a) && #[trigger] small(a, t) ==> large(a, t)
}

/// FIRST of one symbol, where `fam` gives the sets of the non-terminals: the
/// empty-string token yields the mark, a terminal yields itself.
pub open spec fn symbol_first(g: Cfg, fam: Family, x: Seq<char>, t: Seq<char>) -> bool {
    if x == epsilon() {
        t == epsilon_mark()
    } else if g.is_non_terminal(x) {
        fam(x, t)
    } else {
        g.is_terminal(x) && t == x
    }
}

/// FIRST of the symbols of `s` from position `from` on, where `fam` gives the
/// sets of the non-terminals. A symbol contributes as long as every symbol
/// before it can vanish; the mark belongs to the result only if all of them
/// can.
pub open spec fn sequence_first(
    g: Cfg,
    fam: Family,
    s: Seq<Seq<char>>,
    from: int,
    t: Seq<char>,
) -> bool
    decreases s.len() - from,
{
    if from < 0 || from >= s.len() {
        t == epsilon_mark()
    } else if symbol_first(g, fam, s[from], epsilon_mark()) {
        (symbol_first(g, fam, s[from], t) && t != epsilon_mark()) || sequence_first(
            g,
            fam,
            s,
            from + 1,
            t,
        )
    } else {
        symbol_first(g, fam, s[from], t)
    }
}

/// One round of the productions: what the bodies yield for each non-terminal
/// when `fam` is all that is known.
pub open spec fn first_step(g: Cfg, fam: Family) -> Family {
    |a: Seq<char>, t: Seq<char>|
        exists|i: int|
            0 <= i < g.left.len() && #[trigger] g.left[i] == a && sequence_first(
                g,
                fam,
                g.bodies[i],
                0,
                t,
            )
}

/// What `k` rounds yield, starting from empty sets.
pub open spec fn first_stage(g: Cfg, k: nat) -> Family
    decreases k,
{
    if k == 0 {
        |a: Seq<char>, t: Seq<char>| false
    } else {
        first_step(g, first_stage(g, (k - 1) as nat))
    }
}

/// The FIRST sets of the non-terminals: what some number of rounds yields.
pub open spec fn first_family(g: Cfg) -> Family {
    |a: Seq<char>, t: Seq<char>| exists|k: nat| #[trigger] first_stage(g, k)(a, t)
}

/// `t` belongs to FIRST of the symbol `x`.
pub open spec fn first(g: Cfg, x: Seq<char>, t: Seq<char>) -> bool {
    symbol_first(g, first_family(g), x, t)
}

/// `t` belongs to FIRST of the symbols of `s` from position `from` on.
pub open spec fn first_of(g: Cfg, s: Seq<Seq<char>>, from: int, t: Seq<char>) -> bool {
    sequence_first(g, first_family(g), s, from, t)
}

/// The symbol `x` can vanish.
pub open spec fn nullable(g: Cfg, x: Seq<char>) -> bool {
    first(g, x, epsilon_mark())
}

/// A family is closed when a round of the productions adds nothing to it.
pub open spec fn first_closed(g: Cfg, fam: Family) -> bool {
    included(first_step(g, fam), fam)
}

pub proof fn lemma_sequence_first_monotone(
    g: Cfg,
    small: Family,
    large: Family,
    s: Seq<Seq<char>>,
    from: int,
    t: Seq<char>,
)
    requires
        included(small, large),
        sequence_first(g, small, s, from, t),
    ensures
        sequence_first(g, large, s, from, t),
    decreases s.len() - from,
{
    if 0 <= from < s.len() {
        let x: Seq<char> = s[from];
        if symbol_first(g, small, x, epsilon_mark()) {
            assert(symbol_first(g, large, x, epsilon_mark()));
            if !(symbol_first(g, small, x, t) && t != epsilon_mark()) {
                lemma_sequence_first_monotone(g, small, large, s, from + 1, t);
            }
        }
    }
}

pub proof fn lemma_first_step_monotone(g: Cfg, small: Family, large: Family)
    requires
        included(small, large),
    ensures
        included(first_step(g, small), first_step(g, large)),
{
    assert forall|a: Seq<char>, t: Seq<char>| #[trigger]
        first_step(g, small)(a, t) implies first_step(g, large)(a, t) by {
        let i: int = choose|i: int|
            0 <= i < g.left.len() && #[trigger] g.left[i] == a && sequence_first(
                g,
                small,
                g.bodies[i],
                0,
                t,
            );
        lemma_sequence_first_monotone(g, small, large, g.bodies[i], 0, t);
    }
}

pub proof fn lemma_first_stage_grows(g: Cfg, k: nat)
    ensures
        included(first_stage(g, k), first_stage(g, k + 1)),
    decreases k,
{
    if k > 0 {
        lemma_first_stage_grows(g, (k - 1) as nat);
        lemma_first_step_monotone(g, first_stage(g, (k - 1) as nat), first_stage(g, k));
    }
}

pub proof fn lemma_first_stage_monotone(g: Cfg, j: nat, k: nat)
    requires
        j <= k,
    ensures
        included(first_stage(g, j), first_stage(g, k)),
    decreases k - j,
{
    if j < k {
        lemma_first_stage_grows(g, j);
        lemma_first_stage_monotone(g, j + 1, k);
    }
}

pub proof fn lemma_first_stage_in_family(g: Cfg, k: nat)
    ensures
        included(first_stage(g, k), first_family(g)),
{
}

/// What the FIRST sets yield for a sequence, some stage already yields.
pub proof fn lemma_sequence_first_stage(g: Cfg, s: Seq<Seq<char>>, from: int, t: Seq<char>) -> (k:
    nat)
    requires
        first_of(g, s, from, t),
    ensures
        sequence_first(g, first_stage(g, k), s, from, t),
    decreases s.len() - from,
{
    let fam: Family = first_family(g);
    if 0 <= from < s.len() {
        let x: Seq<char> = s[from];
        if symbol_first(g, fam, x, epsilon_mark()) {
            let k0: nat = if x != epsilon() && g.is_non_terminal(x) {
                choose|k: nat| #[trigger] first_stage(g, k)(x, epsilon_mark())
            } else {
                0
            };
            if symbol_first(g, fam, x, t) && t != epsilon_mark() {
                let k1: nat = if x != epsilon() && g.is_non_terminal(x) {
                    choose|k: nat| #[trigger] first_stage(g, k)(x, t)
                } else {
                    0
                };
                let k: nat = if k0 <= k1 {
                    k1
                } else {
                    k0
                };
                lemma_first_stage_monotone(g, k0, k);
                lemma_first_stage_monotone(g, k1, k);
                if x != epsilon() && g.is_non_terminal(x) {
                    assert(first_stage(g, k0)(x, epsilon_mark()));
                    assert(first_stage(g, k1)(x, t));
                }
                k
            } else {
                let k1: nat = lemma_sequence_first_stage(g, s, from + 1, t);
                let k: nat = if k0 <= k1 {
                    k1
                } else {
                    k0
                };
                lemma_first_stage_monotone(g, k0, k);
                lemma_first_stage_monotone(g, k1, k);
                if x != epsilon() && g.is_non_terminal(x) {
                    assert(first_stage(g, k0)(x, epsilon_mark()));
                }
                lemma_sequence_first_monotone(
                    g,
                    first_stage(g, k1),
                    first_stage(g, k),
                    s,
                    from + 1,
                    t,
                );
                k
            }
        } else {
            let k: nat = if x != epsilon() && g.is_non_terminal(x) {
                choose|k: nat| #[trigger] first_stage(g, k)(x, t)
            } else {
                0
            };
            assert(!symbol_first(g, first_stage(g, k), x, epsilon_mark())) by {
                lemma_first_stage_in_family(g, k);
                if x != epsilon() && g.is_non_terminal(x) {
                    if first_stage(g, k)(x, epsilon_mark()) {
                        assert(fam(x, epsilon_mark()));
                    }
                }
            }
            k
        }
    } else {
        0
    }
}

/// The FIRST sets are a fixed point of the productions.
pub proof fn lemma_first_fixed_point(g: Cfg)
    ensures
        included(first_step(g, first_family(g)), first_family(g)),
        included(first_family(g), first_step(g, first_family(g))),
{
    let fam: Family = first_family(g);
    assert forall|a: Seq<char>, t: Seq<char>| #[trigger]
        first_step(g, fam)(a, t) implies fam(a, t) by {
        let i: int = choose|i: int|
            0 <= i < g.left.len() && #[trigger] g.left[i] == a && sequence_first(
                g,
                fam,
                g.bodies[i],
                0,
                t,
            );
        let k: nat = lemma_sequence_first_stage(g, g.bodies[i], 0, t);
        assert(first_step(g, first_stage(g, k))(a, t));
        assert(first_stage(g, k + 1)(a, t));
    }
    assert forall|a: Seq<char>, t: Seq<char>| #[trigger] fam(a, t) implies first_step(g, fam)(
        a,
        t,
    ) by {
        let k: nat = choose|k: nat| #[trigger] first_stage(g, k)(a, t);
        assert(k > 0);
        let j: nat = (k - 1) as nat;
        assert(first_step(g, first_stage(g, j))(a, t));
        lemma_first_stage_in_family(g, j);
        lemma_first_step_monotone(g, first_stage(g, j), fam);
    }
}

/// The FIRST sets are included in every closed family.
pub proof fn lemma_first_least(g: Cfg, fam: Family)
    requires
        first_closed(g, fam),
    ensures
        included(first_family(g), fam),
{
    assert forall|a: Seq<char>, t: Seq<char>| #[trigger] first_family(g)(a, t) implies fam(
        a,
        t,
    ) by {
        let k: nat = choose|k: nat| #[trigger] first_stage(g, k)(a, t);
        lemma_first_stage_below(g, fam, k);
    }
}

pub proof fn lemma_first_stage_below(g: Cfg, fam: Family, k: nat)
    requires
        first_closed(g, fam),
    ensures
        included(first_stage(g, k), fam),
    decreases k,
{
    if k > 0 {
        let j: nat = (k - 1) as nat;
        lemma_first_stage_below(g, fam, j);
        lemma_first_step_monotone(g, first_stage(g, j), fam);
        assert forall|a: Seq<char>, t: Seq<char>| #[trigger]
            first_stage(g, k)(a, t) implies fam(a, t) by {
            assert(first_step(g, first_stage(g, j))(a, t));
            assert(first_step(g, fam)(a, t));
        }
    }
}

/// A family whose sets hold only terminals and the mark.
pub open spec fn first_shaped(g: Cfg, fam: Family) -> bool {
    forall|a: Seq<char>, t: Seq<char>| #[trigger]
        fam(a, t) ==> t == epsilon_mark() || g.is_terminal(t)
}

pub proof fn lemma_sequence_first_shaped(
    g: Cfg,
    fam: Family,
    s: Seq<Seq<char>>,
    from: int,
    t: Seq<char>,
)
    requires
        first_shaped(g, fam),
        sequence_first(g, fam, s, from, t),
    ensures
        t == epsilon_mark() || g.is_terminal(t),
    decreases s.len() - from,
{
    if 0 <= from < s.len() {
        let x: Seq<char> = s[from];
        if symbol_first(g, fam, x, epsilon_mark()) {
            if !(symbol_first(g, fam, x, t) && t != epsilon_mark()) {
                lemma_sequence_first_shaped(g, fam, s, from + 1, t);
            }
        }
    }
}

pub proof fn lemma_first_stage_shaped(g: Cfg, k: nat)
    ensures
        first_shaped(g, first_stage(g, k)),
    decreases k,
{
    if k > 0 {
        let j: nat = (k - 1) as nat;
        lemma_first_stage_shaped(g, j);
        assert forall|a: Seq<char>, t: Seq<char>| #[trigger]
            first_stage(g, k)(a, t) implies t == epsilon_mark() || g.is_terminal(t) by {
            let i: int = choose|i: int|
                0 <= i < g.left.len() && #[trigger] g.left[i] == a && sequence_first(
                    g,
                    first_stage(g, j),
                    g.bodies[i],
                    0,
                    t,
                );
            lemma_sequence_first_shaped(g, first_stage(g, j), g.bodies[i], 0, t);
        }
    }
}

/// A FIRST set holds only terminals and the mark.
pub proof fn lemma_first_shaped(g: Cfg)
    ensures
        first_shaped(g, first_family(g)),
{
    assert forall|a: Seq<char>, t: Seq<char>| #[trigger]
        first_family(g)(a, t) implies t == epsilon_mark() || g.is_terminal(t) by {
        let k: nat = choose|k: nat| #[trigger] first_stage(g, k)(a, t);
        lemma_first_stage_shaped(g, k);
    }
}

} // verus!
