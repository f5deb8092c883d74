//! The LL(1) test: no two alternatives of a non-terminal may compete for the
//! same lookahead.

use crate::cfg::{lemma_terminals, Cfg};
use crate::first::first_of;
use crate::follow::follow;
use crate::grammar::Grammar;
use crate::pairs::{index_pairs, lemma_pair_index, lemma_pair_positions, pairs_of};
use crate::symbols::{epsilon_mark, epsilon_mark_token, has_name, names, names2};
use vstd::prelude::*;

verus! {

/// Two sets of symbols share a member.
pub open spec fn overlap(a: Seq<Seq<char>>, b: Seq<Seq<char>>) -> bool {
    exists|t: Seq<char>| a.contains(t) && b.contains(t)
}

/// The FIRST sets of the bodies of productions `i` and `j` share a member.
pub open spec fn first_first_conflict(g: Cfg, i: int, j: int) -> bool {
    exists|t: Seq<char>| first_of(g, g.bodies[i], 0, t) && first_of(g, g.bodies[j], 0, t)
}

/// The body of production `i` can vanish, and the FIRST set of the body of
/// production `j` shares a member with the FOLLOW set of their left-hand side.
pub open spec fn first_follow_conflict(g: Cfg, i: int, j: int) -> bool {
    first_of(g, g.bodies[i], 0, epsilon_mark()) && exists|t: Seq<char>|
        first_of(g, g.bodies[j], 0, t) && follow(g, g.left[i], t)
}

/// Productions `i` and `j` never compete for a lookahead.
pub open spec fn compatible(g: Cfg, i: int, j: int) -> bool {
    &&& !first_first_conflict(g, i, j)
    &&& !first_follow_conflict(g, i, j)
    &&& !first_follow_conflict(g, j, i)
}

/// A grammar is LL(1) when any two alternatives of one non-terminal are
/// compatible.
pub open spec fn ll1(g: Cfg) -> bool {
    forall|i: int, j: int|
        0 <= i < j < g.left.len() && g.left[i] == g.left[j] ==> #[trigger] compatible(g, i, j)
}

/// Whether two lists of symbols share a member.
pub fn intersects(a: &Vec<String>, b: &Vec<String>) -> (shared: bool)
    ensures
        shared == overlap(names(a@), names(b@)),
{
    let mut k: usize = 0;
    while k < a.len()
        invariant
            k <= a@.len(),
            forall|q: int| 0 <= q < k ==> !names(b@).contains(#[trigger] names(a@)[q]),
        decreases a@.len() - k,
    {
        if has_name(b, &a[k]) {
            proof {
                assert(names(a@)[k as int] == a@[k as int]@);
                assert(names(a@).contains(a@[k as int]@));
            }
            return true;
        }
        proof {
            assert(names(a@)[k as int] == a@[k as int]@);
        }
        k += 1;
    }
    proof {
        if overlap(names(a@), names(b@)) {
            let t: Seq<char> = choose|t: Seq<char>| names(a@).contains(t) && names(b@).contains(t);
            let q: int = choose|q: int| 0 <= q < names(a@).len() && names(a@)[q] == t;
            assert(!names(b@).contains(names(a@)[q]));
        }
    }
    false
}

impl Grammar {
    /// Whether productions `i` and `j`, two alternatives of the non-terminal
    /// in row `r`, are compatible.
    pub fn alternatives_compatible(&self, r: usize, i: usize, j: usize) -> (fine: bool)
        requires
            self.classified(),
            self.firsts_ready(),
            self.follows_ready(),
            r < self.non_terminals@.len(),
            i < self.sides.left@.len(),
            j < self.sides.left@.len(),
            self.sides.left@[i as int]@ == self.non_terminals@[r as int]@,
            self.sides.left@[j as int]@ == self.non_terminals@[r as int]@,
        ensures
            fine == compatible(self.model(), i as int, j as int),
    {
        let ghost g: Cfg = self.model();
        let mark: String = epsilon_mark_token();
        proof {
            assert(names2(self.productions@).len() == self.productions@.len());
            assert(g.bodies.len() == self.sides.right@.len());
            assert(names2(self.productions@)[i as int] == names(self.productions@[i as int]@));
            assert(names2(self.productions@)[j as int] == names(self.productions@[j as int]@));
            assert(names2(self.follows@)[r as int] == names(self.follows@[r as int]@));
            assert(g.left[i as int] == names(self.non_terminals@)[r as int]);
            assert(g.left[j as int] == names(self.non_terminals@)[r as int]);
        }
        let first_1: Vec<String> = self.quick_first_production(&self.productions[i]);
        let first_2: Vec<String> = self.quick_first_production(&self.productions[j]);
        let follow_set: &Vec<String> = &self.follows[r];
        proof {
            assert(forall|t: Seq<char>| #[trigger]
                names(follow_set@).contains(t) <==> follow(g, g.left[i as int], t));
        }
        if intersects(&first_1, &first_2) {
            proof {
                let t: Seq<char> = choose|t: Seq<char>|
                    names(first_1@).contains(t) && names(first_2@).contains(t);
                assert(first_of(g, g.bodies[i as int], 0, t) && first_of(g, g.bodies[j as int], 0, t));
            }
            return false;
        }
        proof {
            if first_first_conflict(g, i as int, j as int) {
                let t: Seq<char> = choose|t: Seq<char>|
                    first_of(g, g.bodies[i as int], 0, t) && first_of(g, g.bodies[j as int], 0, t);
                assert(names(first_1@).contains(t) && names(first_2@).contains(t));
            }
        }
        if has_name(&first_1, &mark) {
            if intersects(&first_2, follow_set) {
                proof {
                    let t: Seq<char> = choose|t: Seq<char>|
                        names(first_2@).contains(t) && names(follow_set@).contains(t);
                    assert(first_of(g, g.bodies[j as int], 0, t) && follow(g, g.left[i as int], t));
                }
                return false;
            }
        }
        proof {
            if first_follow_conflict(g, i as int, j as int) {
                let t: Seq<char> = choose|t: Seq<char>|
                    first_of(g, g.bodies[j as int], 0, t) && follow(g, g.left[i as int], t);
                assert(names(first_2@).contains(t) && names(follow_set@).contains(t));
            }
        }
        if has_name(&first_2, &mark) {
            if intersects(&first_1, follow_set) {
                proof {
                    let t: Seq<char> = choose|t: Seq<char>|
                        names(first_1@).contains(t) && names(follow_set@).contains(t);
                    assert(first_of(g, g.bodies[i as int], 0, t) && follow(g, g.left[j as int], t));
                }
                return false;
            }
        }
        proof {
            if first_follow_conflict(g, j as int, i as int) {
                let t: Seq<char> = choose|t: Seq<char>|
                    first_of(g, g.bodies[i as int], 0, t) && follow(g, g.left[j as int], t);
                assert(names(first_1@).contains(t) && names(follow_set@).contains(t));
            }
        }
        true
    }

    /// The LL(1) test on a grammar whose FIRST and FOLLOW sets are there.
    pub fn check_ll1(&self) -> (valid: bool)
        requires
            self.classified(),
            self.firsts_ready(),
            self.follows_ready(),
        ensures
            valid == ll1(self.model()),
    {
        let ghost g: Cfg = self.model();
        let n: usize = self.non_terminals.len();
        let total: usize = self.sides.left.len();
        let mut r: usize = 0;
        while r < n
            invariant
                r <= n,
                n == self.non_terminals@.len(),
                total == self.sides.left@.len(),
                g == self.model(),
                self.classified(),
                self.firsts_ready(),
                self.follows_ready(),
                forall|i: int, j: int|
                    0 <= i < j < g.left.len() && g.left[i] == g.left[j] && (exists|q: int|
                        0 <= q < r && names(self.non_terminals@)[q] == g.left[i])
                        ==> #[trigger] compatible(g, i, j),
            decreases n - r,
        {
            let indexes: Vec<usize> = self.get_indexes_in_non_terminals(&self.non_terminals[r]);
            let ghost key: Seq<char> = self.non_terminals@[r as int]@;
            proof {
                assert(names(self.non_terminals@)[r as int] == key);
            }
            if indexes.len() > 1 {
                let pairs: Vec<Vec<usize>> = index_pairs(&indexes);
                let mut k: usize = 0;
                while k < pairs.len()
                    invariant
                        k <= pairs@.len(),
                        r < n,
                        n == self.non_terminals@.len(),
                        total == self.sides.left@.len(),
                        g == self.model(),
                        key == self.non_terminals@[r as int]@,
                        self.classified(),
                        self.firsts_ready(),
                        self.follows_ready(),
                        pairs@.len() == pairs_of(indexes@).len(),
                        forall|q: int|
                            0 <= q < pairs@.len() ==> (#[trigger] pairs@[q])@ == pairs_of(
                                indexes@,
                            )[q],
                        forall|q: int|
                            0 <= q < indexes@.len() ==> (#[trigger] indexes@[q]) < total
                                && self.sides.left@[indexes@[q] as int]@ == key,
                        forall|a: int, b: int|
                            0 <= a < b < indexes@.len() ==> indexes@[a] < indexes@[b],
                        forall|q: int|
                            0 <= q < k ==> compatible(
                                g,
                                (#[trigger] pairs_of(indexes@)[q])[0] as int,
                                pairs_of(indexes@)[q][1] as int,
                            ),
                    decreases pairs@.len() - k,
                {
                    let pair: &Vec<usize> = &pairs[k];
                    proof {
                        let ab: (int, int) = lemma_pair_positions(indexes@, k as int);
                        assert(pair@ == seq![indexes@[ab.0], indexes@[ab.1]]);
                        assert(pair@.len() == 2);
                        assert(pair@[0] == indexes@[ab.0] && pair@[1] == indexes@[ab.1]);
                        assert(pair@[0] < pair@[1]);
                    }
                    let i: usize = pair[0];
                    let j: usize = pair[1];
                    if !self.alternatives_compatible(r, i, j) {
                        proof {
                            assert(g.left[i as int] == g.left[j as int]);
                            assert(!compatible(g, i as int, j as int));
                        }
                        return false;
                    }
                    k += 1;
                }
            }
            proof {
                assert forall|i: int, j: int|
                    0 <= i < j < g.left.len() && g.left[i] == g.left[j] && g.left[i]
                        == key implies #[trigger] compatible(g, i, j) by {
                    let at_i: usize = i as usize;
                    let at_j: usize = j as usize;
                    assert(self.sides.left@[i]@ == key && self.sides.left@[j]@ == key);
                    assert(indexes@.contains(at_i) && indexes@.contains(at_j));
                    let a: int = choose|a: int| 0 <= a < indexes@.len() && indexes@[a] == at_i;
                    let b: int = choose|b: int| 0 <= b < indexes@.len() && indexes@[b] == at_j;
                    if a >= b {
                        if a > b {
                            assert(indexes@[b] < indexes@[a]);
                        }
                        assert(false);
                    }
                    let q: int = lemma_pair_index(indexes@, a, b);
                    assert(pairs_of(indexes@)[q][0] as int == i);
                    assert(pairs_of(indexes@)[q][1] as int == j);
                }
            }
            r += 1;
        }
        proof {
            lemma_terminals(g);
            assert forall|i: int, j: int|
                0 <= i < j < g.left.len() && g.left[i] == g.left[j] implies #[trigger] compatible(
                g,
                i,
                j,
            ) by {
                assert(g.is_non_terminal(g.left[i]));
                assert(names(self.non_terminals@).contains(g.left[i]));
                let q: int = choose|q: int|
                    0 <= q < names(self.non_terminals@).len() && names(self.non_terminals@)[q]
                        == g.left[i];
                assert(0 <= q < n);
            }
        }
        true
    }

    /// Whether the grammar is LL(1): for any two alternatives of a
    /// non-terminal, the FIRST sets of the two bodies share no member (the
    /// mark counts), and where one body can vanish, the FIRST set of the other
    /// shares no member with the FOLLOW set of the non-terminal. The FIRST and
    /// FOLLOW sets are computed where they were not.
    pub fn is_ll1(&mut self) -> (valid: bool)
        requires
            old(self).classified(),
            old(self).firsts_valid(),
            old(self).follows_valid(),
        ensures
            valid == ll1(old(self).model()),
            final(self).firsts_ready(),
            final(self).follows_ready(),
            final(self).classified(),
            final(self).sides == old(self).sides,
            final(self).terminals == old(self).terminals,
            final(self).non_terminals == old(self).non_terminals,
            final(self).productions == old(self).productions,
            old(self).firsts@.len() != 0 ==> final(self).firsts == old(self).firsts,
            old(self).follows@.len() != 0 ==> final(self).follows == old(self).follows,
    {
        self.ensure_follows();
        self.check_ll1()
    }
}

} // verus!
