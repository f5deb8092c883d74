//! Computing FOLLOW sets: rounds over the non-terminals until nothing is added.

use crate::cfg::{lemma_terminals, Cfg};
use crate::first::{first_of, included_on, Family};
use crate::follow::{
    follow, follow_closed, follow_family, follow_step, follows_at, lemma_follow_fixed_point,
    lemma_follow_least, lemma_follow_shaped, lemma_follow_step_monotone,
};
use crate::grammar::Grammar;
use crate::sets::{
    add_new, family_of, lemma_distinct_bounded, lemma_family_row, lemma_total_len_bound,
    lemma_total_len_update, rows_distinct, total_len,
};
use crate::symbols::{
    copy_names, end_marker, end_marker_token, epsilon_mark, epsilon_mark_token, has_name, names,
    names2, position_of,
};
use vstd::prelude::*;

verus! {

/// Every member of every row belongs to the FOLLOW set of the row's key.
pub open spec fn rows_within_follow(g: Cfg, keys: Seq<Seq<char>>, rows: Seq<Seq<Seq<char>>>) -> bool {
    forall|r: int, k: int|
        0 <= r < rows.len() && 0 <= k < rows[r].len() ==> follow_family(g)(
            keys[r],
            #[trigger] rows[r][k],
        )
}

/// The rows are the FOLLOW sets of their keys, each symbol once.
pub open spec fn rows_are_follow(g: Cfg, keys: Seq<Seq<char>>, rows: Seq<Seq<Seq<char>>>) -> bool {
    &&& rows.len() == keys.len()
    &&& rows_distinct(rows)
    &&& forall|r: int, t: Seq<char>|
        0 <= r < rows.len() ==> (#[trigger] rows[r].contains(t) <==> follow_family(g)(keys[r], t))
}

/// Rows that are the FOLLOW sets stand for the FOLLOW family on the
/// non-terminals.
pub proof fn lemma_rows_are_follow(g: Cfg, rows: Seq<Seq<Seq<char>>>)
    requires
        rows_are_follow(g, g.non_terminals(), rows),
    ensures
        included_on(g, family_of(g.non_terminals(), rows), follow_family(g)),
        included_on(g, follow_family(g), family_of(g.non_terminals(), rows)),
{
    let keys: Seq<Seq<char>> = g.non_terminals();
    lemma_terminals(g);
    assert forall|a: Seq<char>, t: Seq<char>|
        g.is_non_terminal(a) && #[trigger] follow_family(g)(a, t) implies family_of(keys, rows)(
        a,
        t,
    ) by {
        assert(keys.contains(a));
        let r: int = choose|r: int| 0 <= r < keys.len() && keys[r] == a;
        assert(rows[r].contains(t));
    }
}

/// Rows within the FOLLOW sets hold at most the terminals and the end marker.
pub proof fn lemma_follow_rows_capacity(g: Cfg, rows: Seq<Seq<Seq<char>>>)
    requires
        rows.len() == g.non_terminals().len(),
        rows_distinct(rows),
        rows_within_follow(g, g.non_terminals(), rows),
    ensures
        total_len(rows) <= rows.len() * (g.terminals().len() + 1),
{
    let universe: Seq<Seq<char>> = g.terminals().push(end_marker());
    lemma_terminals(g);
    lemma_follow_shaped(g);
    assert forall|r: int| 0 <= r < rows.len() implies (#[trigger] rows[r]).len()
        <= g.terminals().len() + 1 by {
        assert forall|k: int| 0 <= k < rows[r].len() implies universe.contains(
            #[trigger] rows[r][k],
        ) by {
            let t: Seq<char> = rows[r][k];
            assert(follow_family(g)(g.non_terminals()[r], t));
            if t == end_marker() {
                assert(universe[g.terminals().len() as int] == t);
            } else {
                assert(g.terminals().contains(t));
                let j: int = choose|j: int| 0 <= j < g.terminals().len() && g.terminals()[j] == t;
                assert(universe[j] == t);
            }
        }
        lemma_distinct_bounded(rows[r], universe);
    }
    lemma_total_len_bound(rows, g.terminals().len() + 1);
}

impl Grammar {
    /// The FOLLOW sets of the non-terminals have been computed.
    pub open spec fn follows_ready(&self) -> bool {
        rows_are_follow(self.model(), names(self.non_terminals@), names2(self.follows@))
    }

    /// The FOLLOW sets are either not computed yet or right.
    pub open spec fn follows_valid(&self) -> bool {
        self.follows@.len() == 0 || self.follows_ready()
    }

    /// What one round of the rules yields for `symbol`, where `sets` holds
    /// what is known of the non-terminals: the end marker for the start
    /// symbol, and what each occurrence in a body contributes.
    pub fn follow_round(&self, sets: &Vec<Vec<String>>, symbol: &String) -> (found: Vec<String>)
        requires
            self.classified(),
            self.firsts_ready(),
            sets@.len() == self.non_terminals@.len(),
            rows_distinct(names2(sets@)),
        ensures
            names(found@).no_duplicates(),
            forall|t: Seq<char>| #[trigger]
                names(found@).contains(t) <==> follow_step(
                    self.model(),
                    family_of(names(self.non_terminals@), names2(sets@)),
                )(symbol@, t),
    {
        let ghost g: Cfg = self.model();
        let ghost keys: Seq<Seq<char>> = names(self.non_terminals@);
        let ghost rows: Seq<Seq<Seq<char>>> = names2(sets@);
        let ghost fam: Family = family_of(keys, rows);
        let mark: String = epsilon_mark_token();
        let mut found: Vec<String> = Vec::new();
        let total: usize = self.sides.left.len();
        let is_start: bool = total > 0 && self.sides.left[0] == *symbol;
        if is_start {
            found.push(end_marker_token());
        }
        let places: Vec<(usize, usize)> = self.find_in_right_side(symbol);
        let mut j: usize = 0;
        proof {
            lemma_terminals(g);
            assert(names2(self.productions@).len() == self.productions@.len());
            assert(g.bodies.len() == self.sides.right@.len());
            if is_start {
                assert(names(found@) =~= seq![end_marker()]);
                assert(names(found@)[0] == end_marker());
            } else {
                assert(names(found@) =~= Seq::<Seq<char>>::empty());
            }
        }
        while j < places.len()
            invariant
                j <= places@.len(),
                self.classified(),
                self.firsts_ready(),
                sets@.len() == self.non_terminals@.len(),
                rows_distinct(names2(sets@)),
                g == self.model(),
                keys == names(self.non_terminals@),
                keys.no_duplicates(),
                rows == names2(sets@),
                fam == family_of(keys, rows),
                mark@ == epsilon_mark(),
                total == self.sides.left@.len(),
                is_start == (g.left.len() > 0 && symbol@ == g.left[0]),
                self.productions@.len() == self.sides.left@.len(),
                forall|k: int|
                    0 <= k < places@.len() ==> {
                        let place: (usize, usize) = #[trigger] places@[k];
                        &&& place.0 < self.sides.right@.len()
                        &&& place.1 < g.bodies[place.0 as int].len()
                        &&& g.bodies[place.0 as int][place.1 as int] == symbol@
                    },
                forall|i: int, p: int|
                    0 <= i < self.sides.right@.len() && 0 <= p < g.bodies[i].len()
                        && #[trigger] g.bodies[i][p] == symbol@ ==> places@.contains(
                        (i as usize, p as usize),
                    ),
                names(found@).no_duplicates(),
                forall|t: Seq<char>| #[trigger]
                    names(found@).contains(t) <==> (is_start && t == end_marker()) || exists|
                        q: int,
                    |
                        0 <= q < j && follows_at(
                            g,
                            fam,
                            (#[trigger] places@[q]).0 as int,
                            places@[q].1 as int,
                            t,
                        ),
            decreases places@.len() - j,
        {
            let place: (usize, usize) = places[j];
            let i: usize = place.0;
            let p: usize = place.1;
            let ghost before: Seq<Seq<char>> = names(found@);
            let width: usize = self.productions[i].len();
            proof {
                lemma_terminals(g);
                assert(names2(self.productions@)[i as int] == names(self.productions@[i as int]@));
                assert(g.is_non_terminal(g.left[i as int]));
                assert(keys.contains(g.left[i as int]));
                assert(p < width);
            }
            let behind: Vec<String> = self.first_behind(&self.productions[i], p + 1);
            add_new(&mut found, &behind, true);
            let ghost middle: Seq<Seq<char>> = names(found@);
            let ghost vanishes: bool = names(behind@).contains(epsilon_mark());
            let ghost owner: Seq<Seq<char>> = Seq::empty();
            if has_name(&behind, &mark) {
                match position_of(&self.non_terminals, &self.sides.left[i]) {
                    Some(b) => {
                        proof {
                            assert(rows[b as int] == names(sets@[b as int]@));
                            lemma_family_row(keys, rows, b as int);
                            assert(keys[b as int] == g.left[i as int]);
                        }
                        add_new(&mut found, &sets[b], false);
                        proof {
                            assert forall|t: Seq<char>| #[trigger]
                                names(found@).contains(t) <==> middle.contains(t) || fam(
                                    g.left[i as int],
                                    t,
                                ) by {
                                assert(fam(keys[b as int], t) <==> rows[b as int].contains(t));
                            }
                        }
                    },
                    None => {
                        proof {
                            assert(false);
                        }
                    },
                }
            }
            proof {
                assert forall|t: Seq<char>| #[trigger]
                    names(found@).contains(t) <==> (is_start && t == end_marker()) || exists|
                        q: int,
                    |
                        0 <= q < j + 1 && follows_at(
                            g,
                            fam,
                            (#[trigger] places@[q]).0 as int,
                            places@[q].1 as int,
                            t,
                        ) by {
                    assert(names(behind@).contains(t) <==> first_of(g, g.bodies[i as int], p + 1, t));
                    assert(vanishes <==> first_of(g, g.bodies[i as int], p + 1, epsilon_mark()));
                    assert(middle.contains(t) <==> before.contains(t) || (names(behind@).contains(t)
                        && t != epsilon_mark()));
                    assert(names(found@).contains(t) <==> middle.contains(t) || (vanishes && fam(
                        g.left[i as int],
                        t,
                    )));
                    assert(names(found@).contains(t) <==> before.contains(t) || follows_at(
                        g,
                        fam,
                        i as int,
                        p as int,
                        t,
                    ));
                    if before.contains(t) && !(is_start && t == end_marker()) {
                        let q: int = choose|q: int|
                            0 <= q < j && follows_at(
                                g,
                                fam,
                                (#[trigger] places@[q]).0 as int,
                                places@[q].1 as int,
                                t,
                            );
                        assert(0 <= q < j + 1);
                    }
                    if follows_at(g, fam, i as int, p as int, t) {
                        assert(places@[j as int] == place);
                    }
                }
            }
            j += 1;
        }
        proof {
            assert forall|t: Seq<char>| #[trigger]
                names(found@).contains(t) <==> follow_step(g, fam)(symbol@, t) by {
                if names(found@).contains(t) && !(is_start && t == end_marker()) {
                    let q: int = choose|q: int|
                        0 <= q < j && follows_at(
                            g,
                            fam,
                            (#[trigger] places@[q]).0 as int,
                            places@[q].1 as int,
                            t,
                        );
                    let i: int = places@[q].0 as int;
                    let p: int = places@[q].1 as int;
                    assert(g.bodies[i][p] == symbol@);
                }
                if follow_step(g, fam)(symbol@, t) && !(is_start && t == end_marker()) {
                    let (i, p): (int, int) = choose|i: int, p: int|
                        0 <= i < g.bodies.len() && 0 <= p < g.bodies[i].len()
                            && #[trigger] g.bodies[i][p] == symbol@ && follows_at(g, fam, i, p, t);
                    assert(names(self.productions@[i]@) == names2(self.productions@)[i]);
                    assert(self.productions@[i]@.len() == g.bodies[i].len());
                    let width: usize = self.productions@[i].len();
                    assert(p < width && i < total);
                    let at: (usize, usize) = (i as usize, p as usize);
                    assert(places@.contains(at));
                    let q: int = choose|q: int| 0 <= q < places@.len() && places@[q] == at;
                    assert(places@[q].0 as int == i && places@[q].1 as int == p);
                }
            }
        }
        found
    }

    /// The FOLLOW set of each non-terminal: rounds over the non-terminals,
    /// until a round adds nothing.
    pub fn build_follows(&self) -> (sets: Vec<Vec<String>>)
        requires
            self.classified(),
            self.firsts_ready(),
        ensures
            rows_are_follow(self.model(), names(self.non_terminals@), names2(sets@)),
    {
        let ghost g: Cfg = self.model();
        let ghost keys: Seq<Seq<char>> = names(self.non_terminals@);
        let n: usize = self.non_terminals.len();
        let mut sets: Vec<Vec<String>> = Vec::new();
        let mut r: usize = 0;
        while r < n
            invariant
                r <= n,
                sets@.len() == r,
                forall|q: int| 0 <= q < r ==> (#[trigger] sets@[q])@.len() == 0,
            decreases n - r,
        {
            sets.push(Vec::new());
            r += 1;
        }
        let mut changed: bool = true;
        proof {
            lemma_terminals(g);
            assert(rows_distinct(names2(sets@)));
            assert(rows_within_follow(g, keys, names2(sets@)));
            lemma_follow_rows_capacity(g, names2(sets@));
        }
        while changed
            invariant
                self.classified(),
                self.firsts_ready(),
                g == self.model(),
                g.wf(),
                keys == names(self.non_terminals@),
                n == self.non_terminals@.len(),
                sets@.len() == n,
                rows_distinct(names2(sets@)),
                rows_within_follow(g, keys, names2(sets@)),
                total_len(names2(sets@)) <= n * (g.terminals().len() + 1),
                !changed ==> follow_closed(g, family_of(keys, names2(sets@))),
            decreases
                    2 * (n * (g.terminals().len() + 1) - total_len(names2(sets@))) + (if changed {
                        1int
                    } else {
                        0int
                    }),
        {
            let ghost start: Seq<Seq<Seq<char>>> = names2(sets@);
            changed = false;
            r = 0;
            while r < n
                invariant
                    r <= n,
                    self.classified(),
                    self.firsts_ready(),
                    g == self.model(),
                    g.wf(),
                    keys == names(self.non_terminals@),
                    n == self.non_terminals@.len(),
                    sets@.len() == n,
                    rows_distinct(names2(sets@)),
                    rows_within_follow(g, keys, names2(sets@)),
                    total_len(names2(sets@)) >= total_len(start),
                    changed == (total_len(names2(sets@)) > total_len(start)),
                    !changed ==> forall|q: int, t: Seq<char>|
                        0 <= q < r && #[trigger] follow_step(g, family_of(keys, names2(sets@)))(
                            keys[q],
                            t,
                        ) ==> names2(sets@)[q].contains(t),
                decreases n - r,
            {
                let found: Vec<String> = self.follow_round(&sets, &self.non_terminals[r]);
                let ghost before: Seq<Seq<Seq<char>>> = names2(sets@);
                let ghost fam: Family = family_of(keys, before);
                proof {
                    assert(before[r as int] == names(sets@[r as int]@));
                }
                let added: bool = add_new(&mut sets[r], &found, false);
                proof {
                    let after: Seq<Seq<Seq<char>>> = names2(sets@);
                    let row: Seq<Seq<char>> = names(sets@[r as int]@);
                    assert(after =~= before.update(r as int, row));
                    lemma_total_len_update(before, r as int, row);
                    assert(keys[r as int] == self.non_terminals@[r as int]@);
                    assert(rows_distinct(after));
                    // Whatever the round found belongs to the FOLLOW set.
                    assert forall|q: int, k: int|
                        0 <= q < after.len() && 0 <= k < after[q].len() implies follow_family(g)(
                        keys[q],
                        #[trigger] after[q][k],
                    ) by {
                        if q == r && k >= before[r as int].len() {
                            let t: Seq<char> = after[q][k];
                            assert(row.contains(t));
                            if before[r as int].contains(t) {
                                let j: int = choose|j: int|
                                    0 <= j < before[r as int].len() && before[r as int][j] == t;
                                assert(follow_family(g)(keys[q], before[r as int][j]));
                            } else {
                                assert(names(found@).contains(t));
                                assert(follow_step(g, fam)(keys[q], t));
                                assert(included_on(g, fam, follow_family(g))) by {
                                    assert forall|a: Seq<char>, u: Seq<char>|
                                        g.is_non_terminal(a) && #[trigger] fam(
                                            a,
                                            u,
                                        ) implies follow_family(g)(a, u) by {
                                        let z: int = choose|z: int|
                                            0 <= z < keys.len() && z < before.len()
                                                && #[trigger] keys[z] == a && before[z].contains(u);
                                        let j: int = choose|j: int|
                                            0 <= j < before[z].len() && before[z][j] == u;
                                        assert(follow_family(g)(keys[z], before[z][j]));
                                    }
                                }
                                lemma_follow_step_monotone(g, fam, follow_family(g));
                                lemma_follow_fixed_point(g);
                                assert(follow_step(g, follow_family(g))(keys[q], t));
                            }
                        } else if q == r {
                            assert(sets@[r as int]@.take(before[r as int].len() as int)[k]
                                == sets@[r as int]@[k]);
                            assert(after[q][k] == before[q][k]);
                        } else {
                            assert(after[q][k] == before[q][k]);
                        }
                    }
                    if !added && !changed {
                        assert(row =~= before[r as int]) by {
                            assert(sets@[r as int]@ =~= sets@[r as int]@.take(
                                before[r as int].len() as int,
                            ));
                        }
                        assert(after =~= before);
                        assert forall|q: int, t: Seq<char>|
                            0 <= q < r + 1 && #[trigger] follow_step(g, family_of(keys, after))(
                                keys[q],
                                t,
                            ) implies after[q].contains(t) by {
                            if q == r {
                                assert(names(found@).contains(t));
                                assert(row.contains(t));
                            }
                        }
                    }
                }
                if added {
                    changed = true;
                }
                r += 1;
            }
            proof {
                let rows: Seq<Seq<Seq<char>>> = names2(sets@);
                lemma_follow_rows_capacity(g, rows);
                if !changed {
                    let fam: Family = family_of(keys, rows);
                    lemma_terminals(g);
                    assert forall|a: Seq<char>, t: Seq<char>|
                        g.is_non_terminal(a) && #[trigger] follow_step(g, fam)(a, t) implies fam(
                        a,
                        t,
                    ) by {
                        assert(keys.contains(a));
                        let q: int = choose|q: int| 0 <= q < keys.len() && keys[q] == a;
                        assert(rows[q].contains(t));
                    }
                }
            }
        }
        proof {
            let rows: Seq<Seq<Seq<char>>> = names2(sets@);
            let fam: Family = family_of(keys, rows);
            lemma_terminals(g);
            lemma_follow_least(g, fam);
            assert forall|q: int, t: Seq<char>| 0 <= q < rows.len() implies (
            #[trigger] rows[q].contains(t) <==> follow_family(g)(keys[q], t)) by {
                assert(keys.contains(keys[q]));
                assert(g.is_non_terminal(keys[q]));
                if rows[q].contains(t) {
                    let k: int = choose|k: int| 0 <= k < rows[q].len() && rows[q][k] == t;
                    assert(follow_family(g)(keys[q], rows[q][k]));
                }
                if follow_family(g)(keys[q], t) {
                    assert(fam(keys[q], t));
                    lemma_family_row(keys, rows, q);
                }
            }
        }
        sets
    }

    /// Computes the FIRST and FOLLOW sets of the non-terminals where that was
    /// not done.
    pub fn ensure_follows(&mut self)
        requires
            old(self).classified(),
            old(self).firsts_valid(),
            old(self).follows_valid(),
        ensures
            final(self).firsts_ready(),
            final(self).follows_ready(),
            final(self).classified(),
            final(self).sides == old(self).sides,
            final(self).terminals == old(self).terminals,
            final(self).non_terminals == old(self).non_terminals,
            final(self).productions == old(self).productions,
            old(self).firsts@.len() != 0 ==> final(self).firsts == old(self).firsts,
            old(self).follows@.len() != 0 ==> final(self).follows == old(self).follows,
    {
        self.ensure_firsts();
        if self.follows.len() == 0 {
            self.follows = self.build_follows();
        }
    }

    /// FOLLOW of a symbol: every terminal that can stand directly behind it
    /// in what the start symbol derives, and the end marker `$` if it can
    /// stand at the end. The sets of the non-terminals are computed on the
    /// first call and kept; a non-terminal is answered with its kept set. The
    /// start symbol always has the end marker.
    pub fn find_follow(&mut self, non_terminal: &String) -> (found: Vec<String>)
        requires
            old(self).classified(),
            old(self).firsts_valid(),
            old(self).follows_valid(),
        ensures
            names(found@).no_duplicates(),
            forall|t: Seq<char>| #[trigger]
                names(found@).contains(t) <==> follow(old(self).model(), non_terminal@, t),
            old(self).sides.left@.len() > 0 && non_terminal@ == old(self).sides.left@[0]@
                ==> names(found@).contains(end_marker()),
            forall|r: int|
                0 <= r < final(self).non_terminals@.len() && final(self).non_terminals@[r]@
                    == non_terminal@ ==> found@ == (#[trigger] final(self).follows@[r])@,
            final(self).firsts_ready(),
            final(self).follows_ready(),
            final(self).classified(),
            final(self).sides == old(self).sides,
            final(self).terminals == old(self).terminals,
            final(self).non_terminals == old(self).non_terminals,
            final(self).productions == old(self).productions,
            old(self).firsts@.len() != 0 ==> final(self).firsts == old(self).firsts,
            old(self).follows@.len() != 0 ==> final(self).follows == old(self).follows,
    {
        self.ensure_follows();
        let ghost g: Cfg = self.model();
        let ghost keys: Seq<Seq<char>> = names(self.non_terminals@);
        let ghost rows: Seq<Seq<Seq<char>>> = names2(self.follows@);
        proof {
            lemma_terminals(g);
            lemma_follow_fixed_point(g);
        }
        let found: Vec<String> = match position_of(&self.non_terminals, non_terminal) {
            Some(r) => {
                let found: Vec<String> = copy_names(&self.follows[r]);
                proof {
                    assert(keys[r as int] == non_terminal@);
                    assert(rows[r as int] == names(found@));
                    assert forall|q: int|
                        0 <= q < self.non_terminals@.len() && self.non_terminals@[q]@
                            == non_terminal@ implies found@ == (#[trigger] self.follows@[q])@ by {
                        assert(keys[q] == keys[r as int]);
                    }
                }
                found
            },
            None => {
                let found: Vec<String> = self.follow_round(&self.follows, non_terminal);
                proof {
                    let fam: Family = family_of(keys, rows);
                    lemma_rows_are_follow(g, rows);
                    lemma_follow_step_monotone(g, fam, follow_family(g));
                    lemma_follow_step_monotone(g, follow_family(g), fam);
                    assert forall|q: int| 0 <= q < self.non_terminals@.len() implies (
                    #[trigger] self.non_terminals@[q])@ != non_terminal@ by {
                        assert(keys[q] == self.non_terminals@[q]@);
                    }
                    assert forall|t: Seq<char>| #[trigger]
                        names(found@).contains(t) <==> follow(g, non_terminal@, t) by {
                        assert(follow_step(g, fam)(non_terminal@, t) <==> follow_step(
                            g,
                            follow_family(g),
                        )(non_terminal@, t));
                    }
                }
                found
            },
        };
        proof {
            if self.sides.left@.len() > 0 && non_terminal@ == self.sides.left@[0]@ {
                assert(g.left[0] == non_terminal@);
                assert(follow_step(g, follow_family(g))(non_terminal@, end_marker()));
            }
        }
        found
    }
}

} // verus!
