//! Computing FIRST sets: rounds over the productions until nothing is added.

use crate::cfg::{lemma_terminals, Cfg};
use crate::first::{
    first, first_closed, first_family, first_of, first_step, included, lemma_first_fixed_point,
    lemma_first_least, lemma_first_shaped, lemma_first_step_monotone,
    lemma_sequence_first_monotone, sequence_first, symbol_first, Family,
};
use crate::grammar::{lemma_mark_is_no_symbol, Grammar};
use crate::sets::{
    add_new, family_of, lemma_distinct_bounded, lemma_family_row, lemma_total_len_bound,
    lemma_total_len_update, rows_distinct, total_len,
};
use crate::symbols::{
    copy_names, epsilon, epsilon_mark, epsilon_mark_token, epsilon_token, has_name,
    lemma_names_push, names, names2, position_of,
};
use vstd::prelude::*;

verus! {

/// Every member of every row belongs to the FIRST set of the row's key.
pub open spec fn rows_within_first(g: Cfg, keys: Seq<Seq<char>>, rows: Seq<Seq<Seq<char>>>) -> bool {
    forall|r: int, k: int|
        0 <= r < rows.len() && 0 <= k < rows[r].len() ==> first_family(g)(
            keys[r],
            #[trigger] rows[r][k],
        )
}

/// The rows are the FIRST sets of their keys, each symbol once.
pub open spec fn rows_are_first(g: Cfg, keys: Seq<Seq<char>>, rows: Seq<Seq<Seq<char>>>) -> bool {
    &&& rows.len() == keys.len()
    &&& rows_distinct(rows)
    &&& forall|r: int, t: Seq<char>|
        0 <= r < rows.len() ==> (#[trigger] rows[r].contains(t) <==> first_family(g)(keys[r], t))
}

/// Rows that are the FIRST sets stand for the FIRST family.
pub proof fn lemma_rows_are_first(g: Cfg, rows: Seq<Seq<Seq<char>>>)
    requires
        rows_are_first(g, g.non_terminals(), rows),
    ensures
        included(family_of(g.non_terminals(), rows), first_family(g)),
        included(first_family(g), family_of(g.non_terminals(), rows)),
{
    let keys: Seq<Seq<char>> = g.non_terminals();
    lemma_terminals(g);
    assert forall|a: Seq<char>, t: Seq<char>| #[trigger]
        first_family(g)(a, t) implies family_of(keys, rows)(a, t) by {
        lemma_first_fixed_point(g);
        assert(first_step(g, first_family(g))(a, t));
        assert(g.is_non_terminal(a));
        assert(keys.contains(a));
        let r: int = choose|r: int| 0 <= r < keys.len() && keys[r] == a;
        assert(rows[r].contains(t));
    }
}

/// Rows within the FIRST sets hold at most the terminals and the mark.
pub proof fn lemma_first_rows_capacity(g: Cfg, rows: Seq<Seq<Seq<char>>>)
    requires
        rows.len() == g.non_terminals().len(),
        rows_distinct(rows),
        rows_within_first(g, g.non_terminals(), rows),
    ensures
        total_len(rows) <= rows.len() * (g.terminals().len() + 1),
{
    let universe: Seq<Seq<char>> = g.terminals().push(epsilon_mark());
    lemma_terminals(g);
    lemma_first_shaped(g);
    assert forall|r: int| 0 <= r < rows.len() implies (#[trigger] rows[r]).len()
        <= g.terminals().len() + 1 by {
        assert forall|k: int| 0 <= k < rows[r].len() implies universe.contains(
            #[trigger] rows[r][k],
        ) by {
            let t: Seq<char> = rows[r][k];
            assert(first_family(g)(g.non_terminals()[r], t));
            if t == epsilon_mark() {
                assert(universe[g.terminals().len() as int] == t);
            } else {
                assert(g.terminals().contains(t));
                let j: int = choose|j: int| 0 <= j < g.terminals().len() && g.terminals()[j] == t;
                assert(universe[j] == t);
            }
        }
        lemma_distinct_bounded(rows[r], universe);
    }
    lemma_total_len_bound(rows, g.terminals().len() + 1);
}

impl Grammar {
    /// The FIRST sets of the non-terminals have been computed.
    pub open spec fn firsts_ready(&self) -> bool {
        rows_are_first(self.model(), names(self.non_terminals@), names2(self.firsts@))
    }

    /// The FIRST sets are either not computed yet or right.
    pub open spec fn firsts_valid(&self) -> bool {
        self.firsts@.len() == 0 || self.firsts_ready()
    }

    /// FIRST of one symbol, where `sets` holds what is known of the
    /// non-terminals.
    pub fn symbol_set(&self, sets: &Vec<Vec<String>>, symbol: &String) -> (found: Vec<String>)
        requires
            self.classified(),
            sets@.len() == self.non_terminals@.len(),
            rows_distinct(names2(sets@)),
        ensures
            names(found@).no_duplicates(),
            forall|t: Seq<char>| #[trigger]
                names(found@).contains(t) <==> symbol_first(
                    self.model(),
                    family_of(names(self.non_terminals@), names2(sets@)),
                    symbol@,
                    t,
                ),
            names(self.terminals@).contains(symbol@) ==> names(found@) == seq![symbol@],
            forall|r: int|
                0 <= r < self.non_terminals@.len() && self.non_terminals@[r]@ == symbol@ && symbol@
                    != epsilon() ==> found@ == (#[trigger] sets@[r])@,
    {
        let ghost g: Cfg = self.model();
        let ghost keys: Seq<Seq<char>> = names(self.non_terminals@);
        proof {
            lemma_terminals(g);
            assert forall|r: int| 0 <= r < self.non_terminals@.len() implies keys[r]
                == (#[trigger] self.non_terminals@[r])@ by {}
        }
        let mut found: Vec<String> = Vec::new();
        if has_name(&self.terminals, symbol) {
            found.push(symbol.clone());
            proof {
                assert(names(found@) =~= seq![symbol@]);
                assert(names(found@)[0] == symbol@);
                assert(g.is_terminal(symbol@));
                assert(!keys.contains(symbol@));
            }
            return found;
        }
        let empty_token: String = epsilon_token();
        if *symbol == empty_token {
            let mark: String = epsilon_mark_token();
            found.push(mark);
            proof {
                assert(names(found@) =~= seq![epsilon_mark()]);
                assert(names(found@)[0] == epsilon_mark());
            }
            return found;
        }
        match position_of(&self.non_terminals, symbol) {
            Some(r) => {
                let found: Vec<String> = copy_names(&sets[r]);
                proof {
                    assert(keys[r as int] == symbol@);
                    assert(names2(sets@)[r as int] == names(found@));
                    lemma_family_row(keys, names2(sets@), r as int);
                    assert forall|q: int|
                        0 <= q < self.non_terminals@.len() && self.non_terminals@[q]@
                            == symbol@ implies found@ == (#[trigger] sets@[q])@ by {
                        assert(keys[q] == keys[r as int]);
                    }
                }
                found
            },
            None => {
                proof {
                    assert(names(found@) =~= Seq::<Seq<char>>::empty());
                }
                found
            },
        }
    }

    /// FIRST of the symbols of `body` from position `from` on, where `sets`
    /// holds what is known of the non-terminals.
    pub fn sequence_set(&self, sets: &Vec<Vec<String>>, body: &Vec<String>, from: usize) -> (found:
        Vec<String>)
        requires
            self.classified(),
            sets@.len() == self.non_terminals@.len(),
            rows_distinct(names2(sets@)),
        ensures
            names(found@).no_duplicates(),
            forall|t: Seq<char>| #[trigger]
                names(found@).contains(t) <==> sequence_first(
                    self.model(),
                    family_of(names(self.non_terminals@), names2(sets@)),
                    names(body@),
                    from as int,
                    t,
                ),
    {
        let ghost g: Cfg = self.model();
        let ghost fam: Family = family_of(names(self.non_terminals@), names2(sets@));
        let ghost s: Seq<Seq<char>> = names(body@);
        let mark: String = epsilon_mark_token();
        let mut found: Vec<String> = Vec::new();
        let mut k: usize = from;
        proof {
            assert(names(found@) =~= Seq::<Seq<char>>::empty());
        }
        while k < body.len()
            invariant
                from <= k,
                self.classified(),
                sets@.len() == self.non_terminals@.len(),
                rows_distinct(names2(sets@)),
                g == self.model(),
                fam == family_of(names(self.non_terminals@), names2(sets@)),
                s == names(body@),
                mark@ == epsilon_mark(),
                names(found@).no_duplicates(),
                !names(found@).contains(epsilon_mark()),
                forall|t: Seq<char>| #[trigger]
                    sequence_first(g, fam, s, from as int, t) <==> (names(found@).contains(t)
                        || sequence_first(g, fam, s, k as int, t)),
            decreases body@.len() - k,
        {
            let one: Vec<String> = self.symbol_set(sets, &body[k]);
            let ghost before: Seq<Seq<char>> = names(found@);
            proof {
                assert(s[k as int] == body@[k as int]@);
            }
            if has_name(&one, &mark) {
                add_new(&mut found, &one, true);
                proof {
                    assert forall|t: Seq<char>| #[trigger]
                        sequence_first(g, fam, s, from as int, t) <==> (names(found@).contains(t)
                            || sequence_first(g, fam, s, k + 1, t)) by {
                        assert(names(one@).contains(t) <==> symbol_first(g, fam, s[k as int], t));
                        assert(names(one@).contains(epsilon_mark()));
                        assert(names(found@).contains(t) <==> before.contains(t) || (names(
                            one@,
                        ).contains(t) && t != epsilon_mark()));
                    }
                }
            } else {
                add_new(&mut found, &one, false);
                proof {
                    assert forall|t: Seq<char>| #[trigger]
                        names(found@).contains(t) <==> sequence_first(
                            g,
                            fam,
                            s,
                            from as int,
                            t,
                        ) by {
                        assert(names(one@).contains(t) <==> symbol_first(g, fam, s[k as int], t));
                        assert(!names(one@).contains(epsilon_mark()));
                        assert(names(found@).contains(t) <==> before.contains(t) || names(
                            one@,
                        ).contains(t));
                        assert(sequence_first(g, fam, s, from as int, t) <==> (before.contains(t)
                            || sequence_first(g, fam, s, k as int, t)));
                    }
                }
                return found;
            }
            k += 1;
        }
        proof {
            lemma_names_push(found@, mark);
            let before: Seq<Seq<char>> = names(found@);
            let after: Seq<Seq<char>> = before.push(epsilon_mark());
            assert forall|t: Seq<char>| #[trigger]
                after.contains(t) <==> sequence_first(g, fam, s, from as int, t) by {
                if before.contains(t) {
                    let j: int = choose|j: int| 0 <= j < before.len() && before[j] == t;
                    assert(after[j] == t);
                }
                if t == epsilon_mark() {
                    assert(after[before.len() as int] == t);
                }
            }
        }
        found.push(mark);
        found
    }

    /// What one round of the productions of `symbol` yields, where `sets`
    /// holds what is known of the non-terminals: the union over its
    /// productions of FIRST of the body.
    pub fn first_round(&self, sets: &Vec<Vec<String>>, symbol: &String) -> (found: Vec<String>)
        requires
            self.classified(),
            sets@.len() == self.non_terminals@.len(),
            rows_distinct(names2(sets@)),
        ensures
            names(found@).no_duplicates(),
            forall|t: Seq<char>| #[trigger]
                names(found@).contains(t) <==> first_step(
                    self.model(),
                    family_of(names(self.non_terminals@), names2(sets@)),
                )(symbol@, t),
    {
        let ghost g: Cfg = self.model();
        let ghost fam: Family = family_of(names(self.non_terminals@), names2(sets@));
        let indexes: Vec<usize> = self.get_indexes_in_non_terminals(symbol);
        let total: usize = self.sides.left.len();
        let mut found: Vec<String> = Vec::new();
        let mut j: usize = 0;
        proof {
            assert(names(found@) =~= Seq::<Seq<char>>::empty());
            assert(names2(self.productions@).len() == self.productions@.len());
            assert(g.bodies.len() == self.sides.right@.len());
        }
        while j < indexes.len()
            invariant
                j <= indexes@.len(),
                self.classified(),
                sets@.len() == self.non_terminals@.len(),
                rows_distinct(names2(sets@)),
                g == self.model(),
                fam == family_of(names(self.non_terminals@), names2(sets@)),
                self.productions@.len() == self.sides.left@.len(),
                total == self.sides.left@.len(),
                forall|k: int|
                    0 <= k < indexes@.len() ==> (#[trigger] indexes@[k]) < self.sides.left@.len()
                        && self.sides.left@[indexes@[k] as int]@ == symbol@,
                forall|i: int|
                    0 <= i < self.sides.left@.len() && (#[trigger] self.sides.left@[i])@
                        == symbol@ ==> indexes@.contains(i as usize),
                names(found@).no_duplicates(),
                forall|t: Seq<char>| #[trigger]
                    names(found@).contains(t) <==> exists|q: int|
                        0 <= q < j && sequence_first(
                            g,
                            fam,
                            g.bodies[(#[trigger] indexes@[q]) as int],
                            0,
                            t,
                        ),
            decreases indexes@.len() - j,
        {
            let i: usize = indexes[j];
            let one: Vec<String> = self.sequence_set(sets, &self.productions[i], 0);
            let ghost before: Seq<Seq<char>> = names(found@);
            proof {
                assert(names2(self.productions@)[i as int] == names(self.productions@[i as int]@));
            }
            add_new(&mut found, &one, false);
            proof {
                assert forall|t: Seq<char>| #[trigger]
                    names(found@).contains(t) <==> exists|q: int|
                        0 <= q < j + 1 && sequence_first(
                            g,
                            fam,
                            g.bodies[(#[trigger] indexes@[q]) as int],
                            0,
                            t,
                        ) by {
                    assert(names(one@).contains(t) <==> sequence_first(g, fam, g.bodies[i as int], 0, t));
                    assert(names(found@).contains(t) <==> before.contains(t) || names(
                        one@,
                    ).contains(t));
                    if before.contains(t) {
                        let q: int = choose|q: int|
                            0 <= q < j && sequence_first(
                                g,
                                fam,
                                g.bodies[(#[trigger] indexes@[q]) as int],
                                0,
                                t,
                            );
                        assert(0 <= q < j + 1);
                    }
                    if names(one@).contains(t) {
                        assert(indexes@[j as int] == i);
                    }
                }
            }
            j += 1;
        }
        proof {
            assert forall|t: Seq<char>| #[trigger]
                names(found@).contains(t) <==> first_step(g, fam)(symbol@, t) by {
                if names(found@).contains(t) {
                    let q: int = choose|q: int|
                        0 <= q < j && sequence_first(
                            g,
                            fam,
                            g.bodies[(#[trigger] indexes@[q]) as int],
                            0,
                            t,
                        );
                    let i: int = indexes@[q] as int;
                    assert(g.left[i] == symbol@);
                }
                if first_step(g, fam)(symbol@, t) {
                    let i: int = choose|i: int|
                        0 <= i < g.left.len() && #[trigger] g.left[i] == symbol@
                            && sequence_first(g, fam, g.bodies[i], 0, t);
                    assert(self.sides.left@[i]@ == symbol@);
                    let at: usize = i as usize;
                    assert(indexes@.contains(at));
                    let q: int = choose|q: int| 0 <= q < indexes@.len() && indexes@[q] == at;
                    assert(indexes@[q] as int == i);
                    assert(sequence_first(g, fam, g.bodies[indexes@[q] as int], 0, t));
                }
            }
        }
        found
    }

    /// The FIRST set of each non-terminal: rounds over the non-terminals,
    /// until a round adds nothing.
    pub fn build_firsts(&self) -> (sets: Vec<Vec<String>>)
        requires
            self.classified(),
        ensures
            rows_are_first(self.model(), names(self.non_terminals@), names2(sets@)),
    {
        let ghost g: Cfg = self.model();
        let ghost keys: Seq<Seq<char>> = names(self.non_terminals@);
        let n: usize = self.non_terminals.len();
        let mut sets: Vec<Vec<String>> = Vec::new();
        let mut r: usize = 0;
        while r < n
            invariant
                r <= n,
                sets@.len() == r,
                forall|q: int| 0 <= q < r ==> (#[trigger] sets@[q])@.len() == 0,
            decreases n - r,
        {
            sets.push(Vec::new());
            r += 1;
        }
        let mut changed: bool = true;
        proof {
            lemma_terminals(g);
            assert(rows_distinct(names2(sets@)));
            assert(rows_within_first(g, keys, names2(sets@)));
            lemma_first_rows_capacity(g, names2(sets@));
        }
        while changed
            invariant
                self.classified(),
                g == self.model(),
                keys == names(self.non_terminals@),
                n == self.non_terminals@.len(),
                sets@.len() == n,
                rows_distinct(names2(sets@)),
                rows_within_first(g, keys, names2(sets@)),
                total_len(names2(sets@)) <= n * (g.terminals().len() + 1),
                !changed ==> first_closed(g, family_of(keys, names2(sets@))),
            decreases
                    2 * (n * (g.terminals().len() + 1) - total_len(names2(sets@))) + (if changed {
                        1int
                    } else {
                        0int
                    }),
        {
            let ghost start: Seq<Seq<Seq<char>>> = names2(sets@);
            changed = false;
            r = 0;
            while r < n
                invariant
                    r <= n,
                    self.classified(),
                    g == self.model(),
                    keys == names(self.non_terminals@),
                    n == self.non_terminals@.len(),
                    sets@.len() == n,
                    rows_distinct(names2(sets@)),
                    rows_within_first(g, keys, names2(sets@)),
                    total_len(names2(sets@)) >= total_len(start),
                    changed == (total_len(names2(sets@)) > total_len(start)),
                    !changed ==> forall|q: int, t: Seq<char>|
                        0 <= q < r && #[trigger] first_step(g, family_of(keys, names2(sets@)))(
                            keys[q],
                            t,
                        ) ==> names2(sets@)[q].contains(t),
                decreases n - r,
            {
                let found: Vec<String> = self.first_round(&sets, &self.non_terminals[r]);
                let ghost before: Seq<Seq<Seq<char>>> = names2(sets@);
                let ghost fam: Family = family_of(keys, before);
                proof {
                    assert(before[r as int] == names(sets@[r as int]@));
                }
                let added: bool = add_new(&mut sets[r], &found, false);
                proof {
                    let after: Seq<Seq<Seq<char>>> = names2(sets@);
                    let row: Seq<Seq<char>> = names(sets@[r as int]@);
                    assert(after =~= before.update(r as int, row));
                    lemma_total_len_update(before, r as int, row);
                    assert(keys[r as int] == self.non_terminals@[r as int]@);
                    assert(rows_distinct(after));
                    // Whatever the round found belongs to the FIRST set.
                    assert forall|q: int, k: int|
                        0 <= q < after.len() && 0 <= k < after[q].len() implies first_family(g)(
                        keys[q],
                        #[trigger] after[q][k],
                    ) by {
                        if q == r && k >= before[r as int].len() {
                            let t: Seq<char> = after[q][k];
                            assert(row.contains(t));
                            if before[r as int].contains(t) {
                                let j: int = choose|j: int|
                                    0 <= j < before[r as int].len() && before[r as int][j] == t;
                                assert(first_family(g)(keys[q], before[r as int][j]));
                            } else {
                                assert(names(found@).contains(t));
                                assert(first_step(g, fam)(keys[q], t));
                                assert(included(fam, first_family(g))) by {
                                    assert forall|a: Seq<char>, u: Seq<char>| #[trigger]
                                        fam(a, u) implies first_family(g)(a, u) by {
                                        let z: int = choose|z: int|
                                            0 <= z < keys.len() && z < before.len()
                                                && #[trigger] keys[z] == a && before[z].contains(u);
                                        let j: int = choose|j: int|
                                            0 <= j < before[z].len() && before[z][j] == u;
                                        assert(first_family(g)(keys[z], before[z][j]));
                                    }
                                }
                                lemma_first_step_monotone(g, fam, first_family(g));
                                lemma_first_fixed_point(g);
                                assert(first_step(g, first_family(g))(keys[q], t));
                            }
                        } else if q == r {
                            assert(sets@[r as int]@.take(before[r as int].len() as int)[k]
                                == sets@[r as int]@[k]);
                            assert(after[q][k] == before[q][k]);
                        } else {
                            assert(after[q][k] == before[q][k]);
                        }
                    }
                    if !added && !changed {
                        assert(row =~= before[r as int]) by {
                            assert(sets@[r as int]@ =~= sets@[r as int]@.take(
                                before[r as int].len() as int,
                            ));
                        }
                        assert(after =~= before);
                        assert forall|q: int, t: Seq<char>|
                            0 <= q < r + 1 && #[trigger] first_step(g, family_of(keys, after))(
                                keys[q],
                                t,
                            ) implies after[q].contains(t) by {
                            if q == r {
                                assert(names(found@).contains(t));
                                assert(row.contains(t));
                            }
                        }
                    }
                }
                if added {
                    changed = true;
                }
                r += 1;
            }
            proof {
                let rows: Seq<Seq<Seq<char>>> = names2(sets@);
                lemma_first_rows_capacity(g, rows);
                if !changed {
                    let fam: Family = family_of(keys, rows);
                    lemma_terminals(g);
                    assert forall|a: Seq<char>, t: Seq<char>| #[trigger]
                        first_step(g, fam)(a, t) implies fam(a, t) by {
                        assert(g.is_non_terminal(a));
                        assert(keys.contains(a));
                        let q: int = choose|q: int| 0 <= q < keys.len() && keys[q] == a;
                        assert(rows[q].contains(t));
                    }
                }
            }
        }
        proof {
            let rows: Seq<Seq<Seq<char>>> = names2(sets@);
            let fam: Family = family_of(keys, rows);
            lemma_first_least(g, fam);
            assert forall|q: int, t: Seq<char>| 0 <= q < rows.len() implies (
            #[trigger] rows[q].contains(t) <==> first_family(g)(keys[q], t)) by {
                if rows[q].contains(t) {
                    let k: int = choose|k: int| 0 <= k < rows[q].len() && rows[q][k] == t;
                    assert(first_family(g)(keys[q], rows[q][k]));
                }
                if first_family(g)(keys[q], t) {
                    assert(fam(keys[q], t));
                    lemma_family_row(keys, rows, q);
                }
            }
        }
        sets
    }

    /// Computes the FIRST sets of the non-terminals where that was not done.
    pub fn ensure_firsts(&mut self)
        requires
            old(self).classified(),
            old(self).firsts_valid(),
        ensures
            final(self).firsts_ready(),
            final(self).classified(),
            final(self).sides == old(self).sides,
            final(self).terminals == old(self).terminals,
            final(self).non_terminals == old(self).non_terminals,
            final(self).follows == old(self).follows,
            final(self).productions == old(self).productions,
            old(self).firsts@.len() != 0 ==> final(self).firsts == old(self).firsts,
    {
        if self.firsts.len() == 0 {
            self.firsts = self.build_firsts();
        }
    }

    /// FIRST of one symbol. A terminal is answered with itself, and nothing
    /// is computed for it. The empty-string token is answered with the mark
    /// `' '`, and a non-terminal with its kept set: every terminal that one of
    /// its derivations begins with, and the mark if it can vanish. For a
    /// symbol that is no terminal the sets of the non-terminals are computed
    /// where they were not; they are kept and never change afterwards.
    pub fn find_single_first(&mut self, non_terminal: &String) -> (found: Vec<String>)
        requires
            old(self).classified(),
            old(self).firsts_valid(),
        ensures
            names(found@).no_duplicates(),
            forall|t: Seq<char>| #[trigger]
                names(found@).contains(t) <==> first(old(self).model(), non_terminal@, t),
            names(old(self).terminals@).contains(non_terminal@) ==> names(found@) == seq![
                non_terminal@,
            ] && final(self).firsts == old(self).firsts,
            !names(old(self).terminals@).contains(non_terminal@) ==> final(self).firsts_ready(),
            forall|r: int|
                0 <= r < final(self).non_terminals@.len() && final(self).non_terminals@[r]@
                    == non_terminal@ && non_terminal@ != epsilon() ==> found@ == (
                #[trigger] final(self).firsts@[r])@,
            final(self).firsts_valid(),
            final(self).classified(),
            final(self).sides == old(self).sides,
            final(self).terminals == old(self).terminals,
            final(self).non_terminals == old(self).non_terminals,
            final(self).follows == old(self).follows,
            final(self).productions == old(self).productions,
            old(self).firsts@.len() != 0 ==> final(self).firsts == old(self).firsts,
    {
        if has_name(&self.terminals, non_terminal) {
            let mut found: Vec<String> = Vec::new();
            found.push(non_terminal.clone());
            proof {
                let g: Cfg = self.model();
                lemma_terminals(g);
                assert(names(found@) =~= seq![non_terminal@]);
                assert(names(found@)[0] == non_terminal@);
                assert(g.is_terminal(non_terminal@));
                assert forall|r: int| 0 <= r < self.non_terminals@.len() implies (
                #[trigger] self.non_terminals@[r])@ != non_terminal@ by {
                    assert(names(self.non_terminals@)[r] == self.non_terminals@[r]@);
                    assert(names(self.non_terminals@).contains(self.non_terminals@[r]@));
                }
            }
            return found;
        }
        self.ensure_firsts();
        let found: Vec<String> = self.symbol_set(&self.firsts, non_terminal);
        proof {
            let g: Cfg = self.model();
            lemma_rows_are_first(g, names2(self.firsts@));
            let fam: Family = family_of(names(self.non_terminals@), names2(self.firsts@));
            assert forall|t: Seq<char>| #[trigger]
                names(found@).contains(t) <==> first(g, non_terminal@, t) by {
                assert(fam(non_terminal@, t) <==> first_family(g)(non_terminal@, t));
            }
        }
        found
    }

    /// FIRST of the symbols of `elements` from position `from` on: what
    /// their derivations begin with, and the mark if every one of them can
    /// vanish. It needs the FIRST sets of the non-terminals to be there
    /// already.
    pub fn first_behind(&self, elements: &Vec<String>, from: usize) -> (found: Vec<String>)
        requires
            self.classified(),
            self.firsts_ready(),
        ensures
            names(found@).no_duplicates(),
            forall|t: Seq<char>| #[trigger]
                names(found@).contains(t) <==> first_of(
                    self.model(),
                    names(elements@),
                    from as int,
                    t,
                ),
    {
        let found: Vec<String> = self.sequence_set(&self.firsts, elements, from);
        proof {
            let g: Cfg = self.model();
            lemma_rows_are_first(g, names2(self.firsts@));
            let fam: Family = family_of(names(self.non_terminals@), names2(self.firsts@));
            assert forall|t: Seq<char>| #[trigger]
                names(found@).contains(t) <==> first_of(g, names(elements@), from as int, t) by {
                if sequence_first(g, fam, names(elements@), from as int, t) {
                    lemma_sequence_first_monotone(
                        g,
                        fam,
                        first_family(g),
                        names(elements@),
                        from as int,
                        t,
                    );
                }
                if first_of(g, names(elements@), from as int, t) {
                    lemma_sequence_first_monotone(
                        g,
                        first_family(g),
                        fam,
                        names(elements@),
                        from as int,
                        t,
                    );
                }
            }
        }
        found
    }

    /// FIRST of a whole sequence of symbols, such as the body of a
    /// production: FIRST of each symbol in turn, as long as all before it
    /// can vanish, and the mark if all of them can. For the empty sequence
    /// and for one that begins with a terminal nothing is computed; else the
    /// sets of the non-terminals are computed where they were not, and kept.
    pub fn find_first_production(&mut self, elements: &Vec<String>) -> (found: Vec<String>)
        requires
            old(self).classified(),
            old(self).firsts_valid(),
        ensures
            names(found@).no_duplicates(),
            forall|t: Seq<char>| #[trigger]
                names(found@).contains(t) <==> first_of(old(self).model(), names(elements@), 0, t),
            elements@.len() == 0 ==> names(found@) == seq![epsilon_mark()] && final(self).firsts
                == old(self).firsts,
            elements@.len() > 0 && names(old(self).terminals@).contains(elements@[0]@) ==> names(
                found@,
            ) == seq![elements@[0]@] && final(self).firsts == old(self).firsts,
            elements@.len() > 0 && !names(old(self).terminals@).contains(elements@[0]@)
                ==> final(self).firsts_ready(),
            final(self).firsts_valid(),
            final(self).classified(),
            final(self).sides == old(self).sides,
            final(self).terminals == old(self).terminals,
            final(self).non_terminals == old(self).non_terminals,
            final(self).follows == old(self).follows,
            final(self).productions == old(self).productions,
            old(self).firsts@.len() != 0 ==> final(self).firsts == old(self).firsts,
    {
        if elements.len() == 0 {
            let mut found: Vec<String> = Vec::new();
            found.push(epsilon_mark_token());
            proof {
                assert(names(found@) =~= seq![epsilon_mark()]);
                assert(names(found@)[0] == epsilon_mark());
            }
            return found;
        }
        if has_name(&self.terminals, &elements[0]) {
            let mut found: Vec<String> = Vec::new();
            found.push(elements[0].clone());
            proof {
                let g: Cfg = self.model();
                lemma_terminals(g);
                lemma_mark_is_no_symbol(*self);
                assert(names(found@) =~= seq![elements@[0]@]);
                assert(names(found@)[0] == elements@[0]@);
                assert(names(elements@)[0] == elements@[0]@);
                assert(g.is_terminal(elements@[0]@));
            }
            return found;
        }
        self.ensure_firsts();
        self.first_behind(elements, 0)
    }

    /// FIRST of a whole sequence of symbols, read from FIRST sets of the
    /// non-terminals that are there already.
    pub fn quick_first_production(&self, elements: &Vec<String>) -> (found: Vec<String>)
        requires
            self.classified(),
            self.firsts_ready(),
        ensures
            names(found@).no_duplicates(),
            forall|t: Seq<char>| #[trigger]
                names(found@).contains(t) <==> first_of(self.model(), names(elements@), 0, t),
    {
        self.first_behind(elements, 0)
    }
}

} // verus!
