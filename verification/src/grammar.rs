//! A grammar given as a list of productions: its symbols, its FIRST and FOLLOW
//! sets, and the LL(1) test.

use crate::cfg::{distinct, lemma_distinct_push, terminal_like, terminals_among, Cfg};
use crate::symbols::{
    copy_names, epsilon, epsilon_mark, epsilon_token, has_name, lemma_names_push, names, names2,
};
use crate::text::{
    is_production_text, left_side, lemma_split_pieces, right_side, split_on, split_production,
    split_text,
};
use vstd::prelude::*;

verus! {

/// Both sides of the productions, as they were written: `left[i]` is the
/// symbol before the arrow of production `i`, `right[i]` the text behind it.
pub struct Sides {
    pub left: Vec<String>,
    pub right: Vec<String>,
}

/// A grammar with what has been worked out about it so far.
pub struct Grammar {
    /// The terminals in order of first appearance.
    pub terminals: Vec<String>,
    /// The non-terminals in order of first appearance; the first is the start
    /// symbol.
    pub non_terminals: Vec<String>,
    pub sides: Sides,
    /// The FIRST set of each non-terminal, in the order of `non_terminals`;
    /// empty until FIRST sets are asked for.
    pub firsts: Vec<Vec<String>>,
    /// The FOLLOW set of each non-terminal, in the order of `non_terminals`;
    /// empty until FOLLOW sets are asked for.
    pub follows: Vec<Vec<String>>,
    /// The body of each production as its symbols; empty until the
    /// productions are indexed.
    pub productions: Vec<Vec<String>>,
}

/// The symbols written in the text of a right-hand side.
pub open spec fn body_of(side: Seq<char>) -> Seq<Seq<char>> {
    split_on(side, ' ')
}

/// The symbols of each right-hand side.
pub open spec fn bodies_of(right: Seq<String>) -> Seq<Seq<Seq<char>>> {
    right.map_values(|side: String| body_of(side@))
}

/// The lexicographic order on positions in the bodies.
pub open spec fn position_before(a: (usize, usize), b: (usize, usize)) -> bool {
    a.0 < b.0 || (a.0 == b.0 && a.1 < b.1)
}

impl Grammar {
    /// The grammar that the two sides spell out.
    pub open spec fn model(&self) -> Cfg {
        Cfg { left: names(self.sides.left@), bodies: bodies_of(self.sides.right@) }
    }

    /// The three build steps have run: the symbols are classified and the
    /// productions indexed, all in agreement with the two sides.
    pub open spec fn classified(&self) -> bool {
        &&& self.sides.left@.len() == self.sides.right@.len()
        &&& names(self.non_terminals@) == self.model().non_terminals()
        &&& names(self.terminals@) == self.model().terminals()
        &&& names2(self.productions@) == self.model().bodies
    }

    /// Splits each production at its arrow. Nothing is classified yet.
    pub fn new(productions: Vec<String>) -> (grammar: Self)
        requires
            forall|i: int|
                0 <= i < productions@.len() ==> is_production_text((#[trigger] productions@[i])@),
        ensures
            grammar.sides.left@.len() == productions@.len(),
            grammar.sides.right@.len() == productions@.len(),
            forall|i: int|
                0 <= i < productions@.len() ==> (#[trigger] grammar.sides.left@[i])@ == left_side(
                    productions@[i]@,
                ),
            forall|i: int|
                0 <= i < productions@.len() ==> (#[trigger] grammar.sides.right@[i])@
                    == right_side(productions@[i]@),
            grammar.terminals@.len() == 0,
            grammar.non_terminals@.len() == 0,
            grammar.firsts@.len() == 0,
            grammar.follows@.len() == 0,
            grammar.productions@.len() == 0,
    {
        let mut left: Vec<String> = Vec::new();
        let mut right: Vec<String> = Vec::new();
        let mut i: usize = 0;
        while i < productions.len()
            invariant
                i <= productions@.len(),
                left@.len() == i,
                right@.len() == i,
                forall|j: int|
                    0 <= j < productions@.len() ==> is_production_text(
                        (#[trigger] productions@[j])@,
                    ),
                forall|j: int|
                    0 <= j < i ==> (#[trigger] left@[j])@ == left_side(productions@[j]@),
                forall|j: int|
                    0 <= j < i ==> (#[trigger] right@[j])@ == right_side(productions@[j]@),
            decreases productions@.len() - i,
        {
            assert(is_production_text(productions@[i as int]@));
            match split_production(&productions[i]) {
                Some(pair) => {
                    left.push(pair.0);
                    right.push(pair.1);
                },
                None => {},
            }
            i += 1;
        }
        Grammar {
            terminals: Vec::new(),
            non_terminals: Vec::new(),
            sides: Sides { left, right },
            firsts: Vec::new(),
            follows: Vec::new(),
            productions: Vec::new(),
        }
    }

    /// Finds the non-terminals: the distinct left-hand sides, in order of
    /// first appearance.
    pub fn find_non_terminals(&mut self)
        ensures
            names(final(self).non_terminals@) == distinct(names(old(self).sides.left@)),
            final(self).sides == old(self).sides,
            final(self).terminals == old(self).terminals,
            final(self).firsts == old(self).firsts,
            final(self).follows == old(self).follows,
            final(self).productions == old(self).productions,
    {
        let mut found: Vec<String> = Vec::new();
        let mut i: usize = 0;
        proof {
            assert(names(self.sides.left@.take(0)) =~= Seq::<Seq<char>>::empty());
            assert(names(found@) =~= Seq::<Seq<char>>::empty());
        }
        while i < self.sides.left.len()
            invariant
                i <= self.sides.left@.len(),
                names(found@) == distinct(names(self.sides.left@.take(i as int))),
            decreases self.sides.left@.len() - i,
        {
            let element: &String = &self.sides.left[i];
            proof {
                let seen: Seq<String> = self.sides.left@.take(i as int);
                assert(self.sides.left@.take(i + 1) =~= seen.push(*element));
                lemma_names_push(seen, *element);
                lemma_distinct_push(names(seen), element@);
                lemma_names_push(found@, *element);
            }
            if !has_name(&found, element) {
                found.push(element.clone());
            }
            i += 1;
        }
        proof {
            assert(self.sides.left@.take(self.sides.left@.len() as int) =~= self.sides.left@);
        }
        self.non_terminals = found;
    }

    /// Finds the terminals: the symbols of the right-hand sides that are
    /// neither the empty-string token nor one of the non-terminals found so
    /// far, in order of first appearance. No terminal is a non-terminal.
    pub fn find_terminals(&mut self)
        ensures
            names(final(self).terminals@) == terminals_among(
                bodies_of(old(self).sides.right@),
                names(old(self).non_terminals@),
            ),
            forall|i: int, j: int|
                0 <= i < final(self).terminals@.len() && 0 <= j < final(self).non_terminals@.len()
                    ==> (#[trigger] final(self).terminals@[i])@ != (
                #[trigger] final(self).non_terminals@[j])@,
            final(self).sides == old(self).sides,
            final(self).non_terminals == old(self).non_terminals,
            final(self).firsts == old(self).firsts,
            final(self).follows == old(self).follows,
            final(self).productions == old(self).productions,
    {
        let empty_token: String = epsilon_token();
        let mut found: Vec<String> = Vec::new();
        let ghost excluded: Seq<Seq<char>> = names(self.non_terminals@);
        let ghost pred: spec_fn(Seq<char>) -> bool = terminal_like(excluded);
        let ghost all: Seq<Seq<Seq<char>>> = bodies_of(self.sides.right@);
        let mut i: usize = 0;
        proof {
            assert(all.take(0) =~= Seq::<Seq<Seq<char>>>::empty());
            assert(all.take(0).flatten() =~= Seq::<Seq<char>>::empty());
            assert(names(found@) =~= Seq::<Seq<char>>::empty());
            assert(Seq::<Seq<char>>::empty().filter(pred) =~= Seq::<Seq<char>>::empty()) by {
                Seq::<Seq<char>>::empty().lemma_filter_len(pred);
            }
        }
        while i < self.sides.right.len()
            invariant
                i <= self.sides.right@.len(),
                empty_token@ == epsilon(),
                excluded == names(self.non_terminals@),
                pred == terminal_like(excluded),
                all == bodies_of(self.sides.right@),
                names(found@) == distinct(all.take(i as int).flatten().filter(pred)),
            decreases self.sides.right@.len() - i,
        {
            let body: Vec<String> = split_text(&self.sides.right[i], ' ');
            let ghost before: Seq<Seq<char>> = all.take(i as int).flatten();
            let mut k: usize = 0;
            proof {
                assert(names(body@) == all[i as int]);
                assert(names(body@).take(0) =~= Seq::<Seq<char>>::empty());
                assert(before + names(body@).take(0) =~= before);
            }
            while k < body.len()
                invariant
                    k <= body@.len(),
                    empty_token@ == epsilon(),
                    excluded == names(self.non_terminals@),
                    pred == terminal_like(excluded),
                    names(found@) == distinct((before + names(body@).take(k as int)).filter(pred)),
                decreases body@.len() - k,
            {
                let element: &String = &body[k];
                proof {
                    let seen: Seq<Seq<char>> = before + names(body@).take(k as int);
                    assert(before + names(body@).take(k + 1) =~= seen.push(element@));
                    seen.lemma_filter_push(element@, pred);
                    lemma_distinct_push(seen.filter(pred), element@);
                    lemma_names_push(found@, *element);
                }
                if *element != empty_token && !has_name(&self.non_terminals, element) && !has_name(
                    &found,
                    element,
                ) {
                    found.push(element.clone());
                }
                k += 1;
            }
            proof {
                assert(names(body@).take(body@.len() as int) =~= names(body@));
                assert(all.take(i + 1) =~= all.take(i as int).push(all[i as int]));
                all.take(i as int).lemma_flatten_push(all[i as int]);
            }
            i += 1;
        }
        proof {
            assert(all.take(self.sides.right@.len() as int) =~= all);
            let flat: Seq<Seq<char>> = all.flatten().filter(pred);
            crate::cfg::lemma_distinct(flat);
            assert forall|a: int, b: int|
                0 <= a < found@.len() && 0 <= b < self.non_terminals@.len() implies (
            #[trigger] found@[a])@ != (#[trigger] self.non_terminals@[b])@ by {
                let x: Seq<char> = found@[a]@;
                assert(names(found@)[a] == x);
                assert(distinct(flat).contains(x));
                assert(flat.contains(x));
                let j: int = choose|j: int| 0 <= j < flat.len() && flat[j] == x;
                all.flatten().lemma_filter_pred(pred, j);
                if x == self.non_terminals@[b]@ {
                    assert(excluded[b] == x);
                }
            }
        }
        self.terminals = found;
    }

    /// Indexes the productions: the body of each as its symbols.
    pub fn find_all_productions(&mut self)
        ensures
            names2(final(self).productions@) == bodies_of(old(self).sides.right@),
            final(self).sides == old(self).sides,
            final(self).terminals == old(self).terminals,
            final(self).non_terminals == old(self).non_terminals,
            final(self).firsts == old(self).firsts,
            final(self).follows == old(self).follows,
    {
        let mut bodies: Vec<Vec<String>> = Vec::new();
        let mut i: usize = 0;
        while i < self.sides.right.len()
            invariant
                i <= self.sides.right@.len(),
                bodies@.len() == i,
                forall|j: int|
                    0 <= j < i ==> names((#[trigger] bodies@[j])@) == body_of(
                        self.sides.right@[j]@,
                    ),
            decreases self.sides.right@.len() - i,
        {
            let body: Vec<String> = self.side_to_prod(&self.sides.right[i]);
            bodies.push(body);
            i += 1;
        }
        proof {
            assert(names2(bodies@) =~= bodies_of(self.sides.right@));
        }
        self.productions = bodies;
    }

    /// The symbols written in `side`: its pieces between single spaces.
    pub fn side_to_prod(&self, side: &String) -> (production: Vec<String>)
        ensures
            names(production@) == body_of(side@),
    {
        split_text(side, ' ')
    }

    /// The body of production `index`. The productions are indexed first
    /// where they were not, so that no body is split twice.
    pub fn get_production(&mut self, index: usize) -> (production: Vec<String>)
        requires
            index < old(self).sides.right@.len(),
            old(self).productions@.len() == 0 || names2(old(self).productions@) == bodies_of(
                old(self).sides.right@,
            ),
        ensures
            names(production@) == body_of(old(self).sides.right@[index as int]@),
            names2(final(self).productions@) == bodies_of(old(self).sides.right@),
            old(self).productions@.len() != 0 ==> final(self).productions == old(self).productions,
            final(self).sides == old(self).sides,
            final(self).terminals == old(self).terminals,
            final(self).non_terminals == old(self).non_terminals,
            final(self).firsts == old(self).firsts,
            final(self).follows == old(self).follows,
    {
        if self.productions.len() == 0 {
            self.find_all_productions();
        }
        proof {
            assert(names2(self.productions@).len() == self.productions@.len());
            assert(bodies_of(self.sides.right@).len() == self.sides.right@.len());
            assert(names2(self.productions@)[index as int] == bodies_of(
                self.sides.right@,
            )[index as int]);
        }
        copy_names(&self.productions[index])
    }

    /// The productions of `non_terminal`: the positions of its occurrences
    /// among the left-hand sides, in increasing order.
    pub fn get_indexes_in_non_terminals(&self, non_terminal: &String) -> (indexes: Vec<usize>)
        ensures
            forall|k: int|
                0 <= k < indexes@.len() ==> (#[trigger] indexes@[k]) < self.sides.left@.len()
                    && self.sides.left@[indexes@[k] as int]@ == non_terminal@,
            forall|j: int, k: int| 0 <= j < k < indexes@.len() ==> indexes@[j] < indexes@[k],
            forall|i: int|
                0 <= i < self.sides.left@.len() && (#[trigger] self.sides.left@[i])@
                    == non_terminal@ ==> indexes@.contains(i as usize),
    {
        let mut indexes: Vec<usize> = Vec::new();
        let mut i: usize = 0;
        while i < self.sides.left.len()
            invariant
                i <= self.sides.left@.len(),
                forall|k: int|
                    0 <= k < indexes@.len() ==> (#[trigger] indexes@[k]) < i
                        && self.sides.left@[indexes@[k] as int]@ == non_terminal@,
                forall|j: int, k: int| 0 <= j < k < indexes@.len() ==> indexes@[j] < indexes@[k],
                forall|j: int|
                    0 <= j < i && (#[trigger] self.sides.left@[j])@ == non_terminal@
                        ==> indexes@.contains(j as usize),
            decreases self.sides.left@.len() - i,
        {
            if self.sides.left[i] == *non_terminal {
                let ghost before: Seq<usize> = indexes@;
                indexes.push(i);
                proof {
                    assert(indexes@[before.len() as int] == i);
                    assert forall|j: int|
                        0 <= j < i + 1 && (#[trigger] self.sides.left@[j])@
                            == non_terminal@ implies indexes@.contains(j as usize) by {
                        if j < i {
                            let k: int = choose|k: int|
                                0 <= k < before.len() && before[k] == j as usize;
                            assert(indexes@[k] == j as usize);
                        }
                    }
                }
            }
            i += 1;
        }
        indexes
    }

    /// The occurrences of `non_terminal` in the bodies: each as the number of
    /// its production and its position in the body, in reading order.
    pub fn find_in_right_side(&self, non_terminal: &String) -> (places: Vec<(usize, usize)>)
        ensures
            forall|k: int|
                0 <= k < places@.len() ==> {
                    let place: (usize, usize) = #[trigger] places@[k];
                    &&& place.0 < self.sides.right@.len()
                    &&& place.1 < self.model().bodies[place.0 as int].len()
                    &&& self.model().bodies[place.0 as int][place.1 as int] == non_terminal@
                },
            forall|j: int, k: int|
                0 <= j < k < places@.len() ==> position_before(places@[j], places@[k]),
            forall|i: int, p: int|
                0 <= i < self.sides.right@.len() && 0 <= p < self.model().bodies[i].len()
                    && #[trigger] self.model().bodies[i][p] == non_terminal@ ==> places@.contains(
                    (i as usize, p as usize),
                ),
    {
        let mut places: Vec<(usize, usize)> = Vec::new();
        let ghost all: Seq<Seq<Seq<char>>> = self.model().bodies;
        let mut i: usize = 0;
        while i < self.sides.right.len()
            invariant
                i <= self.sides.right@.len(),
                all == self.model().bodies,
                forall|k: int|
                    0 <= k < places@.len() ==> {
                        let place: (usize, usize) = #[trigger] places@[k];
                        &&& place.0 < i
                        &&& place.1 < all[place.0 as int].len()
                        &&& all[place.0 as int][place.1 as int] == non_terminal@
                    },
                forall|j: int, k: int|
                    0 <= j < k < places@.len() ==> position_before(places@[j], places@[k]),
                forall|j: int, p: int|
                    0 <= j < i && 0 <= p < all[j].len() && #[trigger] all[j][p] == non_terminal@
                        ==> places@.contains((j as usize, p as usize)),
            decreases self.sides.right@.len() - i,
        {
            let body: Vec<String> = self.side_to_prod(&self.sides.right[i]);
            let mut p: usize = 0;
            proof {
                assert(names(body@) == all[i as int]);
            }
            while p < body.len()
                invariant
                    i < self.sides.right@.len(),
                    p <= body@.len(),
                    all == self.model().bodies,
                    names(body@) == all[i as int],
                    forall|k: int|
                        0 <= k < places@.len() ==> {
                            let place: (usize, usize) = #[trigger] places@[k];
                            &&& (place.0 < i || (place.0 == i && place.1 < p))
                            &&& place.0 < self.sides.right@.len()
                            &&& place.1 < all[place.0 as int].len()
                            &&& all[place.0 as int][place.1 as int] == non_terminal@
                        },
                    forall|j: int, k: int|
                        0 <= j < k < places@.len() ==> position_before(places@[j], places@[k]),
                    forall|j: int, q: int|
                        0 <= j < i && 0 <= q < all[j].len() && #[trigger] all[j][q]
                            == non_terminal@ ==> places@.contains((j as usize, q as usize)),
                    forall|q: int|
                        0 <= q < p && #[trigger] all[i as int][q] == non_terminal@
                            ==> places@.contains((i, q as usize)),
                decreases body@.len() - p,
            {
                if body[p] == *non_terminal {
                    let ghost before: Seq<(usize, usize)> = places@;
                    places.push((i, p));
                    proof {
                        assert(names(body@)[p as int] == body@[p as int]@);
                        assert(places@[before.len() as int] == (i, p));
                        assert forall|j: int, q: int|
                            0 <= j < i && 0 <= q < all[j].len() && #[trigger] all[j][q]
                                == non_terminal@ implies places@.contains(
                            (j as usize, q as usize),
                        ) by {
                            let k: int = choose|k: int|
                                0 <= k < before.len() && before[k] == (j as usize, q as usize);
                            assert(places@[k] == (j as usize, q as usize));
                        }
                        assert forall|q: int|
                            0 <= q < p + 1 && #[trigger] all[i as int][q]
                                == non_terminal@ implies places@.contains((i, q as usize)) by {
                            if q < p {
                                let k: int = choose|k: int|
                                    0 <= k < before.len() && before[k] == (i, q as usize);
                                assert(places@[k] == (i, q as usize));
                            }
                        }
                    }
                } else {
                    proof {
                        assert(names(body@)[p as int] == body@[p as int]@);
                    }
                }
                p += 1;
            }
            i += 1;
        }
        places
    }
}

/// The mark of FIRST sets is never a symbol of a body: it holds a space.
pub proof fn lemma_mark_is_no_symbol(grammar: Grammar)
    ensures
        !grammar.model().occurs(epsilon_mark()),
{
    let g: Cfg = grammar.model();
    if g.occurs(epsilon_mark()) {
        let (i, p): (int, int) = choose|i: int, p: int|
            0 <= i < g.bodies.len() && 0 <= p < g.bodies[i].len() && g.bodies[i][p]
                == epsilon_mark();
        assert(g.bodies[i] == body_of(grammar.sides.right@[i]@));
        lemma_split_pieces(grammar.sides.right@[i]@, ' ');
        assert(epsilon_mark()[1] == ' ');
        assert(epsilon_mark().contains(' '));
    }
}

} // verus!
