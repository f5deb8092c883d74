//! Lists of strings used as sets: each symbol at most once, in the order in
//! which it was added.

use crate::first::Family;
use crate::symbols::{epsilon_mark, epsilon_mark_token, has_name, names};
use vstd::prelude::*;

verus! {

/// The family that a table of sets stands for: row `r` is the set of
/// `keys[r]`.
pub open spec fn family_of(keys: Seq<Seq<char>>, rows: Seq<Seq<Seq<char>>>) -> Family {
    |a: Seq<char>, t: Seq<char>|
        exists|r: int|
            0 <= r < keys.len() && r < rows.len() && #[trigger] keys[r] == a && rows[r].contains(t)
}

/// No row holds a symbol twice.
pub open spec fn rows_distinct(rows: Seq<Seq<Seq<char>>>) -> bool {
    forall|r: int| 0 <= r < rows.len() ==> (#[trigger] rows[r]).no_duplicates()
}

/// The number of symbols in all rows together.
pub open spec fn total_len(rows: Seq<Seq<Seq<char>>>) -> nat
    decreases rows.len(),
{
    if rows.len() == 0 {
        0
    } else {
        total_len(rows.drop_last()) + rows.last().len()
    }
}

pub proof fn lemma_total_len_update(rows: Seq<Seq<Seq<char>>>, r: int, row: Seq<Seq<char>>)
    requires
        0 <= r < rows.len(),
    ensures
        total_len(rows.update(r, row)) == total_len(rows) - rows[r].len() + row.len(),
    decreases rows.len(),
{
    let updated: Seq<Seq<Seq<char>>> = rows.update(r, row);
    if r == rows.len() - 1 {
        assert(updated.drop_last() =~= rows.drop_last());
    } else {
        lemma_total_len_update(rows.drop_last(), r, row);
        assert(updated.drop_last() =~= rows.drop_last().update(r, row));
    }
}

pub proof fn lemma_total_len_bound(rows: Seq<Seq<Seq<char>>>, bound: nat)
    requires
        forall|r: int| 0 <= r < rows.len() ==> (#[trigger] rows[r]).len() <= bound,
    ensures
        total_len(rows) <= rows.len() * bound,
    decreases rows.len(),
{
    if rows.len() > 0 {
        let rest: Seq<Seq<Seq<char>>> = rows.drop_last();
        assert forall|r: int| 0 <= r < rest.len() implies (#[trigger] rest[r]).len() <= bound by {
            assert(rest[r] == rows[r]);
        }
        lemma_total_len_bound(rest, bound);
        assert(rows.last() == rows[rows.len() - 1]);
        assert(rows.len() * bound == rest.len() * bound + bound) by (nonlinear_arith)
            requires
                rows.len() == rest.len() + 1,
        ;
    }
}

/// With keys that do not repeat, the set of a key is its row.
pub proof fn lemma_family_row(keys: Seq<Seq<char>>, rows: Seq<Seq<Seq<char>>>, r: int)
    requires
        keys.no_duplicates(),
        0 <= r < keys.len(),
        keys.len() == rows.len(),
    ensures
        forall|t: Seq<char>| family_of(keys, rows)(keys[r], t) <==> #[trigger] rows[r].contains(t),
{
}

/// A list without repetition whose elements all come from `universe` is no
/// longer than `universe`.
pub proof fn lemma_distinct_bounded(s: Seq<Seq<char>>, universe: Seq<Seq<char>>)
    requires
        s.no_duplicates(),
        forall|k: int| 0 <= k < s.len() ==> universe.contains(#[trigger] s[k]),
    ensures
        s.len() <= universe.len(),
{
    s.unique_seq_to_set();
    universe.lemma_cardinality_of_set();
    vstd::seq_lib::seq_to_set_is_finite(universe);
    assert(s.to_set().subset_of(universe.to_set())) by {
        assert forall|x: Seq<char>| s.to_set().contains(x) implies universe.to_set().contains(
            x,
        ) by {
            let k: int = choose|k: int| 0 <= k < s.len() && s[k] == x;
            assert(universe.contains(s[k]));
        }
    }
    vstd::set_lib::lemma_len_subset(s.to_set(), universe.to_set());
}

/// Adds to `target` each symbol of `items` that it does not hold yet, in
/// order; with `skip_mark`, the mark is left out. Tells whether anything was
/// added.
pub fn add_new(target: &mut Vec<String>, items: &Vec<String>, skip_mark: bool) -> (added: bool)
    requires
        names(old(target)@).no_duplicates(),
    ensures
        names(final(target)@).no_duplicates(),
        final(target)@.len() >= old(target)@.len(),
        final(target)@.take(old(target)@.len() as int) == old(target)@,
        forall|t: Seq<char>| #[trigger]
            names(final(target)@).contains(t) <==> names(old(target)@).contains(t) || (names(
                items@,
            ).contains(t) && !(skip_mark && t == epsilon_mark())),
        added == (final(target)@.len() > old(target)@.len()),
{
    let mark: String = epsilon_mark_token();
    let mut added: bool = false;
    let mut k: usize = 0;
    proof {
        assert(target@.take(target@.len() as int) =~= target@);
    }
    while k < items.len()
        invariant
            k <= items.len(),
            mark@ == epsilon_mark(),
            names(target@).no_duplicates(),
            target@.len() >= old(target)@.len(),
            target@.take(old(target)@.len() as int) == old(target)@,
            added == (target@.len() > old(target)@.len()),
            forall|t: Seq<char>| #[trigger]
                names(target@).contains(t) <==> names(old(target)@).contains(t) || (names(
                    items@.take(k as int),
                ).contains(t) && !(skip_mark && t == epsilon_mark())),
        decreases items.len() - k,
    {
        let item: &String = &items[k];
        let ghost before: Seq<String> = target@;
        let wanted: bool = !(skip_mark && *item == mark) && !has_name(target, item);
        if wanted {
            target.push(item.clone());
            added = true;
            proof {
                crate::symbols::lemma_names_push(before, *item);
                assert(target@.take(old(target)@.len() as int) =~= before.take(
                    old(target)@.len() as int,
                ));
            }
        }
        proof {
            let seen: Seq<Seq<char>> = names(items@.take(k as int));
            let next: Seq<Seq<char>> = names(items@.take(k + 1));
            assert(next =~= seen.push(item@));
            assert forall|t: Seq<char>| #[trigger]
                names(target@).contains(t) <==> names(old(target)@).contains(t) || (next.contains(
                    t,
                ) && !(skip_mark && t == epsilon_mark())) by {
                assert(next.contains(t) <==> seen.contains(t) || t == item@) by {
                    if seen.contains(t) {
                        let j: int = choose|j: int| 0 <= j < seen.len() && seen[j] == t;
                        assert(next[j] == t);
                    }
                    if t == item@ {
                        assert(next[k as int] == t);
                    }
                }
                if wanted {
                    assert(names(target@) == names(before).push(item@));
                    assert(names(target@).contains(t) <==> names(before).contains(t) || t
                        == item@) by {
                        if names(before).contains(t) {
                            let j: int = choose|j: int|
                                0 <= j < names(before).len() && names(before)[j] == t;
                            assert(names(target@)[j] == t);
                        }
                        if t == item@ {
                            assert(names(target@)[before.len() as int] == t);
                        }
                    }
                }
            }
        }
        k += 1;
    }
    proof {
        assert(items@.take(items@.len() as int) =~= items@);
    }
    added
}

} // verus!
