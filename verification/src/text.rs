//! Splitting text: a line on the separating character, a production on its arrow.

use vstd::prelude::*;
use vstd::string::StrSliceExecFns;

verus! {

/// The position of the first `c` in `s`, or the length of `s` if it has none.
pub open spec fn first_index(s: Seq<char>, c: char) -> int
    decreases s.len(),
{
    if s.len() == 0 {
        0
    } else if s[0] == c {
        0
    } else {
        1 + first_index(s.drop_first(), c)
    }
}

/// The pieces of `s` between the occurrences of `c`. There is always at least
/// one piece, and a piece may be empty.
pub open spec fn split_on(s: Seq<char>, c: char) -> Seq<Seq<char>>
    decreases s.len(),
{
    let i: int = first_index(s, c);
    if 0 <= i < s.len() {
        seq![s.take(i)] + split_on(s.skip(i + 1), c)
    } else {
        seq![s]
    }
}

/// The tokens of a line of input: none for the empty line, else the pieces
/// between single spaces.
pub open spec fn tokens_of(line: Seq<char>) -> Seq<Seq<char>> {
    if line.len() == 0 {
        Seq::empty()
    } else {
        split_on(line, ' ')
    }
}

pub proof fn lemma_first_index(s: Seq<char>, c: char, i: int)
    requires
        0 <= i <= s.len(),
        forall|j: int| 0 <= j < i ==> s[j] != c,
        i < s.len() ==> s[i] == c,
    ensures
        first_index(s, c) == i,
    decreases s.len(),
{
    if s.len() != 0 && s[0] != c {
        lemma_first_index(s.drop_first(), c, i - 1);
    }
}

pub proof fn lemma_first_index_bounds(s: Seq<char>, c: char)
    ensures
        0 <= first_index(s, c) <= s.len(),
        forall|j: int| 0 <= j < first_index(s, c) ==> s[j] != c,
        first_index(s, c) < s.len() ==> s[first_index(s, c)] == c,
    decreases s.len(),
{
    if s.len() != 0 && s[0] != c {
        let t: Seq<char> = s.drop_first();
        lemma_first_index_bounds(t, c);
        assert forall|j: int| 0 <= j < first_index(s, c) implies s[j] != c by {
            if j > 0 {
                assert(s[j] == t[j - 1]);
            }
        }
        if first_index(s, c) < s.len() {
            assert(s[first_index(s, c)] == t[first_index(t, c)]);
        }
    }
}

/// Every piece of a split is free of the separating character, and there is
/// at least one piece.
pub proof fn lemma_split_pieces(s: Seq<char>, c: char)
    ensures
        split_on(s, c).len() >= 1,
        forall|k: int| 0 <= k < split_on(s, c).len() ==> !(#[trigger] split_on(s, c)[k]).contains(c),
    decreases s.len(),
{
    let i: int = first_index(s, c);
    lemma_first_index_bounds(s, c);
    if 0 <= i < s.len() {
        let rest: Seq<Seq<char>> = split_on(s.skip(i + 1), c);
        lemma_split_pieces(s.skip(i + 1), c);
        assert forall|k: int| 0 <= k < split_on(s, c).len() implies !(#[trigger] split_on(
            s,
            c,
        )[k]).contains(c) by {
            if k == 0 {
                assert(split_on(s, c)[0] == s.take(i));
            } else {
                assert(split_on(s, c)[k] == rest[k - 1]);
            }
        }
    } else {
        assert(split_on(s, c)[0] == s);
    }
}

/// The pieces of `line` between its occurrences of `c`, in order.
pub fn split_text(line: &String, c: char) -> (pieces: Vec<String>)
    ensures
        crate::symbols::names(pieces@) == split_on(line@, c),
{
    let text: &str = line.as_str();
    let n: usize = text.unicode_len();
    let mut pieces: Vec<String> = Vec::new();
    let mut start: usize = 0;
    let mut i: usize = 0;
    proof {
        assert(line@.skip(0) =~= line@);
        assert(crate::symbols::names(pieces@) =~= Seq::<Seq<char>>::empty());
    }
    while i < n
        invariant
            text@ == line@,
            n == line@.len(),
            start <= i <= n,
            forall|j: int| start <= j < i ==> line@[j] != c,
            split_on(line@, c) == crate::symbols::names(pieces@) + split_on(
                line@.skip(start as int),
                c,
            ),
        decreases n - i,
    {
        if text.get_char(i) == c {
            let piece: String = text.substring_char(start, i).to_owned();
            proof {
                let rest: Seq<char> = line@.skip(start as int);
                lemma_first_index(rest, c, i - start);
                assert(rest.take(i - start) =~= line@.subrange(start as int, i as int));
                assert(rest.skip(i - start + 1) =~= line@.skip(i + 1));
                crate::symbols::lemma_names_push(pieces@, piece);
                assert(crate::symbols::names(pieces@).push(piece@) + split_on(
                    line@.skip(i + 1),
                    c,
                ) =~= crate::symbols::names(pieces@) + split_on(rest, c));
            }
            pieces.push(piece);
            start = i + 1;
        }
        i += 1;
    }
    let piece: String = text.substring_char(start, n).to_owned();
    proof {
        let rest: Seq<char> = line@.skip(start as int);
        lemma_first_index(rest, c, n - start);
        assert(rest =~= line@.subrange(start as int, n as int));
        crate::symbols::lemma_names_push(pieces@, piece);
        assert(crate::symbols::names(pieces@).push(piece@) =~= crate::symbols::names(pieces@)
            + split_on(rest, c));
    }
    pieces.push(piece);
    pieces
}

/// Whether the arrow ` -> ` stands in `s` at position `i`.
pub open spec fn arrow_at(s: Seq<char>, i: int) -> bool {
    &&& 0 <= i
    &&& i + 4 <= s.len()
    &&& s[i] == ' '
    &&& s[i + 1] == '-'
    &&& s[i + 2] == '>'
    &&& s[i + 3] == ' '
}

/// A production is written with exactly one arrow.
pub open spec fn is_production_text(s: Seq<char>) -> bool {
    exists|i: int| arrow_at(s, i) && forall|j: int| arrow_at(s, j) ==> j == i
}

/// Where the arrow of a production stands.
pub open spec fn arrow_position(s: Seq<char>) -> int {
    choose|i: int| arrow_at(s, i)
}

/// The text before the arrow.
pub open spec fn left_side(s: Seq<char>) -> Seq<char> {
    s.take(arrow_position(s))
}

/// The text after the arrow.
pub open spec fn right_side(s: Seq<char>) -> Seq<char> {
    s.skip(arrow_position(s) + 4)
}

/// Whether the arrow stands in `text` at position `i`.
fn arrow_here(text: &str, i: usize) -> (r: bool)
    requires
        i + 4 <= text@.len() <= usize::MAX,
    ensures
        r == arrow_at(text@, i as int),
{
    text.get_char(i) == ' ' && text.get_char(i + 1) == '-' && text.get_char(i + 2) == '>'
        && text.get_char(i + 3) == ' '
}

/// The two sides of a production, or `None` where `line` does not hold
/// exactly one arrow.
pub fn split_production(line: &String) -> (sides: Option<(String, String)>)
    ensures
        match sides {
            Some(pair) => is_production_text(line@) && pair.0@ == left_side(line@) && pair.1@
                == right_side(line@),
            None => !is_production_text(line@),
        },
{
    let text: &str = line.as_str();
    let n: usize = text.unicode_len();
    if n < 4 {
        return None;
    }
    let mut found: Option<usize> = None;
    let mut i: usize = 0;
    while i <= n - 4
        invariant
            text@ == line@,
            n == line@.len(),
            n >= 4,
            i <= n - 3,
            match found {
                Some(p) => p < i && arrow_at(line@, p as int) && forall|j: int|
                    0 <= j < i && arrow_at(line@, j) ==> j == p,
                None => forall|j: int| 0 <= j < i ==> !arrow_at(line@, j),
            },
        decreases n - i,
    {
        if arrow_here(text, i) {
            match found {
                Some(p) => {
                    assert(arrow_at(line@, p as int) && arrow_at(line@, i as int));
                    return None;
                },
                None => {
                    found = Some(i);
                },
            }
        }
        i += 1;
    }
    match found {
        Some(p) => {
            let left: String = text.substring_char(0, p).to_owned();
            let right: String = text.substring_char(p + 4, n).to_owned();
            proof {
                assert(forall|j: int| arrow_at(line@, j) ==> j == p);
                assert(arrow_position(line@) == p);
                assert(left@ =~= left_side(line@));
                assert(right@ =~= right_side(line@));
            }
            Some((left, right))
        },
        None => None,
    }
}

} // verus!
