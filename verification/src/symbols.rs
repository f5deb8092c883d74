//! Grammar symbols are strings; contracts speak of them through their views.

use vstd::prelude::*;

verus! {

/// The token that stands for the empty string inside a production body: `'`.
pub open spec fn epsilon() -> Seq<char> {
    seq!['\'']
}

/// The member of a FIRST set that records "derives the empty string": `' '`.
/// It contains a space, so it is never a token of a production body.
pub open spec fn epsilon_mark() -> Seq<char> {
    seq!['\'', ' ', '\'']
}

/// The end-of-input marker: `$`.
pub open spec fn end_marker() -> Seq<char> {
    seq!['$']
}

/// The views of a list of strings.
pub open spec fn names(v: Seq<String>) -> Seq<Seq<char>> {
    v.map_values(|s: String| s@)
}

/// The views of a list of lists of strings.
pub open spec fn names2(v: Seq<Vec<String>>) -> Seq<Seq<Seq<char>>> {
    v.map_values(|r: Vec<String>| names(r@))
}

pub proof fn lemma_names_push(v: Seq<String>, s: String)
    ensures
        names(v.push(s)) == names(v).push(s@),
{
    assert(names(v.push(s)) =~= names(v).push(s@));
}

pub fn epsilon_token() -> (s: String)
    ensures
        s@ == epsilon(),
{
    let s: String = "'".to_owned();
    proof {
        reveal_strlit("'");
        assert(s@ =~= epsilon());
    }
    s
}

pub fn epsilon_mark_token() -> (s: String)
    ensures
        s@ == epsilon_mark(),
{
    let s: String = "' '".to_owned();
    proof {
        reveal_strlit("' '");
        assert(s@ =~= epsilon_mark());
    }
    s
}

pub fn end_marker_token() -> (s: String)
    ensures
        s@ == end_marker(),
{
    let s: String = "$".to_owned();
    proof {
        reveal_strlit("$");
        assert(s@ =~= end_marker());
    }
    s
}

/// The position of the first string of `v` that equals `x`, if there is one.
pub fn position_of(v: &Vec<String>, x: &String) -> (r: Option<usize>)
    ensures
        match r {
            Some(i) => i < v.len() && v[i as int]@ == x@ && forall|j: int|
                0 <= j < i ==> names(v@)[j] != x@,
            None => !names(v@).contains(x@),
        },
{
    let mut i: usize = 0;
    while i < v.len()
        invariant
            i <= v.len(),
            forall|j: int| 0 <= j < i ==> names(v@)[j] != x@,
        decreases v.len() - i,
    {
        if v[i] == *x {
            return Some(i);
        }
        i += 1;
    }
    None
}

/// Whether some string of `v` equals `x`.
pub fn has_name(v: &Vec<String>, x: &String) -> (r: bool)
    ensures
        r == names(v@).contains(x@),
{
    match position_of(v, x) {
        Some(i) => {
            assert(names(v@)[i as int] == x@);
            true
        },
        None => false,
    }
}

/// A copy of a list of strings.
pub fn copy_names(v: &Vec<String>) -> (r: Vec<String>)
    ensures
        r@ == v@,
{
    let mut r: Vec<String> = Vec::new();
    let mut i: usize = 0;
    while i < v.len()
        invariant
            i <= v.len(),
            r@ == v@.take(i as int),
        decreases v.len() - i,
    {
        r.push(v[i].clone());
        assert(r@ =~= v@.take(i + 1));
        i += 1;
    }
    assert(v@.take(v.len() as int) =~= v@);
    r
}

} // verus!
