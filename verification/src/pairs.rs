//! All pairs of the elements of a list, taken from `itertools`.

use itertools::Itertools;
use vstd::prelude::*;

verus! {

/// The pairs of elements of `s` at positions `a < b`, ordered by `a` and
/// then by `b`.
pub open spec fn pairs_of(s: Seq<usize>) -> Seq<Seq<usize>>
    decreases s.len(),
{
    if s.len() < 2 {
        Seq::empty()
    } else {
        Seq::new((s.len() - 1) as nat, |k: int| seq![s[0], s[k + 1]]) + pairs_of(s.drop_first())
    }
}

/// The pair at position `k` joins two positions `a < b` of `s`.
pub proof fn lemma_pair_positions(s: Seq<usize>, k: int) -> (ab: (int, int))
    requires
        0 <= k < pairs_of(s).len(),
    ensures
        0 <= ab.0 < ab.1 < s.len(),
        pairs_of(s)[k] == seq![s[ab.0], s[ab.1]],
    decreases s.len(),
{
    let head: Seq<Seq<usize>> = Seq::new((s.len() - 1) as nat, |q: int| seq![s[0], s[q + 1]]);
    let rest: Seq<usize> = s.drop_first();
    if k < head.len() {
        assert(pairs_of(s)[k] == head[k]);
        (0, k + 1)
    } else {
        let j: int = k - head.len();
        assert(pairs_of(s)[k] == pairs_of(rest)[j]);
        let ab: (int, int) = lemma_pair_positions(rest, j);
        assert(rest[ab.0] == s[ab.0 + 1] && rest[ab.1] == s[ab.1 + 1]);
        (ab.0 + 1, ab.1 + 1)
    }
}

/// Two positions `a < b` of `s` are joined by the pair at the position that
/// is returned.
pub proof fn lemma_pair_index(s: Seq<usize>, a: int, b: int) -> (k: int)
    requires
        0 <= a < b < s.len(),
    ensures
        0 <= k < pairs_of(s).len(),
        pairs_of(s)[k] == seq![s[a], s[b]],
    decreases s.len(),
{
    let head: Seq<Seq<usize>> = Seq::new((s.len() - 1) as nat, |q: int| seq![s[0], s[q + 1]]);
    let rest: Seq<usize> = s.drop_first();
    if a == 0 {
        assert(pairs_of(s)[b - 1] == head[b - 1]);
        b - 1
    } else {
        let j: int = lemma_pair_index(rest, a - 1, b - 1);
        assert(rest[a - 1] == s[a] && rest[b - 1] == s[b]);
        assert(pairs_of(s)[head.len() + j] == pairs_of(rest)[j]);
        head.len() + j
    }
}

/// Calls `itertools::Itertools::combinations` with length 2 on the elements
/// of `items`. The contract is not proved: it states that the combinations
/// come as lists of two elements, one list for each two positions `a < b` of
/// `items`, in the order in which that iterator advances its positions
/// (`[0, 1]`, `[0, 2]`, ..., `[1, 2]`, ...).
#[verifier::external_body]
pub(crate) fn index_pairs(items: &Vec<usize>) -> (pairs: Vec<Vec<usize>>)
    ensures
        pairs@.len() == pairs_of(items@).len(),
        forall|k: int| 0 <= k < pairs@.len() ==> (#[trigger] pairs@[k])@ == pairs_of(items@)[k],
{
    items.iter().copied().combinations(2).collect()
}

} // verus!
