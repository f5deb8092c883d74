//! A measure that shrinks with every move of the parser that consumes no
//! input, as long as no non-terminal is rewritten under itself.
//!
//! The parser notes for each non-terminal whether a rewriting of it is still
//! open, that is whether symbols that came from it are still on the stack,
//! and above which height of the stack they lie.

use vstd::prelude::*;

verus! {

/// `base` to the power `e`.
pub open spec fn power(base: nat, e: nat) -> nat
    decreases e,
{
    if e == 0 {
        1
    } else {
        base * power(base, (e - 1) as nat)
    }
}

pub proof fn lemma_power_positive(base: nat, e: nat)
    requires
        base >= 1,
    ensures
        power(base, e) >= 1,
    decreases e,
{
    if e > 0 {
        lemma_power_positive(base, (e - 1) as nat);
        assert(base * power(base, (e - 1) as nat) >= 1) by (nonlinear_arith)
            requires
                base >= 1,
                power(base, (e - 1) as nat) >= 1,
        ;
    }
}

/// Whether the note `mark` stands for an open rewriting whose symbols lie at
/// height `k` or below. A note is 0 for "not open" and the height plus one
/// otherwise.
pub open spec fn counts(mark: usize, k: int) -> nat {
    if mark != 0 && mark - 1 <= k {
        1
    } else {
        0
    }
}

/// Among the first `upto` notes, the number of open rewritings whose symbols
/// begin at height `k` or below.
pub open spec fn depth_upto(open: Seq<usize>, k: int, upto: int) -> nat
    decreases upto,
{
    if upto <= 0 {
        0
    } else {
        depth_upto(open, k, upto - 1) + counts(open[upto - 1], k)
    }
}

/// The number of open rewritings under which a symbol at height `k` lies.
pub open spec fn depth(open: Seq<usize>, k: int) -> nat {
    depth_upto(open, k, open.len() as int)
}

/// The weight of the lowest `len` symbols of the stack: a symbol under `d`
/// open rewritings weighs `base` to the power of the number of notes less
/// `d`.
pub open spec fn weight_upto(open: Seq<usize>, base: nat, len: int) -> nat
    decreases len,
{
    if len <= 0 {
        0
    } else {
        weight_upto(open, base, len - 1) + power(base, (open.len() - depth(open, len - 1)) as nat)
    }
}

pub proof fn lemma_depth_bound(open: Seq<usize>, k: int, upto: int)
    requires
        upto <= open.len(),
    ensures
        depth_upto(open, k, upto) <= if upto <= 0 {
            0
        } else {
            upto
        },
    decreases upto,
{
    if upto > 0 {
        lemma_depth_bound(open, k, upto - 1);
    }
}

/// Changing one note changes the depth by what the note counts.
pub proof fn lemma_depth_update(open: Seq<usize>, x: int, mark: usize, k: int, upto: int)
    requires
        0 <= x < open.len(),
        upto <= open.len(),
    ensures
        depth_upto(open.update(x, mark), k, upto) == if x < upto {
            depth_upto(open, k, upto) - counts(open[x], k) + counts(mark, k)
        } else {
            depth_upto(open, k, upto) as int
        },
    decreases upto,
{
    if upto > 0 {
        lemma_depth_update(open, x, mark, k, upto - 1);
    }
}

/// Above the heights of all open rewritings the depth is the same.
pub proof fn lemma_depth_flat(open: Seq<usize>, low: int, high: int, upto: int)
    requires
        low <= high,
        upto <= open.len(),
        forall|y: int| 0 <= y < open.len() && open[y] != 0 ==> open[y] - 1 <= low,
    ensures
        depth_upto(open, low, upto) == depth_upto(open, high, upto),
    decreases upto,
{
    if upto > 0 {
        lemma_depth_flat(open, low, high, upto - 1);
    }
}

/// Notes that give every symbol of the lowest `len` the same depth give them
/// the same weight.
pub proof fn lemma_weight_agrees(a: Seq<usize>, b: Seq<usize>, base: nat, len: int)
    requires
        a.len() == b.len(),
        forall|k: int| 0 <= k < len ==> depth(a, k) == depth(b, k),
    ensures
        weight_upto(a, base, len) == weight_upto(b, base, len),
    decreases len,
{
    if len > 0 {
        lemma_weight_agrees(a, b, base, len - 1);
    }
}

/// Symbols of one depth weigh the same.
pub proof fn lemma_weight_run(open: Seq<usize>, base: nat, low: int, high: int, d: nat)
    requires
        0 <= low <= high,
        d <= open.len(),
        forall|k: int| low <= k < high ==> depth(open, k) == d,
    ensures
        weight_upto(open, base, high) == weight_upto(open, base, low) + (high - low) * power(
            base,
            (open.len() - d) as nat,
        ),
    decreases high - low,
{
    if low < high {
        lemma_weight_run(open, base, low, high - 1, d);
        let p: nat = power(base, (open.len() - d) as nat);
        assert((high - 1 - low) * p + p == (high - low) * p) by (nonlinear_arith);
    } else {
        let p: nat = power(base, (open.len() - d) as nat);
        assert((high - low) * p == 0) by (nonlinear_arith)
            requires
                high == low,
        ;
    }
}

/// Rewriting the top symbol into at least one and fewer than `base` symbols,
/// and noting the rewriting as open, makes the stack lighter.
pub proof fn lemma_weight_rewrite(open: Seq<usize>, base: nat, top: int, x: int, added: int)
    requires
        0 <= top,
        top + 1 <= usize::MAX,
        0 <= x < open.len(),
        open[x] == 0,
        1 <= added < base,
        forall|y: int| 0 <= y < open.len() && open[y] != 0 ==> open[y] - 1 <= top,
    ensures
        weight_upto(open.update(x, (top + 1) as usize), base, top + added) < weight_upto(
            open,
            base,
            top + 1,
        ),
{
    let noted: Seq<usize> = open.update(x, (top + 1) as usize);
    let n: int = open.len() as int;
    let d: nat = depth(open, top);
    lemma_depth_bound(noted, top, n);
    lemma_depth_update(open, x, (top + 1) as usize, top, n);
    assert(depth(noted, top) == d + 1);
    assert forall|k: int| 0 <= k < top implies depth(noted, k) == depth(open, k) by {
        lemma_depth_update(open, x, (top + 1) as usize, k, n);
    }
    lemma_weight_agrees(noted, open, base, top);
    assert forall|k: int| top <= k < top + added implies depth(noted, k) == d + 1 by {
        lemma_depth_flat(noted, top, k, n);
    }
    lemma_weight_run(noted, base, top, top + added, d + 1);
    let p: nat = power(base, (n - d - 1) as nat);
    lemma_power_positive(base, (n - d - 1) as nat);
    assert(power(base, (n - d) as nat) == base * p);
    assert(added * p < base * p) by (nonlinear_arith)
        requires
            added < base,
            p >= 1,
    ;
}

/// Taking the top symbol off makes the stack lighter, whatever happens to
/// the notes of rewritings that began at its height.
pub proof fn lemma_weight_pop(open: Seq<usize>, after: Seq<usize>, base: nat, top: int)
    requires
        0 <= top,
        base >= 1,
        open.len() == after.len(),
        forall|k: int| 0 <= k < top ==> depth(after, k) == depth(open, k),
    ensures
        weight_upto(after, base, top) < weight_upto(open, base, top + 1),
{
    lemma_weight_agrees(after, open, base, top);
    lemma_depth_bound(open, top, open.len() as int);
    lemma_power_positive(base, (open.len() - depth(open, top)) as nat);
}

/// The length of the longest of `bodies`.
pub open spec fn longest(bodies: Seq<Seq<Seq<char>>>) -> nat
    decreases bodies.len(),
{
    if bodies.len() == 0 {
        0
    } else {
        let rest: nat = longest(bodies.drop_last());
        if bodies.last().len() > rest {
            bodies.last().len()
        } else {
            rest
        }
    }
}

pub proof fn lemma_longest(bodies: Seq<Seq<Seq<char>>>, i: int)
    requires
        0 <= i < bodies.len(),
    ensures
        bodies[i].len() <= longest(bodies),
    decreases bodies.len(),
{
    if i < bodies.len() - 1 {
        lemma_longest(bodies.drop_last(), i);
    }
}

} // verus!
