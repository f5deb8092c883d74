//! The table-driven parser: an explicit stack, one token of lookahead, and a
//! note of the rewritings that are still open, by which it sees that it would
//! never come to an end.

use crate::cfg::{lemma_distinct, lemma_distinct_first, lemma_terminals, Cfg};
use crate::frames::{
    counts, depth, depth_upto, lemma_longest, lemma_weight_pop, lemma_weight_rewrite, longest,
    weight_upto,
};
use crate::grammar::Grammar;
use crate::machine::{
    accepts, accepts_from, applied, climbs, initial, lemma_loop_rejects, lemma_step_halt,
    lemma_step_next, pushed, reached, rewriting, run, step, stops_with, Config, Machine, Step,
};
use crate::symbols::{
    end_marker, end_marker_token, epsilon, epsilon_token, lemma_names_push, names, names2,
    position_of,
};
use crate::table::{cell_of, row_lookup, TableTerminals};
use vstd::prelude::*;

verus! {

/// The parser for a grammar and a table, on an input that ends with the end
/// marker.
pub open spec fn parser_machine(
    grammar: Grammar,
    rows: Seq<Vec<(String, usize)>>,
    input: Seq<Seq<char>>,
) -> Machine {
    Machine {
        g: grammar.model(),
        cell: |a: Seq<char>, t: Seq<char>| cell_of(names(grammar.non_terminals@), rows, a, t),
        input,
    }
}

/// The rewriting of `key` that began at height `h` is still open after
/// `moves` moves: they led from `key` on top of the lowest `h` symbols to the
/// present stack, stayed above those symbols and consumed nothing.
pub open spec fn frame_ok(
    m: Machine,
    stack: Seq<Seq<char>>,
    pos: int,
    key: Seq<char>,
    h: int,
    moves: nat,
) -> bool {
    let c: Config = Config { stack: stack.take(h).push(key), pos };
    &&& moves >= 1
    &&& 0 <= h < stack.len()
    &&& climbs(m, c, h, moves)
    &&& run(m, c, moves) == Some(Config { stack, pos })
}

/// An open rewriting stays open over a move that leaves symbols above its
/// height.
pub proof fn lemma_frame_step(
    m: Machine,
    stack: Seq<Seq<char>>,
    pos: int,
    key: Seq<char>,
    h: int,
    moves: nat,
    next: Seq<Seq<char>>,
)
    requires
        frame_ok(m, stack, pos, key, h, moves),
        step(m, Config { stack, pos }) == Step::Next(Config { stack: next, pos }),
        next.len() > h,
        next.take(h) == stack.take(h),
    ensures
        frame_ok(m, next, pos, key, h, moves + 1),
{
    let c: Config = Config { stack: stack.take(h).push(key), pos };
    assert(run(m, c, moves + 1) == Some(Config { stack: next, pos }));
}

/// A rewriting that leaves symbols in place of the non-terminal is open.
pub proof fn lemma_frame_open(m: Machine, stack: Seq<Seq<char>>, pos: int, next: Seq<Seq<char>>)
    requires
        stack.len() > 0,
        step(m, Config { stack, pos }) == Step::Next(Config { stack: next, pos }),
        next.len() > stack.len() - 1,
        next.take(stack.len() - 1) == stack.drop_last(),
    ensures
        frame_ok(m, next, pos, stack.last(), stack.len() - 1, 1),
{
    let h: int = stack.len() - 1;
    let c: Config = Config { stack: next.take(h).push(stack.last()), pos };
    assert(c.stack =~= stack);
    assert(run(m, c, 0) == Some(c));
    assert(run(m, c, 1) == Some(Config { stack: next, pos }));
    assert(climbs(m, c, h, 0));
}

pub proof fn lemma_pushed_len(body: Seq<Seq<char>>)
    ensures
        pushed(body).len() <= body.len(),
    decreases body.len(),
{
    if body.len() > 0 {
        lemma_pushed_len(body.drop_first());
    }
}

/// Notes that count alike give the same depth.
pub proof fn lemma_depth_same(a: Seq<usize>, b: Seq<usize>, k: int, upto: int)
    requires
        a.len() == b.len(),
        upto <= a.len(),
        forall|y: int| 0 <= y < a.len() ==> counts(a[y], k) == counts(b[y], k),
    ensures
        depth_upto(a, k, upto) == depth_upto(b, k, upto),
    decreases upto,
{
    if upto > 0 {
        lemma_depth_same(a, b, k, upto - 1);
    }
}

/// What `row` holds for the lookahead `t`.
pub fn row_find(row: &TableTerminals, t: &String) -> (found: Option<usize>)
    ensures
        found == row_lookup(row@, t@),
{
    let mut k: usize = row.len();
    proof {
        assert(row@.take(k as int) =~= row@);
    }
    while k > 0
        invariant
            k <= row@.len(),
            row_lookup(row@, t@) == row_lookup(row@.take(k as int), t@),
        decreases k,
    {
        proof {
            assert(row@.take(k as int).last() == row@[k - 1]);
            assert(row@.take(k as int).drop_last() =~= row@.take(k - 1));
        }
        if row[k - 1].0 == *t {
            return Some(row[k - 1].1);
        }
        k -= 1;
    }
    None
}

/// Puts the symbols of `body` on the stack in reverse, so that the first
/// comes on top; empty-string tokens are left out.
pub fn push_body(stack: &mut Vec<String>, body: &Vec<String>)
    ensures
        names(final(stack)@) == names(old(stack)@) + pushed(names(body@)),
{
    let empty_token: String = epsilon_token();
    let mut k: usize = body.len();
    proof {
        assert(names(body@).skip(k as int) =~= Seq::<Seq<char>>::empty());
        assert(names(stack@) =~= names(old(stack)@) + pushed(names(body@).skip(k as int)));
    }
    while k > 0
        invariant
            k <= body@.len(),
            empty_token@ == epsilon(),
            names(stack@) == names(old(stack)@) + pushed(names(body@).skip(k as int)),
        decreases k,
    {
        k -= 1;
        let ghost before: Seq<String> = stack@;
        proof {
            let rest: Seq<Seq<char>> = names(body@).skip(k as int);
            assert(rest.drop_first() =~= names(body@).skip(k + 1));
            assert(rest[0] == body@[k as int]@);
        }
        if body[k] != empty_token {
            stack.push(body[k].clone());
            proof {
                lemma_names_push(before, body@[k as int]);
                assert(names(stack@) =~= names(old(stack)@) + pushed(names(body@).skip(k as int)));
            }
        }
    }
    proof {
        assert(names(body@).skip(0) =~= names(body@));
    }
}

/// As many cleared notes as there are non-terminals.
pub fn cleared(n: usize) -> (open: Vec<usize>)
    ensures
        open@.len() == n,
        forall|y: int| 0 <= y < n ==> open@[y] == 0,
{
    let mut open: Vec<usize> = Vec::new();
    let mut y: usize = 0;
    while y < n
        invariant
            y <= n,
            open@.len() == y,
            forall|z: int| 0 <= z < y ==> open@[z] == 0,
        decreases n - y,
    {
        open.push(0);
        y += 1;
    }
    open
}

/// Runs the parser on `input`, which ends with the end marker, and tells
/// whether it accepts. `stack` and `rule` are scratch: they are emptied first
/// and hold the last stack and the productions applied when the parser
/// stops. The parser also stops, and rejects, when it is about to rewrite a
/// non-terminal under an open rewriting of the same non-terminal with the
/// same lookahead: from there it would go on for ever.
pub fn drive(
    grammar: &Grammar,
    table: &Vec<TableTerminals>,
    input: &Vec<String>,
    stack: &mut Vec<String>,
    rule: &mut Vec<usize>,
) -> (accepted: bool)
    requires
        grammar.classified(),
    ensures
        accepted == accepts(parser_machine(*grammar, table@, names(input@))),
        grammar.non_terminals@.len() == 0 ==> final(stack)@.len() == 0 && final(rule)@.len() == 0,
        grammar.non_terminals@.len() > 0 ==> stops_with(
            parser_machine(*grammar, table@, names(input@)),
            names(final(stack)@),
            final(rule)@,
        ),
{
    let ghost m: Machine = parser_machine(*grammar, table@, names(input@));
    let ghost g: Cfg = grammar.model();
    let ghost keys: Seq<Seq<char>> = names(grammar.non_terminals@);
    let ghost base: nat = longest(g.bodies) + 1;
    let n: usize = grammar.non_terminals.len();
    let end_token: String = end_marker_token();
    *stack = Vec::new();
    *rule = Vec::new();
    proof {
        lemma_terminals(g);
        lemma_distinct(g.left);
    }
    if n == 0 {
        proof {
            if g.left.len() > 0 {
                lemma_distinct_first(g.left);
            }
        }
        return false;
    }
    stack.push(end_marker_token());
    stack.push(grammar.non_terminals[0].clone());
    let mut open: Vec<usize> = cleared(n);
    let ghost mut since: Seq<nat> = Seq::new(n as nat, |y: int| 0nat);
    let mut pos: usize = 0;
    let mut running: bool = true;
    let mut verdict: bool = false;
    let ghost mut moves: nat = 0;
    proof {
        assert(rule@.map_values(|i: usize| i as int) =~= Seq::<int>::empty());
        assert(g.left.len() > 0) by {
            if g.left.len() == 0 {
                assert(keys.len() == 0);
            }
        }
        lemma_distinct_first(g.left);
        assert(names(stack@) =~= initial(m).stack);
        assert(names2(grammar.productions@).len() == grammar.productions@.len());
    }
    while running
        invariant
            grammar.classified(),
            m == parser_machine(*grammar, table@, names(input@)),
            g == grammar.model(),
            keys == names(grammar.non_terminals@),
            base == longest(g.bodies) + 1,
            n == grammar.non_terminals@.len(),
            n > 0,
            g.left.len() > 0,
            end_token@ == end_marker(),
            pos <= input@.len(),
            open@.len() == n,
            since.len() == n,
            grammar.productions@.len() == g.bodies.len(),
            forall|y: int| 0 <= y < n && open@[y] != 0 ==> open@[y] - 1 < stack@.len(),
            forall|y: int|
                0 <= y < n && open@[y] != 0 ==> frame_ok(
                    m,
                    names(stack@),
                    pos as int,
                    keys[y],
                    #[trigger] open@[y] - 1,
                    since[y],
                ),
            running ==> accepts_from(m, Config { stack: names(stack@), pos: pos as int })
                == accepts(m),
            run(m, initial(m), moves) == Some(Config { stack: names(stack@), pos: pos as int }),
            applied(m, initial(m), moves) == rule@.map_values(|i: usize| i as int),
            !running ==> verdict == accepts(m),
        decreases
                input@.len() - pos,
                weight_upto(open@, base, stack@.len() as int),
                (if running {
                    1int
                } else {
                    0int
                }),
    {
        let ghost cur: Config = Config { stack: names(stack@), pos: pos as int };
        let ghost old_stack: Seq<String> = stack@;
        let ghost old_open: Seq<usize> = open@;
        let ghost old_since: Seq<nat> = since;
        proof {
            lemma_terminals(g);
        }
        if stack.len() == 0 || pos >= input.len() {
            proof {
                lemma_step_halt(m, cur);
            }
            running = false;
            verdict = false;
        } else {
            let height: usize = stack.len();
            let top: &String = &stack[height - 1];
            let front: &String = &input[pos];
            proof {
                assert(cur.stack.last() == top@);
                assert(m.input[pos as int] == front@);
            }
            if *top == *front && *front == end_token {
                proof {
                    lemma_step_halt(m, cur);
                }
                running = false;
                verdict = true;
            } else {
                match position_of(&grammar.non_terminals, top) {
                    Some(x) => {
                        proof {
                            assert(keys[x as int] == top@);
                            assert(keys.contains(top@));
                            assert(g.is_non_terminal(top@));
                            assert(keys.index_of(top@) == x);
                        }
                        let found: Option<usize> = if x < table.len() {
                            row_find(&table[x], front)
                        } else {
                            None
                        };
                        let usable: Option<usize> = match found {
                            Some(i) => if i < grammar.productions.len() {
                                Some(i)
                            } else {
                                None
                            },
                            None => None,
                        };
                        match usable {
                            None => {
                                proof {
                                    lemma_step_halt(m, cur);
                                }
                                running = false;
                                verdict = false;
                            },
                            Some(i) => {
                                if open[x] != 0 {
                                    proof {
                                        let h: int = open@[x as int] - 1;
                                        let c: Config = Config {
                                            stack: cur.stack.take(h).push(keys[x as int]),
                                            pos: pos as int,
                                        };
                                        assert(frame_ok(
                                            m,
                                            cur.stack,
                                            pos as int,
                                            keys[x as int],
                                            h,
                                            since[x as int],
                                        ));
                                        lemma_loop_rejects(m, c, since[x as int]);
                                    }
                                    running = false;
                                    verdict = false;
                                } else {
                                    let ghost next: Seq<Seq<char>> = cur.stack.drop_last() + pushed(
                                        g.bodies[i as int],
                                    );
                                    proof {
                                        assert(names2(grammar.productions@)[i as int] == names(
                                            grammar.productions@[i as int]@,
                                        ));
                                        assert(step(m, cur) == Step::Next(
                                            Config { stack: next, pos: pos as int },
                                        ));
                                        lemma_step_next(
                                            m,
                                            cur,
                                            Config { stack: next, pos: pos as int },
                                        );
                                        lemma_pushed_len(g.bodies[i as int]);
                                        lemma_longest(g.bodies, i as int);
                                    }
                                    let ghost old_rule: Seq<usize> = rule@;
                                    stack.pop();
                                    proof {
                                        assert(names(stack@) =~= cur.stack.drop_last());
                                    }
                                    push_body(stack, &grammar.productions[i]);
                                    rule.push(i);
                                    proof {
                                        assert(rewriting(m, cur) == Some(i as int));
                                        assert(rule@.map_values(|i: usize| i as int)
                                            =~= old_rule.map_values(|i: usize| i as int).push(
                                            i as int,
                                        ));
                                        moves = moves + 1;
                                        assert(run(m, initial(m), moves) == Some(
                                            Config { stack: next, pos: pos as int },
                                        ));
                                    }
                                    let top_at: usize = height - 1;
                                    if stack.len() > top_at {
                                        open.set(x, height);
                                        proof {
                                            since = Seq::new(
                                                n as nat,
                                                |y: int|
                                                    if y == x {
                                                        1nat
                                                    } else {
                                                        old_since[y] + 1
                                                    },
                                            );
                                            assert(next.take(top_at as int) =~= cur.stack.drop_last());
                                            lemma_frame_open(m, cur.stack, pos as int, next);
                                            assert forall|y: int|
                                                0 <= y < n && open@[y] != 0 implies frame_ok(
                                                m,
                                                names(stack@),
                                                pos as int,
                                                keys[y],
                                                #[trigger] open@[y] - 1,
                                                since[y],
                                            ) by {
                                                if y != x {
                                                    let h: int = old_open[y] - 1;
                                                    assert(frame_ok(
                                                        m,
                                                        cur.stack,
                                                        pos as int,
                                                        keys[y],
                                                        h,
                                                        old_since[y],
                                                    ));
                                                    assert(next.take(h) =~= cur.stack.take(h));
                                                    lemma_frame_step(
                                                        m,
                                                        cur.stack,
                                                        pos as int,
                                                        keys[y],
                                                        h,
                                                        old_since[y],
                                                        next,
                                                    );
                                                }
                                            }
                                            lemma_weight_rewrite(
                                                old_open,
                                                base,
                                                top_at as int,
                                                x as int,
                                                stack@.len() - top_at,
                                            );
                                        }
                                    } else {
                                        let mut y: usize = 0;
                                        while y < n
                                            invariant
                                                y <= n,
                                                open@.len() == n,
                                                old_open.len() == n,
                                                height == top_at + 1,
                                                forall|z: int|
                                                    0 <= z < n ==> (#[trigger] open@[z]
                                                        == old_open[z] || (open@[z] == 0
                                                        && old_open[z] == height)),
                                                forall|z: int|
                                                    0 <= z < y ==> #[trigger] open@[z] != height,
                                            decreases n - y,
                                        {
                                            if open[y] == height {
                                                open.set(y, 0);
                                            }
                                            y += 1;
                                        }
                                        proof {
                                            since = Seq::new(
                                                n as nat,
                                                |y: int| old_since[y] + 1,
                                            );
                                            assert(next =~= cur.stack.drop_last());
                                            assert forall|y: int|
                                                0 <= y < n && open@[y] != 0 implies frame_ok(
                                                m,
                                                names(stack@),
                                                pos as int,
                                                keys[y],
                                                #[trigger] open@[y] - 1,
                                                since[y],
                                            ) by {
                                                let h: int = old_open[y] - 1;
                                                assert(open@[y] == old_open[y]);
                                                assert(frame_ok(
                                                    m,
                                                    cur.stack,
                                                    pos as int,
                                                    keys[y],
                                                    h,
                                                    old_since[y],
                                                ));
                                                assert(next.take(h) =~= cur.stack.take(h));
                                                lemma_frame_step(
                                                    m,
                                                    cur.stack,
                                                    pos as int,
                                                    keys[y],
                                                    h,
                                                    old_since[y],
                                                    next,
                                                );
                                            }
                                            assert forall|k: int| 0 <= k < top_at implies depth(
                                                open@,
                                                k,
                                            ) == depth(old_open, k) by {
                                                lemma_depth_same(open@, old_open, k, n as int);
                                            }
                                            lemma_weight_pop(old_open, open@, base, top_at as int);
                                        }
                                    }
                                }
                            },
                        }
                    },
                    None => {
                        proof {
                            assert(!g.is_non_terminal(top@));
                        }
                        if *top == *front {
                            proof {
                                let next: Config = Config {
                                    stack: cur.stack.drop_last(),
                                    pos: pos + 1,
                                };
                                assert(step(m, cur) == Step::Next(next));
                                lemma_step_next(m, cur, next);
                                assert(rewriting(m, cur) is None);
                                moves = moves + 1;
                                assert(run(m, initial(m), moves) == Some(next));
                            }
                            stack.pop();
                            pos += 1;
                            open = cleared(n);
                            proof {
                                assert(names(stack@) =~= cur.stack.drop_last());
                            }
                        } else {
                            proof {
                                lemma_step_halt(m, cur);
                            }
                            running = false;
                            verdict = false;
                        }
                    },
                }
            }
        }
    }
    proof {
        assert(reached(m, moves, names(stack@), rule@));
    }
    verdict
}

} // verus!
