//! What the cycle check computes: a walk over edges, not vertices, that
//! reports a cycle as soon as it reaches an edge it has already left.
//!
//! The check is conservative. It never misses a cycle, see
//! [`lemma_silent_check_means_acyclic`], but it also reports edge lists that
//! have none: two edges into a vertex that a third edge leaves, or an edge
//! listed ahead of the edge that leads into it.

use vstd::prelude::*;

verus! {

/// Whether `next` starts in the vertex in which `edge` ends.
pub open spec fn follows(next: (u32, u32), edge: (u32, u32)) -> bool {
    next.0 == edge.1
}

/// The entries among the first `upto` of `edges` that follow `edge`, in list
/// order.
pub open spec fn successors_upto(edges: Seq<(u32, u32)>, edge: (u32, u32), upto: int) -> Seq<
    (u32, u32),
>
    decreases upto,
{
    if upto <= 0 {
        Seq::empty()
    } else {
        let before = successors_upto(edges, edge, upto - 1);
        if follows(edges[upto - 1], edge) {
            before.push(edges[upto - 1])
        } else {
            before
        }
    }
}

/// The entries of `edges` that follow `edge`, in list order. An edge that
/// occurs twice in the list occurs twice here.
pub open spec fn successors(edges: Seq<(u32, u32)>, edge: (u32, u32)) -> Seq<(u32, u32)> {
    successors_upto(edges, edge, edges.len() as int)
}

/// Whether every edge of `frontier` is an entry of `edges`.
pub open spec fn within(edges: Seq<(u32, u32)>, frontier: Seq<(u32, u32)>) -> bool {
    forall|i: int| 0 <= i < frontier.len() ==> edges.contains(#[trigger] frontier[i])
}

/// Whether one of `next` is in `visited`.
pub open spec fn any_visited(next: Seq<(u32, u32)>, visited: Set<(u32, u32)>) -> bool {
    exists|k: int| 0 <= k < next.len() && visited.contains(#[trigger] next[k])
}

/// How many entries of `edges` are not in `visited`.
pub open spec fn pending(edges: Seq<(u32, u32)>, visited: Set<(u32, u32)>) -> nat
    decreases edges.len(),
{
    if edges.len() == 0 {
        0
    } else {
        pending(edges.drop_last(), visited) + if visited.contains(edges.last()) {
            0nat
        } else {
            1nat
        }
    }
}

/// One walk, from the state in which the edges of `visited` have been left
/// and those of `frontier` wait, the last of them first. The walk takes the
/// last waiting edge. If one of its successors has been left before, the walk
/// has come round: the result is `None`. Else its successors wait on top of
/// the others, the edge itself is left, and the walk goes on. An edge that is
/// taken after it has been left has had all its successors left since, so it
/// comes round if it has any. With nothing waiting the walk ends with the
/// edges it has left.
pub open spec fn walk(
    edges: Seq<(u32, u32)>,
    visited: Set<(u32, u32)>,
    frontier: Seq<(u32, u32)>,
) -> Option<Set<(u32, u32)>>
    decreases pending(edges, visited), frontier.len(),
    when within(edges, frontier)
    via walk_ends
{
    if frontier.len() == 0 {
        Some(visited)
    } else {
        let edge = frontier.last();
        let next = successors(edges, edge);
        if visited.contains(edge) {
            if next.len() > 0 {
                None
            } else {
                walk(edges, visited, frontier.drop_last())
            }
        } else if any_visited(next, visited) {
            None
        } else {
            walk(edges, visited.insert(edge), frontier.drop_last() + next)
        }
    }
}

#[via_fn]
proof fn walk_ends(edges: Seq<(u32, u32)>, visited: Set<(u32, u32)>, frontier: Seq<(u32, u32)>) {
    if frontier.len() > 0 {
        lemma_pending_insert(edges, visited, frontier.last());
    }
}

/// The check from entry `from` of the list on, with the edges of `visited`
/// left by the walks before: whether one of the walks still to come comes
/// round. Each entry that no walk has left yet starts a walk of its own.
pub open spec fn scan(edges: Seq<(u32, u32)>, from: int, visited: Set<(u32, u32)>) -> bool
    decreases edges.len() - from,
{
    if from < 0 || from >= edges.len() {
        false
    } else if visited.contains(edges[from]) {
        scan(edges, from + 1, visited)
    } else {
        match walk(edges, visited, seq![edges[from]]) {
            None => true,
            Some(left) => scan(edges, from + 1, left),
        }
    }
}

/// Whether the check reports a cycle in `edges`.
pub open spec fn reports_cycle(edges: Seq<(u32, u32)>) -> bool {
    scan(edges, 0, Set::empty())
}

/// What the check answers when a walk that started at entry `at` stands at
/// `visited` and `frontier`.
pub open spec fn resumes(
    edges: Seq<(u32, u32)>,
    at: int,
    visited: Set<(u32, u32)>,
    frontier: Seq<(u32, u32)>,
) -> bool {
    match walk(edges, visited, frontier) {
        None => true,
        Some(left) => scan(edges, at + 1, left),
    }
}

/// Leaving one more edge leaves no more entries pending, and one fewer at
/// least if the edge is an entry that was pending.
pub proof fn lemma_pending_insert(
    edges: Seq<(u32, u32)>,
    visited: Set<(u32, u32)>,
    edge: (u32, u32),
)
    ensures
        pending(edges, visited.insert(edge)) <= pending(edges, visited),
        edges.contains(edge) && !visited.contains(edge) ==> pending(edges, visited.insert(edge))
            < pending(edges, visited),
    decreases edges.len(),
{
    if edges.len() > 0 {
        lemma_pending_insert(edges.drop_last(), visited, edge);
        if edges.contains(edge) && edges.last() != edge {
            let i = choose|i: int| 0 <= i < edges.len() && edges[i] == edge;
            assert(edges.drop_last()[i] == edge);
        }
    }
}

/// The successors found among the first `upto` entries are the entries among
/// them that follow the edge.
proof fn lemma_successors_upto(
    edges: Seq<(u32, u32)>,
    edge: (u32, u32),
    upto: int,
    next: (u32, u32),
)
    requires
        0 <= upto <= edges.len(),
    ensures
        successors_upto(edges, edge, upto).contains(next) <==> follows(next, edge) && exists|j: int|
            0 <= j < upto && #[trigger] edges[j] == next,
    decreases upto,
{
    if upto > 0 {
        lemma_successors_upto(edges, edge, upto - 1, next);
        let before = successors_upto(edges, edge, upto - 1);
        let all = successors_upto(edges, edge, upto);
        if follows(edges[upto - 1], edge) {
            assert(all == before.push(edges[upto - 1]));
            if all.contains(next) {
                let m = choose|m: int| 0 <= m < all.len() && all[m] == next;
                if m < before.len() {
                    assert(before[m] == next);
                } else {
                    assert(edges[upto - 1] == next);
                }
            }
            if before.contains(next) {
                let m = choose|m: int| 0 <= m < before.len() && before[m] == next;
                assert(all[m] == next);
            }
            if edges[upto - 1] == next {
                assert(all[before.len() as int] == next);
            }
        }
    }
}

/// The successors of an edge are the entries of the list that follow it.
pub proof fn lemma_successors(edges: Seq<(u32, u32)>, edge: (u32, u32), next: (u32, u32))
    ensures
        successors(edges, edge).contains(next) <==> follows(next, edge) && edges.contains(next),
{
    lemma_successors_upto(edges, edge, edges.len() as int, next);
    if edges.contains(next) {
        let j = choose|j: int| 0 <= j < edges.len() && edges[j] == next;
        assert(edges[j] == next);
    }
}

/// The successors of an edge are entries of the list.
pub proof fn lemma_successors_within(edges: Seq<(u32, u32)>, edge: (u32, u32))
    ensures
        within(edges, successors(edges, edge)),
{
    let next = successors(edges, edge);
    assert forall|i: int| 0 <= i < next.len() implies edges.contains(#[trigger] next[i]) by {
        assert(next.contains(next[i]));
        lemma_successors(edges, edge, next[i]);
    }
}

/// Whether the entries numbered by `path` lead one into the next and the
/// last of them back into the first: a cycle of the graph.
pub open spec fn is_cycle(edges: Seq<(u32, u32)>, path: Seq<int>) -> bool {
    &&& path.len() > 0
    &&& forall|i: int| 0 <= i < path.len() ==> 0 <= #[trigger] path[i] < edges.len()
    &&& forall|i: int|
        0 <= i < path.len() - 1 ==> follows(edges[path[i + 1]], edges[#[trigger] path[i]])
    &&& follows(edges[path[0]], edges[path.last()])
}

/// Whether the graph of `edges` has a cycle.
pub open spec fn has_cycle(edges: Seq<(u32, u32)>) -> bool {
    exists|path: Seq<int>| is_cycle(edges, path)
}

/// Whether `rank` rises along the graph: every entry that follows another
/// ranks above it, and no rank is negative.
pub open spec fn rises(edges: Seq<(u32, u32)>, rank: spec_fn((u32, u32)) -> int) -> bool {
    &&& forall|j: int| 0 <= j < edges.len() ==> 0 <= #[trigger] rank(edges[j])
    &&& forall|j: int, k: int|
        0 <= j < edges.len() && 0 <= k < edges.len() && follows(
            #[trigger] edges[k],
            #[trigger] edges[j],
        ) ==> rank(edges[k]) > rank(edges[j])
}

/// Where entry `k`, which follows the edge `x` that has been left, stands: it
/// has been left later than `x`; or it waits; or `x` itself waits to be taken
/// once more.
spec fn placed(
    edges: Seq<(u32, u32)>,
    visited: Set<(u32, u32)>,
    frontier: Seq<(u32, u32)>,
    rank: spec_fn((u32, u32)) -> int,
    x: (u32, u32),
    k: int,
) -> bool {
    ||| visited.contains(edges[k]) && rank(edges[k]) > rank(x)
    ||| !visited.contains(edges[k]) && frontier.contains(edges[k])
    ||| frontier.contains(x)
}

/// `rank` numbers the edges of `visited` in the order in which they were
/// left, below `top`, and every entry that follows one of them is placed.
spec fn ranked(
    edges: Seq<(u32, u32)>,
    visited: Set<(u32, u32)>,
    frontier: Seq<(u32, u32)>,
    rank: spec_fn((u32, u32)) -> int,
    top: int,
) -> bool {
    &&& 0 <= top
    &&& forall|x: (u32, u32)| #[trigger] visited.contains(x) ==> 0 <= rank(x) < top
    &&& forall|x: (u32, u32), k: int|
        visited.contains(x) && 0 <= k < edges.len() && follows(edges[k], x) ==> #[trigger] placed(
            edges,
            visited,
            frontier,
            rank,
            x,
            k,
        )
}

proof fn lemma_waits_after_step(
    frontier: Seq<(u32, u32)>,
    next: Seq<(u32, u32)>,
    edge: (u32, u32),
)
    requires
        frontier.len() > 0,
    ensures
        frontier.contains(edge) && edge != frontier.last() ==> (frontier.drop_last()
            + next).contains(edge),
        next.contains(edge) ==> (frontier.drop_last() + next).contains(edge),
        frontier.contains(edge) && edge != frontier.last() ==> frontier.drop_last().contains(edge),
{
    let rest = frontier.drop_last();
    let after = rest + next;
    if frontier.contains(edge) && edge != frontier.last() {
        let i = choose|i: int| 0 <= i < frontier.len() && frontier[i] == edge;
        assert(rest[i] == edge);
        assert(after[i] == edge);
    }
    if next.contains(edge) {
        let m = choose|m: int| 0 <= m < next.len() && next[m] == edge;
        assert(after[rest.len() + m] == edge);
    }
}

/// A walk that ends keeps the ranking: it ranks the edges it leaves above all
/// that were left before, in the order in which it leaves them.
proof fn lemma_walk_ranks(
    edges: Seq<(u32, u32)>,
    visited: Set<(u32, u32)>,
    frontier: Seq<(u32, u32)>,
    rank: spec_fn((u32, u32)) -> int,
    top: int,
) -> (out: (spec_fn((u32, u32)) -> int, int))
    requires
        within(edges, frontier),
        ranked(edges, visited, frontier, rank, top),
        walk(edges, visited, frontier) is Some,
    ensures
        ranked(edges, walk(edges, visited, frontier)->0, Seq::empty(), out.0, out.1),
        forall|x: (u32, u32)| #[trigger]
            visited.contains(x) ==> walk(edges, visited, frontier)->0.contains(x) && (out.0)(x)
                == rank(x),
        forall|i: int|
            0 <= i < frontier.len() ==> walk(edges, visited, frontier)->0.contains(
                #[trigger] frontier[i],
            ),
        forall|x: (u32, u32)| #[trigger]
            walk(edges, visited, frontier)->0.contains(x) ==> visited.contains(x) || edges.contains(
                x,
            ),
        frontier.len() > 0 && !visited.contains(frontier.last()) ==> (out.0)(frontier.last())
            == top,
    decreases pending(edges, visited), frontier.len(),
{
    if frontier.len() == 0 {
        assert forall|x: (u32, u32), k: int|
            visited.contains(x) && 0 <= k < edges.len() && follows(
                edges[k],
                x,
            ) implies #[trigger] placed(edges, visited, Seq::empty(), rank, x, k) by {
            assert(placed(edges, visited, frontier, rank, x, k));
        }
        (rank, top)
    } else {
        let edge = frontier.last();
        let rest = frontier.drop_last();
        let next = successors(edges, edge);
        assert(edges.contains(frontier[frontier.len() - 1]));
        assert(within(edges, rest)) by {
            assert forall|i: int| 0 <= i < rest.len() implies edges.contains(#[trigger] rest[i]) by {
                assert(rest[i] == frontier[i]);
            }
        }
        if visited.contains(edge) {
            assert(next.len() == 0);
            assert forall|x: (u32, u32), k: int|
                visited.contains(x) && 0 <= k < edges.len() && follows(
                    edges[k],
                    x,
                ) implies #[trigger] placed(edges, visited, rest, rank, x, k) by {
                assert(placed(edges, visited, frontier, rank, x, k));
                lemma_waits_after_step(frontier, next, edges[k]);
                lemma_waits_after_step(frontier, next, x);
                if x == edge {
                    lemma_successors(edges, edge, edges[k]);
                    assert(next.contains(edges[k]));
                }
            }
            let out = lemma_walk_ranks(edges, visited, rest, rank, top);
            let walked = walk(edges, visited, rest)->0;
            assert forall|i: int| 0 <= i < frontier.len() implies walked.contains(
                #[trigger] frontier[i],
            ) by {
                if i < rest.len() {
                    assert(rest[i] == frontier[i]);
                    assert(walked.contains(rest[i]));
                } else {
                    assert(visited.contains(frontier[i]));
                }
            }
            out
        } else {
            let left = visited.insert(edge);
            let after = rest + next;
            let ranks = |x: (u32, u32)|
                if x == edge {
                    top
                } else {
                    rank(x)
                };
            lemma_successors_within(edges, edge);
            lemma_pending_insert(edges, visited, edge);
            assert(within(edges, after)) by {
                assert forall|i: int| 0 <= i < after.len() implies edges.contains(
                    #[trigger] after[i],
                ) by {
                    if i < rest.len() {
                        assert(after[i] == rest[i]);
                    } else {
                        assert(after[i] == next[i - rest.len()]);
                    }
                }
            }
            assert forall|x: (u32, u32), k: int|
                left.contains(x) && 0 <= k < edges.len() && follows(
                    edges[k],
                    x,
                ) implies #[trigger] placed(edges, left, after, ranks, x, k) by {
                lemma_waits_after_step(frontier, next, edges[k]);
                lemma_waits_after_step(frontier, next, x);
                if x == edge {
                    lemma_successors(edges, edge, edges[k]);
                    let m = choose|m: int| 0 <= m < next.len() && next[m] == edges[k];
                    assert(!visited.contains(next[m]));
                } else {
                    assert(placed(edges, visited, frontier, rank, x, k));
                }
            }
            let out = lemma_walk_ranks(edges, left, after, ranks, top + 1);
            let walked = walk(edges, left, after)->0;
            assert(left.contains(edge));
            assert forall|i: int| 0 <= i < frontier.len() implies walked.contains(
                #[trigger] frontier[i],
            ) by {
                if i < rest.len() {
                    assert(after[i] == frontier[i]);
                    assert(walked.contains(after[i]));
                }
            }
            assert forall|x: (u32, u32)| #[trigger] visited.contains(x) implies walked.contains(x)
                && (out.0)(x) == rank(x) by {
                assert(left.contains(x));
            }
            assert forall|x: (u32, u32)| #[trigger] walked.contains(x) implies visited.contains(x)
                || edges.contains(x) by {
                if !edges.contains(x) {
                    assert(left.contains(x));
                }
            }
            out
        }
    }
}

/// A check that stays silent ends with a ranking that rises along the whole
/// graph. The entry at which the check resumes, if no walk has left it yet,
/// gets the rank `top`.
proof fn lemma_scan_ranks(
    edges: Seq<(u32, u32)>,
    from: int,
    visited: Set<(u32, u32)>,
    rank: spec_fn((u32, u32)) -> int,
    top: int,
) -> (out: spec_fn((u32, u32)) -> int)
    requires
        0 <= from <= edges.len(),
        ranked(edges, visited, Seq::empty(), rank, top),
        forall|j: int| 0 <= j < from ==> visited.contains(#[trigger] edges[j]),
        !scan(edges, from, visited),
    ensures
        rises(edges, out),
        forall|x: (u32, u32)| #[trigger] visited.contains(x) ==> out(x) == rank(x),
        from < edges.len() && !visited.contains(edges[from]) ==> out(edges[from]) == top,
    decreases edges.len() - from,
{
    if from == edges.len() {
        assert forall|j: int, k: int|
            0 <= j < edges.len() && 0 <= k < edges.len() && follows(
                #[trigger] edges[k],
                #[trigger] edges[j],
            ) implies rank(edges[k]) > rank(edges[j]) by {
            assert(placed(edges, visited, Seq::empty(), rank, edges[j], k));
        }
        rank
    } else if visited.contains(edges[from]) {
        assert forall|j: int| 0 <= j < from + 1 implies visited.contains(#[trigger] edges[j]) by {}
        lemma_scan_ranks(edges, from + 1, visited, rank, top)
    } else {
        let start = seq![edges[from]];
        assert(within(edges, start)) by {
            assert(start[0] == edges[from]);
        }
        assert forall|x: (u32, u32), k: int|
            visited.contains(x) && 0 <= k < edges.len() && follows(
                edges[k],
                x,
            ) implies #[trigger] placed(edges, visited, start, rank, x, k) by {
            assert(placed(edges, visited, Seq::empty(), rank, x, k));
        }
        let walked = lemma_walk_ranks(edges, visited, start, rank, top);
        let left = walk(edges, visited, start)->0;
        assert forall|j: int| 0 <= j < from + 1 implies left.contains(#[trigger] edges[j]) by {
            if j == from {
                assert(start[0] == edges[from]);
            }
        }
        assert(start.last() == edges[from]);
        assert(left.contains(start[0]));
        let out = lemma_scan_ranks(edges, from + 1, left, walked.0, walked.1);
        assert forall|x: (u32, u32)| #[trigger] visited.contains(x) implies out(x) == rank(x) by {
            assert(left.contains(x));
        }
        out
    }
}

proof fn lemma_rank_along_path(
    edges: Seq<(u32, u32)>,
    rank: spec_fn((u32, u32)) -> int,
    path: Seq<int>,
    i: int,
)
    requires
        rises(edges, rank),
        is_cycle(edges, path),
        0 <= i < path.len(),
    ensures
        rank(edges[path[i]]) >= rank(edges[path[0]]) + i,
    decreases i,
{
    if i > 0 {
        lemma_rank_along_path(edges, rank, path, i - 1);
        assert(follows(edges[path[i - 1 + 1]], edges[path[i - 1]]));
    }
}

/// The check misses no cycle: where it stays silent, the graph of the list
/// has none.
pub proof fn lemma_silent_check_means_acyclic(edges: Seq<(u32, u32)>)
    requires
        !reports_cycle(edges),
    ensures
        !has_cycle(edges),
{
    let rank = lemma_scan_ranks(edges, 0, Set::empty(), |x: (u32, u32)| 0int, 0);
    if has_cycle(edges) {
        let path = choose|path: Seq<int>| is_cycle(edges, path);
        lemma_rank_along_path(edges, rank, path, path.len() - 1);
        assert(follows(edges[path[0]], edges[path[path.len() - 1]]));
    }
}

/// Where the check stays silent, no entry leads into the vertex from which
/// the first entry starts.
pub proof fn lemma_nothing_enters_first_tail(edges: Seq<(u32, u32)>)
    requires
        edges.len() > 0,
        !reports_cycle(edges),
    ensures
        forall|k: int| 0 <= k < edges.len() ==> !follows(edges[0], #[trigger] edges[k]),
{
    let rank = lemma_scan_ranks(edges, 0, Set::empty(), |x: (u32, u32)| 0int, 0);
    assert forall|k: int| 0 <= k < edges.len() implies !follows(edges[0], #[trigger] edges[k]) by {
        if follows(edges[0], edges[k]) {
            assert(rank(edges[0]) > rank(edges[k]));
        }
    }
}

/// Whether `edge` stands apart from the list: it is no entry, it does not
/// follow itself, and it neither follows an entry nor is followed by one.
pub open spec fn stands_apart(edges: Seq<(u32, u32)>, edge: (u32, u32)) -> bool {
    &&& !edges.contains(edge)
    &&& !follows(edge, edge)
    &&& forall|k: int|
        0 <= k < edges.len() ==> !follows(edge, #[trigger] edges[k]) && !follows(edges[k], edge)
}

proof fn lemma_successors_upto_push(
    edges: Seq<(u32, u32)>,
    last: (u32, u32),
    edge: (u32, u32),
    upto: int,
)
    requires
        0 <= upto <= edges.len(),
    ensures
        successors_upto(edges.push(last), edge, upto) == successors_upto(edges, edge, upto),
    decreases upto,
{
    if upto > 0 {
        lemma_successors_upto_push(edges, last, edge, upto - 1);
        assert(edges.push(last)[upto - 1] == edges[upto - 1]);
    }
}

/// An entry added at the end of the list is added at the end of the
/// successors of the edges it follows, and changes no others.
pub proof fn lemma_successors_push(edges: Seq<(u32, u32)>, last: (u32, u32), edge: (u32, u32))
    ensures
        successors(edges.push(last), edge) == if follows(last, edge) {
            successors(edges, edge).push(last)
        } else {
            successors(edges, edge)
        },
{
    lemma_successors_upto_push(edges, last, edge, edges.len() as int);
    assert(edges.push(last)[edges.len() as int] == last);
}

proof fn lemma_within_push(edges: Seq<(u32, u32)>, last: (u32, u32), frontier: Seq<(u32, u32)>)
    requires
        within(edges, frontier),
    ensures
        within(edges.push(last), frontier),
{
    assert forall|i: int| 0 <= i < frontier.len() implies edges.push(last).contains(
        #[trigger] frontier[i],
    ) by {
        let j = choose|j: int| 0 <= j < edges.len() && edges[j] == frontier[i];
        assert(edges.push(last)[j] == frontier[i]);
    }
}

/// A walk leaves only entries of the list.
proof fn lemma_walk_leaves_entries(
    edges: Seq<(u32, u32)>,
    visited: Set<(u32, u32)>,
    frontier: Seq<(u32, u32)>,
)
    requires
        within(edges, frontier),
        walk(edges, visited, frontier) is Some,
    ensures
        forall|x: (u32, u32)| #[trigger]
            walk(edges, visited, frontier)->0.contains(x) ==> visited.contains(x) || edges.contains(
                x,
            ),
    decreases pending(edges, visited), frontier.len(),
{
    if frontier.len() > 0 {
        let edge = frontier.last();
        let rest = frontier.drop_last();
        let next = successors(edges, edge);
        assert(edges.contains(frontier[frontier.len() - 1]));
        lemma_successors_within(edges, edge);
        lemma_pending_insert(edges, visited, edge);
        assert(within(edges, rest)) by {
            assert forall|i: int| 0 <= i < rest.len() implies edges.contains(#[trigger] rest[i]) by {
                assert(rest[i] == frontier[i]);
            }
        }
        assert(within(edges, rest + next)) by {
            assert forall|i: int| 0 <= i < (rest + next).len() implies edges.contains(
                #[trigger] (rest + next)[i],
            ) by {
                if i < rest.len() {
                    assert((rest + next)[i] == rest[i]);
                } else {
                    assert((rest + next)[i] == next[i - rest.len()]);
                }
            }
        }
        if visited.contains(edge) {
            lemma_walk_leaves_entries(edges, visited, rest);
        } else {
            lemma_walk_leaves_entries(edges, visited.insert(edge), rest + next);
            let walked = walk(edges, visited.insert(edge), rest + next)->0;
            assert forall|x: (u32, u32)| #[trigger] walked.contains(x) implies visited.contains(x)
                || edges.contains(x) by {
                if !edges.contains(x) {
                    assert(visited.insert(edge).contains(x));
                }
            }
        }
    }
}

/// A walk over entries that the added entry does not follow goes as it went
/// without that entry.
proof fn lemma_walk_ignores_apart(
    edges: Seq<(u32, u32)>,
    last: (u32, u32),
    visited: Set<(u32, u32)>,
    frontier: Seq<(u32, u32)>,
)
    requires
        within(edges, frontier),
        forall|k: int| 0 <= k < edges.len() ==> !follows(last, #[trigger] edges[k]),
    ensures
        walk(edges.push(last), visited, frontier) == walk(edges, visited, frontier),
    decreases pending(edges, visited), frontier.len(),
{
    lemma_within_push(edges, last, frontier);
    if frontier.len() > 0 {
        let edge = frontier.last();
        let rest = frontier.drop_last();
        let next = successors(edges, edge);
        assert(edges.contains(frontier[frontier.len() - 1]));
        let j = choose|j: int| 0 <= j < edges.len() && edges[j] == edge;
        assert(!follows(last, edges[j]));
        lemma_successors_push(edges, last, edge);
        lemma_successors_within(edges, edge);
        lemma_pending_insert(edges, visited, edge);
        assert(within(edges, rest)) by {
            assert forall|i: int| 0 <= i < rest.len() implies edges.contains(#[trigger] rest[i]) by {
                assert(rest[i] == frontier[i]);
            }
        }
        assert(within(edges, rest + next)) by {
            assert forall|i: int| 0 <= i < (rest + next).len() implies edges.contains(
                #[trigger] (rest + next)[i],
            ) by {
                if i < rest.len() {
                    assert((rest + next)[i] == rest[i]);
                } else {
                    assert((rest + next)[i] == next[i - rest.len()]);
                }
            }
        }
        let longer = edges.push(last);
        assert(longer.contains(frontier[frontier.len() - 1]));
        lemma_pending_insert(longer, visited, edge);
        lemma_within_push(edges, last, rest);
        lemma_within_push(edges, last, rest + next);
        if visited.contains(edge) {
            if next.len() == 0 {
                lemma_walk_ignores_apart(edges, last, visited, rest);
            }
        } else if !any_visited(next, visited) {
            lemma_walk_ignores_apart(edges, last, visited.insert(edge), rest + next);
        }
    }
}

proof fn lemma_scan_ignores_apart(
    edges: Seq<(u32, u32)>,
    last: (u32, u32),
    from: int,
    visited: Set<(u32, u32)>,
)
    requires
        0 <= from <= edges.len(),
        stands_apart(edges, last),
        forall|x: (u32, u32)| #[trigger] visited.contains(x) ==> edges.contains(x),
    ensures
        scan(edges.push(last), from, visited) == scan(edges, from, visited),
    decreases edges.len() - from,
{
    let longer = edges.push(last);
    if from == edges.len() {
        assert(longer[from] == last);
        let start = seq![last];
        assert(within(longer, start)) by {
            assert(longer[edges.len() as int] == start[0]);
        }
        let next = successors(longer, last);
        lemma_successors_push(edges, last, last);
        if successors(edges, last).len() > 0 {
            let first = successors(edges, last)[0];
            assert(successors(edges, last).contains(first));
            lemma_successors(edges, last, first);
            let k = choose|k: int| 0 <= k < edges.len() && edges[k] == first;
            assert(follows(edges[k], last));
        }
        assert(next.len() == 0);
        assert(start.drop_last() + next =~= Seq::<(u32, u32)>::empty());
        assert(walk(longer, visited.insert(last), Seq::<(u32, u32)>::empty()) == Some(
            visited.insert(last),
        ));
        assert(walk(longer, visited, start) == Some(visited.insert(last)));
        assert(!scan(longer, from + 1, visited.insert(last)));
    } else {
        assert(longer[from] == edges[from]);
        if visited.contains(edges[from]) {
            lemma_scan_ignores_apart(edges, last, from + 1, visited);
        } else {
            let start = seq![edges[from]];
            assert(within(edges, start)) by {
                assert(start[0] == edges[from]);
            }
            lemma_walk_ignores_apart(edges, last, visited, start);
            if walk(edges, visited, start) is Some {
                lemma_walk_leaves_entries(edges, visited, start);
                lemma_scan_ignores_apart(edges, last, from + 1, walk(edges, visited, start)->0);
            }
        }
    }
}

/// An entry that stands apart from the list can be added at its end without
/// changing what the check reports.
pub proof fn lemma_check_ignores_apart_edge(edges: Seq<(u32, u32)>, last: (u32, u32))
    requires
        stands_apart(edges, last),
    ensures
        reports_cycle(edges.push(last)) == reports_cycle(edges),
{
    lemma_scan_ignores_apart(edges, last, 0, Set::empty());
}

} // verus!
