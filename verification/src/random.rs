//! The random builder: an edge set grown one random edge at a time, each
//! kept only if the cycle check stays silent.

use vstd::prelude::*;
use std::collections::HashSet;
use vstd::set_lib::{lemma_int_range, lemma_len_subset, set_int_range};
use crate::cycle::{
    any_visited, follows, has_cycle, lemma_check_ignores_apart_edge, lemma_nothing_enters_first_tail,
    lemma_pending_insert, lemma_silent_check_means_acyclic, lemma_successors,
    lemma_successors_within, pending, reports_cycle, resumes, scan, stands_apart, successors,
    successors_upto, within,
};
use crate::util::{lcg_draw, lcg_step, Lcg, LCG_DEFAULT_SEED};

verus! {

/// The number that stands for `edge` in a set of edges: tail and head side by
/// side in 64 bits.
pub open spec fn key_of(edge: (u32, u32)) -> u64 {
    (edge.0 as u64 * 0x1_0000_0000 + edge.1 as u64) as u64
}

fn edge_key(edge: (u32, u32)) -> (key: u64)
    ensures
        key == key_of(edge),
{
    (edge.0 as u64) * 0x1_0000_0000 + (edge.1 as u64)
}

/// Whether the set of keys `keys` holds exactly the edges of `visited`.
spec fn holds(keys: Set<u64>, visited: Set<(u32, u32)>) -> bool {
    forall|edge: (u32, u32)| visited.contains(edge) <==> keys.contains(#[trigger] key_of(edge))
}

/// Whether an entry that follows `edge` has been left.
spec fn comes_round(edges: Seq<(u32, u32)>, visited: Set<(u32, u32)>, edge: (u32, u32)) -> bool {
    exists|k: int| 0 <= k < edges.len() && follows(#[trigger] edges[k], edge) && visited.contains(edges[k])
}

/// Whether `edge` waits in `frontier` above position `i`.
spec fn above(frontier: Seq<(u32, u32)>, i: int, edge: (u32, u32)) -> bool {
    exists|j: int| i < j < frontier.len() && #[trigger] frontier[j] == edge
}

/// Whether every entry that follows the edge at position `i` of `frontier`
/// waits above it.
spec fn successors_above(edges: Seq<(u32, u32)>, frontier: Seq<(u32, u32)>, i: int) -> bool {
    forall|k: int|
        0 <= k < edges.len() && follows(#[trigger] edges[k], frontier[i]) ==> above(
            frontier,
            i,
            edges[k],
        )
}

/// An edge that waits although it has been left either comes round or has
/// all its successors waiting above it.
spec fn settled(
    edges: Seq<(u32, u32)>,
    visited: Set<(u32, u32)>,
    frontier: Seq<(u32, u32)>,
    i: int,
) -> bool {
    visited.contains(frontier[i]) ==> comes_round(edges, visited, frontier[i]) || successors_above(
        edges,
        frontier,
        i,
    )
}

spec fn orderly(
    edges: Seq<(u32, u32)>,
    visited: Set<(u32, u32)>,
    frontier: Seq<(u32, u32)>,
) -> bool {
    forall|i: int| 0 <= i < frontier.len() ==> #[trigger] settled(edges, visited, frontier, i)
}

/// One step of a walk that does not come round keeps the frontier orderly.
proof fn lemma_step_keeps_orderly(
    edges: Seq<(u32, u32)>,
    visited: Set<(u32, u32)>,
    frontier: Seq<(u32, u32)>,
)
    requires
        frontier.len() > 0,
        orderly(edges, visited, frontier),
        !comes_round(edges, visited, frontier.last()),
    ensures
        orderly(
            edges,
            visited.insert(frontier.last()),
            frontier.drop_last() + successors(edges, frontier.last()),
        ),
{
    let edge = frontier.last();
    let next = successors(edges, edge);
    let rest = frontier.drop_last();
    let left = visited.insert(edge);
    let after = rest + next;
    assert forall|i: int| 0 <= i < after.len() implies #[trigger] settled(
        edges,
        left,
        after,
        i,
    ) by {
        if left.contains(after[i]) {
            if i < rest.len() {
                assert(after[i] == frontier[i]);
                if frontier[i] == edge {
                    assert forall|k: int|
                        0 <= k < edges.len() && follows(#[trigger] edges[k], after[i]) implies above(
                        after,
                        i,
                        edges[k],
                    ) by {
                        lemma_successors(edges, edge, edges[k]);
                        let m = choose|m: int| 0 <= m < next.len() && next[m] == edges[k];
                        assert(after[rest.len() + m] == edges[k]);
                    }
                    assert(successors_above(edges, after, i));
                } else {
                    assert(settled(edges, visited, frontier, i));
                    if comes_round(edges, visited, frontier[i]) {
                        let k = choose|k: int|
                            0 <= k < edges.len() && follows(#[trigger] edges[k], frontier[i])
                                && visited.contains(edges[k]);
                        assert(follows(edges[k], after[i]) && left.contains(edges[k]));
                    } else if exists|k: int|
                        0 <= k < edges.len() && follows(#[trigger] edges[k], frontier[i])
                            && edges[k] == edge {
                        let k = choose|k: int|
                            0 <= k < edges.len() && follows(#[trigger] edges[k], frontier[i])
                                && edges[k] == edge;
                        assert(follows(edges[k], after[i]) && left.contains(edges[k]));
                    } else {
                        assert forall|k: int|
                            0 <= k < edges.len() && follows(
                                #[trigger] edges[k],
                                after[i],
                            ) implies above(after, i, edges[k]) by {
                            assert(above(frontier, i, edges[k]));
                            let j = choose|j: int|
                                i < j < frontier.len() && #[trigger] frontier[j] == edges[k];
                            assert(after[j] == edges[k]);
                        }
                        assert(successors_above(edges, after, i));
                    }
                }
            } else {
                let m = i - rest.len();
                assert(after[i] == next[m]);
                assert(next.contains(next[m]));
                lemma_successors(edges, edge, next[m]);
                let k = choose|k: int| 0 <= k < edges.len() && edges[k] == next[m];
                if visited.contains(next[m]) {
                    assert(follows(edges[k], edge) && visited.contains(edges[k]));
                    assert(false);
                }
                assert(next[m] == edge);
                assert(follows(edges[k], after[i]) && left.contains(edges[k]));
                assert(comes_round(edges, left, after[i]));
            }
        }
    }
}

/// Whether `edge` starts or ends in `vertex`.
pub open spec fn touches(edge: (u32, u32), vertex: u32) -> bool {
    edge.0 == vertex || edge.1 == vertex
}

/// Whether entry `k` starts in a vertex that an earlier entry touches.
pub open spec fn anchored(edges: Seq<(u32, u32)>, k: int) -> bool {
    exists|j: int| 0 <= j < k && touches(#[trigger] edges[j], edges[k].0)
}

/// Whether no entry touches `vertex`.
pub open spec fn is_unused(edges: Seq<(u32, u32)>, vertex: u32) -> bool {
    forall|k: int| 0 <= k < edges.len() ==> !touches(#[trigger] edges[k], vertex)
}

/// Whether the builder accepts `edge` as the next entry of `edges`: the edge
/// joins two different vertices, is not in the list yet, and the cycle check
/// is silent on the list with it.
pub open spec fn accepts(edges: Seq<(u32, u32)>, edge: (u32, u32)) -> bool {
    edge.0 != edge.1 && !edges.contains(edge) && !reports_cycle(edges.push(edge))
}

/// What holds of the edge list at every stage of its growth towards
/// `num_edges` edges: it starts with the edge from 0 to 1 and is no longer
/// than asked for; its vertices are at most `num_edges`; no edge joins a
/// vertex to itself or occurs twice; every edge but the first starts in a
/// vertex that an earlier edge touches; and the cycle check is silent on it.
pub open spec fn growing(edges: Seq<(u32, u32)>, num_edges: int) -> bool {
    &&& 1 <= edges.len() <= num_edges
    &&& edges[0] == (0u32, 1u32)
    &&& forall|k: int|
        0 <= k < edges.len() ==> (#[trigger] edges[k]).0 <= num_edges && edges[k].1 <= num_edges
            && edges[k].0 != edges[k].1
    &&& edges.no_duplicates()
    &&& forall|k: int| 1 <= k < edges.len() ==> #[trigger] anchored(edges, k)
    &&& !reports_cycle(edges)
}

/// What holds of the finished edge list: all that held while it grew, the
/// full number of edges, and a graph without a cycle.
pub open spec fn grown(edges: Seq<(u32, u32)>, num_edges: int) -> bool {
    &&& growing(edges, num_edges)
    &&& edges.len() == num_edges
    &&& !has_cycle(edges)
}

/// The lowest vertex from `from` on that no entry touches, or `num_edges`
/// where all below it are touched.
pub open spec fn lowest_unused(edges: Seq<(u32, u32)>, from: int, num_edges: int) -> int
    decreases num_edges - from,
{
    if from >= num_edges {
        num_edges
    } else if is_unused(edges, from as u32) {
        from
    } else {
        lowest_unused(edges, from + 1, num_edges)
    }
}

/// The state of the builder between two steps: the edges so far, the state
/// of the generator, how many draws in a row were rejected, and the end of an
/// entry that was drawn and is still to be used.
pub struct Growth {
    pub edges: Seq<(u32, u32)>,
    pub state: u64,
    pub rejected: int,
    pub anchor: Option<u32>,
}

/// The state in which the builder starts with a generator in state `state`.
pub open spec fn seedling(state: u64) -> Growth {
    Growth { edges: seq![(0u32, 1u32)], state, rejected: 0, anchor: None }
}

/// One step of the builder towards `num_edges` edges.
///
/// Below the limit on rejected draws the step draws. Unless an end is still
/// to be used, it draws an entry and then one of the two ends of it. Then it
/// draws a vertex up to `num_edges`. Where that is the end itself, the draw
/// is rejected and the end kept for the next step. Else the edge from the
/// end to the vertex is added if the builder accepts it; if not, the draw is
/// rejected.
///
/// At the limit the step draws nothing and adds the edge from the first
/// vertex of the list to the lowest vertex that no entry touches.
pub open spec fn grow_step(num_edges: u32, redraw_limit: u64, now: Growth) -> Growth {
    if now.rejected < redraw_limit {
        let picked = lcg_draw(now.state, now.edges.len() as u64);
        let side = lcg_draw(lcg_step(now.state), 2);
        let from = match now.anchor {
            Some(end) => end,
            None => if side == 0 {
                now.edges[picked as int].0
            } else {
                now.edges[picked as int].1
            },
        };
        let state = match now.anchor {
            Some(end) => now.state,
            None => lcg_step(lcg_step(now.state)),
        };
        let candidate = lcg_draw(state, (num_edges + 1) as u64) as u32;
        let edge = (from, candidate);
        if candidate == from {
            Growth {
                edges: now.edges,
                state: lcg_step(state),
                rejected: now.rejected + 1,
                anchor: Some(from),
            }
        } else if accepts(now.edges, edge) {
            Growth { edges: now.edges.push(edge), state: lcg_step(state), rejected: 0, anchor: None }
        } else {
            Growth {
                edges: now.edges,
                state: lcg_step(state),
                rejected: now.rejected + 1,
                anchor: None,
            }
        }
    } else {
        let fresh = lowest_unused(now.edges, 0, num_edges as int) as u32;
        Growth {
            edges: now.edges.push((now.edges[0].0, fresh)),
            state: now.state,
            rejected: 0,
            anchor: None,
        }
    }
}

/// The state in which the builder ends when it goes on from `now`: it takes
/// steps until the list has `num_edges` edges.
pub open spec fn grow(num_edges: u32, redraw_limit: u64, now: Growth) -> Growth
    decreases num_edges - now.edges.len(), redraw_limit - now.rejected,
{
    if now.edges.len() >= num_edges {
        now
    } else {
        grow(num_edges, redraw_limit, grow_step(num_edges, redraw_limit, now))
    }
}

/// The vertices that the entries touch.
spec fn touched_set(edges: Seq<(u32, u32)>) -> Set<int>
    decreases edges.len(),
{
    if edges.len() == 0 {
        Set::empty()
    } else {
        touched_set(edges.drop_last()).insert(edges.last().0 as int).insert(edges.last().1 as int)
    }
}

/// A list in which every entry but the first starts where an earlier entry
/// ends or starts touches at most one vertex more than it has entries.
proof fn lemma_touched_set(edges: Seq<(u32, u32)>)
    requires
        edges.len() >= 1,
        forall|k: int| 1 <= k < edges.len() ==> #[trigger] anchored(edges, k),
    ensures
        touched_set(edges).finite(),
        touched_set(edges).len() <= edges.len() + 1,
        forall|k: int|
            0 <= k < edges.len() ==> touched_set(edges).contains((#[trigger] edges[k]).0 as int)
                && touched_set(edges).contains(edges[k].1 as int),
    decreases edges.len(),
{
    let rest = edges.drop_last();
    let last = edges.last();
    if edges.len() == 1 {
        assert(touched_set(rest) =~= Set::empty());
    } else {
        assert forall|k: int| 1 <= k < rest.len() implies #[trigger] anchored(rest, k) by {
            assert(anchored(edges, k));
            let j = choose|j: int| 0 <= j < k && touches(#[trigger] edges[j], edges[k].0);
            assert(touches(rest[j], rest[k].0));
        }
        lemma_touched_set(rest);
        assert(anchored(edges, edges.len() - 1));
        let j = choose|j: int|
            0 <= j < edges.len() - 1 && touches(#[trigger] edges[j], edges[edges.len() - 1].0);
        assert(rest[j] == edges[j]);
        assert(touched_set(rest).contains(last.0 as int));
        assert forall|k: int| 0 <= k < edges.len() implies touched_set(edges).contains(
            (#[trigger] edges[k]).0 as int,
        ) && touched_set(edges).contains(edges[k].1 as int) by {
            if k < rest.len() {
                assert(rest[k] == edges[k]);
            }
        }
    }
}

/// A growing list that is still short of `num_edges` edges leaves a vertex
/// up to `num_edges` untouched.
proof fn lemma_unused_vertex(edges: Seq<(u32, u32)>, num_edges: u32)
    requires
        growing(edges, num_edges as int),
        edges.len() < num_edges,
    ensures
        exists|vertex: u32| vertex <= num_edges && #[trigger] is_unused(edges, vertex),
{
    let used = touched_set(edges);
    let all = set_int_range(0, num_edges + 1);
    lemma_touched_set(edges);
    lemma_int_range(0, num_edges + 1);
    if all.subset_of(used) {
        lemma_len_subset(all, used);
        assert(false);
    }
    let spare = choose|spare: int| all.contains(spare) && !used.contains(spare);
    let vertex = spare as u32;
    assert(is_unused(edges, vertex));
}

/// The list with one more edge is still growing when the edge is new, joins
/// two different vertices that are at most `num_edges`, starts in a vertex
/// that an entry touches, and leaves the cycle check silent.
proof fn lemma_growing_push(edges: Seq<(u32, u32)>, num_edges: int, edge: (u32, u32), at: int)
    requires
        growing(edges, num_edges),
        edges.len() < num_edges,
        !edges.contains(edge),
        edge.0 != edge.1,
        edge.0 <= num_edges,
        edge.1 <= num_edges,
        0 <= at < edges.len(),
        touches(edges[at], edge.0),
        !reports_cycle(edges.push(edge)),
    ensures
        growing(edges.push(edge), num_edges),
{
    let longer = edges.push(edge);
    assert forall|k: int| 1 <= k < longer.len() implies #[trigger] anchored(longer, k) by {
        if k < edges.len() {
            assert(anchored(edges, k));
            let j = choose|j: int| 0 <= j < k && touches(#[trigger] edges[j], edges[k].0);
            assert(touches(longer[j], longer[k].0));
        } else {
            assert(touches(longer[at], longer[k].0));
        }
    }
    assert forall|i: int, j: int| 0 <= i < longer.len() && 0 <= j < longer.len() && i != j implies longer[i]
        != longer[j] by {
        if i == edges.len() {
            assert(edges[j] == longer[j]);
        } else if j == edges.len() {
            assert(edges[i] == longer[i]);
        }
    }
}

proof fn lemma_lowest_unused(edges: Seq<(u32, u32)>, from: int, num_edges: u32)
    requires
        0 <= from <= num_edges,
        exists|vertex: u32| from <= vertex <= num_edges && #[trigger] is_unused(edges, vertex),
    ensures
        from <= lowest_unused(edges, from, num_edges as int) <= num_edges,
        is_unused(edges, lowest_unused(edges, from, num_edges as int) as u32),
    decreases num_edges - from,
{
    let vertex = choose|vertex: u32|
        from <= vertex <= num_edges && #[trigger] is_unused(edges, vertex);
    if from < num_edges && !is_unused(edges, from as u32) {
        assert(from + 1 <= vertex && is_unused(edges, vertex));
        lemma_lowest_unused(edges, from + 1, num_edges);
    }
}

/// The builder never gets stuck. A growing list that is still short of
/// `num_edges` edges keeps growing with the edge from its first vertex to
/// the lowest vertex that no entry touches: there is such a vertex, the edge
/// is new, and the cycle check stays silent with it.
pub proof fn lemma_growing_goes_on(edges: Seq<(u32, u32)>, num_edges: u32)
    requires
        growing(edges, num_edges as int),
        edges.len() < num_edges,
    ensures
        lowest_unused(edges, 0, num_edges as int) <= num_edges,
        is_unused(edges, lowest_unused(edges, 0, num_edges as int) as u32),
        growing(
            edges.push((edges[0].0, lowest_unused(edges, 0, num_edges as int) as u32)),
            num_edges as int,
        ),
{
    lemma_unused_vertex(edges, num_edges);
    lemma_lowest_unused(edges, 0, num_edges);
    let fresh = lowest_unused(edges, 0, num_edges as int) as u32;
    let last = (edges[0].0, fresh);
    lemma_nothing_enters_first_tail(edges);
    assert(touches(edges[0], edges[0].0));
    assert(!edges.contains(last)) by {
        if edges.contains(last) {
            let k = choose|k: int| 0 <= k < edges.len() && edges[k] == last;
            assert(touches(edges[k], fresh));
        }
    }
    assert(stands_apart(edges, last)) by {
        assert forall|k: int| 0 <= k < edges.len() implies !follows(last, #[trigger] edges[k])
            && !follows(edges[k], last) by {
            assert(!follows(edges[0], edges[k]));
            assert(!touches(edges[k], fresh));
        }
    }
    lemma_check_ignores_apart_edge(edges, last);
    lemma_growing_push(edges, num_edges as int, last, 0);
}

/// Why a graph could not be built.
#[derive(Debug, Clone, Copy, PartialEq, Eq, Structural)]
pub enum BuildError {
    /// A graph with no edges was asked for; the builder starts from one edge.
    NoEdges,
}

impl BuildError {
    /// What the error says.
    pub open spec fn text(self) -> Seq<char> {
        "the number of edges must be at least one"@
    }

    /// The error in words.
    pub fn message(&self) -> (text: String)
        ensures
            text@ == self.text(),
    {
        "the number of edges must be at least one".to_owned()
    }
}

/// How many draws in a row may be rejected, where no other limit is given,
/// before an edge is chosen without drawing.
pub const REDRAW_LIMIT: u64 = 0xFFFF_FFFF_FFFF_FFFF;

fn holds_edge(edges: &Vec<(u32, u32)>, edge: (u32, u32)) -> (found: bool)
    ensures
        found == edges@.contains(edge),
{
    let mut k: usize = 0;
    while k < edges.len()
        invariant
            k <= edges.len(),
            forall|j: int| 0 <= j < k ==> edges@[j] != edge,
        decreases edges.len() - k,
    {
        let entry = edges[k];
        if entry.0 == edge.0 && entry.1 == edge.1 {
            return true;
        }
        k += 1;
    }
    false
}

fn touched(edges: &Vec<(u32, u32)>, vertex: u32) -> (found: bool)
    ensures
        found == !is_unused(edges@, vertex),
{
    let mut k: usize = 0;
    while k < edges.len()
        invariant
            k <= edges.len(),
            forall|j: int| 0 <= j < k ==> !touches(#[trigger] edges@[j], vertex),
        decreases edges.len() - k,
    {
        let entry = edges[k];
        if entry.0 == vertex || entry.1 == vertex {
            assert(touches(edges@[k as int], vertex));
            return true;
        }
        k += 1;
    }
    false
}

/// The lowest vertex up to `num_edges` that no entry touches.
fn first_unused(edges: &Vec<(u32, u32)>, num_edges: u32) -> (fresh: u32)
    requires
        exists|vertex: u32| vertex <= num_edges && #[trigger] is_unused(edges@, vertex),
    ensures
        fresh <= num_edges,
        is_unused(edges@, fresh),
        fresh == lowest_unused(edges@, 0, num_edges as int),
{
    let mut vertex: u32 = 0;
    while vertex < num_edges
        invariant
            vertex <= num_edges,
            forall|lower: u32| lower < vertex ==> !#[trigger] is_unused(edges@, lower),
            lowest_unused(edges@, 0, num_edges as int) == lowest_unused(
                edges@,
                vertex as int,
                num_edges as int,
            ),
        decreases num_edges - vertex,
    {
        if !touched(edges, vertex) {
            return vertex;
        }
        vertex += 1;
    }
    vertex
}

/// A graph given by the number of edges it is to have.
pub struct RandomGraph {
    num_edges: u32,
}

impl View for RandomGraph {
    type V = int;

    closed spec fn view(&self) -> int {
        self.num_edges as int
    }
}

impl RandomGraph {
    /// The graph that is to have `num_edges` edges.
    pub fn new(num_edges: u32) -> (graph: Self)
        ensures
            graph@ == num_edges,
    {
        Self { num_edges }
    }

    /// Builds the edges with a generator of its own, seeded as always, and
    /// with [`REDRAW_LIMIT`] as the limit on rejected draws.
    pub fn build_edges(&self) -> (built: Result<Vec<(u32, u32)>, BuildError>)
        ensures
            match built {
                Ok(edges) => self@ >= 1 && grown(edges@, self@) && edges@ == grow(
                    self@ as u32,
                    REDRAW_LIMIT,
                    seedling(LCG_DEFAULT_SEED),
                ).edges,
                Err(error) => self@ == 0 && error == BuildError::NoEdges,
            },
    {
        let mut rng = Lcg::new();
        self.build_edges_with(&mut rng, REDRAW_LIMIT)
    }

    /// Builds the edges from the draws of `rng`.
    ///
    /// The list starts with the edge from 0 to 1. For each further edge the
    /// builder draws an entry and one of its two ends, then a vertex up to the
    /// number of edges, drawing that vertex again while it is the chosen end.
    /// The edge from the chosen end to the vertex is kept unless it is in the
    /// list already or the cycle check reports a cycle with it; else the
    /// builder draws anew. After `redraw_limit` rejected draws in a row it
    /// stops drawing for this edge and takes the edge from the first vertex of
    /// the list to the lowest vertex not yet in use, which the check always
    /// accepts.
    pub fn build_edges_with(&self, rng: &mut Lcg, redraw_limit: u64) -> (built: Result<
        Vec<(u32, u32)>,
        BuildError,
    >)
        ensures
            match built {
                Ok(edges) => {
                    let end = grow(self@ as u32, redraw_limit, seedling(old(rng)@));
                    &&& self@ >= 1
                    &&& grown(edges@, self@)
                    &&& edges@ == end.edges
                    &&& final(rng)@ == end.state
                },
                Err(error) => self@ == 0 && error == BuildError::NoEdges && final(rng)@ == old(
                    rng,
                )@,
            },
    {
        let num_edges = self.num_edges;
        if num_edges == 0 {
            return Err(BuildError::NoEdges);
        }
        let ghost seed = rng@;
        let mut edges: Vec<(u32, u32)> = Vec::new();
        edges.push((0, 1));
        assert(edges@ =~= seedling(seed).edges);
        proof {
            let none = Seq::<(u32, u32)>::empty();
            assert(stands_apart(none, (0u32, 1u32)));
            lemma_check_ignores_apart_edge(none, (0u32, 1u32));
            assert(edges@ =~= none.push((0u32, 1u32)));
            assert(!reports_cycle(none));
        }
        let mut rejected: u64 = 0;
        let mut anchor: Option<u32> = None;
        while edges.len() < num_edges as usize
            invariant
                num_edges == self.num_edges,
                growing(edges@, num_edges as int),
                rejected <= redraw_limit,
                anchor matches Some(end) ==> !is_unused(edges@, end),
                grow(num_edges, redraw_limit, seedling(seed)) == grow(
                    num_edges,
                    redraw_limit,
                    (Growth { edges: edges@, state: rng@, rejected: rejected as int, anchor }),
                ),
            decreases num_edges - edges.len(), redraw_limit - rejected,
        {
            let ghost now = Growth { edges: edges@, state: rng@, rejected: rejected as int, anchor };
            assert(grow(num_edges, redraw_limit, now) == grow(
                num_edges,
                redraw_limit,
                grow_step(num_edges, redraw_limit, now),
            ));
            if rejected < redraw_limit {
                let from: u32 = match anchor {
                    Some(end) => end,
                    None => {
                        let pick = rng.generate_range(edges.len() as u64) as usize;
                        let current = edges[pick];
                        assert(touches(edges@[pick as int], current.0));
                        assert(touches(edges@[pick as int], current.1));
                        if rng.generate_range(2) == 0 {
                            current.0
                        } else {
                            current.1
                        }
                    },
                };
                let ghost at = choose|at: int| 0 <= at < edges@.len() && touches(edges@[at], from);
                let candidate = rng.generate_range(num_edges as u64 + 1) as u32;
                if candidate == from {
                    anchor = Some(from);
                    rejected += 1;
                } else {
                    anchor = None;
                    proof {
                        if accepts(edges@, (from, candidate)) {
                            lemma_growing_push(edges@, num_edges as int, (from, candidate), at);
                        }
                    }
                    if Self::try_edge(&mut edges, (from, candidate)) {
                        rejected = 0;
                    } else {
                        rejected += 1;
                    }
                }
            } else {
                proof {
                    lemma_unused_vertex(edges@, num_edges);
                    lemma_growing_goes_on(edges@, num_edges);
                }
                let fresh = first_unused(&edges, num_edges);
                let first = edges[0];
                edges.push((first.0, fresh));
                anchor = None;
                rejected = 0;
            }
            assert((Growth { edges: edges@, state: rng@, rejected: rejected as int, anchor })
                == grow_step(num_edges, redraw_limit, now));
        }
        proof {
            lemma_silent_check_means_acyclic(edges@);
        }
        Ok(edges)
    }

    /// Offers `edge` as the next entry of `edges`. The edge is added, and
    /// `true` returned, unless it joins a vertex to itself, is in the list
    /// already, or the cycle check reports a cycle in the list with it.
    pub fn try_edge(edges: &mut Vec<(u32, u32)>, edge: (u32, u32)) -> (kept: bool)
        ensures
            kept == accepts(old(edges)@, edge),
            final(edges)@ == if kept {
                old(edges)@.push(edge)
            } else {
                old(edges)@
            },
    {
        if edge.0 == edge.1 || holds_edge(edges, edge) {
            return false;
        }
        edges.push(edge);
        if Self::contains_cycle(edges.as_slice()) {
            edges.pop();
            assert(edges@ =~= old(edges)@);
            false
        } else {
            true
        }
    }

    /// Runs the cycle check on `edges`: walks from every entry that no walk
    /// has left yet, and reports a cycle when a walk reaches an edge that has
    /// been left.
    pub fn contains_cycle(edges: &[(u32, u32)]) -> (found: bool)
        ensures
            found == reports_cycle(edges@),
            !found ==> !has_cycle(edges@),
    {
        let mut visited: HashSet<u64> = HashSet::new();
        let ghost mut left: Set<(u32, u32)> = Set::empty();
        let mut at: usize = 0;
        while at < edges.len()
            invariant
                at <= edges.len(),
                holds(visited@, left),
                reports_cycle(edges@) == scan(edges@, at as int, left),
            decreases edges.len() - at,
        {
            let start = edges[at];
            if !visited.contains(&edge_key(start)) {
                let mut frontier: Vec<(u32, u32)> = Vec::new();
                frontier.push(start);
                proof {
                    assert(frontier@ =~= seq![start]);
                    assert(edges@.contains(frontier@[0]));
                    assert(settled(edges@, left, frontier@, 0));
                }
                while frontier.len() > 0
                    invariant
                        at < edges.len(),
                        holds(visited@, left),
                        within(edges@, frontier@),
                        orderly(edges@, left, frontier@),
                        reports_cycle(edges@) == resumes(edges@, at as int, left, frontier@),
                    decreases pending(edges@, left), frontier.len(),
                {
                    let ghost waiting = frontier@;
                    let edge = frontier.pop().unwrap();
                    let ghost rest = frontier@;
                    let ghost next = successors(edges@, edge);
                    let mut k: usize = 0;
                    while k < edges.len()
                        invariant
                            at < edges.len(),
                            k <= edges.len(),
                            holds(visited@, left),
                            waiting.len() > 0,
                            edge == waiting.last(),
                            rest == waiting.drop_last(),
                            next == successors(edges@, edge),
                            within(edges@, waiting),
                            orderly(edges@, left, waiting),
                            reports_cycle(edges@) == resumes(edges@, at as int, left, waiting),
                            frontier@ == rest + successors_upto(edges@, edge, k as int),
                            forall|j: int|
                                0 <= j < k && follows(#[trigger] edges@[j], edge) ==> !left.contains(
                                    edges@[j],
                                ),
                        decreases edges.len() - k,
                    {
                        let successor = edges[k];
                        if successor.0 == edge.1 {
                            if visited.contains(&edge_key(successor)) {
                                proof {
                                    lemma_successors(edges@, edge, successor);
                                    let m = choose|m: int|
                                        0 <= m < next.len() && next[m] == successor;
                                    assert(left.contains(next[m]));
                                    assert(any_visited(next, left));
                                }
                                return true;
                            }
                            frontier.push(successor);
                        }
                        proof {
                            assert(frontier@ =~= rest + successors_upto(edges@, edge, k + 1));
                        }
                        k += 1;
                    }
                    proof {
                        assert(!comes_round(edges@, left, edge));
                        assert forall|m: int| 0 <= m < next.len() implies !left.contains(
                            #[trigger] next[m],
                        ) by {
                            assert(next.contains(next[m]));
                            lemma_successors(edges@, edge, next[m]);
                            let j = choose|j: int| 0 <= j < edges@.len() && edges@[j] == next[m];
                            assert(follows(edges@[j], edge));
                        }
                        assert(!any_visited(next, left));
                        if left.contains(edge) {
                            assert(settled(edges@, left, waiting, waiting.len() - 1));
                            assert(successors_above(edges@, waiting, waiting.len() - 1));
                            if next.len() > 0 {
                                assert(next.contains(next[0]));
                                lemma_successors(edges@, edge, next[0]);
                                let j = choose|j: int|
                                    0 <= j < edges@.len() && edges@[j] == next[0];
                                assert(follows(edges@[j], waiting[waiting.len() - 1]));
                                assert(above(waiting, waiting.len() - 1, edges@[j]));
                            }
                            assert(next.len() == 0);
                            assert(left.insert(edge) =~= left);
                            assert(rest + next =~= rest);
                        }
                        lemma_step_keeps_orderly(edges@, left, waiting);
                        lemma_successors_within(edges@, edge);
                        lemma_pending_insert(edges@, left, edge);
                        assert(edges@.contains(waiting[waiting.len() - 1]));
                        assert(within(edges@, rest + next)) by {
                            assert forall|i: int| 0 <= i < (rest + next).len() implies edges@.contains(
                                #[trigger] (rest + next)[i],
                            ) by {
                                if i < rest.len() {
                                    assert((rest + next)[i] == waiting[i]);
                                } else {
                                    assert((rest + next)[i] == next[i - rest.len()]);
                                }
                            }
                        }
                        assert forall|e: (u32, u32)|
                            left.insert(edge).contains(e) <==> visited@.insert(
                                key_of(edge),
                            ).contains(#[trigger] key_of(e)) by {
                            lemma_key_of_injective(e, edge);
                        }
                        left = left.insert(edge);
                    }
                    visited.insert(edge_key(edge));
                }
            }
            at += 1;
        }
        proof {
            assert(!scan(edges@, edges@.len() as int, left));
            lemma_silent_check_means_acyclic(edges@);
        }
        false
    }
}

/// Different edges have different keys.
proof fn lemma_key_of_injective(a: (u32, u32), b: (u32, u32))
    ensures
        key_of(a) == key_of(b) <==> a == b,
{
}

} // verus!
