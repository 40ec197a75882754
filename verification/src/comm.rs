//! The layered lattice: layers of equal width, each vertex linked to the three
//! positions below it, and the outer positions of each pair of neighbouring
//! layers routed through one hub vertex.
//!
//! The two builders of the cube topology, which routes its outer cells
//! through hubs in the same way, are reached through this module too.

use vstd::prelude::*;
use vstd::arithmetic::mul::lemma_mul_inequality;
pub use crate::cube_flat::CubeGraphOld;
pub use crate::cube_table::CubeGraph;
use crate::link::{
    lemma_concat_contains, lemma_links_of_empty, lemma_links_of_injective, lemma_links_of_push,
    links_of,
};

verus! {

/// Id of the vertex at position `pos` of layer `layer`, where each layer holds
/// `width` vertices and layers take consecutive blocks of ids.
pub open spec fn layer_vertex(width: int, layer: int, pos: int) -> int {
    layer * width + pos
}

proof fn lemma_layer_vertex_bound(width: int, n_layers: int, layer: int, pos: int)
    requires
        0 <= layer < n_layers,
        0 <= pos < width,
    ensures
        0 <= layer_vertex(width, layer, pos) < width * n_layers,
{
    assert(layer * width + width == (layer + 1) * width) by (nonlinear_arith);
    lemma_mul_inequality(layer + 1, n_layers, width);
    assert(n_layers * width == width * n_layers) by (nonlinear_arith);
    assert(0 <= layer * width) by (nonlinear_arith)
        requires
            0 <= layer,
            0 <= width,
    ;
}

/// The table of vertex ids of a lattice: one row per layer, each row the ids
/// of that layer in order of position.
pub fn create_layers(nodes_per_layer: usize, n_layers: usize) -> (layers: Vec<Vec<u32>>)
    requires
        nodes_per_layer * n_layers <= 0x1_0000_0000,
    ensures
        layers@.len() == n_layers,
        forall|i: int| 0 <= i < n_layers ==> (#[trigger] layers@[i])@.len() == nodes_per_layer,
        forall|i: int, p: int|
            0 <= i < n_layers && 0 <= p < nodes_per_layer ==> #[trigger] layers@[i]@[p]
                == layer_vertex(nodes_per_layer as int, i, p),
{
    let mut layers: Vec<Vec<u32>> = Vec::new();
    let mut i: usize = 0;
    while i < n_layers
        invariant
            i <= n_layers,
            nodes_per_layer * n_layers <= 0x1_0000_0000,
            layers@.len() == i,
            forall|k: int| 0 <= k < i ==> (#[trigger] layers@[k])@.len() == nodes_per_layer,
            forall|k: int, p: int|
                0 <= k < i && 0 <= p < nodes_per_layer ==> #[trigger] layers@[k]@[p]
                    == layer_vertex(nodes_per_layer as int, k, p),
        decreases n_layers - i,
    {
        let mut layer: Vec<u32> = Vec::new();
        let mut p: usize = 0;
        while p < nodes_per_layer
            invariant
                i < n_layers,
                p <= nodes_per_layer,
                nodes_per_layer * n_layers <= 0x1_0000_0000,
                layer@.len() == p,
                forall|q: int|
                    0 <= q < p ==> #[trigger] layer@[q] == layer_vertex(
                        nodes_per_layer as int,
                        i as int,
                        q,
                    ),
            decreases nodes_per_layer - p,
        {
            proof {
                lemma_layer_vertex_bound(
                    nodes_per_layer as int,
                    n_layers as int,
                    i as int,
                    p as int,
                );
            }
            let id: u64 = (i as u64) * (nodes_per_layer as u64) + (p as u64);
            layer.push(id as u32);
            p += 1;
        }
        layers.push(layer);
        i += 1;
    }
    layers
}

/// Id of the hub between layer `boundary` and the layer below it. Hub ids
/// follow the ids of all `n_layers` layers, one per boundary.
pub open spec fn hub_vertex(width: int, n_layers: int, boundary: int) -> int {
    width * n_layers + boundary
}

/// The links that leave position `pos` of layer `boundary` for the layer
/// below: to the position on its left if there is one, to the position
/// straight below, and to the position on its right if there is one.
pub open spec fn fan(width: int, boundary: int, pos: int) -> Seq<(int, int)> {
    let vertex = layer_vertex(width, boundary, pos);
    let left = if pos >= 1 {
        seq![(vertex, layer_vertex(width, boundary + 1, pos - 1))]
    } else {
        Seq::empty()
    };
    let right = if pos + 1 < width {
        seq![(vertex, layer_vertex(width, boundary + 1, pos + 1))]
    } else {
        Seq::empty()
    };
    left + seq![(vertex, layer_vertex(width, boundary + 1, pos))] + right
}

/// The fans of the first `upto` positions of layer `boundary`, in order.
pub open spec fn fans_of_boundary(width: int, boundary: int, upto: int) -> Seq<(int, int)>
    decreases upto,
{
    if upto <= 0 {
        Seq::empty()
    } else {
        fans_of_boundary(width, boundary, upto - 1) + fan(width, boundary, upto - 1)
    }
}

/// The fans of every position of the first `boundaries` layers, layer by layer.
pub open spec fn fans(width: int, boundaries: int) -> Seq<(int, int)>
    decreases boundaries,
{
    if boundaries <= 0 {
        Seq::empty()
    } else {
        fans(width, boundaries - 1) + fans_of_boundary(width, boundaries - 1, width)
    }
}

/// The two links that route position `pos` of layer `boundary` through the
/// hub of that boundary: into the hub, and out of it to the same position of
/// the layer below.
pub open spec fn hub_pair(width: int, n_layers: int, boundary: int, pos: int) -> Seq<(int, int)> {
    let hub = hub_vertex(width, n_layers, boundary);
    seq![
        (layer_vertex(width, boundary, pos), hub),
        (hub, layer_vertex(width, boundary + 1, pos)),
    ]
}

/// The hub pairs of the positions from `inside` up to, not including, `upto`
/// of layer `boundary`, in order.
pub open spec fn hub_pairs_of_boundary(
    inside: int,
    width: int,
    n_layers: int,
    boundary: int,
    upto: int,
) -> Seq<(int, int)>
    decreases upto - inside,
{
    if upto <= inside {
        Seq::empty()
    } else {
        hub_pairs_of_boundary(inside, width, n_layers, boundary, upto - 1) + hub_pair(
            width,
            n_layers,
            boundary,
            upto - 1,
        )
    }
}

/// The hub pairs of the outer positions of the first `boundaries` layers,
/// layer by layer.
pub open spec fn hub_pairs(inside: int, width: int, n_layers: int, boundaries: int) -> Seq<
    (int, int),
>
    decreases boundaries,
{
    if boundaries <= 0 {
        Seq::empty()
    } else {
        hub_pairs(inside, width, n_layers, boundaries - 1) + hub_pairs_of_boundary(
            inside,
            width,
            n_layers,
            boundaries - 1,
            width,
        )
    }
}

/// The links of the lattice of `n_layers` layers of `inside + outside`
/// vertices: nothing for fewer than two layers or for empty layers; else the
/// fans of every layer but the last, followed by the hub pairs of the last
/// `outside` positions of each of those layers.
pub open spec fn lattice_links(inside: int, outside: int, n_layers: int) -> Seq<(int, int)> {
    if n_layers <= 1 || inside + outside <= 0 {
        Seq::empty()
    } else {
        fans(inside + outside, n_layers - 1) + hub_pairs(
            inside,
            inside + outside,
            n_layers,
            n_layers - 1,
        )
    }
}

/// How many vertex ids the lattice names, hubs included: the ids are the
/// numbers below this count.
pub open spec fn lattice_ids(inside: int, outside: int, n_layers: int) -> int {
    if n_layers <= 1 || inside + outside <= 0 {
        0
    } else if outside <= 0 {
        (inside + outside) * n_layers
    } else {
        (inside + outside) * n_layers + (n_layers - 1)
    }
}

/// The link from position `p` of layer `i` to position `q` of the next layer.
pub open spec fn fan_link(width: int, i: int, p: int, q: int) -> (int, int) {
    (layer_vertex(width, i, p), layer_vertex(width, i + 1, q))
}

/// The link from position `j` of layer `i` into the hub below that layer.
pub open spec fn hub_entry(width: int, n_layers: int, i: int, j: int) -> (int, int) {
    (layer_vertex(width, i, j), hub_vertex(width, n_layers, i))
}

/// The link from the hub below layer `i` to position `j` of the next layer.
pub open spec fn hub_exit(width: int, n_layers: int, i: int, j: int) -> (int, int) {
    (hub_vertex(width, n_layers, i), layer_vertex(width, i + 1, j))
}

/// `link` joins a position of one of the first `boundaries` layers to the
/// same position of the next layer or to one beside it.
pub open spec fn is_fan_link(width: int, boundaries: int, link: (int, int)) -> bool {
    exists|i: int, p: int, q: int|
        0 <= i < boundaries && 0 <= p < width && 0 <= q < width && p - 1 <= q <= p + 1 && link
            == #[trigger] fan_link(width, i, p, q)
}

/// `link` leads from one of the first `boundaries` layers, at a position
/// from `inside` on, into the hub below that layer.
pub open spec fn is_hub_entry(
    inside: int,
    width: int,
    n_layers: int,
    boundaries: int,
    link: (int, int),
) -> bool {
    exists|i: int, j: int|
        0 <= i < boundaries && inside <= j < width && link == #[trigger] hub_entry(
            width,
            n_layers,
            i,
            j,
        )
}

/// `link` leads from the hub below one of the first `boundaries` layers to
/// the next layer, at a position from `inside` on.
pub open spec fn is_hub_exit(
    inside: int,
    width: int,
    n_layers: int,
    boundaries: int,
    link: (int, int),
) -> bool {
    exists|i: int, j: int|
        0 <= i < boundaries && inside <= j < width && link == #[trigger] hub_exit(
            width,
            n_layers,
            i,
            j,
        )
}

/// `link` enters or leaves the hub below one of the first `boundaries`
/// layers, at a position from `inside` on.
pub open spec fn is_hub_link(
    inside: int,
    width: int,
    n_layers: int,
    boundaries: int,
    link: (int, int),
) -> bool {
    is_hub_entry(inside, width, n_layers, boundaries, link) || is_hub_exit(
        inside,
        width,
        n_layers,
        boundaries,
        link,
    )
}

proof fn lemma_fan_contains(width: int, boundary: int, pos: int, link: (int, int))
    requires
        0 <= pos < width,
    ensures
        fan(width, boundary, pos).contains(link) <==> exists|q: int|
            0 <= q < width && pos - 1 <= q <= pos + 1 && link == #[trigger] fan_link(
                width,
                boundary,
                pos,
                q,
            ),
{
    let links = fan(width, boundary, pos);
    if links.contains(link) {
        let k = choose|k: int| 0 <= k < links.len() && links[k] == link;
        if pos >= 1 {
            if k == 0 {
                assert(link == fan_link(width, boundary, pos, pos - 1));
            } else if k == 1 {
                assert(link == fan_link(width, boundary, pos, pos));
            } else {
                assert(link == fan_link(width, boundary, pos, pos + 1));
            }
        } else {
            if k == 0 {
                assert(link == fan_link(width, boundary, pos, pos));
            } else {
                assert(link == fan_link(width, boundary, pos, pos + 1));
            }
        }
    }
    if exists|q: int|
        0 <= q < width && pos - 1 <= q <= pos + 1 && link == #[trigger] fan_link(
            width,
            boundary,
            pos,
            q,
        ) {
        let q = choose|q: int|
            0 <= q < width && pos - 1 <= q <= pos + 1 && link == #[trigger] fan_link(
                width,
                boundary,
                pos,
                q,
            );
        let shift: int = if pos >= 1 {
            1
        } else {
            0
        };
        assert(links[q - pos + shift] == link);
    }
}

proof fn lemma_fans_of_boundary_contains(width: int, boundary: int, upto: int, link: (int, int))
    requires
        0 <= upto <= width,
    ensures
        fans_of_boundary(width, boundary, upto).contains(link) <==> exists|p: int, q: int|
            0 <= p < upto && 0 <= q < width && p - 1 <= q <= p + 1 && link == #[trigger] fan_link(
                width,
                boundary,
                p,
                q,
            ),
    decreases upto,
{
    if upto > 0 {
        lemma_fans_of_boundary_contains(width, boundary, upto - 1, link);
        lemma_fan_contains(width, boundary, upto - 1, link);
        lemma_concat_contains(
            fans_of_boundary(width, boundary, upto - 1),
            fan(width, boundary, upto - 1),
            link,
        );
        if fans_of_boundary(width, boundary, upto).contains(link) {
            if fan(width, boundary, upto - 1).contains(link) {
                let q = choose|q: int|
                    0 <= q < width && upto - 2 <= q <= upto && link == #[trigger] fan_link(
                        width,
                        boundary,
                        upto - 1,
                        q,
                    );
                assert(link == fan_link(width, boundary, upto - 1, q));
            }
        }
    }
}

proof fn lemma_fans_contains(width: int, boundaries: int, link: (int, int))
    requires
        0 <= width,
        0 <= boundaries,
    ensures
        fans(width, boundaries).contains(link) <==> is_fan_link(width, boundaries, link),
    decreases boundaries,
{
    if boundaries > 0 {
        lemma_fans_contains(width, boundaries - 1, link);
        lemma_fans_of_boundary_contains(width, boundaries - 1, width, link);
        lemma_concat_contains(
            fans(width, boundaries - 1),
            fans_of_boundary(width, boundaries - 1, width),
            link,
        );
        if fans(width, boundaries).contains(link) {
            if fans_of_boundary(width, boundaries - 1, width).contains(link) {
                let (p, q) = choose|p: int, q: int|
                    0 <= p < width && 0 <= q < width && p - 1 <= q <= p + 1 && link
                        == #[trigger] fan_link(width, boundaries - 1, p, q);
                assert(link == fan_link(width, boundaries - 1, p, q));
            } else {
                let (i, p, q) = choose|i: int, p: int, q: int|
                    0 <= i < boundaries - 1 && 0 <= p < width && 0 <= q < width && p - 1 <= q <= p
                        + 1 && link == #[trigger] fan_link(width, i, p, q);
                assert(link == fan_link(width, i, p, q));
            }
        }
        if is_fan_link(width, boundaries, link) {
            let (i, p, q) = choose|i: int, p: int, q: int|
                0 <= i < boundaries && 0 <= p < width && 0 <= q < width && p - 1 <= q <= p + 1
                    && link == #[trigger] fan_link(width, i, p, q);
            if i < boundaries - 1 {
                assert(is_fan_link(width, boundaries - 1, link));
            } else {
                assert(link == fan_link(width, boundaries - 1, p, q));
            }
        }
    }
}

proof fn lemma_hub_pairs_of_boundary_contains(
    inside: int,
    width: int,
    n_layers: int,
    boundary: int,
    upto: int,
    link: (int, int),
)
    requires
        inside <= upto,
    ensures
        hub_pairs_of_boundary(inside, width, n_layers, boundary, upto).contains(link) <==> (
        exists|j: int| inside <= j < upto && link == #[trigger] hub_entry(width, n_layers, boundary, j))
            || (exists|j: int|
            inside <= j < upto && link == #[trigger] hub_exit(width, n_layers, boundary, j)),
    decreases upto - inside,
{
    if upto > inside {
        let before = hub_pairs_of_boundary(inside, width, n_layers, boundary, upto - 1);
        let pair = hub_pair(width, n_layers, boundary, upto - 1);
        lemma_hub_pairs_of_boundary_contains(inside, width, n_layers, boundary, upto - 1, link);
        lemma_concat_contains(before, pair, link);
        if pair.contains(link) {
            let k = choose|k: int| 0 <= k < pair.len() && pair[k] == link;
            assert(link == hub_entry(width, n_layers, boundary, upto - 1) || link == hub_exit(
                width,
                n_layers,
                boundary,
                upto - 1,
            ));
        }
        if link == hub_entry(width, n_layers, boundary, upto - 1) {
            assert(pair[0] == link);
        }
        if link == hub_exit(width, n_layers, boundary, upto - 1) {
            assert(pair[1] == link);
        }
    }
}

proof fn lemma_hub_pairs_contains(
    inside: int,
    width: int,
    n_layers: int,
    boundaries: int,
    link: (int, int),
)
    requires
        inside <= width,
        0 <= boundaries,
    ensures
        hub_pairs(inside, width, n_layers, boundaries).contains(link) <==> is_hub_link(
            inside,
            width,
            n_layers,
            boundaries,
            link,
        ),
    decreases boundaries,
{
    if boundaries > 0 {
        let before = hub_pairs(inside, width, n_layers, boundaries - 1);
        let last = hub_pairs_of_boundary(inside, width, n_layers, boundaries - 1, width);
        lemma_hub_pairs_contains(inside, width, n_layers, boundaries - 1, link);
        lemma_hub_pairs_of_boundary_contains(inside, width, n_layers, boundaries - 1, width, link);
        lemma_concat_contains(before, last, link);
        if is_hub_entry(inside, width, n_layers, boundaries, link) {
            let (i, j) = choose|i: int, j: int|
                0 <= i < boundaries && inside <= j < width && link == #[trigger] hub_entry(
                    width,
                    n_layers,
                    i,
                    j,
                );
            if i < boundaries - 1 {
                assert(is_hub_entry(inside, width, n_layers, boundaries - 1, link));
            }
        }
        if is_hub_exit(inside, width, n_layers, boundaries, link) {
            let (i, j) = choose|i: int, j: int|
                0 <= i < boundaries && inside <= j < width && link == #[trigger] hub_exit(
                    width,
                    n_layers,
                    i,
                    j,
                );
            if i < boundaries - 1 {
                assert(is_hub_exit(inside, width, n_layers, boundaries - 1, link));
            }
        }
    }
}

/// What the lattice holds, order aside: a link is among the links of the
/// lattice exactly when there are at least two layers and the link either
/// joins a position to the same or a neighbouring position one layer down, or
/// enters or leaves the hub of a boundary at one of the outer positions.
pub proof fn lemma_lattice_links_contains(
    inside: int,
    outside: int,
    n_layers: int,
    link: (int, int),
)
    requires
        0 <= inside,
        0 <= outside,
    ensures
        lattice_links(inside, outside, n_layers).contains(link) <==> n_layers >= 2 && (is_fan_link(
            inside + outside,
            n_layers - 1,
            link,
        ) || is_hub_link(inside, inside + outside, n_layers, n_layers - 1, link)),
{
    let width = inside + outside;
    if n_layers >= 2 {
        lemma_fans_contains(width, n_layers - 1, link);
        lemma_hub_pairs_contains(inside, width, n_layers, n_layers - 1, link);
        lemma_concat_contains(
            fans(width, n_layers - 1),
            hub_pairs(inside, width, n_layers, n_layers - 1),
            link,
        );
    }
}

/// Hub ids lie beyond the ids of all layers: no hub shares its id with a
/// vertex of a layer.
pub proof fn lemma_hub_beyond_layers(width: int, n_layers: int, layer: int, pos: int, boundary: int)
    requires
        0 <= layer < n_layers,
        0 <= pos < width,
        0 <= boundary,
    ensures
        0 <= layer_vertex(width, layer, pos) < hub_vertex(width, n_layers, boundary),
{
    lemma_layer_vertex_bound(width, n_layers, layer, pos);
}

/// Every link of the lattice joins two of the ids that the lattice names:
/// both ends are below [`lattice_ids`].
pub proof fn lemma_lattice_links_within_ids(
    inside: int,
    outside: int,
    n_layers: int,
    link: (int, int),
)
    requires
        0 <= inside,
        0 <= outside,
        lattice_links(inside, outside, n_layers).contains(link),
    ensures
        0 <= link.0 < lattice_ids(inside, outside, n_layers),
        0 <= link.1 < lattice_ids(inside, outside, n_layers),
{
    let width = inside + outside;
    lemma_lattice_links_contains(inside, outside, n_layers, link);
    if is_fan_link(width, n_layers - 1, link) {
        let (i, p, q) = choose|i: int, p: int, q: int|
            0 <= i < n_layers - 1 && 0 <= p < width && 0 <= q < width && p - 1 <= q <= p + 1 && link
                == #[trigger] fan_link(width, i, p, q);
        lemma_layer_vertex_bound(width, n_layers, i, p);
        lemma_layer_vertex_bound(width, n_layers, i + 1, q);
    } else if is_hub_entry(inside, width, n_layers, n_layers - 1, link) {
        let (i, j) = choose|i: int, j: int|
            0 <= i < n_layers - 1 && inside <= j < width && link == #[trigger] hub_entry(
                width,
                n_layers,
                i,
                j,
            );
        lemma_layer_vertex_bound(width, n_layers, i, j);
    } else {
        let (i, j) = choose|i: int, j: int|
            0 <= i < n_layers - 1 && inside <= j < width && link == #[trigger] hub_exit(
                width,
                n_layers,
                i,
                j,
            );
        lemma_layer_vertex_bound(width, n_layers, i + 1, j);
    }
}

/// The sizes determine the edge list: two edge lists that both have the
/// links of the lattice of the same sizes are equal, element for element.
pub proof fn lemma_lattice_edges_unique(
    inside: int,
    outside: int,
    n_layers: int,
    first: Seq<(u32, u32)>,
    second: Seq<(u32, u32)>,
)
    requires
        links_of(first) == lattice_links(inside, outside, n_layers),
        links_of(second) == lattice_links(inside, outside, n_layers),
    ensures
        first == second,
{
    lemma_links_of_injective(first, second);
}

proof fn lemma_hub_pairs_without_outside(inside: int, n_layers: int, boundaries: int)
    ensures
        hub_pairs(inside, inside, n_layers, boundaries) == Seq::<(int, int)>::empty(),
    decreases boundaries,
{
    if boundaries > 0 {
        lemma_hub_pairs_without_outside(inside, n_layers, boundaries - 1);
    }
}

/// The edges of the lattice of `n_layers` layers, each of `inside` inner and
/// `outside` outer vertices.
///
/// The ids, hubs included, have to fit 32 bits.
pub fn comp_graph(inside: usize, outside: usize, n_layers: usize) -> (edges: Vec<(u32, u32)>)
    requires
        lattice_ids(inside as int, outside as int, n_layers as int) <= 0x1_0000_0000,
    ensures
        links_of(edges@) == lattice_links(inside as int, outside as int, n_layers as int),
{
    if n_layers <= 1 || (inside == 0 && outside == 0) {
        proof {
            lemma_links_of_empty();
        }
        return Vec::new();
    }
    assert(inside + outside <= 0x1_0000_0000) by (nonlinear_arith)
        requires
            (inside + outside) * n_layers <= 0x1_0000_0000,
            n_layers >= 2,
    ;
    let wide: u64 = inside as u64 + outside as u64;
    let ghost width = inside + outside;
    assert(width * n_layers <= 0x1_0000_0000);
    assert(width <= 0x8000_0000) by (nonlinear_arith)
        requires
            width * n_layers <= 0x1_0000_0000,
            n_layers >= 2,
    ;
    let width: usize = wide as usize;
    let layers = create_layers(width, n_layers);
    let mut edges: Vec<(u32, u32)> = Vec::new();
    proof {
        lemma_links_of_empty();
    }

    let mut b: usize = 0;
    while b + 1 < n_layers
        invariant
            b + 1 <= n_layers,
            width == inside + outside,
            layers@.len() == n_layers,
            forall|i: int| 0 <= i < n_layers ==> (#[trigger] layers@[i])@.len() == width,
            forall|i: int, p: int|
                0 <= i < n_layers && 0 <= p < width ==> #[trigger] layers@[i]@[p] == layer_vertex(
                    width as int,
                    i,
                    p,
                ),
            links_of(edges@) == fans(width as int, b as int),
        decreases n_layers - b,
    {
        let mut p: usize = 0;
        while p < width
            invariant
                b + 1 < n_layers,
                p <= width,
                layers@.len() == n_layers,
                forall|i: int| 0 <= i < n_layers ==> (#[trigger] layers@[i])@.len() == width,
                forall|i: int, q: int|
                    0 <= i < n_layers && 0 <= q < width ==> #[trigger] layers@[i]@[q]
                        == layer_vertex(width as int, i, q),
                links_of(edges@) == fans(width as int, b as int) + fans_of_boundary(
                    width as int,
                    b as int,
                    p as int,
                ),
            decreases width - p,
        {
            let ghost before = edges@;
            let vertex = layers[b][p];
            if p >= 1 {
                let left = layers[b + 1][p - 1];
                proof {
                    lemma_links_of_push(edges@, (vertex, left));
                }
                edges.push((vertex, left));
            }
            let below = layers[b + 1][p];
            proof {
                lemma_links_of_push(edges@, (vertex, below));
            }
            edges.push((vertex, below));
            if p + 1 < width {
                let right = layers[b + 1][p + 1];
                proof {
                    lemma_links_of_push(edges@, (vertex, right));
                }
                edges.push((vertex, right));
            }
            assert(links_of(edges@) =~= links_of(before) + fan(width as int, b as int, p as int));
            assert(links_of(edges@) =~= fans(width as int, b as int) + fans_of_boundary(
                width as int,
                b as int,
                p + 1,
            ));
            p += 1;
        }
        b += 1;
    }

    if outside == 0 {
        proof {
            lemma_hub_pairs_without_outside(inside as int, n_layers as int, n_layers - 1);
        }
        return edges;
    }
    let mut comm: u64 = wide * (n_layers as u64);
    let mut b: usize = 0;
    while b + 1 < n_layers
        invariant
            b + 1 <= n_layers,
            width == inside + outside,
            outside > 0,
            width * n_layers + (n_layers - 1) <= 0x1_0000_0000,
            comm == hub_vertex(width as int, n_layers as int, b as int),
            layers@.len() == n_layers,
            forall|i: int| 0 <= i < n_layers ==> (#[trigger] layers@[i])@.len() == width,
            forall|i: int, p: int|
                0 <= i < n_layers && 0 <= p < width ==> #[trigger] layers@[i]@[p] == layer_vertex(
                    width as int,
                    i,
                    p,
                ),
            links_of(edges@) == fans(width as int, n_layers - 1) + hub_pairs(
                inside as int,
                width as int,
                n_layers as int,
                b as int,
            ),
        decreases n_layers - b,
    {
        let hub: u32 = comm as u32;
        let mut j: usize = inside;
        while j < width
            invariant
                b + 1 < n_layers,
                inside <= j <= width,
                hub == hub_vertex(width as int, n_layers as int, b as int),
                layers@.len() == n_layers,
                forall|i: int| 0 <= i < n_layers ==> (#[trigger] layers@[i])@.len() == width,
                forall|i: int, p: int|
                    0 <= i < n_layers && 0 <= p < width ==> #[trigger] layers@[i]@[p]
                        == layer_vertex(width as int, i, p),
                links_of(edges@) == fans(width as int, n_layers - 1) + hub_pairs(
                    inside as int,
                    width as int,
                    n_layers as int,
                    b as int,
                ) + hub_pairs_of_boundary(
                    inside as int,
                    width as int,
                    n_layers as int,
                    b as int,
                    j as int,
                ),
            decreases width - j,
        {
            let ghost before = edges@;
            let upper = layers[b][j];
            let lower = layers[b + 1][j];
            proof {
                lemma_links_of_push(edges@, (upper, hub));
                lemma_links_of_push(edges@.push((upper, hub)), (hub, lower));
            }
            edges.push((upper, hub));
            edges.push((hub, lower));
            assert(links_of(edges@) =~= links_of(before) + hub_pair(
                width as int,
                n_layers as int,
                b as int,
                j as int,
            ));
            assert(links_of(edges@) =~= fans(width as int, n_layers - 1) + hub_pairs(
                inside as int,
                width as int,
                n_layers as int,
                b as int,
            ) + hub_pairs_of_boundary(
                inside as int,
                width as int,
                n_layers as int,
                b as int,
                j + 1,
            ));
            j += 1;
        }
        assert(links_of(edges@) =~= fans(width as int, n_layers - 1) + hub_pairs(
            inside as int,
            width as int,
            n_layers as int,
            b + 1,
        ));
        comm += 1;
        b += 1;
    }
    edges
}

} // verus!
