//! The cube topology built over a table of vertex ids: one entry per cell
//! and timestep, read back by position when the edges are laid.

use vstd::prelude::*;
use crate::grid::{shape_of, step_of, CubeShape};
use crate::link::{
    ids_of, lemma_ids_of_push, lemma_links_of_empty, lemma_links_of_no_duplicates,
    lemma_links_of_push, links_of,
};

verus! {

/// One row of the table: the ids of the cells `(x, y, 0..depth)` at timestep
/// `t`.
pub open spec fn row_holds(row: Seq<u32>, shape: CubeShape, t: int, x: int, y: int) -> bool {
    &&& row.len() == shape.depth
    &&& forall|z: int|
        0 <= z < shape.depth ==> #[trigger] row[z] == shape.vertex(t, shape.flatten(x, y, z))
}

/// One plane of the table: the rows of the cells `(x, 0..height, ..)` at
/// timestep `t`.
pub open spec fn plane_holds(plane: Seq<Vec<u32>>, shape: CubeShape, t: int, x: int) -> bool {
    &&& plane.len() == shape.height
    &&& forall|y: int| 0 <= y < shape.height ==> row_holds(#[trigger] plane[y]@, shape, t, x, y)
}

/// One copy of the grid in the table: the planes of timestep `t`.
pub open spec fn copy_holds(copy: Seq<Vec<Vec<u32>>>, shape: CubeShape, t: int) -> bool {
    &&& copy.len() == shape.width
    &&& forall|x: int| 0 <= x < shape.width ==> plane_holds(#[trigger] copy[x]@, shape, t, x)
}

/// The table of a topology: nothing where no grid is built; else one copy
/// per timestep, holding at `[t][x][y][z]` the vertex id of the cell
/// `(x, y, z)` at timestep `t`.
pub open spec fn table_holds(table: Seq<Vec<Vec<Vec<u32>>>>, shape: CubeShape) -> bool {
    &&& table.len() == if shape.buildable() {
        shape.timesteps
    } else {
        0
    }
    &&& forall|t: int| 0 <= t < table.len() ==> copy_holds(#[trigger] table[t]@, shape, t)
}

/// A grid of `width` by `height` by `depth` cells over `timesteps` timesteps,
/// held with the table of its vertex ids.
pub struct CubeGraph {
    cubes: Vec<Vec<Vec<Vec<u32>>>>,
    width: usize,
    height: usize,
    depth: usize,
    timesteps: usize,
}

impl View for CubeGraph {
    type V = CubeShape;

    closed spec fn view(&self) -> CubeShape {
        shape_of(self.width, self.height, self.depth, self.timesteps)
    }
}

/// The index `base` moved one back, not at all or one forward, as `part`
/// says; `None` where that is no index.
fn shifted(base: usize, part: usize) -> (moved: Option<usize>)
    requires
        part < 3,
    ensures
        match moved {
            Some(index) => index == base + step_of(part as int),
            None => base + step_of(part as int) < 0 || base + step_of(part as int) > usize::MAX,
        },
{
    if part == 0 {
        if base == 0 {
            None
        } else {
            Some(base - 1)
        }
    } else if part == 1 {
        Some(base)
    } else {
        if base == usize::MAX {
            None
        } else {
            Some(base + 1)
        }
    }
}

impl CubeGraph {
    #[verifier::type_invariant]
    spec fn well_formed(self) -> bool {
        &&& self@.fits()
        &&& table_holds(self.cubes@, self@)
    }

    /// The grid of the given sizes, with its table filled. Where a grid is
    /// built, its vertex ids, hubs included, have to fit 32 bits.
    pub fn new(width: usize, height: usize, depth: usize, timesteps: usize) -> (graph: Self)
        requires
            shape_of(width, height, depth, timesteps).fits(),
        ensures
            graph@ == shape_of(width, height, depth, timesteps),
    {
        let ghost shape = shape_of(width, height, depth, timesteps);
        let mut cubes: Vec<Vec<Vec<Vec<u32>>>> = Vec::new();
        if width < 3 || height < 3 || depth < 3 {
            return Self { cubes, width, height, depth, timesteps };
        }
        let mut t: usize = 0;
        while t < timesteps
            invariant
                shape == shape_of(width, height, depth, timesteps),
                shape.buildable(),
                shape.fits(),
                t <= timesteps,
                cubes@.len() == t,
                forall|s: int| 0 <= s < t ==> copy_holds(#[trigger] cubes@[s]@, shape, s),
            decreases timesteps - t,
        {
            proof {
                shape.lemma_live_sizes();
                shape.lemma_vertex_in_range(t as int, 0);
            }
            let cells: u64 = (width as u64) * (height as u64) * (depth as u64);
            let base: u64 = (t as u64) * cells;
            let mut cube: Vec<Vec<Vec<u32>>> = Vec::new();
            let mut x: usize = 0;
            while x < width
                invariant
                    shape == shape_of(width, height, depth, timesteps),
                    shape.live(),
                    shape.fits(),
                    t < timesteps,
                    cells == shape.cells(),
                    base == t * shape.cells(),
                    x <= width,
                    cube@.len() == x,
                    forall|a: int| 0 <= a < x ==> plane_holds(#[trigger] cube@[a]@, shape, t as int, a),
                decreases width - x,
            {
                let mut plane: Vec<Vec<u32>> = Vec::new();
                let mut y: usize = 0;
                while y < height
                    invariant
                        shape == shape_of(width, height, depth, timesteps),
                        shape.live(),
                        shape.fits(),
                        t < timesteps,
                        cells == shape.cells(),
                        base == t * shape.cells(),
                        x < width,
                        y <= height,
                        plane@.len() == y,
                        forall|b: int|
                            0 <= b < y ==> row_holds(
                                #[trigger] plane@[b]@,
                                shape,
                                t as int,
                                x as int,
                                b,
                            ),
                    decreases height - y,
                {
                    let mut row: Vec<u32> = Vec::new();
                    let mut z: usize = 0;
                    while z < depth
                        invariant
                            shape == shape_of(width, height, depth, timesteps),
                            shape.live(),
                            shape.fits(),
                            t < timesteps,
                            cells == shape.cells(),
                            base == t * shape.cells(),
                            x < width,
                            y < height,
                            z <= depth,
                            row@.len() == z,
                            forall|c: int|
                                0 <= c < z ==> #[trigger] row@[c] == shape.vertex(
                                    t as int,
                                    shape.flatten(x as int, y as int, c),
                                ),
                        decreases depth - z,
                    {
                        proof {
                            shape.lemma_live_sizes();
                            shape.lemma_flatten_in_range(x as int, y as int, z as int);
                            shape.lemma_vertex_in_range(
                                t as int,
                                shape.flatten(x as int, y as int, z as int),
                            );
                            assert(0 <= y * (width * depth) <= shape.flatten(
                                x as int,
                                y as int,
                                z as int,
                            )) by (nonlinear_arith)
                                requires
                                    0 <= x,
                                    0 <= y,
                                    0 <= z,
                                    0 <= width,
                                    0 <= depth,
                                    shape.flatten(x as int, y as int, z as int) == y * (width
                                        * depth) + x * depth + z,
                            ;
                            assert(0 <= x * depth <= shape.flatten(x as int, y as int, z as int))
                                by (nonlinear_arith)
                                requires
                                    0 <= x,
                                    0 <= y,
                                    0 <= z,
                                    0 <= width,
                                    0 <= depth,
                                    shape.flatten(x as int, y as int, z as int) == y * (width
                                        * depth) + x * depth + z,
                            ;
                        }
                        let in_plane: u64 = (y as u64) * ((width as u64) * (depth as u64));
                        let in_row: u64 = (x as u64) * (depth as u64);
                        let id: u64 = base + in_plane + in_row + (z as u64);
                        row.push(id as u32);
                        z += 1;
                    }
                    plane.push(row);
                    y += 1;
                }
                cube.push(plane);
                x += 1;
            }
            cubes.push(cube);
            t += 1;
        }
        Self { cubes, width, height, depth, timesteps }
    }

    /// The table of vertex ids.
    pub fn cubes(&self) -> (table: &Vec<Vec<Vec<Vec<u32>>>>)
        ensures
            table_holds(table@, self@),
    {
        proof {
            use_type_invariant(self);
        }
        &self.cubes
    }

    /// The edges of the topology, cell by cell within each timestep: first the
    /// links of a cell to the cells around it in the next timestep, then, for a
    /// cell on a face, its two links through the hub.
    pub fn build(&self) -> (edges: Vec<(u32, u32)>)
        ensures
            links_of(edges@) == self@.links(),
            edges@.no_duplicates(),
            !self@.buildable() ==> edges@.len() == 0,
    {
        let mut edges: Vec<(u32, u32)> = Vec::new();
        proof {
            use_type_invariant(self);
            lemma_links_of_empty();
        }
        if self.width < 3 || self.height < 3 || self.depth < 3 {
            return edges;
        }
        if self.timesteps <= 1 {
            return edges;
        }
        let ghost shape = self@;
        proof {
            shape.lemma_live_sizes();
        }
        let cells: u64 = (self.width as u64) * (self.height as u64) * (self.depth as u64);
        let mut comm_id: u64 = cells * (self.timesteps as u64);
        let mut ts: usize = 0;
        while ts + 1 < self.timesteps
            invariant
                shape == self@,
                shape.live(),
                shape.fits(),
                shape.timesteps >= 2,
                ts + 1 <= self.timesteps,
                comm_id == shape.hub(ts as int),
                links_of(edges@) == shape.links_upto(ts as int),
            decreases self.timesteps - ts,
        {
            let mut y: usize = 0;
            while y < self.height
                invariant
                    shape == self@,
                    shape.live(),
                    shape.fits(),
                    shape.timesteps >= 2,
                    ts + 1 < self.timesteps,
                    comm_id == shape.hub(ts as int),
                    y <= self.height,
                    links_of(edges@) == shape.links_upto(ts as int) + shape.snapshot_links(
                        ts as int,
                        y * (shape.width * shape.depth),
                    ),
                decreases self.height - y,
            {
                let mut x: usize = 0;
                while x < self.width
                    invariant
                        shape == self@,
                        shape.live(),
                        shape.fits(),
                        shape.timesteps >= 2,
                        ts + 1 < self.timesteps,
                        comm_id == shape.hub(ts as int),
                        y < self.height,
                        x <= self.width,
                        links_of(edges@) == shape.links_upto(ts as int) + shape.snapshot_links(
                            ts as int,
                            y * (shape.width * shape.depth) + x * shape.depth,
                        ),
                    decreases self.width - x,
                {
                    let mut z: usize = 0;
                    while z < self.depth
                        invariant
                            shape == self@,
                            shape.live(),
                            shape.fits(),
                            shape.timesteps >= 2,
                            ts + 1 < self.timesteps,
                            comm_id == shape.hub(ts as int),
                            y < self.height,
                            x < self.width,
                            z <= self.depth,
                            links_of(edges@) == shape.links_upto(ts as int) + shape.snapshot_links(
                                ts as int,
                                shape.flatten(x as int, y as int, z as int),
                            ),
                        decreases self.depth - z,
                    {
                        let ghost cell = shape.flatten(x as int, y as int, z as int);
                        let ghost before = edges@;
                        let ghost hops = shape.step_links(ts as int, cell);
                        proof {
                            use_type_invariant(self);
                            shape.lemma_live_sizes();
                            shape.lemma_flatten_in_range(x as int, y as int, z as int);
                            shape.lemma_flatten_coords(x as int, y as int, z as int);
                            shape.lemma_vertex_in_range(ts as int, cell);
                            shape.lemma_vertex_in_range(ts + 1, cell);
                            assert(copy_holds(self.cubes@[ts as int]@, shape, ts as int));
                            assert(plane_holds(
                                self.cubes@[ts as int]@[x as int]@,
                                shape,
                                ts as int,
                                x as int,
                            ));
                            assert(row_holds(
                                self.cubes@[ts as int]@[x as int]@[y as int]@,
                                shape,
                                ts as int,
                                x as int,
                                y as int,
                            ));
                            assert(copy_holds(self.cubes@[ts + 1]@, shape, ts + 1));
                            assert(plane_holds(
                                self.cubes@[ts + 1]@[x as int]@,
                                shape,
                                ts + 1,
                                x as int,
                            ));
                            assert(row_holds(
                                self.cubes@[ts + 1]@[x as int]@[y as int]@,
                                shape,
                                ts + 1,
                                x as int,
                                y as int,
                            ));
                        }
                        let cur: u32 = self.cubes[ts][x][y][z];
                        let around = self.get_neighbors(x, y, z, ts);
                        assert(ids_of(around@).len() == around@.len());
                        assert(hops.len() == around@.len());
                        let mut i: usize = 0;
                        while i < around.len()
                            invariant
                                i <= around.len(),
                                hops.len() == around.len(),
                                cur == shape.vertex(ts as int, cell),
                                ids_of(around@) == shape.in_copy(
                                    ts + 1,
                                    shape.neighbors(x as int, y as int, z as int),
                                ),
                                hops == shape.step_links(ts as int, cell),
                                shape.x_of(cell) == x,
                                shape.y_of(cell) == y,
                                shape.z_of(cell) == z,
                                links_of(edges@) == links_of(before) + hops.take(i as int),
                            decreases around.len() - i,
                        {
                            let head: u32 = around[i];
                            proof {
                                assert(ids_of(around@)[i as int] == head);
                                lemma_links_of_push(edges@, (cur, head));
                                assert(hops.take(i + 1) =~= hops.take(i as int).push(hops[i as int]));
                            }
                            edges.push((cur, head));
                            i += 1;
                        }
                        assert(hops.take(around.len() as int) =~= hops);
                        if self.is_outer_vertex(x, y, z) {
                            let hub: u32 = comm_id as u32;
                            let below: u32 = self.cubes[ts + 1][x][y][z];
                            proof {
                                lemma_links_of_push(edges@, (cur, hub));
                                lemma_links_of_push(edges@.push((cur, hub)), (hub, below));
                            }
                            edges.push((cur, hub));
                            edges.push((hub, below));
                        }
                        assert(links_of(edges@) =~= links_of(before) + shape.cell_links(
                            ts as int,
                            cell,
                        ));
                        assert(links_of(edges@) =~= shape.links_upto(ts as int)
                            + shape.snapshot_links(ts as int, cell + 1));
                        z += 1;
                    }
                    assert(y * (shape.width * shape.depth) + x * shape.depth + shape.depth == y * (
                    shape.width * shape.depth) + (x + 1) * shape.depth) by (nonlinear_arith);
                    x += 1;
                }
                assert(y * (shape.width * shape.depth) + shape.width * shape.depth == (y + 1) * (
                shape.width * shape.depth)) by (nonlinear_arith);
                y += 1;
            }
            assert(shape.height * (shape.width * shape.depth) == shape.cells()) by (nonlinear_arith)
                requires
                    shape.cells() == shape.width * shape.height * shape.depth,
            ;
            comm_id += 1;
            ts += 1;
        }
        proof {
            shape.lemma_links_no_duplicates();
            lemma_links_of_no_duplicates(edges@);
        }
        edges
    }

    /// The vertex ids, at timestep `ts + 1`, of the cells around `(x, y, z)`
    /// that lie in the grid, the cell straight ahead included.
    pub fn get_neighbors(&self, x: usize, y: usize, z: usize, ts: usize) -> (neighbors: Vec<u32>)
        ensures
            ids_of(neighbors@) == self@.neighbor_vertices(ts as int, x as int, y as int, z as int),
    {
        let mut neighbors: Vec<u32> = Vec::new();
        proof {
            use_type_invariant(self);
            assert(ids_of(neighbors@) =~= Seq::<int>::empty());
        }
        if self.width < 3 || self.height < 3 || self.depth < 3 {
            return neighbors;
        }
        if ts >= self.timesteps || ts + 1 >= self.timesteps {
            return neighbors;
        }
        let ghost shape = self@;
        let next = &self.cubes[ts + 1];
        assert(shape.in_copy(ts + 1, Seq::<int>::empty()) =~= Seq::<int>::empty());
        let mut i: usize = 0;
        while i < 3
            invariant
                shape == self@,
                shape.live(),
                ts + 1 < self.timesteps,
                copy_holds(next@, shape, ts + 1),
                i <= 3,
                ids_of(neighbors@) == shape.in_copy(
                    ts + 1,
                    shape.neighbors_upto(x as int, y as int, z as int, 9 * i),
                ),
            decreases 3 - i,
        {
            let mut j: usize = 0;
            while j < 3
                invariant
                    shape == self@,
                    shape.live(),
                    ts + 1 < self.timesteps,
                    copy_holds(next@, shape, ts + 1),
                    i < 3,
                    j <= 3,
                    ids_of(neighbors@) == shape.in_copy(
                        ts + 1,
                        shape.neighbors_upto(x as int, y as int, z as int, 9 * i + 3 * j),
                    ),
                decreases 3 - j,
            {
                let mut k: usize = 0;
                while k < 3
                    invariant
                        shape == self@,
                        shape.live(),
                        ts + 1 < self.timesteps,
                        copy_holds(next@, shape, ts + 1),
                        i < 3,
                        j < 3,
                        k <= 3,
                        ids_of(neighbors@) == shape.in_copy(
                            ts + 1,
                            shape.neighbors_upto(x as int, y as int, z as int, 9 * i + 3 * j + k),
                        ),
                    decreases 3 - k,
                {
                    let ghost o = 9 * i + 3 * j + k;
                    let ghost found = shape.neighbors_upto(x as int, y as int, z as int, o);
                    assert(o / 9 == i && (o / 3) % 3 == j && o % 3 == k);
                    let nx = shifted(x, j);
                    let ny = shifted(y, i);
                    let nz = shifted(z, k);
                    if nx.is_some() && ny.is_some() && nz.is_some() {
                        let nx: usize = nx.unwrap();
                        let ny: usize = ny.unwrap();
                        let nz: usize = nz.unwrap();
                        if nx < next.len() {
                            assert(plane_holds(next@[nx as int]@, shape, ts + 1, nx as int));
                            if ny < next[nx].len() {
                                assert(row_holds(
                                    next@[nx as int]@[ny as int]@,
                                    shape,
                                    ts + 1,
                                    nx as int,
                                    ny as int,
                                ));
                                if nz < next[nx][ny].len() {
                                    let id: u32 = next[nx][ny][nz];
                                    proof {
                                        lemma_ids_of_push(neighbors@, id);
                                        assert(shape.in_copy(
                                            ts + 1,
                                            found.push(
                                                shape.flatten(nx as int, ny as int, nz as int),
                                            ),
                                        ) =~= shape.in_copy(ts + 1, found).push(id as int));
                                    }
                                    neighbors.push(id);
                                }
                            }
                        }
                    }
                    k += 1;
                }
                j += 1;
            }
            i += 1;
        }
        neighbors
    }

    /// Whether the cell `(x, y, z)` lies on one of the six faces of the grid.
    pub fn is_outer_vertex(&self, x: usize, y: usize, z: usize) -> (outer: bool)
        ensures
            outer == self@.is_outer(x as int, y as int, z as int),
    {
        x == 0 || (self.width > 0 && x == self.width - 1) || y == 0 || (self.height > 0 && y
            == self.height - 1) || z == 0 || (self.depth > 0 && z == self.depth - 1)
    }
}

} // verus!
