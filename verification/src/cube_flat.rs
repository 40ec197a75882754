//! The cube topology computed from cell numbers alone: neighbours are found
//! by adding strides to a cell number and discarding what left the grid.

use vstd::prelude::*;
use crate::grid::{shape_of, step_of, CubeShape};
use crate::link::{
    ids_of, lemma_ids_of_push, lemma_links_of_empty, lemma_links_of_no_duplicates,
    lemma_links_of_push, links_of,
};

verus! {

/// A grid of `width` by `height` by `depth` cells over `timesteps` timesteps,
/// held as its four sizes.
pub struct CubeGraphOld {
    width: usize,
    height: usize,
    depth: usize,
    timesteps: usize,
}

impl View for CubeGraphOld {
    type V = CubeShape;

    closed spec fn view(&self) -> CubeShape {
        shape_of(self.width, self.height, self.depth, self.timesteps)
    }
}

/// How far apart `a` and `b` are.
fn apart(a: u64, b: u64) -> (gap: u64)
    ensures
        gap == if a >= b {
            a - b
        } else {
            b - a
        },
{
    if a >= b {
        a - b
    } else {
        b - a
    }
}

impl CubeGraphOld {
    #[verifier::type_invariant]
    spec fn ids_fit(self) -> bool {
        self@.fits()
    }

    /// The grid of the given sizes. Where a grid is built, its vertex ids, hubs
    /// included, have to fit 32 bits.
    pub fn new(width: usize, height: usize, depth: usize, timesteps: usize) -> (graph: Self)
        requires
            shape_of(width, height, depth, timesteps).fits(),
        ensures
            graph@ == shape_of(width, height, depth, timesteps),
    {
        Self { width, height, depth, timesteps }
    }

    /// The edges of the topology, cell by cell within each timestep: first the
    /// links of a cell to the cells around it in the next timestep, then, for a
    /// cell on a face, its two links through the hub.
    pub fn build(&self) -> (edges: Vec<(u32, u32)>)
        ensures
            links_of(edges@) == self@.links(),
            edges@.no_duplicates(),
            !self@.buildable() ==> edges@.len() == 0,
    {
        let mut edges: Vec<(u32, u32)> = Vec::new();
        proof {
            use_type_invariant(self);
            lemma_links_of_empty();
        }
        if self.height < 3 || self.width < 3 || self.depth < 3 {
            return edges;
        }
        if self.timesteps <= 1 {
            return edges;
        }
        let number_of_vertices: u64 = self.size();
        let steps: u64 = self.timesteps as u64;
        let ghost shape = self@;
        assert(shape.cells() * shape.timesteps + shape.timesteps - 1 <= 0x1_0000_0000);
        proof {
            shape.lemma_live_sizes();
        }
        let mut step: u64 = 0;
        while step + 1 < steps
            invariant
                shape == self@,
                shape.buildable(),
                shape.timesteps == steps,
                steps >= 2,
                step + 1 <= steps,
                number_of_vertices == shape.cells(),
                27 <= number_of_vertices,
                shape.cells() * shape.timesteps + shape.timesteps - 1 <= 0x1_0000_0000,
                links_of(edges@) == shape.links_upto(step as int),
            decreases steps - step,
        {
            proof {
                shape.lemma_vertex_in_range(step as int, 0);
                shape.lemma_vertex_in_range(step + 1, 0);
            }
            let comm: u64 = step + number_of_vertices * steps;
            let base: u64 = step * number_of_vertices;
            let next_base: u64 = (step + 1) * number_of_vertices;
            let mut id: u64 = 0;
            while id < number_of_vertices
                invariant
                    shape == self@,
                    shape.buildable(),
                    shape.timesteps == steps,
                    step + 1 < steps,
                    id <= number_of_vertices,
                    number_of_vertices == shape.cells(),
                    shape.cells() * shape.timesteps + shape.timesteps - 1 <= 0x1_0000_0000,
                    comm == shape.hub(step as int),
                    base == step * shape.cells(),
                    next_base == (step + 1) * shape.cells(),
                    links_of(edges@) == shape.links_upto(step as int) + shape.snapshot_links(
                        step as int,
                        id as int,
                    ),
                decreases number_of_vertices - id,
            {
                proof {
                    shape.lemma_vertex_in_range(step as int, id as int);
                    shape.lemma_vertex_in_range(step + 1, id as int);
                }
                let ghost before = edges@;
                let tail: u32 = (base + id) as u32;
                let around = self.get_neighbor_indices(id as u32);
                let ghost hops = shape.step_links(step as int, id as int);
                assert(ids_of(around@).len() == around@.len());
                let mut i: usize = 0;
                while i < around.len()
                    invariant
                        shape.buildable(),
                        shape.timesteps == steps,
                        step + 1 < steps,
                        id < number_of_vertices,
                        number_of_vertices == shape.cells(),
                        shape.cells() * shape.timesteps <= 0x1_0000_0000,
                        base == step * shape.cells(),
                        next_base == (step + 1) * shape.cells(),
                        tail == shape.vertex(step as int, id as int),
                        i <= around.len(),
                        ids_of(around@) == shape.neighbor_cells(id as int),
                        hops == shape.step_links(step as int, id as int),
                        hops.len() == around.len(),
                        forall|k: int|
                            0 <= k < around.len() ==> 0 <= #[trigger] around@[k] < shape.cells(),
                        links_of(edges@) == links_of(before) + hops.take(i as int),
                    decreases around.len() - i,
                {
                    let n: u32 = around[i];
                    proof {
                        shape.lemma_vertex_in_range(step + 1, n as int);
                        assert(ids_of(around@)[i as int] == n);
                        lemma_links_of_push(edges@, (tail, (next_base + n) as u32));
                        assert(hops.take(i + 1) =~= hops.take(i as int).push(hops[i as int]));
                    }
                    edges.push((tail, (next_base + n as u64) as u32));
                    i += 1;
                }
                assert(hops.take(around.len() as int) =~= hops);
                if self.is_outer_vertex(id) {
                    proof {
                        lemma_links_of_push(edges@, (tail, comm as u32));
                        lemma_links_of_push(
                            edges@.push((tail, comm as u32)),
                            (comm as u32, (next_base + id) as u32),
                        );
                    }
                    edges.push((tail, comm as u32));
                    edges.push((comm as u32, (next_base + id) as u32));
                }
                assert(links_of(edges@) =~= links_of(before) + shape.cell_links(
                    step as int,
                    id as int,
                ));
                assert(links_of(edges@) =~= shape.links_upto(step as int) + shape.snapshot_links(
                    step as int,
                    id + 1,
                ));
                id += 1;
            }
            step += 1;
        }
        proof {
            shape.lemma_links_no_duplicates();
            lemma_links_of_no_duplicates(edges@);
        }
        edges
    }

    /// Whether the cell numbered `id` lies on a face of the grid.
    fn is_outer_vertex(&self, id: u64) -> (outer: bool)
        requires
            self@.live(),
            id < self@.cells(),
        ensures
            outer == self@.is_outer(self@.x_of(id as int), self@.y_of(id as int), self@.z_of(id as int)),
    {
        proof {
            use_type_invariant(self);
            self@.lemma_coords_in_grid(id as int);
        }
        let x = self.x(id);
        let y = self.y(id);
        let z = self.z(id);
        x == 0 || x + 1 == self.width as u64 || y == 0 || y + 1 == self.height as u64 || z == 0 || z
            + 1 == self.depth as u64
    }

    /// The cell numbers of the cells around the cell numbered `id`, itself
    /// included, in rising order; none where nothing is built or `id` is no
    /// cell.
    pub fn get_neighbor_indices(&self, id: u32) -> (around: Vec<u32>)
        ensures
            ids_of(around@) == self@.neighbor_cells(id as int),
            forall|k: int| 0 <= k < around@.len() ==> 0 <= #[trigger] around@[k] < self@.cells(),
    {
        let mut around: Vec<u32> = Vec::new();
        proof {
            use_type_invariant(self);
            assert(ids_of(around@) =~= Seq::<int>::empty());
        }
        if self.height < 3 || self.width < 3 || self.depth < 3 || self.timesteps == 0 {
            return around;
        }
        let size: u64 = self.size();
        if id as u64 >= size {
            return around;
        }
        let cell: u64 = id as u64;
        let x = self.x(cell);
        let y = self.y(cell);
        let z = self.z(cell);
        let ghost shape = self@;
        let mut i: usize = 0;
        while i < 3
            invariant
                shape == self@,
                shape.live(),
                size == shape.cells(),
                cell == id,
                cell < size,
                size <= 0x1_0000_0000,
                x == shape.x_of(cell as int),
                y == shape.y_of(cell as int),
                z == shape.z_of(cell as int),
                i <= 3,
                ids_of(around@) == shape.neighbors_upto(x as int, y as int, z as int, 9 * i),
                forall|k: int| 0 <= k < around@.len() ==> 0 <= #[trigger] around@[k] < shape.cells(),
            decreases 3 - i,
        {
            let mut j: usize = 0;
            while j < 3
                invariant
                    shape == self@,
                    shape.live(),
                    size == shape.cells(),
                    cell == id,
                    cell < size,
                    size <= 0x1_0000_0000,
                    x == shape.x_of(cell as int),
                    y == shape.y_of(cell as int),
                    z == shape.z_of(cell as int),
                    i < 3,
                    j <= 3,
                    ids_of(around@) == shape.neighbors_upto(
                        x as int,
                        y as int,
                        z as int,
                        9 * i + 3 * j,
                    ),
                    forall|k: int|
                        0 <= k < around@.len() ==> 0 <= #[trigger] around@[k] < shape.cells(),
                decreases 3 - j,
            {
                let mut k: usize = 0;
                while k < 3
                    invariant
                        shape == self@,
                        shape.live(),
                        size == shape.cells(),
                        cell == id,
                        cell < size,
                        size <= 0x1_0000_0000,
                        x == shape.x_of(cell as int),
                        y == shape.y_of(cell as int),
                        z == shape.z_of(cell as int),
                        i < 3,
                        j < 3,
                        k <= 3,
                        ids_of(around@) == shape.neighbors_upto(
                            x as int,
                            y as int,
                            z as int,
                            9 * i + 3 * j + k,
                        ),
                        forall|m: int|
                            0 <= m < around@.len() ==> 0 <= #[trigger] around@[m] < shape.cells(),
                    decreases 3 - k,
                {
                    let ghost o = 9 * i + 3 * j + k;
                    proof {
                        assert(o / 9 == i && (o / 3) % 3 == j && o % 3 == k);
                        shape.lemma_step_by_number(
                            cell as int,
                            step_of(j as int),
                            step_of(i as int),
                            step_of(k as int),
                        );
                    }
                    let n: i64 = self.calc_neighbor(cell, i, j, k);
                    if n >= 0 && (n as u64) < size {
                        let m: u64 = n as u64;
                        if apart(self.y(m), y) <= 1 && apart(self.x(m), x) <= 1 && apart(
                            self.z(m),
                            z,
                        ) <= 1 {
                            proof {
                                lemma_ids_of_push(around@, m as u32);
                            }
                            around.push(m as u32);
                        }
                    }
                    k += 1;
                }
                j += 1;
            }
            i += 1;
        }
        around
    }

    /// The number of cells of the grid.
    fn size(&self) -> (cells: u64)
        requires
            self@.live(),
        ensures
            cells == self@.cells(),
            27 <= cells <= 0x1_0000_0000,
    {
        proof {
            use_type_invariant(self);
            self@.lemma_live_sizes();
        }
        (self.width as u64) * (self.height as u64) * (self.depth as u64)
    }

    /// The position along the width of the cell numbered `id`.
    fn x(&self, id: u64) -> (pos: u64)
        requires
            self@.live(),
        ensures
            pos == self@.x_of(id as int),
    {
        (id / (self.depth as u64)) % (self.width as u64)
    }

    /// The position along the height of the cell numbered `id`.
    fn y(&self, id: u64) -> (pos: u64)
        requires
            self@.live(),
        ensures
            pos == self@.y_of(id as int),
    {
        proof {
            use_type_invariant(self);
            self@.lemma_live_sizes();
        }
        id / ((self.width as u64) * (self.depth as u64))
    }

    /// The position along the depth of the cell numbered `id`.
    fn z(&self, id: u64) -> (pos: u64)
        requires
            self@.live(),
        ensures
            pos == self@.z_of(id as int),
    {
        id % (self.depth as u64)
    }

    /// The cell number `id` moved by one plane, one row and one cell, each
    /// back, not at all or forward as `i`, `j` and `k` say. The result may be
    /// no cell number, or that of a cell further away: the caller discards
    /// those.
    fn calc_neighbor(&self, id: u64, i: usize, j: usize, k: usize) -> (moved: i64)
        requires
            self@.live(),
            id < self@.cells(),
            i < 3,
            j < 3,
            k < 3,
        ensures
            moved == id + step_of(i as int) * (self@.width * self@.depth) + step_of(j as int)
                * self@.depth + step_of(k as int),
    {
        proof {
            use_type_invariant(self);
            self@.lemma_live_sizes();
        }
        let ops: [i64; 3] = [-1, 0, 1];
        let plane: i64 = ((self.width as u64) * (self.depth as u64)) as i64;
        let row: i64 = self.depth as i64;
        assert(-plane <= ops[i as int] * plane <= plane && ops[i as int] * plane == step_of(
            i as int,
        ) * plane) by (nonlinear_arith)
            requires
                -1 <= ops[i as int] <= 1,
                ops[i as int] == step_of(i as int),
                0 <= plane,
        ;
        assert(-row <= ops[j as int] * row <= row && ops[j as int] * row == step_of(j as int)
            * row) by (nonlinear_arith)
            requires
                -1 <= ops[j as int] <= 1,
                ops[j as int] == step_of(j as int),
                0 <= row,
        ;
        id as i64 + ops[i] * plane + ops[j] * row + ops[k]
    }
}

} // verus!
