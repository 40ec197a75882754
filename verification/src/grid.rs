//! The geometry of the cube topology: a grid of cells, copied once per
//! timestep, with every cell linked to the cells around it in the next copy
//! and the cells on the faces routed through one hub per pair of copies.

use vstd::prelude::*;
use vstd::arithmetic::div_mod::{
    lemma_div_denominator, lemma_div_pos_is_pos, lemma_fundamental_div_mod,
    lemma_fundamental_div_mod_converse, lemma_mod_bound, lemma_multiply_divide_lt,
};

verus! {

/// The sizes of a cube topology: the three dimensions of the grid and the
/// number of timesteps it is copied over.
pub struct CubeShape {
    pub width: int,
    pub height: int,
    pub depth: int,
    pub timesteps: int,
}

/// The shape with the given sizes.
pub open spec fn shape_of(width: usize, height: usize, depth: usize, timesteps: usize) -> CubeShape {
    CubeShape {
        width: width as int,
        height: height as int,
        depth: depth as int,
        timesteps: timesteps as int,
    }
}

/// The step along one axis that the offset number `part` stands for: `0`, `1`
/// and `2` are one back, none, and one forward.
pub open spec fn step_of(part: int) -> int {
    part - 1
}

impl CubeShape {
    /// A grid is built only when it is at least three cells wide, high and
    /// deep.
    pub open spec fn buildable(self) -> bool {
        self.width >= 3 && self.height >= 3 && self.depth >= 3
    }

    /// The number of cells of one copy of the grid.
    pub open spec fn cells(self) -> int {
        self.width * self.height * self.depth
    }

    /// Whether `(x, y, z)` is a cell of the grid.
    pub open spec fn in_grid(self, x: int, y: int, z: int) -> bool {
        0 <= x < self.width && 0 <= y < self.height && 0 <= z < self.depth
    }

    /// The number of the cell `(x, y, z)` within its copy of the grid: the
    /// cells are counted along the depth first, then along the width, then
    /// along the height.
    pub open spec fn flatten(self, x: int, y: int, z: int) -> int {
        y * (self.width * self.depth) + x * self.depth + z
    }

    /// The position along the width of the cell numbered `cell`.
    pub open spec fn x_of(self, cell: int) -> int {
        (cell / self.depth) % self.width
    }

    /// The position along the height of the cell numbered `cell`.
    pub open spec fn y_of(self, cell: int) -> int {
        cell / (self.width * self.depth)
    }

    /// The position along the depth of the cell numbered `cell`.
    pub open spec fn z_of(self, cell: int) -> int {
        cell % self.depth
    }

    /// The vertex id of the cell numbered `cell` in the copy of timestep `t`.
    pub open spec fn vertex(self, t: int, cell: int) -> int {
        t * self.cells() + cell
    }

    /// The vertex id of the hub between the copies of timesteps `t` and
    /// `t + 1`: hub ids follow the ids of all cells of all timesteps.
    pub open spec fn hub(self, t: int) -> int {
        self.cells() * self.timesteps + t
    }

    /// How many vertex ids the topology names, hubs included: the ids are the
    /// numbers below this count.
    pub open spec fn ids(self) -> int {
        self.cells() * self.timesteps + if self.timesteps >= 2 {
            self.timesteps - 1
        } else {
            0
        }
    }

    /// Whether every vertex id of the topology fits 32 bits. A grid that is
    /// not buildable names no vertex.
    pub open spec fn fits(self) -> bool {
        self.buildable() ==> self.ids() <= 0x1_0000_0000
    }

    /// Whether the topology has any cell: a buildable grid and at least one
    /// timestep.
    pub open spec fn live(self) -> bool {
        self.buildable() && self.timesteps >= 1
    }

    /// Whether the cell `(x, y, z)` lies on one of the six faces of the grid.
    pub open spec fn is_outer(self, x: int, y: int, z: int) -> bool {
        x == 0 || x == self.width - 1 || y == 0 || y == self.height - 1 || z == 0 || z
            == self.depth - 1
    }

    /// The cell numbers of the cells that the first `upto` of the 27 offsets
    /// reach from `(x, y, z)` without leaving the grid. The offsets are taken
    /// with the step along the height slowest and the step along the depth
    /// fastest, each from one back to one forward.
    pub open spec fn neighbors_upto(self, x: int, y: int, z: int, upto: int) -> Seq<int>
        decreases upto,
    {
        if upto <= 0 {
            Seq::empty()
        } else {
            let before = self.neighbors_upto(x, y, z, upto - 1);
            let o = upto - 1;
            let nx = x + step_of((o / 3) % 3);
            let ny = y + step_of(o / 9);
            let nz = z + step_of(o % 3);
            if self.in_grid(nx, ny, nz) {
                before.push(self.flatten(nx, ny, nz))
            } else {
                before
            }
        }
    }

    /// The cell numbers of all cells around `(x, y, z)`, itself included, that
    /// lie in the grid.
    pub open spec fn neighbors(self, x: int, y: int, z: int) -> Seq<int> {
        self.neighbors_upto(x, y, z, 27)
    }

    /// The cells around the cell numbered `cell`, as cell numbers; none where
    /// nothing is built or `cell` is no cell.
    pub open spec fn neighbor_cells(self, cell: int) -> Seq<int> {
        if self.buildable() && self.timesteps >= 1 && 0 <= cell < self.cells() {
            self.neighbors(self.x_of(cell), self.y_of(cell), self.z_of(cell))
        } else {
            Seq::empty()
        }
    }

    /// The vertex ids that the cells numbered `cells` have in the copy of
    /// timestep `t`.
    pub open spec fn in_copy(self, t: int, cells: Seq<int>) -> Seq<int> {
        Seq::new(cells.len(), |i: int| self.vertex(t, cells[i]))
    }

    /// The vertex ids, in the copy of timestep `t + 1`, of the cells around
    /// `(x, y, z)`; none where nothing is built or there is no such copy.
    pub open spec fn neighbor_vertices(self, t: int, x: int, y: int, z: int) -> Seq<int> {
        if self.buildable() && 0 <= t && t + 1 < self.timesteps {
            self.in_copy(t + 1, self.neighbors(x, y, z))
        } else {
            Seq::empty()
        }
    }

    /// The links from the cell numbered `cell` at timestep `t` to the cells
    /// around it at timestep `t + 1`.
    pub open spec fn step_links(self, t: int, cell: int) -> Seq<(int, int)> {
        let around = self.neighbors(self.x_of(cell), self.y_of(cell), self.z_of(cell));
        Seq::new(around.len(), |i: int| (self.vertex(t, cell), self.vertex(t + 1, around[i])))
    }

    /// The links that route the cell numbered `cell` at timestep `t` through
    /// the hub: two for a cell on a face, none for a cell inside.
    pub open spec fn hub_links(self, t: int, cell: int) -> Seq<(int, int)> {
        if self.is_outer(self.x_of(cell), self.y_of(cell), self.z_of(cell)) {
            seq![(self.vertex(t, cell), self.hub(t)), (self.hub(t), self.vertex(t + 1, cell))]
        } else {
            Seq::empty()
        }
    }

    /// All links that the cell numbered `cell` at timestep `t` gives rise to.
    pub open spec fn cell_links(self, t: int, cell: int) -> Seq<(int, int)> {
        self.step_links(t, cell) + self.hub_links(t, cell)
    }

    /// The links of the first `upto` cells of timestep `t`, cell by cell.
    pub open spec fn snapshot_links(self, t: int, upto: int) -> Seq<(int, int)>
        decreases upto,
    {
        if upto <= 0 {
            Seq::empty()
        } else {
            self.snapshot_links(t, upto - 1) + self.cell_links(t, upto - 1)
        }
    }

    /// The links of all cells of the first `boundaries` timesteps.
    pub open spec fn links_upto(self, boundaries: int) -> Seq<(int, int)>
        decreases boundaries,
    {
        if boundaries <= 0 {
            Seq::empty()
        } else {
            self.links_upto(boundaries - 1) + self.snapshot_links(boundaries - 1, self.cells())
        }
    }

    /// The links of the topology: none unless the grid is buildable; else the
    /// links of every cell of every timestep but the last.
    pub open spec fn links(self) -> Seq<(int, int)> {
        if self.buildable() {
            self.links_upto(self.timesteps - 1)
        } else {
            Seq::empty()
        }
    }

    /// The sizes of a topology that has cells and whose ids fit 32 bits: the
    /// grid has at least 27 cells and at most `2^32`, and a plane of it, a row
    /// of it and each dimension are no larger than the grid.
    pub proof fn lemma_live_sizes(self)
        requires
            self.live(),
            self.fits(),
        ensures
            27 <= self.cells() <= 0x1_0000_0000,
            self.cells() <= self.cells() * self.timesteps <= 0x1_0000_0000,
            9 <= self.width * self.depth <= self.cells(),
            9 <= self.width * self.height <= self.cells(),
            self.width <= self.width * self.depth,
            self.depth <= self.width * self.depth,
            self.height <= self.cells(),
    {
        let w = self.width;
        let h = self.height;
        let d = self.depth;
        let t = self.timesteps;
        assert(27 <= w * h * d && w * h * d <= (w * h * d) * t && 9 <= w * d && w * d <= w * h * d
            && 9 <= w * h && w * h <= w * h * d && w <= w * d && d <= w * d && h <= w * h * d)
            by (nonlinear_arith)
            requires
                w >= 3,
                h >= 3,
                d >= 3,
                t >= 1,
        ;
    }

    /// The number of a cell of the grid is below the number of cells.
    pub proof fn lemma_flatten_in_range(self, x: int, y: int, z: int)
        requires
            self.in_grid(x, y, z),
        ensures
            0 <= self.flatten(x, y, z) < self.cells(),
            0 <= x * self.depth + z < self.width * self.depth,
    {
        let w = self.width;
        let h = self.height;
        let d = self.depth;
        let plane = w * d;
        assert(0 <= x * d && x * d + d <= w * d) by (nonlinear_arith)
            requires
                0 <= x < w,
                0 < d,
        ;
        assert(0 <= y * plane && y * plane + plane <= h * plane) by (nonlinear_arith)
            requires
                0 <= y < h,
                0 <= plane,
        ;
        assert(h * plane == w * h * d) by (nonlinear_arith)
            requires
                plane == w * d,
        ;
    }

    /// A cell of the grid is found again from its number.
    pub proof fn lemma_flatten_coords(self, x: int, y: int, z: int)
        requires
            self.in_grid(x, y, z),
        ensures
            self.x_of(self.flatten(x, y, z)) == x,
            self.y_of(self.flatten(x, y, z)) == y,
            self.z_of(self.flatten(x, y, z)) == z,
    {
        let w = self.width;
        let d = self.depth;
        let f = self.flatten(x, y, z);
        self.lemma_flatten_in_range(x, y, z);
        assert(f == (y * w + x) * d + z) by (nonlinear_arith)
            requires
                f == y * (w * d) + x * d + z,
        ;
        lemma_fundamental_div_mod_converse(f, d, y * w + x, z);
        lemma_fundamental_div_mod_converse(y * w + x, w, y, x);
        lemma_fundamental_div_mod_converse(f, w * d, y, x * d + z);
    }

    /// A cell number below the number of cells is the number of a cell of the
    /// grid, the one at its three positions.
    pub proof fn lemma_coords_in_grid(self, cell: int)
        requires
            self.width > 0,
            self.height > 0,
            self.depth > 0,
            0 <= cell < self.cells(),
        ensures
            self.in_grid(self.x_of(cell), self.y_of(cell), self.z_of(cell)),
            self.flatten(self.x_of(cell), self.y_of(cell), self.z_of(cell)) == cell,
    {
        let w = self.width;
        let h = self.height;
        let d = self.depth;
        let q = cell / d;
        let z = cell % d;
        lemma_fundamental_div_mod(cell, d);
        lemma_mod_bound(cell, d);
        lemma_div_pos_is_pos(cell, d);
        let x = q % w;
        let y = q / w;
        lemma_fundamental_div_mod(q, w);
        lemma_mod_bound(q, w);
        lemma_div_pos_is_pos(q, w);
        lemma_div_denominator(cell, d, w);
        assert(d * w == w * d) by (nonlinear_arith);
        assert(y == self.y_of(cell));
        assert(cell < (d * w) * h) by (nonlinear_arith)
            requires
                cell < w * h * d,
        ;
        lemma_multiply_divide_lt(cell, d * w, h);
        assert(y * (w * d) + x * d + z == d * (w * y + x) + z) by (nonlinear_arith);
    }

    /// A step from a cell to a cell of the grid moves the cell number by the
    /// step along the height times the cells of a plane, the step along the
    /// width times the depth, and the step along the depth.
    pub proof fn lemma_flatten_step(self, x: int, y: int, z: int, dx: int, dy: int, dz: int)
        ensures
            self.flatten(x + dx, y + dy, z + dz) == self.flatten(x, y, z) + dy * (self.width
                * self.depth) + dx * self.depth + dz,
    {
        let plane = self.width * self.depth;
        let d = self.depth;
        assert((y + dy) * plane == y * plane + dy * plane) by (nonlinear_arith);
        assert((x + dx) * d == x * d + dx * d) by (nonlinear_arith);
    }

    /// With planes of at least `3 * d` cells and `d` at least three, a sum of
    /// at most two planes, two rows and two cells either way is zero only when
    /// each of the three counts is zero.
    proof fn lemma_steps_are_independent(plane: int, d: int, a: int, b: int, c: int)
        requires
            d >= 3,
            plane >= 3 * d,
            -2 <= a <= 2,
            -2 <= b <= 2,
            -2 <= c <= 2,
            a * plane + b * d + c == 0,
        ensures
            a == 0,
            b == 0,
            c == 0,
    {
        assert(b * d <= 2 * d && b * d >= -2 * d) by (nonlinear_arith)
            requires
                -2 <= b <= 2,
                d >= 3,
        ;
        if a >= 1 {
            assert(a * plane >= plane) by (nonlinear_arith)
                requires
                    a >= 1,
                    plane >= 0,
            ;
        } else if a <= -1 {
            assert(a * plane <= -plane) by (nonlinear_arith)
                requires
                    a <= -1,
                    plane >= 0,
            ;
        }
        assert(a == 0);
        if b >= 1 {
            assert(b * d >= d) by (nonlinear_arith)
                requires
                    b >= 1,
                    d >= 0,
            ;
        } else if b <= -1 {
            assert(b * d <= -d) by (nonlinear_arith)
                requires
                    b <= -1,
                    d >= 0,
            ;
        }
    }

    /// Stepping by cell number and stepping by position agree. From a cell
    /// numbered `cell`, add the step `dy` along the height times the cells of
    /// a plane, `dx` along the width times the depth, and `dz` along the
    /// depth. The sum is the number of a cell no more than one away from
    /// `cell` along each axis exactly when the stepped position lies in the
    /// grid, and then it is the number of the cell at that position.
    pub proof fn lemma_step_by_number(self, cell: int, dx: int, dy: int, dz: int)
        requires
            self.buildable(),
            0 <= cell < self.cells(),
            -1 <= dx <= 1,
            -1 <= dy <= 1,
            -1 <= dz <= 1,
        ensures
            ({
                let n = cell + dy * (self.width * self.depth) + dx * self.depth + dz;
                let x = self.x_of(cell);
                let y = self.y_of(cell);
                let z = self.z_of(cell);
                let near = 0 <= n < self.cells() && -1 <= self.x_of(n) - x <= 1 && -1 <= self.y_of(
                    n,
                ) - y <= 1 && -1 <= self.z_of(n) - z <= 1;
                &&& near <==> self.in_grid(x + dx, y + dy, z + dz)
                &&& near ==> n == self.flatten(x + dx, y + dy, z + dz)
            }),
    {
        let w = self.width;
        let d = self.depth;
        let plane = w * d;
        let n = cell + dy * plane + dx * d + dz;
        let x = self.x_of(cell);
        let y = self.y_of(cell);
        let z = self.z_of(cell);
        self.lemma_coords_in_grid(cell);
        self.lemma_flatten_step(x, y, z, dx, dy, dz);
        if self.in_grid(x + dx, y + dy, z + dz) {
            self.lemma_flatten_in_range(x + dx, y + dy, z + dz);
            self.lemma_flatten_coords(x + dx, y + dy, z + dz);
        }
        if 0 <= n < self.cells() {
            let nx = self.x_of(n);
            let ny = self.y_of(n);
            let nz = self.z_of(n);
            self.lemma_coords_in_grid(n);
            if -1 <= nx - x <= 1 && -1 <= ny - y <= 1 && -1 <= nz - z <= 1 {
                self.lemma_flatten_step(x, y, z, nx - x, ny - y, nz - z);
                let a = ny - y - dy;
                let b = nx - x - dx;
                let c = nz - z - dz;
                assert(a * plane + b * d + c == 0) by (nonlinear_arith)
                    requires
                        (ny - y) * plane + (nx - x) * d + (nz - z) == dy * plane + dx * d + dz,
                        a == ny - y - dy,
                        b == nx - x - dx,
                        c == nz - z - dz,
                ;
                assert(plane >= 3 * d) by (nonlinear_arith)
                    requires
                        plane == w * d,
                        w >= 3,
                        d >= 3,
                ;
                Self::lemma_steps_are_independent(plane, d, a, b, c);
            }
        }
    }

    /// The cells of timestep `t` have the ids from `t` times the number of
    /// cells on, below those of timestep `t + 1`.
    pub proof fn lemma_vertex_in_range(self, t: int, cell: int)
        requires
            0 <= t < self.timesteps,
            0 <= cell < self.cells(),
        ensures
            t * self.cells() <= self.vertex(t, cell) < (t + 1) * self.cells(),
            0 <= self.vertex(t, cell) < self.cells() * self.timesteps,
    {
        let c = self.cells();
        let n = self.timesteps;
        assert(0 <= t * c && (t + 1) * c == t * c + c && (t + 1) * c <= c * n)
            by (nonlinear_arith)
            requires
                0 <= t < n,
                0 < c,
        ;
    }
}

} // verus!
