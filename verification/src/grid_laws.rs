//! What holds of the links of every cube topology.

use vstd::prelude::*;
use vstd::arithmetic::div_mod::lemma_fundamental_div_mod_converse;
use vstd::seq_lib::lemma_no_dup_in_concat;
use crate::grid::{step_of, CubeShape};
use crate::link::{
    lemma_concat_contains, lemma_links_of_injective, lemma_push_contains, links_of,
};

verus! {

impl CubeShape {
    /// Whether offset number `o` leads from `(x, y, z)` to a cell of the grid.
    pub open spec fn reaches(self, x: int, y: int, z: int, o: int) -> bool {
        self.in_grid(x + step_of((o / 3) % 3), y + step_of(o / 9), z + step_of(o % 3))
    }

    /// The number of the cell that offset number `o` leads to from
    /// `(x, y, z)`.
    pub open spec fn reach(self, x: int, y: int, z: int, o: int) -> int {
        self.flatten(x + step_of((o / 3) % 3), y + step_of(o / 9), z + step_of(o % 3))
    }

    /// The link from the cell `(x, y, z)` at timestep `t` to the cell one
    /// step of `(dx, dy, dz)` away at timestep `t + 1`.
    pub open spec fn step_link(
        self,
        t: int,
        x: int,
        y: int,
        z: int,
        dx: int,
        dy: int,
        dz: int,
    ) -> (int, int) {
        (self.vertex(t, self.flatten(x, y, z)), self.vertex(
            t + 1,
            self.flatten(x + dx, y + dy, z + dz),
        ))
    }

    /// The link from the cell `(x, y, z)` at timestep `t` into the hub that
    /// follows that timestep.
    pub open spec fn hub_entry(self, t: int, x: int, y: int, z: int) -> (int, int) {
        (self.vertex(t, self.flatten(x, y, z)), self.hub(t))
    }

    /// The link from the hub that follows timestep `t` to the cell
    /// `(x, y, z)` at timestep `t + 1`.
    pub open spec fn hub_exit(self, t: int, x: int, y: int, z: int) -> (int, int) {
        (self.hub(t), self.vertex(t + 1, self.flatten(x, y, z)))
    }

    /// `link` leads from a cell at a timestep that has a successor to a cell
    /// at most one step away along each axis, or to the same cell, at the
    /// next timestep.
    pub open spec fn is_step_link(self, link: (int, int)) -> bool {
        exists|t: int, x: int, y: int, z: int, dx: int, dy: int, dz: int|
            0 <= t < self.timesteps - 1 && self.in_grid(x, y, z) && -1 <= dx <= 1 && -1 <= dy <= 1
                && -1 <= dz <= 1 && self.in_grid(x + dx, y + dy, z + dz) && link
                == #[trigger] self.step_link(t, x, y, z, dx, dy, dz)
    }

    /// `link` leads from a cell on a face, at a timestep that has a
    /// successor, into the hub that follows that timestep.
    pub open spec fn is_hub_entry(self, link: (int, int)) -> bool {
        exists|t: int, x: int, y: int, z: int|
            0 <= t < self.timesteps - 1 && self.in_grid(x, y, z) && self.is_outer(x, y, z) && link
                == #[trigger] self.hub_entry(t, x, y, z)
    }

    /// `link` leads from the hub that follows a timestep to a cell on a face
    /// at the next timestep.
    pub open spec fn is_hub_exit(self, link: (int, int)) -> bool {
        exists|t: int, x: int, y: int, z: int|
            0 <= t < self.timesteps - 1 && self.in_grid(x, y, z) && self.is_outer(x, y, z) && link
                == #[trigger] self.hub_exit(t, x, y, z)
    }

    /// `link` routes a cell on a face through the hub that follows its
    /// timestep: into the hub, or out of it to the same cell one timestep on.
    pub open spec fn is_hub_link(self, link: (int, int)) -> bool {
        self.is_hub_entry(link) || self.is_hub_exit(link)
    }

    /// Whether `link` is one of the links that the cell numbered `cell` at
    /// timestep `t` gives rise to.
    pub open spec fn is_cell_link(self, t: int, cell: int, link: (int, int)) -> bool {
        let x = self.x_of(cell);
        let y = self.y_of(cell);
        let z = self.z_of(cell);
        ||| exists|o: int|
            0 <= o < 27 && self.reaches(x, y, z, o) && link == (
                self.vertex(t, cell),
                self.vertex(t + 1, #[trigger] self.reach(x, y, z, o)),
            )
        ||| self.is_outer(x, y, z) && (link == (self.vertex(t, cell), self.hub(t)) || link == (
            self.hub(t),
            self.vertex(t + 1, cell),
        ))
    }

    /// Whether `vertex` is the id of a cell at timestep `t`.
    pub open spec fn in_timestep(self, vertex: int, t: int) -> bool {
        t * self.cells() <= vertex < (t + 1) * self.cells()
    }

    /// Whether `link` advances from timestep `t` to the next: from a cell at
    /// `t` to a cell at `t + 1`, or from a cell at `t` into the hub between
    /// the two, or from that hub to a cell at `t + 1`.
    pub open spec fn advances(self, link: (int, int), t: int) -> bool {
        ||| self.in_timestep(link.0, t) && self.in_timestep(link.1, t + 1)
        ||| self.in_timestep(link.0, t) && link.1 == self.hub(t)
        ||| link.0 == self.hub(t) && self.in_timestep(link.1, t + 1)
    }

    proof fn lemma_neighbors_upto_contains(self, x: int, y: int, z: int, upto: int, n: int)
        requires
            0 <= upto,
        ensures
            self.neighbors_upto(x, y, z, upto).contains(n) <==> exists|o: int|
                0 <= o < upto && self.reaches(x, y, z, o) && n == #[trigger] self.reach(x, y, z, o),
        decreases upto,
    {
        if upto > 0 {
            self.lemma_neighbors_upto_contains(x, y, z, upto - 1, n);
            let before = self.neighbors_upto(x, y, z, upto - 1);
            if self.reaches(x, y, z, upto - 1) {
                lemma_push_contains(before, self.reach(x, y, z, upto - 1), n);
            }
            if self.neighbors_upto(x, y, z, upto).contains(n) {
                if before.contains(n) {
                    let o = choose|o: int|
                        0 <= o < upto - 1 && self.reaches(x, y, z, o) && n == #[trigger] self.reach(
                            x,
                            y,
                            z,
                            o,
                        );
                    assert(self.reaches(x, y, z, o) && n == self.reach(x, y, z, o));
                } else {
                    assert(n == self.reach(x, y, z, upto - 1));
                }
            }
        }
    }

    proof fn lemma_cell_links_contains(self, t: int, cell: int, link: (int, int))
        ensures
            self.cell_links(t, cell).contains(link) <==> self.is_cell_link(t, cell, link),
    {
        let x = self.x_of(cell);
        let y = self.y_of(cell);
        let z = self.z_of(cell);
        let around = self.neighbors(x, y, z);
        let hops = self.step_links(t, cell);
        let hubs = self.hub_links(t, cell);
        lemma_concat_contains(hops, hubs, link);
        if hops.contains(link) {
            let i = choose|i: int| 0 <= i < hops.len() && hops[i] == link;
            assert(around.contains(around[i]));
            self.lemma_neighbors_upto_contains(x, y, z, 27, around[i]);
            let o = choose|o: int|
                0 <= o < 27 && self.reaches(x, y, z, o) && around[i] == #[trigger] self.reach(
                    x,
                    y,
                    z,
                    o,
                );
            assert(link == (self.vertex(t, cell), self.vertex(t + 1, self.reach(x, y, z, o))));
        }
        if hubs.contains(link) {
            let i = choose|i: int| 0 <= i < hubs.len() && hubs[i] == link;
            assert(i == 0 || i == 1);
        }
        if self.is_cell_link(t, cell, link) {
            if exists|o: int|
                0 <= o < 27 && self.reaches(x, y, z, o) && link == (
                    self.vertex(t, cell),
                    self.vertex(t + 1, #[trigger] self.reach(x, y, z, o)),
                ) {
                let o = choose|o: int|
                    0 <= o < 27 && self.reaches(x, y, z, o) && link == (
                        self.vertex(t, cell),
                        self.vertex(t + 1, #[trigger] self.reach(x, y, z, o)),
                    );
                self.lemma_neighbors_upto_contains(x, y, z, 27, self.reach(x, y, z, o));
                let i = choose|i: int| 0 <= i < around.len() && around[i] == self.reach(x, y, z, o);
                assert(hops[i] == link);
            } else {
                if link == (self.vertex(t, cell), self.hub(t)) {
                    assert(hubs[0] == link);
                } else {
                    assert(hubs[1] == link);
                }
            }
        }
    }

    proof fn lemma_snapshot_links_contains(self, t: int, upto: int, link: (int, int))
        requires
            0 <= upto,
        ensures
            self.snapshot_links(t, upto).contains(link) <==> exists|cell: int|
                0 <= cell < upto && #[trigger] self.is_cell_link(t, cell, link),
        decreases upto,
    {
        if upto > 0 {
            self.lemma_snapshot_links_contains(t, upto - 1, link);
            self.lemma_cell_links_contains(t, upto - 1, link);
            lemma_concat_contains(
                self.snapshot_links(t, upto - 1),
                self.cell_links(t, upto - 1),
                link,
            );
            if self.snapshot_links(t, upto - 1).contains(link) {
                let cell = choose|cell: int|
                    0 <= cell < upto - 1 && #[trigger] self.is_cell_link(t, cell, link);
                assert(self.is_cell_link(t, cell, link));
            }
        }
    }

    proof fn lemma_links_upto_contains(self, boundaries: int, link: (int, int))
        requires
            0 <= boundaries,
            0 <= self.cells(),
        ensures
            self.links_upto(boundaries).contains(link) <==> exists|t: int, cell: int|
                0 <= t < boundaries && 0 <= cell < self.cells() && #[trigger] self.is_cell_link(
                    t,
                    cell,
                    link,
                ),
        decreases boundaries,
    {
        if boundaries > 0 {
            self.lemma_links_upto_contains(boundaries - 1, link);
            self.lemma_snapshot_links_contains(boundaries - 1, self.cells(), link);
            lemma_concat_contains(
                self.links_upto(boundaries - 1),
                self.snapshot_links(boundaries - 1, self.cells()),
                link,
            );
            if self.links_upto(boundaries - 1).contains(link) {
                let (t, cell) = choose|t: int, cell: int|
                    0 <= t < boundaries - 1 && 0 <= cell < self.cells()
                        && #[trigger] self.is_cell_link(t, cell, link);
                assert(self.is_cell_link(t, cell, link));
            }
            if self.snapshot_links(boundaries - 1, self.cells()).contains(link) {
                let cell = choose|cell: int|
                    0 <= cell < self.cells() && #[trigger] self.is_cell_link(
                        boundaries - 1,
                        cell,
                        link,
                    );
                assert(self.is_cell_link(boundaries - 1, cell, link));
            }
        }
    }

    /// The links of one cell, told by the position of the cell.
    proof fn lemma_cell_link_by_position(self, t: int, x: int, y: int, z: int, link: (int, int))
        requires
            self.buildable(),
            self.in_grid(x, y, z),
        ensures
            self.is_cell_link(t, self.flatten(x, y, z), link) <==> (exists|dx: int, dy: int, dz: int|
                -1 <= dx <= 1 && -1 <= dy <= 1 && -1 <= dz <= 1 && self.in_grid(
                    x + dx,
                    y + dy,
                    z + dz,
                ) && link == #[trigger] self.step_link(t, x, y, z, dx, dy, dz)) || (self.is_outer(
                x,
                y,
                z,
            ) && (link == self.hub_entry(t, x, y, z) || link == self.hub_exit(t, x, y, z))),
    {
        let cell = self.flatten(x, y, z);
        self.lemma_flatten_coords(x, y, z);
        if exists|o: int|
            0 <= o < 27 && self.reaches(x, y, z, o) && link == (
                self.vertex(t, cell),
                self.vertex(t + 1, #[trigger] self.reach(x, y, z, o)),
            ) {
            let o = choose|o: int|
                0 <= o < 27 && self.reaches(x, y, z, o) && link == (
                    self.vertex(t, cell),
                    self.vertex(t + 1, #[trigger] self.reach(x, y, z, o)),
                );
            assert(link == self.step_link(
                t,
                x,
                y,
                z,
                step_of((o / 3) % 3),
                step_of(o / 9),
                step_of(o % 3),
            ));
        }
        if exists|dx: int, dy: int, dz: int|
            -1 <= dx <= 1 && -1 <= dy <= 1 && -1 <= dz <= 1 && self.in_grid(x + dx, y + dy, z + dz)
                && link == #[trigger] self.step_link(t, x, y, z, dx, dy, dz) {
            let (dx, dy, dz) = choose|dx: int, dy: int, dz: int|
                -1 <= dx <= 1 && -1 <= dy <= 1 && -1 <= dz <= 1 && self.in_grid(
                    x + dx,
                    y + dy,
                    z + dz,
                ) && link == #[trigger] self.step_link(t, x, y, z, dx, dy, dz);
            let o = 9 * (dy + 1) + 3 * (dx + 1) + (dz + 1);
            assert(o / 9 == dy + 1 && (o / 3) % 3 == dx + 1 && o % 3 == dz + 1);
            assert(self.reaches(x, y, z, o));
            assert(link == (self.vertex(t, cell), self.vertex(t + 1, self.reach(x, y, z, o))));
        }
    }

    /// What the topology holds, order aside: a link is among its links
    /// exactly when the grid is buildable and the link either leads from a
    /// cell to a cell around it, or to the same cell, one timestep on, or
    /// routes a cell on a face through the hub that follows its timestep.
    pub proof fn lemma_links_contains(self, link: (int, int))
        ensures
            self.links().contains(link) <==> self.buildable() && (self.is_step_link(link)
                || self.is_hub_link(link)),
    {
        if self.buildable() {
            let w = self.width;
            let h = self.height;
            let d = self.depth;
            assert(0 < w * h * d) by (nonlinear_arith)
                requires
                    w >= 3,
                    h >= 3,
                    d >= 3,
            ;
            if self.timesteps >= 1 {
                self.lemma_links_upto_contains(self.timesteps - 1, link);
            }
            if self.links().contains(link) {
                let (t, cell) = choose|t: int, cell: int|
                    0 <= t < self.timesteps - 1 && 0 <= cell < self.cells()
                        && #[trigger] self.is_cell_link(t, cell, link);
                self.lemma_coords_in_grid(cell);
                let x = self.x_of(cell);
                let y = self.y_of(cell);
                let z = self.z_of(cell);
                self.lemma_cell_link_by_position(t, x, y, z, link);
                if self.is_outer(x, y, z) && link == self.hub_entry(t, x, y, z) {
                    assert(self.is_hub_entry(link));
                } else if self.is_outer(x, y, z) && link == self.hub_exit(t, x, y, z) {
                    assert(self.is_hub_exit(link));
                } else {
                    let (dx, dy, dz) = choose|dx: int, dy: int, dz: int|
                        -1 <= dx <= 1 && -1 <= dy <= 1 && -1 <= dz <= 1 && self.in_grid(
                            x + dx,
                            y + dy,
                            z + dz,
                        ) && link == #[trigger] self.step_link(t, x, y, z, dx, dy, dz);
                    assert(link == self.step_link(t, x, y, z, dx, dy, dz));
                    assert(self.is_step_link(link));
                }
            }
            if self.is_step_link(link) {
                let (t, x, y, z, dx, dy, dz) = choose|
                    t: int,
                    x: int,
                    y: int,
                    z: int,
                    dx: int,
                    dy: int,
                    dz: int,
                |
                    0 <= t < self.timesteps - 1 && self.in_grid(x, y, z) && -1 <= dx <= 1 && -1
                        <= dy <= 1 && -1 <= dz <= 1 && self.in_grid(x + dx, y + dy, z + dz) && link
                        == #[trigger] self.step_link(t, x, y, z, dx, dy, dz);
                self.lemma_flatten_in_range(x, y, z);
                self.lemma_cell_link_by_position(t, x, y, z, link);
                assert(self.is_cell_link(t, self.flatten(x, y, z), link));
            }
            if self.is_hub_entry(link) {
                let (t, x, y, z) = choose|t: int, x: int, y: int, z: int|
                    0 <= t < self.timesteps - 1 && self.in_grid(x, y, z) && self.is_outer(x, y, z)
                        && link == #[trigger] self.hub_entry(t, x, y, z);
                self.lemma_flatten_in_range(x, y, z);
                self.lemma_cell_link_by_position(t, x, y, z, link);
                assert(self.is_cell_link(t, self.flatten(x, y, z), link));
            }
            if self.is_hub_exit(link) {
                let (t, x, y, z) = choose|t: int, x: int, y: int, z: int|
                    0 <= t < self.timesteps - 1 && self.in_grid(x, y, z) && self.is_outer(x, y, z)
                        && link == #[trigger] self.hub_exit(t, x, y, z);
                self.lemma_flatten_in_range(x, y, z);
                self.lemma_cell_link_by_position(t, x, y, z, link);
                assert(self.is_cell_link(t, self.flatten(x, y, z), link));
            }
        }
    }

    /// A grid with a dimension below three has no links, whatever the number
    /// of timesteps.
    pub proof fn lemma_undersized_has_no_links(self)
        requires
            self.width < 3 || self.height < 3 || self.depth < 3,
        ensures
            self.links() == Seq::<(int, int)>::empty(),
    {
    }

    /// Every link advances by one timestep: for some timestep that has a
    /// successor it leads from a cell of that timestep to a cell of the next,
    /// or into the hub between the two, or out of that hub. No link stays
    /// within a timestep or leads back.
    pub proof fn lemma_links_advance(self, link: (int, int))
        requires
            self.links().contains(link),
        ensures
            exists|t: int| 0 <= t < self.timesteps - 1 && #[trigger] self.advances(link, t),
    {
        self.lemma_links_contains(link);
        if self.is_step_link(link) {
            let (t, x, y, z, dx, dy, dz) = choose|
                t: int,
                x: int,
                y: int,
                z: int,
                dx: int,
                dy: int,
                dz: int,
            |
                0 <= t < self.timesteps - 1 && self.in_grid(x, y, z) && -1 <= dx <= 1 && -1 <= dy
                    <= 1 && -1 <= dz <= 1 && self.in_grid(x + dx, y + dy, z + dz) && link
                    == #[trigger] self.step_link(t, x, y, z, dx, dy, dz);
            self.lemma_flatten_in_range(x, y, z);
            self.lemma_flatten_in_range(x + dx, y + dy, z + dz);
            self.lemma_vertex_in_range(t, self.flatten(x, y, z));
            self.lemma_vertex_in_range(t + 1, self.flatten(x + dx, y + dy, z + dz));
            assert(self.advances(link, t));
        } else if self.is_hub_entry(link) {
            let (t, x, y, z) = choose|t: int, x: int, y: int, z: int|
                0 <= t < self.timesteps - 1 && self.in_grid(x, y, z) && self.is_outer(x, y, z)
                    && link == #[trigger] self.hub_entry(t, x, y, z);
            self.lemma_flatten_in_range(x, y, z);
            self.lemma_vertex_in_range(t, self.flatten(x, y, z));
            assert(self.advances(link, t));
        } else {
            let (t, x, y, z) = choose|t: int, x: int, y: int, z: int|
                0 <= t < self.timesteps - 1 && self.in_grid(x, y, z) && self.is_outer(x, y, z)
                    && link == #[trigger] self.hub_exit(t, x, y, z);
            self.lemma_flatten_in_range(x, y, z);
            self.lemma_vertex_in_range(t + 1, self.flatten(x, y, z));
            assert(self.advances(link, t));
        }
    }

    /// Hub ids lie beyond the ids of all cells of all timesteps: no hub
    /// shares its id with a cell.
    pub proof fn lemma_hub_beyond_cells(self, t: int, cell: int, s: int)
        requires
            0 <= t < self.timesteps,
            0 <= cell < self.cells(),
            0 <= s,
        ensures
            0 <= self.vertex(t, cell) < self.hub(s),
    {
        self.lemma_vertex_in_range(t, cell);
    }

    /// Every link joins two of the ids that the topology names: both ends
    /// are below [`CubeShape::ids`].
    pub proof fn lemma_links_within_ids(self, link: (int, int))
        requires
            self.links().contains(link),
        ensures
            0 <= link.0 < self.ids(),
            0 <= link.1 < self.ids(),
    {
        self.lemma_links_advance(link);
        let t = choose|t: int| 0 <= t < self.timesteps - 1 && #[trigger] self.advances(link, t);
        let c = self.cells();
        let n = self.timesteps;
        assert(0 <= c) by (nonlinear_arith)
            requires
                c == self.width * self.height * self.depth,
                self.width >= 3,
                self.height >= 3,
                self.depth >= 3,
        ;
        assert(0 <= t * c && (t + 2) * c <= c * n && (t + 1) * c <= (t + 2) * c)
            by (nonlinear_arith)
            requires
                0 <= t < n - 1,
                0 <= c,
        ;
    }

    /// The timestep and the cell number of a cell are found again from its
    /// vertex id.
    pub proof fn lemma_vertex_is_one_to_one(self, t: int, cell: int, s: int, other: int)
        requires
            0 <= cell < self.cells(),
            0 <= other < self.cells(),
            self.vertex(t, cell) == self.vertex(s, other),
        ensures
            t == s,
            cell == other,
    {
        let c = self.cells();
        lemma_fundamental_div_mod_converse(self.vertex(t, cell), c, t, cell);
        lemma_fundamental_div_mod_converse(self.vertex(s, other), c, s, other);
    }

    /// Hubs and cells on faces. A cell inside the grid is joined to no hub. A
    /// cell on a face, at a timestep that has a successor, is joined to one
    /// hub only, the one that follows its timestep, and the same cell at the
    /// next timestep is joined to that hub only: two links through the hub
    /// for each pair of timesteps that the cell takes part in.
    pub proof fn lemma_hub_links_of_cell(self, t: int, x: int, y: int, z: int, s: int)
        requires
            self.buildable(),
            0 <= t < self.timesteps - 1,
            0 <= s,
            self.in_grid(x, y, z),
        ensures
            self.hub_links(t, self.flatten(x, y, z)).len() == if self.is_outer(x, y, z) {
                2int
            } else {
                0int
            },
            self.links().contains((self.vertex(t, self.flatten(x, y, z)), self.hub(s))) <==> s == t
                && self.is_outer(x, y, z),
            self.links().contains((self.hub(s), self.vertex(t + 1, self.flatten(x, y, z)))) <==> s
                == t && self.is_outer(x, y, z),
    {
        let cell = self.flatten(x, y, z);
        self.lemma_flatten_coords(x, y, z);
        self.lemma_flatten_in_range(x, y, z);
        self.lemma_vertex_in_range(t, cell);
        self.lemma_vertex_in_range(t + 1, cell);
        let into = (self.vertex(t, cell), self.hub(s));
        let out = (self.hub(s), self.vertex(t + 1, cell));
        self.lemma_links_contains(into);
        self.lemma_links_contains(out);
        if self.is_outer(x, y, z) && s == t {
            assert(into == self.hub_entry(t, x, y, z));
            assert(out == self.hub_exit(t, x, y, z));
            assert(self.is_hub_entry(into));
            assert(self.is_hub_exit(out));
        }
        if self.is_step_link(into) || self.is_step_link(out) {
            let link = if self.is_step_link(into) {
                into
            } else {
                out
            };
            let (t2, x2, y2, z2, dx, dy, dz) = choose|
                t2: int,
                x2: int,
                y2: int,
                z2: int,
                dx: int,
                dy: int,
                dz: int,
            |
                0 <= t2 < self.timesteps - 1 && self.in_grid(x2, y2, z2) && -1 <= dx <= 1 && -1
                    <= dy <= 1 && -1 <= dz <= 1 && self.in_grid(x2 + dx, y2 + dy, z2 + dz) && link
                    == #[trigger] self.step_link(t2, x2, y2, z2, dx, dy, dz);
            self.lemma_flatten_in_range(x2, y2, z2);
            self.lemma_flatten_in_range(x2 + dx, y2 + dy, z2 + dz);
            self.lemma_vertex_in_range(t2, self.flatten(x2, y2, z2));
            self.lemma_vertex_in_range(t2 + 1, self.flatten(x2 + dx, y2 + dy, z2 + dz));
            assert(false);
        }
        if self.is_hub_entry(into) || self.is_hub_entry(out) {
            let link = if self.is_hub_entry(into) {
                into
            } else {
                out
            };
            let (t2, x2, y2, z2) = choose|t2: int, x2: int, y2: int, z2: int|
                0 <= t2 < self.timesteps - 1 && self.in_grid(x2, y2, z2) && self.is_outer(
                    x2,
                    y2,
                    z2,
                ) && link == #[trigger] self.hub_entry(t2, x2, y2, z2);
            let other = self.flatten(x2, y2, z2);
            self.lemma_flatten_in_range(x2, y2, z2);
            self.lemma_flatten_coords(x2, y2, z2);
            self.lemma_vertex_in_range(t2, other);
            assert(link == into);
            self.lemma_vertex_is_one_to_one(t, cell, t2, other);
        }
        if self.is_hub_exit(into) || self.is_hub_exit(out) {
            let link = if self.is_hub_exit(into) {
                into
            } else {
                out
            };
            let (t2, x2, y2, z2) = choose|t2: int, x2: int, y2: int, z2: int|
                0 <= t2 < self.timesteps - 1 && self.in_grid(x2, y2, z2) && self.is_outer(
                    x2,
                    y2,
                    z2,
                ) && link == #[trigger] self.hub_exit(t2, x2, y2, z2);
            let other = self.flatten(x2, y2, z2);
            self.lemma_flatten_in_range(x2, y2, z2);
            self.lemma_flatten_coords(x2, y2, z2);
            self.lemma_vertex_in_range(t2 + 1, other);
            assert(link == out);
            self.lemma_vertex_is_one_to_one(t + 1, cell, t2 + 1, other);
        }
    }

    /// By how much offset number `o` moves a cell number.
    pub open spec fn lean(self, o: int) -> int {
        step_of(o / 9) * (self.width * self.depth) + step_of((o / 3) % 3) * self.depth + step_of(
            o % 3,
        )
    }

    /// The cell from which `link` comes: the vertex id of the cell at the
    /// tail of the link or, for a link out of a hub, of the cell one timestep
    /// before the cell at its head.
    pub open spec fn source(self, link: (int, int)) -> int {
        if link.0 < self.cells() * self.timesteps {
            link.0
        } else {
            link.1 - self.cells()
        }
    }

    proof fn lemma_lean_rises(self, o: int)
        requires
            self.buildable(),
            0 <= o < 26,
        ensures
            self.lean(o) < self.lean(o + 1),
    {
        let plane = self.width * self.depth;
        let d = self.depth;
        let a = o / 9;
        let b = (o / 3) % 3;
        let c = o % 3;
        assert(plane >= 3 * d) by (nonlinear_arith)
            requires
                plane == self.width * d,
                self.width >= 3,
                d >= 3,
        ;
        if c < 2 {
            assert((o + 1) / 9 == a && ((o + 1) / 3) % 3 == b && (o + 1) % 3 == c + 1);
        } else if b < 2 {
            assert((o + 1) / 9 == a && ((o + 1) / 3) % 3 == b + 1 && (o + 1) % 3 == 0);
            assert(step_of(b + 1) * d == step_of(b) * d + d) by (nonlinear_arith);
        } else {
            assert((o + 1) / 9 == a + 1 && ((o + 1) / 3) % 3 == 0 && (o + 1) % 3 == 0);
            assert(step_of(a + 1) * plane == step_of(a) * plane + plane) by (nonlinear_arith);
            assert(step_of(0) * d == -d && step_of(2) * d == d) by (nonlinear_arith);
        }
    }

    proof fn lemma_lean_order(self, lower: int, upper: int)
        requires
            self.buildable(),
            0 <= lower < upper < 27,
        ensures
            self.lean(lower) < self.lean(upper),
        decreases upper - lower,
    {
        self.lemma_lean_rises(upper - 1);
        if lower < upper - 1 {
            self.lemma_lean_order(lower, upper - 1);
        }
    }

    /// The cells around a cell of the grid are listed in rising order of
    /// their numbers, and all are cells of the grid.
    proof fn lemma_neighbors_rise(self, x: int, y: int, z: int, upto: int)
        requires
            self.buildable(),
            0 <= upto <= 27,
        ensures
            forall|i: int, j: int|
                0 <= i < j < self.neighbors_upto(x, y, z, upto).len() ==> self.neighbors_upto(
                    x,
                    y,
                    z,
                    upto,
                )[i] < self.neighbors_upto(x, y, z, upto)[j],
            forall|i: int|
                0 <= i < self.neighbors_upto(x, y, z, upto).len() ==> 0 <= #[trigger] self.neighbors_upto(
                    x,
                    y,
                    z,
                    upto,
                )[i] < self.cells() && self.neighbors_upto(x, y, z, upto)[i] <= self.flatten(
                    x,
                    y,
                    z,
                ) + self.lean(upto - 1),
        decreases upto,
    {
        if upto > 0 {
            self.lemma_neighbors_rise(x, y, z, upto - 1);
            let o = upto - 1;
            let before = self.neighbors_upto(x, y, z, upto - 1);
            let now = self.neighbors_upto(x, y, z, upto);
            let flat = self.flatten(x, y, z);
            if o > 0 {
                self.lemma_lean_rises(o - 1);
            }
            let dx = step_of((o / 3) % 3);
            let dy = step_of(o / 9);
            let dz = step_of(o % 3);
            self.lemma_flatten_step(x, y, z, dx, dy, dz);
            assert(self.reach(x, y, z, o) == flat + self.lean(o));
            if self.reaches(x, y, z, o) {
                self.lemma_flatten_in_range(x + dx, y + dy, z + dz);
                assert(now == before.push(self.reach(x, y, z, o)));
            } else {
                assert(now == before);
            }
            if o == 0 {
                assert(before.len() == 0);
            }
            assert forall|i: int| 0 <= i < now.len() implies 0 <= #[trigger] now[i] < self.cells()
                && now[i] <= flat + self.lean(o) by {
                if i < before.len() {
                    assert(now[i] == before[i]);
                }
            }
            assert forall|i: int, j: int| 0 <= i < j < now.len() implies now[i] < now[j] by {
                assert(now[i] == before[i]);
                if j < before.len() {
                    assert(now[j] == before[j]);
                }
            }
        }
    }

    /// The links of one cell: none occurs twice, and all come from that cell.
    proof fn lemma_cell_links_apart(self, t: int, cell: int)
        requires
            self.buildable(),
            0 <= t < self.timesteps - 1,
            0 <= cell < self.cells(),
        ensures
            self.cell_links(t, cell).no_duplicates(),
            forall|i: int|
                0 <= i < self.cell_links(t, cell).len() ==> self.source(
                    #[trigger] self.cell_links(t, cell)[i],
                ) == self.vertex(t, cell),
    {
        let x = self.x_of(cell);
        let y = self.y_of(cell);
        let z = self.z_of(cell);
        let around = self.neighbors(x, y, z);
        let hops = self.step_links(t, cell);
        let hubs = self.hub_links(t, cell);
        let all = self.cell_links(t, cell);
        let c = self.cells();
        self.lemma_neighbors_rise(x, y, z, 27);
        self.lemma_vertex_in_range(t, cell);
        self.lemma_vertex_in_range(t + 1, cell);
        assert((t + 1) * c == t * c + c) by (nonlinear_arith);
        assert forall|i: int| 0 <= i < hops.len() implies (#[trigger] hops[i]).0 == self.vertex(
            t,
            cell,
        ) && hops[i].1 < c * self.timesteps && hops[i].1 == self.vertex(t + 1, around[i]) by {
            self.lemma_vertex_in_range(t + 1, around[i]);
        }
        assert forall|i: int| 0 <= i < all.len() implies self.source(#[trigger] all[i])
            == self.vertex(t, cell) by {
            if i < hops.len() {
                assert(all[i] == hops[i]);
            } else {
                assert(all[i] == hubs[i - hops.len()]);
            }
        }
        assert forall|i: int, j: int| 0 <= i < all.len() && 0 <= j < all.len() && i != j implies all[i]
            != all[j] by {
            if i < hops.len() {
                assert(all[i] == hops[i]);
            } else {
                assert(all[i] == hubs[i - hops.len()]);
            }
            if j < hops.len() {
                assert(all[j] == hops[j]);
            } else {
                assert(all[j] == hubs[j - hops.len()]);
            }
            if i < hops.len() && j < hops.len() {
                if i < j {
                    assert(around[i] < around[j]);
                } else {
                    assert(around[j] < around[i]);
                }
            }
        }
    }

    proof fn lemma_snapshot_links_apart(self, t: int, upto: int)
        requires
            self.buildable(),
            0 <= t < self.timesteps - 1,
            0 <= upto <= self.cells(),
        ensures
            self.snapshot_links(t, upto).no_duplicates(),
            forall|i: int|
                0 <= i < self.snapshot_links(t, upto).len() ==> t * self.cells() <= self.source(
                    #[trigger] self.snapshot_links(t, upto)[i],
                ) < t * self.cells() + upto,
        decreases upto,
    {
        if upto > 0 {
            let before = self.snapshot_links(t, upto - 1);
            let last = self.cell_links(t, upto - 1);
            self.lemma_snapshot_links_apart(t, upto - 1);
            self.lemma_cell_links_apart(t, upto - 1);
            assert forall|i: int, j: int| 0 <= i < before.len() && 0 <= j < last.len() implies before[i]
                != last[j] by {
                assert(self.source(before[i]) < self.source(last[j]));
            }
            lemma_no_dup_in_concat(before, last);
            assert forall|i: int| 0 <= i < (before + last).len() implies t * self.cells()
                <= self.source(#[trigger] (before + last)[i]) < t * self.cells() + upto by {
                if i < before.len() {
                    assert((before + last)[i] == before[i]);
                } else {
                    assert((before + last)[i] == last[i - before.len()]);
                }
            }
        }
    }

    proof fn lemma_links_upto_apart(self, boundaries: int)
        requires
            self.buildable(),
            0 <= boundaries <= self.timesteps - 1,
        ensures
            self.links_upto(boundaries).no_duplicates(),
            forall|i: int|
                0 <= i < self.links_upto(boundaries).len() ==> self.source(
                    #[trigger] self.links_upto(boundaries)[i],
                ) < boundaries * self.cells(),
        decreases boundaries,
    {
        if boundaries > 0 {
            let c = self.cells();
            let before = self.links_upto(boundaries - 1);
            let last = self.snapshot_links(boundaries - 1, c);
            assert(0 <= c) by (nonlinear_arith)
                requires
                    c == self.width * self.height * self.depth,
                    self.width >= 3,
                    self.height >= 3,
                    self.depth >= 3,
            ;
            assert(boundaries * c == (boundaries - 1) * c + c) by (nonlinear_arith);
            self.lemma_links_upto_apart(boundaries - 1);
            self.lemma_snapshot_links_apart(boundaries - 1, c);
            assert forall|i: int, j: int| 0 <= i < before.len() && 0 <= j < last.len() implies before[i]
                != last[j] by {
                assert(self.source(before[i]) < self.source(last[j]));
            }
            lemma_no_dup_in_concat(before, last);
            assert forall|i: int| 0 <= i < (before + last).len() implies self.source(
                #[trigger] (before + last)[i],
            ) < boundaries * c by {
                if i < before.len() {
                    assert((before + last)[i] == before[i]);
                } else {
                    assert((before + last)[i] == last[i - before.len()]);
                }
            }
        }
    }

    /// No link occurs twice among the links of a topology.
    pub proof fn lemma_links_no_duplicates(self)
        ensures
            self.links().no_duplicates(),
    {
        if self.buildable() && self.timesteps >= 1 {
            self.lemma_links_upto_apart(self.timesteps - 1);
        }
    }

    /// Finding the cells around a cell by position and by cell number comes
    /// to the same: the vertex ids around the cell `(x, y, z)` are those of
    /// the cells around the cell with its number.
    pub proof fn lemma_neighbors_agree(self, t: int, x: int, y: int, z: int)
        requires
            self.buildable(),
            self.in_grid(x, y, z),
            0 <= t,
            t + 1 < self.timesteps,
        ensures
            self.neighbor_vertices(t, x, y, z) == self.in_copy(
                t + 1,
                self.neighbor_cells(self.flatten(x, y, z)),
            ),
    {
        self.lemma_flatten_coords(x, y, z);
        self.lemma_flatten_in_range(x, y, z);
    }

    /// The sizes determine the edge list: two edge lists that both have the
    /// links of this topology are equal, element for element. So the two
    /// builders agree, and each agrees with itself from call to call.
    pub proof fn lemma_edges_unique(self, first: Seq<(u32, u32)>, second: Seq<(u32, u32)>)
        requires
            links_of(first) == self.links(),
            links_of(second) == self.links(),
        ensures
            first == second,
    {
        lemma_links_of_injective(first, second);
    }
}

} // verus!
