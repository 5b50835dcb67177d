//! Geometry primitives and the field grid.
//!
//! A `Dimensions` value gives the extent of the grid along x (width),
//! y (height) and z (depth); a `Point` addresses one cell; the `FieldGrid`
//! holds one domain mask per cell, linearised by `Point::id`.

use vstd::prelude::*;
use crate::bits::{Mask, bits, popcount, is_submask, mask_and, bv_clone, bv_and_assign};

verus! {

#[derive(Debug, Clone, Copy, PartialEq, Eq, Structural)]
pub struct Dimensions {
    pub width: usize,
    pub height: usize,
    pub depth: usize,
}

impl Dimensions {
    /// All three extents are positive and the cell count fits in a `usize`.
    pub open spec fn wf(self) -> bool {
        &&& 1 <= self.width
        &&& 1 <= self.height
        &&& 1 <= self.depth
        &&& self.width * self.height * self.depth <= usize::MAX
    }

    /// The number of cells of a grid of this extent.
    pub open spec fn len_spec(self) -> int {
        self.width * self.height * self.depth
    }

    pub fn new(width: usize, height: usize, depth: usize) -> (r: Self)
        ensures
            r == (Dimensions { width, height, depth }),
    {
        Self { width, height, depth }
    }

    pub fn width(&self) -> (r: usize)
        ensures
            r == self.width,
    {
        self.width
    }

    pub fn height(&self) -> (r: usize)
        ensures
            r == self.height,
    {
        self.height
    }

    pub fn depth(&self) -> (r: usize)
        ensures
            r == self.depth,
    {
        self.depth
    }

    pub fn len(&self) -> (r: usize)
        requires
            self.wf(),
        ensures
            r == self.len_spec(),
    {
        assert(self.width * self.height <= self.width * self.height * self.depth)
            by (nonlinear_arith)
            requires
                1 <= self.depth,
                0 <= self.width,
                0 <= self.height,
        ;
        self.width * self.height * self.depth
    }
}

/// One of the six cardinal directions of the grid: `Right` is +x, `Up` is
/// +y, `Forward` is +z.
#[derive(Debug, Clone, Copy, PartialEq, Eq, Structural)]
pub enum Direction {
    Up,
    Down,
    Backward,
    Forward,
    Left,
    Right,
}

#[derive(Debug, Default, Clone, Copy, PartialEq, Eq, PartialOrd, Ord, Hash, Structural)]
pub struct Point {
    pub x: usize,
    pub y: usize,
    pub z: usize,
}

impl Point {
    /// The point lies inside a grid of the given extent.
    pub open spec fn in_bounds(self, d: Dimensions) -> bool {
        self.x < d.width && self.y < d.height && self.z < d.depth
    }

    /// Linear index of the cell: `x + y*W*D + z*W`.
    pub open spec fn id_spec(self, d: Dimensions) -> int {
        self.x + self.y * d.width * d.depth + self.z * d.width
    }

    /// The neighbouring point one step in `dir`, or `None` at the boundary.
    pub open spec fn neighbor_spec(self, dir: Direction, d: Dimensions) -> Option<Point> {
        match dir {
            Direction::Left => if self.x == 0 {
                None
            } else {
                Some(Point { x: (self.x - 1) as usize, y: self.y, z: self.z })
            },
            Direction::Down => if self.y == 0 {
                None
            } else {
                Some(Point { x: self.x, y: (self.y - 1) as usize, z: self.z })
            },
            Direction::Backward => if self.z == 0 {
                None
            } else {
                Some(Point { x: self.x, y: self.y, z: (self.z - 1) as usize })
            },
            Direction::Right => if self.x + 1 < d.width {
                Some(Point { x: (self.x + 1) as usize, y: self.y, z: self.z })
            } else {
                None
            },
            Direction::Up => if self.y + 1 < d.height {
                Some(Point { x: self.x, y: (self.y + 1) as usize, z: self.z })
            } else {
                None
            },
            Direction::Forward => if self.z + 1 < d.depth {
                Some(Point { x: self.x, y: self.y, z: (self.z + 1) as usize })
            } else {
                None
            },
        }
    }

    pub fn new(x: usize, y: usize, z: usize) -> (r: Self)
        ensures
            r == (Point { x, y, z }),
    {
        Point { x, y, z }
    }

    pub fn x(&self) -> (r: usize)
        ensures
            r == self.x,
    {
        self.x
    }

    pub fn y(&self) -> (r: usize)
        ensures
            r == self.y,
    {
        self.y
    }

    pub fn z(&self) -> (r: usize)
        ensures
            r == self.z,
    {
        self.z
    }

    pub fn id(&self, dimensions: Dimensions) -> (r: usize)
        requires
            dimensions.wf(),
            self.in_bounds(dimensions),
        ensures
            r == self.id_spec(dimensions),
            r < dimensions.len_spec(),
    {
        proof {
            lemma_id_in_range(*self, dimensions);
        }
        self.x + self.y * dimensions.width * dimensions.depth + self.z * dimensions.width
    }

    pub fn left(self, dimensions: Dimensions) -> (r: Option<Point>)
        ensures
            r == self.neighbor_spec(Direction::Left, dimensions),
    {
        if self.x == 0 {
            None
        } else {
            Some(Point::new(self.x - 1, self.y, self.z))
        }
    }

    pub fn down(self, dimensions: Dimensions) -> (r: Option<Point>)
        ensures
            r == self.neighbor_spec(Direction::Down, dimensions),
    {
        if self.y == 0 {
            None
        } else {
            Some(Point::new(self.x, self.y - 1, self.z))
        }
    }

    pub fn backward(self, dimensions: Dimensions) -> (r: Option<Point>)
        ensures
            r == self.neighbor_spec(Direction::Backward, dimensions),
    {
        if self.z == 0 {
            None
        } else {
            Some(Point::new(self.x, self.y, self.z - 1))
        }
    }

    pub fn right(self, dimensions: Dimensions) -> (r: Option<Point>)
        requires
            self.in_bounds(dimensions),
        ensures
            r == self.neighbor_spec(Direction::Right, dimensions),
    {
        if self.x + 1 < dimensions.width {
            Some(Point::new(self.x + 1, self.y, self.z))
        } else {
            None
        }
    }

    pub fn up(self, dimensions: Dimensions) -> (r: Option<Point>)
        requires
            self.in_bounds(dimensions),
        ensures
            r == self.neighbor_spec(Direction::Up, dimensions),
    {
        if self.y + 1 < dimensions.height {
            Some(Point::new(self.x, self.y + 1, self.z))
        } else {
            None
        }
    }

    pub fn forward(self, dimensions: Dimensions) -> (r: Option<Point>)
        requires
            self.in_bounds(dimensions),
        ensures
            r == self.neighbor_spec(Direction::Forward, dimensions),
    {
        if self.z + 1 < dimensions.depth {
            Some(Point::new(self.x, self.y, self.z + 1))
        } else {
            None
        }
    }

    /// The neighbouring point one step in `dir`, or `None` at the boundary.
    pub fn neighbor(self, dir: Direction, dimensions: Dimensions) -> (r: Option<Point>)
        requires
            self.in_bounds(dimensions),
        ensures
            r == self.neighbor_spec(dir, dimensions),
            r matches Some(q) ==> q.in_bounds(dimensions),
    {
        match dir {
            Direction::Up => self.up(dimensions),
            Direction::Down => self.down(dimensions),
            Direction::Backward => self.backward(dimensions),
            Direction::Forward => self.forward(dimensions),
            Direction::Left => self.left(dimensions),
            Direction::Right => self.right(dimensions),
        }
    }
}

/// The linear index of an in-bounds point addresses a cell of the grid.
pub proof fn lemma_id_in_range(p: Point, d: Dimensions)
    requires
        d.wf(),
        p.in_bounds(d),
    ensures
        0 <= p.id_spec(d) < d.len_spec(),
        p.y * d.width <= p.y * d.width * d.depth,
        p.y * d.width * d.depth <= p.id_spec(d),
        p.z * d.width <= p.id_spec(d),
{
    assert(0 <= p.id_spec(d) < d.len_spec() && p.y * d.width <= p.y * d.width * d.depth && p.y
        * d.width * d.depth <= p.id_spec(d) && p.z * d.width <= p.id_spec(d)) by (nonlinear_arith)
        requires
            1 <= d.width,
            1 <= d.height,
            1 <= d.depth,
            p.x < d.width,
            p.y < d.height,
            p.z < d.depth,
    ;
}

/// Distinct in-bounds points have distinct linear indices.
pub proof fn lemma_id_injective(p1: Point, p2: Point, d: Dimensions)
    requires
        d.wf(),
        p1.in_bounds(d),
        p2.in_bounds(d),
        p1.id_spec(d) == p2.id_spec(d),
    ensures
        p1 == p2,
{
    assert(p1.x == p2.x && p1.y == p2.y && p1.z == p2.z) by (nonlinear_arith)
        requires
            1 <= d.width,
            1 <= d.depth,
            p1.x < d.width,
            p2.x < d.width,
            p1.z < d.depth,
            p2.z < d.depth,
            p1.x + p1.y * d.width * d.depth + p1.z * d.width == p2.x + p2.y * d.width * d.depth
                + p2.z * d.width,
    ;
}

/// The 3D array of per-cell domain masks.
#[derive(Debug, PartialEq, Eq)]
pub struct FieldGrid {
    pub dimensions: Dimensions,
    pub tiles: Vec<Mask>,
}

impl FieldGrid {
    /// One mask of width `n` per cell of the grid.
    pub open spec fn wf(self, n: nat) -> bool {
        &&& self.dimensions.wf()
        &&& self.tiles@.len() == self.dimensions.len_spec()
        &&& forall|k: int| 0 <= k < self.tiles@.len() ==> bits(#[trigger] self.tiles@[k]).len() == n
    }

    /// The domain mask of the cell at `p`.
    pub open spec fn cell(self, p: Point) -> Seq<bool> {
        bits(self.tiles@[p.id_spec(self.dimensions)])
    }

    /// Whether the candidate would actually drop a bit at `p`: true iff the
    /// candidate is not a superset of the current domain.
    pub open spec fn should_update_spec(self, p: Point, new_domain: Seq<bool>) -> bool {
        !(p.id_spec(self.dimensions) < self.tiles@.len() && is_submask(self.cell(p), new_domain))
    }

    /// Every cell still allows at least one transformation.
    pub open spec fn satisfiable_spec(self) -> bool {
        forall|k: int| 0 <= k < self.tiles@.len() ==> popcount(bits(#[trigger] self.tiles@[k])) >= 1
    }

    /// Every cell has collapsed to exactly one transformation.
    pub open spec fn complete_spec(self) -> bool {
        forall|k: int| 0 <= k < self.tiles@.len() ==> popcount(bits(#[trigger] self.tiles@[k])) == 1
    }

    pub fn new(dimensions: Dimensions, initial: Mask) -> (r: Self)
        requires
            dimensions.wf(),
        ensures
            r.dimensions == dimensions,
            r.tiles@.len() == dimensions.len_spec(),
            forall|k: int| 0 <= k < r.tiles@.len() ==> bits(#[trigger] r.tiles@[k]) == bits(initial),
    {
        let n = dimensions.len();
        let mut tiles: Vec<Mask> = Vec::new();
        let mut i: usize = 0;
        while i < n
            invariant
                i <= n,
                tiles@.len() == i,
                forall|k: int| 0 <= k < i ==> bits(#[trigger] tiles@[k]) == bits(initial),
            decreases n - i,
        {
            tiles.push(bv_clone(&initial));
            i = i + 1;
        }
        FieldGrid { dimensions, tiles }
    }

    pub fn set(&mut self, point: Point, vec: Mask)
        requires
            old(self).dimensions.wf(),
            point.in_bounds(old(self).dimensions),
            point.id_spec(old(self).dimensions) < old(self).tiles@.len(),
        ensures
            final(self).dimensions == old(self).dimensions,
            final(self).tiles@ == old(self).tiles@.update(
                point.id_spec(old(self).dimensions),
                vec,
            ),
    {
        let id = point.id(self.dimensions);
        self.tiles.set(id, vec);
    }

    pub fn get(&self, point: Point) -> (r: Option<&Mask>)
        requires
            self.dimensions.wf(),
            point.in_bounds(self.dimensions),
        ensures
            r is Some <==> point.id_spec(self.dimensions) < self.tiles@.len(),
            r matches Some(m) ==> *m == self.tiles@[point.id_spec(self.dimensions)],
    {
        let id = point.id(self.dimensions);
        if id < self.tiles.len() {
            Some(&self.tiles[id])
        } else {
            None
        }
    }

    pub fn dimensions(&self) -> (r: Dimensions)
        ensures
            r == self.dimensions,
    {
        self.dimensions
    }

    pub fn tiles(&self) -> (r: &Vec<Mask>)
        ensures
            r@ == self.tiles@,
    {
        &self.tiles
    }

    pub fn is_satisfiable(&self) -> (r: bool)
        ensures
            r == self.satisfiable_spec(),
    {
        let mut k: usize = 0;
        let n = self.tiles.len();
        while k < n
            invariant
                k <= n,
                n == self.tiles@.len(),
                forall|i: int| 0 <= i < k ==> popcount(bits(#[trigger] self.tiles@[i])) >= 1,
            decreases n - k,
        {
            if self.tiles[k].count_ones() < 1 {
                return false;
            }
            k = k + 1;
        }
        true
    }

    pub fn is_complete(&self) -> (r: bool)
        ensures
            r == self.complete_spec(),
    {
        let mut k: usize = 0;
        let n = self.tiles.len();
        while k < n
            invariant
                k <= n,
                n == self.tiles@.len(),
                forall|i: int| 0 <= i < k ==> popcount(bits(#[trigger] self.tiles@[i])) == 1,
            decreases n - k,
        {
            if self.tiles[k].count_ones() != 1 {
                return false;
            }
            k = k + 1;
        }
        true
    }

    pub fn should_update(&self, point: Point, new_domain: &Mask) -> (r: bool)
        requires
            self.dimensions.wf(),
            point.in_bounds(self.dimensions),
            point.id_spec(self.dimensions) < self.tiles@.len() ==> bits(*new_domain).len() == bits(
                self.tiles@[point.id_spec(self.dimensions)],
            ).len(),
        ensures
            r == self.should_update_spec(point, bits(*new_domain)),
    {
        let id = point.id(self.dimensions);
        if id < self.tiles.len() {
            !crate::bits::mask_le(&self.tiles[id], new_domain)
        } else {
            true
        }
    }

    /// The sole mutator of the grid: intersects the cell at `point` with the
    /// candidate when that would drop at least one bit, and reports whether
    /// it did.  The cell's domain never grows (its popcount never rises),
    /// and it strictly shrinks whenever the update is applied.
    pub fn update(&mut self, point: Point, new_domain: &Mask) -> (updated: bool)
        requires
            old(self).dimensions.wf(),
            point.in_bounds(old(self).dimensions),
            point.id_spec(old(self).dimensions) < old(self).tiles@.len(),
            bits(*new_domain).len() == bits(
                old(self).tiles@[point.id_spec(old(self).dimensions)],
            ).len(),
        ensures
            final(self).dimensions == old(self).dimensions,
            final(self).tiles@.len() == old(self).tiles@.len(),
            updated == old(self).should_update_spec(point, bits(*new_domain)),
            !updated ==> final(self).tiles@ == old(self).tiles@,
            updated ==> final(self).cell(point) == mask_and(
                old(self).cell(point),
                bits(*new_domain),
            ),
            updated ==> is_submask(final(self).cell(point), bits(*new_domain)),
            forall|k: int|
                0 <= k < final(self).tiles@.len() && k != point.id_spec(old(self).dimensions)
                    ==> final(self).tiles@[k] == old(self).tiles@[k],
            is_submask(final(self).cell(point), old(self).cell(point)),
            popcount(final(self).cell(point)) <= popcount(old(self).cell(point)),
            updated ==> popcount(final(self).cell(point)) < popcount(old(self).cell(point)),
    {
        let ghost pre = *self;
        if self.should_update(point, new_domain) {
            let id = point.id(self.dimensions);
            let mut merged = bv_clone(&self.tiles[id]);
            bv_and_assign(&mut merged, new_domain);
            proof {
                let c = pre.cell(point);
                let nd = bits(*new_domain);
                assert(is_submask(mask_and(c, nd), c));
                assert(is_submask(mask_and(c, nd), nd));
                let w = choose|w: int| 0 <= w < c.len() && c[w] && !nd[w];
                assert(!mask_and(c, nd)[w]);
                crate::bits::lemma_popcount_strict(mask_and(c, nd), c, w);
            }
            self.tiles.set(id, merged);
            true
        } else {
            false
        }
    }
}

} // verus!
