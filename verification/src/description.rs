//! The tile catalog and its compiler.
//!
//! A `ProblemDescription` holds tiles whose six faces carry symbolic
//! connection descriptors.  `compile` expands the catalog into a flat array
//! of transformations (four rotations per tile, in catalog order) and, for
//! each of the six directions, one adjacency mask per transformation: bit
//! `j` of `up[i]` is set exactly when transformation `j` may sit on top of
//! transformation `i`, and likewise for the other directions.

use vstd::prelude::*;
use crate::bits::{Mask, bits, all_set, bv_repeat, bv_set};
use crate::utils::Dimensions;
use crate::utils::Point;

verus! {

#[derive(Debug, Clone, Copy, PartialEq, Eq, Structural)]
pub enum TileRotation {
    R0,
    R90,
    R180,
    R270,
}

impl TileRotation {
    /// The rotation turned by 180 degrees.
    pub open spec fn opposite_spec(self) -> TileRotation {
        match self {
            TileRotation::R0 => TileRotation::R180,
            TileRotation::R90 => TileRotation::R270,
            TileRotation::R180 => TileRotation::R0,
            TileRotation::R270 => TileRotation::R90,
        }
    }

    /// The rotation turned by 180 degrees.
    pub fn opposite(self) -> (r: Self)
        ensures
            r == self.opposite_spec(),
    {
        match self {
            TileRotation::R0 => TileRotation::R180,
            TileRotation::R90 => TileRotation::R270,
            TileRotation::R180 => TileRotation::R0,
            TileRotation::R270 => TileRotation::R90,
        }
    }
}

/// A vertical face descriptor; two such faces mate exactly when their tags
/// are equal.
#[derive(Debug, Default, Clone)]
pub struct VerticalConnection {
    pub connection: String,
}

/// Two vertical connections are compatible exactly when their tags match.
pub open spec fn vertical_fits(a: VerticalConnection, b: VerticalConnection) -> bool {
    a.connection@ == b.connection@
}

impl VerticalConnection {
    pub fn is_connected(&self, other: &Self) -> (r: bool)
        ensures
            r == vertical_fits(*self, *other),
    {
        self.connection == other.connection
    }
}

/// A horizontal face descriptor: a tag, whether the connector is symmetric,
/// and the handedness of the connector itself.
#[derive(Debug, Default, Clone)]
pub struct HorizontalConnection {
    pub symmetry: bool,
    pub flipped: bool,
    pub connection: String,
}

/// Two horizontal connections, evaluated with the mirror state of their
/// owning transformations, are compatible when the tags match and either
/// side is symmetric or the effective handedness differs.
pub open spec fn horizontal_fits(
    a: HorizontalConnection,
    b: HorizontalConnection,
    a_flipped: bool,
    b_flipped: bool,
) -> bool {
    a.connection@ == b.connection@ && (a.symmetry || b.symmetry || ((a.flipped ^ a_flipped) != (
    b.flipped ^ b_flipped)))
}

impl HorizontalConnection {
    pub fn is_connected(&self, other: &Self, self_flipped: bool, other_flipped: bool) -> (r: bool)
        ensures
            r == horizontal_fits(*self, *other, self_flipped, other_flipped),
    {
        if !(self.connection == other.connection) {
            return false;
        }
        if self.symmetry || other.symmetry {
            return true;
        }
        let self_flipped = self.flipped ^ self_flipped;
        let other_flipped = other.flipped ^ other_flipped;
        self_flipped != other_flipped
    }
}

/// Some pair drawn from the two vertical face lists is compatible.
pub open spec fn vertical_lists_fit(
    xs: Seq<VerticalConnection>,
    ys: Seq<VerticalConnection>,
) -> bool {
    exists|p: int, q: int|
        0 <= p < xs.len() && 0 <= q < ys.len() && #[trigger] vertical_fits(xs[p], ys[q])
}

/// Some pair drawn from the two horizontal face lists is compatible.
pub open spec fn horizontal_lists_fit(
    xs: Seq<HorizontalConnection>,
    ys: Seq<HorizontalConnection>,
    a_flipped: bool,
    b_flipped: bool,
) -> bool {
    exists|p: int, q: int|
        0 <= p < xs.len() && 0 <= q < ys.len() && #[trigger] horizontal_fits(
            xs[p],
            ys[q],
            a_flipped,
            b_flipped,
        )
}

fn vertical_lists_connected(xs: &Vec<VerticalConnection>, ys: &Vec<VerticalConnection>) -> (r:
    bool)
    ensures
        r == vertical_lists_fit(xs@, ys@),
{
    let mut p: usize = 0;
    while p < xs.len()
        invariant
            p <= xs@.len(),
            forall|a: int, b: int|
                0 <= a < p && 0 <= b < ys@.len() ==> !vertical_fits(xs@[a], ys@[b]),
        decreases xs@.len() - p,
    {
        let mut q: usize = 0;
        while q < ys.len()
            invariant
                p < xs@.len(),
                q <= ys@.len(),
                forall|b: int| 0 <= b < q ==> !vertical_fits(xs@[p as int], ys@[b]),
                forall|a: int, b: int|
                    0 <= a < p && 0 <= b < ys@.len() ==> !vertical_fits(xs@[a], ys@[b]),
            decreases ys@.len() - q,
        {
            if xs[p].is_connected(&ys[q]) {
                assert(vertical_fits(xs@[p as int], ys@[q as int]));
                return true;
            }
            q = q + 1;
        }
        p = p + 1;
    }
    false
}

fn horizontal_lists_connected(
    xs: &Vec<HorizontalConnection>,
    ys: &Vec<HorizontalConnection>,
    a_flipped: bool,
    b_flipped: bool,
) -> (r: bool)
    ensures
        r == horizontal_lists_fit(xs@, ys@, a_flipped, b_flipped),
{
    let mut p: usize = 0;
    while p < xs.len()
        invariant
            p <= xs@.len(),
            forall|a: int, b: int|
                0 <= a < p && 0 <= b < ys@.len() ==> !horizontal_fits(
                    xs@[a],
                    ys@[b],
                    a_flipped,
                    b_flipped,
                ),
        decreases xs@.len() - p,
    {
        let mut q: usize = 0;
        while q < ys.len()
            invariant
                p < xs@.len(),
                q <= ys@.len(),
                forall|b: int|
                    0 <= b < q ==> !horizontal_fits(xs@[p as int], ys@[b], a_flipped, b_flipped),
                forall|a: int, b: int|
                    0 <= a < p && 0 <= b < ys@.len() ==> !horizontal_fits(
                        xs@[a],
                        ys@[b],
                        a_flipped,
                        b_flipped,
                    ),
            decreases ys@.len() - q,
        {
            if xs[p].is_connected(&ys[q], a_flipped, b_flipped) {
                assert(horizontal_fits(xs@[p as int], ys@[q as int], a_flipped, b_flipped));
                return true;
            }
            q = q + 1;
        }
        p = p + 1;
    }
    false
}

/// A catalog tile: an identifier opaque to the solver, one connection list
/// per face, and expansion flags.
#[derive(Debug, Clone, Default)]
pub struct Tile<D> {
    pub id: D,
    pub up: Vec<VerticalConnection>,
    pub down: Vec<VerticalConnection>,
    pub left: Vec<HorizontalConnection>,
    pub right: Vec<HorizontalConnection>,
    pub forward: Vec<HorizontalConnection>,
    pub backward: Vec<HorizontalConnection>,
    pub can_rotate: bool,
    pub can_flip: bool,
}

impl<D> Tile<D> {
    /// Which of the tile's own horizontal face lists is consulted when the
    /// world asks in direction `want` and the tile faces `facing`: the face
    /// label turns with the tile.
    pub open spec fn face_spec(self, want: TileRotation, facing: TileRotation) -> Seq<
        HorizontalConnection,
    > {
        match (want, facing) {
            (TileRotation::R0, TileRotation::R0) => self.forward@,
            (TileRotation::R0, TileRotation::R90) => self.left@,
            (TileRotation::R0, TileRotation::R180) => self.backward@,
            (TileRotation::R0, TileRotation::R270) => self.right@,
            (TileRotation::R90, TileRotation::R0) => self.right@,
            (TileRotation::R90, TileRotation::R90) => self.forward@,
            (TileRotation::R90, TileRotation::R180) => self.left@,
            (TileRotation::R90, TileRotation::R270) => self.backward@,
            (TileRotation::R180, TileRotation::R0) => self.backward@,
            (TileRotation::R180, TileRotation::R90) => self.right@,
            (TileRotation::R180, TileRotation::R180) => self.forward@,
            (TileRotation::R180, TileRotation::R270) => self.left@,
            (TileRotation::R270, TileRotation::R0) => self.left@,
            (TileRotation::R270, TileRotation::R90) => self.backward@,
            (TileRotation::R270, TileRotation::R180) => self.right@,
            (TileRotation::R270, TileRotation::R270) => self.forward@,
        }
    }

    pub fn get_horizontal_connection(
        &self,
        want_direction: TileRotation,
        facing_direction: TileRotation,
    ) -> (r: &Vec<HorizontalConnection>)
        ensures
            r@ == self.face_spec(want_direction, facing_direction),
    {
        match (want_direction, facing_direction) {
            (TileRotation::R0, TileRotation::R0) => &self.forward,
            (TileRotation::R0, TileRotation::R90) => &self.left,
            (TileRotation::R0, TileRotation::R180) => &self.backward,
            (TileRotation::R0, TileRotation::R270) => &self.right,
            (TileRotation::R90, TileRotation::R0) => &self.right,
            (TileRotation::R90, TileRotation::R90) => &self.forward,
            (TileRotation::R90, TileRotation::R180) => &self.left,
            (TileRotation::R90, TileRotation::R270) => &self.backward,
            (TileRotation::R180, TileRotation::R0) => &self.backward,
            (TileRotation::R180, TileRotation::R90) => &self.right,
            (TileRotation::R180, TileRotation::R180) => &self.forward,
            (TileRotation::R180, TileRotation::R270) => &self.left,
            (TileRotation::R270, TileRotation::R0) => &self.left,
            (TileRotation::R270, TileRotation::R90) => &self.backward,
            (TileRotation::R270, TileRotation::R180) => &self.right,
            (TileRotation::R270, TileRotation::R270) => &self.forward,
        }
    }
}

/// A tile pinned to a point of the grid in a fixed orientation.
pub struct FixedTile<D> {
    pub point: Point,
    pub rotation: TileRotation,
    pub tile: Tile<D>,
}

impl<D> FixedTile<D> {
    pub fn new(point: Point, rotation: TileRotation, tile: Tile<D>) -> (r: Self)
        ensures
            r.point == point,
            r.rotation == rotation,
            r.tile == tile,
    {
        Self { point, rotation, tile }
    }
}

/// One oriented instance of a catalog tile.
#[derive(Debug, Clone, PartialEq, Eq, Structural)]
pub struct TileData {
    pub tile_index: usize,
    pub rotation: TileRotation,
    pub flipped: bool,
}

impl TileData {
    pub fn new(index: usize, rotation: TileRotation, flipped: bool) -> (r: Self)
        ensures
            r == (TileData { tile_index: index, rotation, flipped }),
    {
        TileData { tile_index: index, rotation, flipped }
    }
}

/// The rotation stored at offset `k` of a tile's four-entry block.
pub open spec fn rotation_index_spec(k: int) -> TileRotation {
    if k == 0 {
        TileRotation::R0
    } else if k == 1 {
        TileRotation::R90
    } else if k == 2 {
        TileRotation::R180
    } else {
        TileRotation::R270
    }
}

/// The offset of a rotation within a tile's four-entry block.
pub open spec fn rotation_ordinal_spec(r: TileRotation) -> int {
    match r {
        TileRotation::R0 => 0,
        TileRotation::R90 => 1,
        TileRotation::R180 => 2,
        TileRotation::R270 => 3,
    }
}

/// The transformation stored at index `i` of the compiled array: tile
/// `i / 4`, rotation `i % 4`, unflipped.
pub open spec fn transformation_spec(i: int) -> TileData {
    TileData { tile_index: (i / 4) as usize, rotation: rotation_index_spec(i % 4), flipped: false }
}

/// Transformation `j` may sit on top of transformation `i`.
pub open spec fn up_allowed<D>(tiles: Seq<Tile<D>>, trans: Seq<TileData>, i: int, j: int) -> bool {
    vertical_lists_fit(
        tiles[trans[i].tile_index as int].up@,
        tiles[trans[j].tile_index as int].down@,
    )
}

/// Transformation `j` may sit below transformation `i`.
pub open spec fn down_allowed<D>(tiles: Seq<Tile<D>>, trans: Seq<TileData>, i: int, j: int) -> bool {
    vertical_lists_fit(
        tiles[trans[i].tile_index as int].down@,
        tiles[trans[j].tile_index as int].up@,
    )
}

/// Transformation `j` may sit on the `dir` side of transformation `i`,
/// where `dir` is a horizontal world direction given as a quarter-turn
/// (forward is `R0`, right `R90`, backward `R180`, left `R270`).
pub open spec fn side_allowed<D>(
    tiles: Seq<Tile<D>>,
    trans: Seq<TileData>,
    dir: TileRotation,
    i: int,
    j: int,
) -> bool {
    horizontal_lists_fit(
        tiles[trans[i].tile_index as int].face_spec(dir, trans[i].rotation),
        tiles[trans[j].tile_index as int].face_spec(dir.opposite_spec(), trans[j].rotation),
        trans[i].flipped,
        trans[j].flipped,
    )
}

/// A compiled problem: the transformation array and the six adjacency
/// tables, one mask per transformation and direction.
#[derive(Debug, PartialEq, Eq)]
pub struct CompiledDescription {
    pub dimensions: Dimensions,
    pub transformation: Vec<TileData>,
    pub up: Vec<Mask>,
    pub down: Vec<Mask>,
    pub left: Vec<Mask>,
    pub right: Vec<Mask>,
    pub forward: Vec<Mask>,
    pub backward: Vec<Mask>,
}

impl CompiledDescription {
    /// Structural well-formedness: positive dimensions, and six square
    /// tables of the transformation count's width.
    pub open spec fn wf(self) -> bool {
        let n = self.transformation@.len();
        &&& self.dimensions.wf()
        &&& 1 <= n
        &&& self.up@.len() == n
        &&& self.down@.len() == n
        &&& self.left@.len() == n
        &&& self.right@.len() == n
        &&& self.forward@.len() == n
        &&& self.backward@.len() == n
        &&& forall|i: int| 0 <= i < n ==> (#[trigger] bits(self.up@[i])).len() == n
        &&& forall|i: int| 0 <= i < n ==> (#[trigger] bits(self.down@[i])).len() == n
        &&& forall|i: int| 0 <= i < n ==> (#[trigger] bits(self.left@[i])).len() == n
        &&& forall|i: int| 0 <= i < n ==> (#[trigger] bits(self.right@[i])).len() == n
        &&& forall|i: int| 0 <= i < n ==> (#[trigger] bits(self.forward@[i])).len() == n
        &&& forall|i: int| 0 <= i < n ==> (#[trigger] bits(self.backward@[i])).len() == n
    }

    pub fn dimensions(&self) -> (r: Dimensions)
        ensures
            r == self.dimensions,
    {
        self.dimensions
    }

    /// The mask with every transformation still possible.
    pub fn all_domain(&self) -> (r: Mask)
        ensures
            bits(r).len() == self.transformation@.len(),
            all_set(bits(r)),
    {
        bv_repeat(true, self.transformation.len())
    }

    /// The number of transformations.
    pub fn len(&self) -> (r: usize)
        ensures
            r == self.transformation@.len(),
    {
        self.transformation.len()
    }

    pub fn data(&self, index: usize) -> (r: &TileData)
        requires
            index < self.transformation@.len(),
        ensures
            *r == self.transformation@[index as int],
    {
        &self.transformation[index]
    }

    pub fn up(&self, index: usize) -> (r: &Mask)
        requires
            index < self.up@.len(),
        ensures
            *r == self.up@[index as int],
    {
        &self.up[index]
    }

    pub fn down(&self, index: usize) -> (r: &Mask)
        requires
            index < self.down@.len(),
        ensures
            *r == self.down@[index as int],
    {
        &self.down[index]
    }

    pub fn backward(&self, index: usize) -> (r: &Mask)
        requires
            index < self.backward@.len(),
        ensures
            *r == self.backward@[index as int],
    {
        &self.backward[index]
    }

    pub fn forward(&self, index: usize) -> (r: &Mask)
        requires
            index < self.forward@.len(),
        ensures
            *r == self.forward@[index as int],
    {
        &self.forward[index]
    }

    pub fn left(&self, index: usize) -> (r: &Mask)
        requires
            index < self.left@.len(),
        ensures
            *r == self.left@[index as int],
    {
        &self.left[index]
    }

    pub fn right(&self, index: usize) -> (r: &Mask)
        requires
            index < self.right@.len(),
        ensures
            *r == self.right@[index as int],
    {
        &self.right[index]
    }
}

/// What `compile` promises of its result: the transformation array is the
/// fixed tile-major layout, and bit `j` of each table row `i` holds exactly
/// when the face-compatibility predicate accepts the pair.
pub open spec fn compiled_matches<D>(
    tiles: Seq<Tile<D>>,
    dimensions: Dimensions,
    c: CompiledDescription,
) -> bool {
    let trans = c.transformation@;
    let n = 4 * tiles.len();
    &&& c.dimensions == dimensions
    &&& trans.len() == n
    &&& forall|i: int| 0 <= i < n ==> #[trigger] trans[i] == transformation_spec(i)
    &&& c.up@.len() == n
    &&& c.down@.len() == n
    &&& c.left@.len() == n
    &&& c.right@.len() == n
    &&& c.forward@.len() == n
    &&& c.backward@.len() == n
    &&& forall|i: int| 0 <= i < n ==> (#[trigger] bits(c.up@[i])).len() == n
    &&& forall|i: int| 0 <= i < n ==> (#[trigger] bits(c.down@[i])).len() == n
    &&& forall|i: int| 0 <= i < n ==> (#[trigger] bits(c.left@[i])).len() == n
    &&& forall|i: int| 0 <= i < n ==> (#[trigger] bits(c.right@[i])).len() == n
    &&& forall|i: int| 0 <= i < n ==> (#[trigger] bits(c.forward@[i])).len() == n
    &&& forall|i: int| 0 <= i < n ==> (#[trigger] bits(c.backward@[i])).len() == n
    &&& forall|i: int, j: int|
        0 <= i < n && 0 <= j < n ==> (#[trigger] bits(c.up@[i])[j]) == up_allowed(tiles, trans, i, j)
    &&& forall|i: int, j: int|
        0 <= i < n && 0 <= j < n ==> (#[trigger] bits(c.down@[i])[j]) == down_allowed(
            tiles,
            trans,
            i,
            j,
        )
    &&& forall|i: int, j: int|
        0 <= i < n && 0 <= j < n ==> (#[trigger] bits(c.left@[i])[j]) == side_allowed(
            tiles,
            trans,
            TileRotation::R270,
            i,
            j,
        )
    &&& forall|i: int, j: int|
        0 <= i < n && 0 <= j < n ==> (#[trigger] bits(c.right@[i])[j]) == side_allowed(
            tiles,
            trans,
            TileRotation::R90,
            i,
            j,
        )
    &&& forall|i: int, j: int|
        0 <= i < n && 0 <= j < n ==> (#[trigger] bits(c.forward@[i])[j]) == side_allowed(
            tiles,
            trans,
            TileRotation::R0,
            i,
            j,
        )
    &&& forall|i: int, j: int|
        0 <= i < n && 0 <= j < n ==> (#[trigger] bits(c.backward@[i])[j]) == side_allowed(
            tiles,
            trans,
            TileRotation::R180,
            i,
            j,
        )
}

/// A human-authored problem: the connection vocabulary, the grid extent and
/// the tile catalog.
#[derive(Debug, Clone)]
pub struct ProblemDescription<D> {
    pub connections: Vec<String>,
    pub dimensions: Dimensions,
    pub tiles: Vec<Tile<D>>,
}

impl<D> ProblemDescription<D> {
    /// Positive dimensions whose cell count fits in a `usize`, and a
    /// non-empty catalog whose four-rotation expansion fits in a `usize`.
    pub open spec fn wf(self) -> bool {
        &&& self.dimensions.wf()
        &&& 1 <= self.tiles@.len()
        &&& self.tiles@.len() * 4 <= usize::MAX
    }

    /// Expands the catalog into the compiled form.  Every tile is expanded
    /// to all four rotations regardless of its `can_rotate` flag, and no
    /// mirrored transformations are produced regardless of `can_flip`: the
    /// two flags are carried for the catalog's sake but do not yet gate the
    /// expansion.
    pub fn compile(&self) -> (r: CompiledDescription)
        requires
            self.wf(),
        ensures
            compiled_matches(self.tiles@, self.dimensions, r),
    {
        let m = self.tiles.len();
        let mut transformation: Vec<TileData> = Vec::new();
        let mut index: usize = 0;
        while index < m
            invariant
                index <= m,
                m == self.tiles@.len(),
                m * 4 <= usize::MAX,
                transformation@.len() == 4 * index,
                forall|i: int|
                    0 <= i < transformation@.len() ==> #[trigger] transformation@[i]
                        == transformation_spec(i),
            decreases m - index,
        {
            transformation.push(TileData::new(index, TileRotation::R0, false));
            transformation.push(TileData::new(index, TileRotation::R90, false));
            transformation.push(TileData::new(index, TileRotation::R180, false));
            transformation.push(TileData::new(index, TileRotation::R270, false));
            proof {
                assert forall|k: int| 0 <= k < 4 implies transformation_spec(4 * index + k) == (
                TileData {
                    tile_index: index,
                    rotation: rotation_index_spec(k),
                    flipped: false,
                }) by {
                    assert((4 * index + k) / 4 == index as int);
                    assert((4 * index + k) % 4 == k);
                }
            }
            index = index + 1;
        }
        proof {
            assert forall|t: int|
                0 <= t < transformation@.len() implies (#[trigger] transformation@[t]).tile_index
                < self.tiles@.len() by {
                assert(transformation@[t] == transformation_spec(t));
            }
        }
        let up = collect_up_connections(&self.tiles, &transformation);
        let down = collect_down_connections(&self.tiles, &transformation);
        let left = collect_direction_connections(&self.tiles, &transformation, TileRotation::R270);
        let right = collect_direction_connections(&self.tiles, &transformation, TileRotation::R90);
        let forward = collect_direction_connections(&self.tiles, &transformation, TileRotation::R0);
        let backward = collect_direction_connections(
            &self.tiles,
            &transformation,
            TileRotation::R180,
        );
        CompiledDescription {
            dimensions: self.dimensions,
            transformation,
            up,
            down,
            left,
            right,
            forward,
            backward,
        }
    }
}

proof fn lemma_push_contains(s: Seq<usize>, v: usize, x: usize)
    ensures
        s.push(v).contains(x) <==> (s.contains(x) || x == v),
{
    if s.push(v).contains(x) {
        let k = choose|k: int| 0 <= k < s.push(v).len() && s.push(v)[k] == x;
        if k < s.len() {
            assert(s[k] == x);
        }
    }
    if s.contains(x) {
        let k = choose|k: int| 0 <= k < s.len() && s[k] == x;
        assert(s.push(v)[k] == x);
    }
    if x == v {
        assert(s.push(v)[s.len() as int] == x);
    }
}

fn collect_up_nodes<D>(tile: usize, tiles: &Vec<Tile<D>>, transformations: &Vec<TileData>) -> (r:
    Vec<usize>)
    requires
        (tile as int) < transformations@.len(),
        forall|t: int|
            0 <= t < transformations@.len() ==> (#[trigger] transformations@[t]).tile_index
                < tiles@.len(),
    ensures
        forall|k: int| 0 <= k < r@.len() ==> (#[trigger] r@[k]) < transformations@.len(),
        forall|j: int|
            0 <= j < transformations@.len() ==> (r@.contains(j as usize) <==> up_allowed(
                tiles@,
                transformations@,
                tile as int,
                j,
            )),
{
    let up_connections = &tiles[transformations[tile].tile_index].up;
    let mut r: Vec<usize> = Vec::new();
    let n = transformations.len();
    let mut j: usize = 0;
    while j < n
        invariant
            j <= n,
            n == transformations@.len(),
            (tile as int) < transformations@.len(),
            forall|t: int|
                0 <= t < transformations@.len() ==> (#[trigger] transformations@[t]).tile_index
                    < tiles@.len(),
            up_connections@ == tiles@[transformations@[tile as int].tile_index as int].up@,
            forall|k: int| 0 <= k < r@.len() ==> (#[trigger] r@[k]) < j,
            forall|jj: int|
                0 <= jj < j ==> (r@.contains(jj as usize) <==> up_allowed(
                    tiles@,
                    transformations@,
                    tile as int,
                    jj,
                )),
        decreases n - j,
    {
        let ghost r_old = r@;
        let td = &transformations[j];
        let tile_down = &tiles[td.tile_index].down;
        let fits = vertical_lists_connected(up_connections, tile_down);
        if fits {
            r.push(j);
        }
        proof {
            assert forall|jj: int|
                0 <= jj < j + 1 implies (r@.contains(jj as usize) <==> up_allowed(
                tiles@,
                transformations@,
                tile as int,
                jj,
            )) by {
                if fits {
                    lemma_push_contains(r_old, j, jj as usize);
                }
                if jj < j {
                } else {
                    if !fits {
                        if r@.contains(jj as usize) {
                            let k = choose|k: int| 0 <= k < r@.len() && r@[k] == jj as usize;
                            assert(r@[k] < j);
                        }
                    }
                }
            }
        }
        j = j + 1;
    }
    r
}

fn collect_up_connections<D>(tiles: &Vec<Tile<D>>, transformations: &Vec<TileData>) -> (r: Vec<
    Mask,
>)
    requires
        forall|t: int|
            0 <= t < transformations@.len() ==> (#[trigger] transformations@[t]).tile_index
                < tiles@.len(),
    ensures
        r@.len() == transformations@.len(),
        forall|i: int|
            0 <= i < r@.len() ==> (#[trigger] bits(r@[i])).len() == transformations@.len(),
        forall|i: int, j: int|
            0 <= i < r@.len() && 0 <= j < transformations@.len() ==> (#[trigger] bits(r@[i])[j])
                == up_allowed(tiles@, transformations@, i, j),
{
    let n = transformations.len();
    let mut r: Vec<Mask> = Vec::new();
    let mut index: usize = 0;
    while index < n
        invariant
            index <= n,
            n == transformations@.len(),
            forall|t: int|
                0 <= t < transformations@.len() ==> (#[trigger] transformations@[t]).tile_index
                    < tiles@.len(),
            r@.len() == index,
            forall|i: int| 0 <= i < index ==> (#[trigger] bits(r@[i])).len() == n,
            forall|i: int, j: int|
                0 <= i < index && 0 <= j < n ==> (#[trigger] bits(r@[i])[j]) == up_allowed(
                    tiles@,
                    transformations@,
                    i,
                    j,
                ),
        decreases n - index,
    {
        let nodes = collect_up_nodes(index, tiles, transformations);
        let row = row_from_nodes(&nodes, n);
        proof {
            assert forall|j: int| 0 <= j < n implies (#[trigger] bits(row)[j]) == up_allowed(
                tiles@,
                transformations@,
                index as int,
                j,
            ) by {
                assert(bits(row)[j] == nodes@.contains(j as usize));
            }
        }
        r.push(row);
        index = index + 1;
    }
    r
}

fn collect_down_nodes<D>(tile: usize, tiles: &Vec<Tile<D>>, transformations: &Vec<TileData>) -> (r:
    Vec<usize>)
    requires
        (tile as int) < transformations@.len(),
        forall|t: int|
            0 <= t < transformations@.len() ==> (#[trigger] transformations@[t]).tile_index
                < tiles@.len(),
    ensures
        forall|k: int| 0 <= k < r@.len() ==> (#[trigger] r@[k]) < transformations@.len(),
        forall|j: int|
            0 <= j < transformations@.len() ==> (r@.contains(j as usize) <==> down_allowed(
                tiles@,
                transformations@,
                tile as int,
                j,
            )),
{
    let down_connections = &tiles[transformations[tile].tile_index].down;
    let mut r: Vec<usize> = Vec::new();
    let n = transformations.len();
    let mut j: usize = 0;
    while j < n
        invariant
            j <= n,
            n == transformations@.len(),
            (tile as int) < transformations@.len(),
            forall|t: int|
                0 <= t < transformations@.len() ==> (#[trigger] transformations@[t]).tile_index
                    < tiles@.len(),
            down_connections@ == tiles@[transformations@[tile as int].tile_index as int].down@,
            forall|k: int| 0 <= k < r@.len() ==> (#[trigger] r@[k]) < j,
            forall|jj: int|
                0 <= jj < j ==> (r@.contains(jj as usize) <==> down_allowed(
                    tiles@,
                    transformations@,
                    tile as int,
                    jj,
                )),
        decreases n - j,
    {
        let ghost r_old = r@;
        let td = &transformations[j];
        let tile_up = &tiles[td.tile_index].up;
        let fits = vertical_lists_connected(down_connections, tile_up);
        if fits {
            r.push(j);
        }
        proof {
            assert forall|jj: int|
                0 <= jj < j + 1 implies (r@.contains(jj as usize) <==> down_allowed(
                tiles@,
                transformations@,
                tile as int,
                jj,
            )) by {
                if fits {
                    lemma_push_contains(r_old, j, jj as usize);
                }
                if jj < j {
                } else {
                    if !fits {
                        if r@.contains(jj as usize) {
                            let k = choose|k: int| 0 <= k < r@.len() && r@[k] == jj as usize;
                            assert(r@[k] < j);
                        }
                    }
                }
            }
        }
        j = j + 1;
    }
    r
}

fn collect_down_connections<D>(tiles: &Vec<Tile<D>>, transformations: &Vec<TileData>) -> (r: Vec<
    Mask,
>)
    requires
        forall|t: int|
            0 <= t < transformations@.len() ==> (#[trigger] transformations@[t]).tile_index
                < tiles@.len(),
    ensures
        r@.len() == transformations@.len(),
        forall|i: int|
            0 <= i < r@.len() ==> (#[trigger] bits(r@[i])).len() == transformations@.len(),
        forall|i: int, j: int|
            0 <= i < r@.len() && 0 <= j < transformations@.len() ==> (#[trigger] bits(r@[i])[j])
                == down_allowed(tiles@, transformations@, i, j),
{
    let n = transformations.len();
    let mut r: Vec<Mask> = Vec::new();
    let mut index: usize = 0;
    while index < n
        invariant
            index <= n,
            n == transformations@.len(),
            forall|t: int|
                0 <= t < transformations@.len() ==> (#[trigger] transformations@[t]).tile_index
                    < tiles@.len(),
            r@.len() == index,
            forall|i: int| 0 <= i < index ==> (#[trigger] bits(r@[i])).len() == n,
            forall|i: int, j: int|
                0 <= i < index && 0 <= j < n ==> (#[trigger] bits(r@[i])[j]) == down_allowed(
                    tiles@,
                    transformations@,
                    i,
                    j,
                ),
        decreases n - index,
    {
        let nodes = collect_down_nodes(index, tiles, transformations);
        let row = row_from_nodes(&nodes, n);
        proof {
            assert forall|j: int| 0 <= j < n implies (#[trigger] bits(row)[j]) == down_allowed(
                tiles@,
                transformations@,
                index as int,
                j,
            ) by {
                assert(bits(row)[j] == nodes@.contains(j as usize));
            }
        }
        r.push(row);
        index = index + 1;
    }
    r
}

fn collect_direction_nodes<D>(
    transform_index: usize,
    tiles: &Vec<Tile<D>>,
    transformations: &Vec<TileData>,
    tile_data: &TileData,
    tile_direction: TileRotation,
) -> (r: Vec<usize>)
    requires
        (transform_index as int) < transformations@.len(),
        *tile_data == transformations@[transform_index as int],
        forall|t: int|
            0 <= t < transformations@.len() ==> (#[trigger] transformations@[t]).tile_index
                < tiles@.len(),
    ensures
        forall|k: int| 0 <= k < r@.len() ==> (#[trigger] r@[k]) < transformations@.len(),
        forall|j: int|
            0 <= j < transformations@.len() ==> (r@.contains(j as usize) <==> side_allowed(
                tiles@,
                transformations@,
                tile_direction,
                transform_index as int,
                j,
            )),
{
    let connections = &tiles[transformations[transform_index].tile_index];
    let connections = connections.get_horizontal_connection(tile_direction, tile_data.rotation);
    let mut r: Vec<usize> = Vec::new();
    let n = transformations.len();
    let mut j: usize = 0;
    while j < n
        invariant
            j <= n,
            n == transformations@.len(),
            (transform_index as int) < transformations@.len(),
            *tile_data == transformations@[transform_index as int],
            forall|t: int|
                0 <= t < transformations@.len() ==> (#[trigger] transformations@[t]).tile_index
                    < tiles@.len(),
            connections@ == tiles@[transformations@[transform_index as int].tile_index as int]
                .face_spec(tile_direction, tile_data.rotation),
            forall|k: int| 0 <= k < r@.len() ==> (#[trigger] r@[k]) < j,
            forall|jj: int|
                0 <= jj < j ==> (r@.contains(jj as usize) <==> side_allowed(
                    tiles@,
                    transformations@,
                    tile_direction,
                    transform_index as int,
                    jj,
                )),
        decreases n - j,
    {
        let ghost r_old = r@;
        let td = &transformations[j];
        let other = tiles[td.tile_index].get_horizontal_connection(
            tile_direction.opposite(),
            td.rotation,
        );
        let fits = horizontal_lists_connected(connections, other, tile_data.flipped, td.flipped);
        if fits {
            r.push(j);
        }
        proof {
            assert forall|jj: int|
                0 <= jj < j + 1 implies (r@.contains(jj as usize) <==> side_allowed(
                tiles@,
                transformations@,
                tile_direction,
                transform_index as int,
                jj,
            )) by {
                if fits {
                    lemma_push_contains(r_old, j, jj as usize);
                }
                if jj < j {
                } else {
                    if !fits {
                        if r@.contains(jj as usize) {
                            let k = choose|k: int| 0 <= k < r@.len() && r@[k] == jj as usize;
                            assert(r@[k] < j);
                        }
                    }
                }
            }
        }
        j = j + 1;
    }
    r
}

fn collect_direction_connections<D>(
    tiles: &Vec<Tile<D>>,
    transformations: &Vec<TileData>,
    tile_direction: TileRotation,
) -> (r: Vec<Mask>)
    requires
        forall|t: int|
            0 <= t < transformations@.len() ==> (#[trigger] transformations@[t]).tile_index
                < tiles@.len(),
    ensures
        r@.len() == transformations@.len(),
        forall|i: int|
            0 <= i < r@.len() ==> (#[trigger] bits(r@[i])).len() == transformations@.len(),
        forall|i: int, j: int|
            0 <= i < r@.len() && 0 <= j < transformations@.len() ==> (#[trigger] bits(r@[i])[j])
                == side_allowed(tiles@, transformations@, tile_direction, i, j),
{
    let n = transformations.len();
    let mut r: Vec<Mask> = Vec::new();
    let mut index: usize = 0;
    while index < n
        invariant
            index <= n,
            n == transformations@.len(),
            forall|t: int|
                0 <= t < transformations@.len() ==> (#[trigger] transformations@[t]).tile_index
                    < tiles@.len(),
            r@.len() == index,
            forall|i: int| 0 <= i < index ==> (#[trigger] bits(r@[i])).len() == n,
            forall|i: int, j: int|
                0 <= i < index && 0 <= j < n ==> (#[trigger] bits(r@[i])[j]) == side_allowed(
                    tiles@,
                    transformations@,
                    tile_direction,
                    i,
                    j,
                ),
        decreases n - index,
    {
        let td = &transformations[index];
        let nodes = collect_direction_nodes(index, tiles, transformations, td, tile_direction);
        let row = row_from_nodes(&nodes, n);
        proof {
            assert forall|j: int| 0 <= j < n implies (#[trigger] bits(row)[j]) == side_allowed(
                tiles@,
                transformations@,
                tile_direction,
                index as int,
                j,
            ) by {
                assert(bits(row)[j] == nodes@.contains(j as usize));
            }
        }
        r.push(row);
        index = index + 1;
    }
    r
}

/// A width-`n` mask whose set bits are exactly the listed indices.
fn row_from_nodes(nodes: &Vec<usize>, n: usize) -> (row: Mask)
    requires
        forall|k: int| 0 <= k < nodes@.len() ==> (#[trigger] nodes@[k]) < n,
    ensures
        bits(row).len() == n,
        forall|j: int| 0 <= j < n ==> (#[trigger] bits(row)[j]) == nodes@.contains(j as usize),
{
    let mut row = bv_repeat(false, n);
    let mut t: usize = 0;
    while t < nodes.len()
        invariant
            t <= nodes@.len(),
            forall|k: int| 0 <= k < nodes@.len() ==> (#[trigger] nodes@[k]) < n,
            bits(row).len() == n,
            forall|j: int|
                0 <= j < n ==> ((#[trigger] bits(row)[j]) <==> exists|u: int|
                    0 <= u < t && (nodes@[u] as int) == j),
        decreases nodes@.len() - t,
    {
        let ghost before = bits(row);
        bv_set(&mut row, nodes[t], true);
        proof {
            assert forall|j: int|
                0 <= j < n implies ((#[trigger] bits(row)[j]) <==> exists|u: int|
                0 <= u < t + 1 && (nodes@[u] as int) == j) by {
                if j == nodes@[t as int] as int {
                    assert(bits(row)[j]);
                    assert(0 <= t < t + 1 && (nodes@[t as int] as int) == j);
                } else {
                    assert(bits(row)[j] == before[j]);
                    if bits(row)[j] {
                        let u = choose|u: int| 0 <= u < t && (nodes@[u] as int) == j;
                        assert(0 <= u < t + 1 && (nodes@[u] as int) == j);
                    }
                    if exists|u: int| 0 <= u < t + 1 && (nodes@[u] as int) == j {
                        let u = choose|u: int| 0 <= u < t + 1 && (nodes@[u] as int) == j;
                        assert(u < t);
                    }
                }
            }
        }
        t = t + 1;
    }
    proof {
        assert forall|j: int| 0 <= j < n implies (#[trigger] bits(row)[j]) == nodes@.contains(
            j as usize,
        ) by {
            if bits(row)[j] {
                let u = choose|u: int| 0 <= u < nodes@.len() && (nodes@[u] as int) == j;
                assert(nodes@[u] == j as usize);
            }
            if nodes@.contains(j as usize) {
                let u = choose|u: int| 0 <= u < nodes@.len() && nodes@[u] == j as usize;
                assert((nodes@[u] as int) == j);
            }
        }
    }
    row
}

/// Compiling the same catalog and extent twice yields structurally equal
/// results: equal dimensions, equal transformation arrays, and tables whose
/// rows hold the same bits.
pub proof fn lemma_compile_deterministic<D>(
    tiles: Seq<Tile<D>>,
    dimensions: Dimensions,
    c1: CompiledDescription,
    c2: CompiledDescription,
)
    requires
        compiled_matches(tiles, dimensions, c1),
        compiled_matches(tiles, dimensions, c2),
    ensures
        c1.dimensions == c2.dimensions,
        c1.transformation@ == c2.transformation@,
        c1.up@.len() == c2.up@.len(),
        c1.down@.len() == c2.down@.len(),
        c1.left@.len() == c2.left@.len(),
        c1.right@.len() == c2.right@.len(),
        c1.forward@.len() == c2.forward@.len(),
        c1.backward@.len() == c2.backward@.len(),
        forall|i: int| 0 <= i < c1.up@.len() ==> bits(#[trigger] c1.up@[i]) == bits(c2.up@[i]),
        forall|i: int| 0 <= i < c1.down@.len() ==> bits(#[trigger] c1.down@[i]) == bits(c2.down@[i]),
        forall|i: int| 0 <= i < c1.left@.len() ==> bits(#[trigger] c1.left@[i]) == bits(c2.left@[i]),
        forall|i: int|
            0 <= i < c1.right@.len() ==> bits(#[trigger] c1.right@[i]) == bits(c2.right@[i]),
        forall|i: int|
            0 <= i < c1.forward@.len() ==> bits(#[trigger] c1.forward@[i]) == bits(c2.forward@[i]),
        forall|i: int|
            0 <= i < c1.backward@.len() ==> bits(#[trigger] c1.backward@[i]) == bits(
                c2.backward@[i],
            ),
{
    let n = 4 * tiles.len();
    assert(c1.transformation@ =~= c2.transformation@);
    assert(c1.transformation@ == c2.transformation@);
    assert forall|i: int| 0 <= i < c1.up@.len() implies bits(#[trigger] c1.up@[i]) == bits(
        c2.up@[i],
    ) by {
        assert(bits(c1.up@[i]) =~= bits(c2.up@[i]));
    }
    assert forall|i: int| 0 <= i < c1.down@.len() implies bits(#[trigger] c1.down@[i]) == bits(
        c2.down@[i],
    ) by {
        assert(bits(c1.down@[i]) =~= bits(c2.down@[i]));
    }
    assert forall|i: int| 0 <= i < c1.left@.len() implies bits(#[trigger] c1.left@[i]) == bits(
        c2.left@[i],
    ) by {
        assert(bits(c1.left@[i]) =~= bits(c2.left@[i]));
    }
    assert forall|i: int| 0 <= i < c1.right@.len() implies bits(#[trigger] c1.right@[i]) == bits(
        c2.right@[i],
    ) by {
        assert(bits(c1.right@[i]) =~= bits(c2.right@[i]));
    }
    assert forall|i: int|
        0 <= i < c1.forward@.len() implies bits(#[trigger] c1.forward@[i]) == bits(
        c2.forward@[i],
    ) by {
        assert(bits(c1.forward@[i]) =~= bits(c2.forward@[i]));
    }
    assert forall|i: int|
        0 <= i < c1.backward@.len() implies bits(#[trigger] c1.backward@[i]) == bits(
        c2.backward@[i],
    ) by {
        assert(bits(c1.backward@[i]) =~= bits(c2.backward@[i]));
    }
}

/// The compiled transformation array round-trips with the catalog: block
/// `t` holds tile `t`'s four rotations in order, and every index `i` is
/// recovered from the triple it stores.
pub proof fn lemma_transformation_round_trip<D>(
    tiles: Seq<Tile<D>>,
    dimensions: Dimensions,
    c: CompiledDescription,
)
    requires
        compiled_matches(tiles, dimensions, c),
        tiles.len() * 4 <= usize::MAX,
    ensures
        forall|t: int, k: int|
            0 <= t < tiles.len() && 0 <= k < 4 ==> #[trigger] c.transformation@[4 * t + k] == (
            TileData { tile_index: t as usize, rotation: rotation_index_spec(k), flipped: false }),
        forall|i: int|
            0 <= i < c.transformation@.len() ==> 4 * ((#[trigger] c.transformation@[i]).tile_index
                as int) + rotation_ordinal_spec(c.transformation@[i].rotation) == i,
{
    assert forall|t: int, k: int|
        0 <= t < tiles.len() && 0 <= k < 4 implies #[trigger] c.transformation@[4 * t + k] == (
    TileData { tile_index: t as usize, rotation: rotation_index_spec(k), flipped: false }) by {
        assert(c.transformation@[4 * t + k] == transformation_spec(4 * t + k));
        assert((4 * t + k) / 4 == t);
        assert((4 * t + k) % 4 == k);
    }
    assert forall|i: int|
        0 <= i < c.transformation@.len() implies 4 * ((#[trigger] c.transformation@[i]).tile_index
        as int) + rotation_ordinal_spec(c.transformation@[i].rotation) == i by {
        assert(c.transformation@[i] == transformation_spec(i));
        let q = i / 4;
        let m = i % 4;
        assert(0 <= m < 4);
        assert(0 <= q <= i);
        assert((c.transformation@[i].tile_index as int) == q);
        assert(rotation_ordinal_spec(rotation_index_spec(m)) == m);
        assert(4 * q + m == i);
    }
}

} // verus!
