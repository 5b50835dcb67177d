//! The naive wave-function-collapse solver.
//!
//! Starting from a grid where every cell allows every transformation, the
//! solver seeds the boundary faces, then repeatedly observes the cell
//! with the fewest remaining possibilities and propagates the consequences,
//! AC-3 style, over a FIFO worklist.  The central invariant, `quiescent`,
//! says that between propagation runs every arc of the grid is either
//! already consistent with the adjacency tables or leaves a source cell
//! that was never narrowed; on a complete grid the second case is
//! impossible, which yields the adjacency closure of every solution.

use vstd::prelude::*;
use vstd::arithmetic::div_mod::{
    lemma_fundamental_div_mod,
    lemma_mod_bound,
    lemma_multiply_divide_lt,
    lemma_div_pos_is_pos,
};
use rand::seq::SliceRandom;
use rand::rngs::StdRng;
use crate::bits::{
    Mask,
    bits,
    popcount,
    is_submask,
    mask_and,
    all_set,
    total_count,
    bv_repeat,
    bv_get,
    bv_set,
    bv_count_ones,
    bv_or_assign,
    bv_ones,
    bv_clone,
    lemma_popcount_submask,
    lemma_popcount_all,
    lemma_popcount_none,
    lemma_popcount_single,
    lemma_popcount_one,
    lemma_submask_trans,
    lemma_total_strict,
};
use crate::utils::{Dimensions, Direction, Point, FieldGrid, lemma_id_in_range, lemma_id_injective};
use crate::description::{CompiledDescription, Tile, compiled_matches, lemma_compile_deterministic};
use crate::error::ProblemError;

verus! {

#[verifier::external_type_specification]
#[verifier::external_body]
pub struct ExStdRng(StdRng);

/// Relies on rand's `SliceRandom::choose`: a uniformly random element of a
/// non-empty slice, `None` exactly on an empty one.
#[verifier::external_body]
fn choose_from(rng: &mut StdRng, xs: &Vec<usize>) -> (r: Option<usize>)
    ensures
        r is Some <==> xs@.len() > 0,
        r matches Some(v) ==> xs@.contains(v),
{
    xs.as_slice().choose(rng).copied()
}

/// The naive observe-and-propagate solver.
#[derive(Debug)]
pub struct NaiveSolver {}

/// Row `i` of the adjacency table for world direction `dir`.
pub open spec fn row_spec(c: CompiledDescription, dir: Direction, i: int) -> Seq<bool> {
    match dir {
        Direction::Up => bits(c.up@[i]),
        Direction::Down => bits(c.down@[i]),
        Direction::Backward => bits(c.backward@[i]),
        Direction::Forward => bits(c.forward@[i]),
        Direction::Left => bits(c.left@[i]),
        Direction::Right => bits(c.right@[i]),
    }
}

proof fn lemma_row_len(c: CompiledDescription, dir: Direction, i: int)
    requires
        c.wf(),
        0 <= i < c.transformation@.len(),
    ensures
        row_spec(c, dir, i).len() == c.transformation@.len(),
{
    match dir {
        Direction::Up => assert(bits(c.up@[i]).len() == c.transformation@.len()),
        Direction::Down => assert(bits(c.down@[i]).len() == c.transformation@.len()),
        Direction::Backward => assert(bits(c.backward@[i]).len() == c.transformation@.len()),
        Direction::Forward => assert(bits(c.forward@[i]).len() == c.transformation@.len()),
        Direction::Left => assert(bits(c.left@[i]).len() == c.transformation@.len()),
        Direction::Right => assert(bits(c.right@[i]).len() == c.transformation@.len()),
    }
}

fn table_row<'a>(c: &'a CompiledDescription, dir: Direction, index: usize) -> (r: &'a Mask)
    requires
        c.wf(),
        (index as int) < c.transformation@.len(),
    ensures
        bits(*r) == row_spec(*c, dir, index as int),
{
    match dir {
        Direction::Up => c.up(index),
        Direction::Down => c.down(index),
        Direction::Backward => c.backward(index),
        Direction::Forward => c.forward(index),
        Direction::Left => c.left(index),
        Direction::Right => c.right(index),
    }
}

/// The union, over the transformations a domain still allows, of what each
/// allows on its `dir` side: everything the domain permits to sit there.
pub open spec fn pot_spec(c: CompiledDescription, d: Seq<bool>, dir: Direction) -> Seq<bool> {
    Seq::new(
        c.transformation@.len() as nat,
        |j: int|
            exists|i: int| 0 <= i < d.len() && d[i] && #[trigger] row_spec(c, dir, i)[j],
    )
}

/// The arc from `p` towards `dir` is consistent: the neighbour's domain is
/// contained in what `p`'s domain permits there.
pub open spec fn arc_ok(c: CompiledDescription, g: FieldGrid, p: Point, dir: Direction) -> bool {
    match p.neighbor_spec(dir, g.dimensions) {
        Some(q) => is_submask(g.cell(q), pot_spec(c, g.cell(p), dir)),
        None => true,
    }
}

/// The arc is consistent, or its source cell still allows everything (it
/// was never narrowed, so no propagation from it has ever been owed).
pub open spec fn source_ok(c: CompiledDescription, g: FieldGrid, p: Point, dir: Direction) -> bool {
    all_set(g.cell(p)) || arc_ok(c, g, p, dir)
}

/// The grid's state between propagation runs.
pub open spec fn quiescent(c: CompiledDescription, g: FieldGrid) -> bool {
    forall|p: Point, dir: Direction|
        p.in_bounds(g.dimensions) ==> #[trigger] source_ok(c, g, p, dir)
}

/// Every arc of the grid is consistent with the adjacency tables.
pub open spec fn adjacency_closed(c: CompiledDescription, g: FieldGrid) -> bool {
    forall|p: Point, dir: Direction| p.in_bounds(g.dimensions) ==> #[trigger] arc_ok(c, g, p, dir)
}

/// Cells only ever lose possibilities.
pub open spec fn narrows(new: Seq<Mask>, old: Seq<Mask>) -> bool {
    new.len() == old.len() && forall|k: int|
        0 <= k < new.len() ==> is_submask(bits(#[trigger] new[k]), bits(old[k]))
}

/// Every cell is still non-empty or was left untouched.
pub open spec fn keeps_nonempty(new: Seq<Mask>, old: Seq<Mask>) -> bool {
    new.len() == old.len() && forall|k: int|
        0 <= k < new.len() ==> (popcount(bits(#[trigger] new[k])) >= 1 || new[k] == old[k])
}

/// Monotonicity of solving: wherever a grid narrows (as every update and
/// every propagation run guarantees), no cell's popcount ever rises.
pub proof fn lemma_narrows_popcount_monotone(new: Seq<Mask>, old: Seq<Mask>)
    requires
        narrows(new, old),
    ensures
        forall|k: int|
            0 <= k < new.len() ==> popcount(bits(#[trigger] new[k])) <= popcount(bits(old[k])),
{
    assert forall|k: int|
        0 <= k < new.len() implies popcount(bits(#[trigger] new[k])) <= popcount(
        bits(old[k]),
    ) by {
        lemma_popcount_submask(bits(new[k]), bits(old[k]));
    }
}

proof fn lemma_narrows_trans(a: Seq<Mask>, b: Seq<Mask>, c: Seq<Mask>)
    requires
        narrows(a, b),
        narrows(b, c),
    ensures
        narrows(a, c),
{
    assert forall|k: int| 0 <= k < a.len() implies is_submask(bits(#[trigger] a[k]), bits(c[k])) by {
        lemma_submask_trans(bits(a[k]), bits(b[k]), bits(c[k]));
    }
}

proof fn lemma_keeps_trans(a: Seq<Mask>, b: Seq<Mask>, c: Seq<Mask>)
    requires
        keeps_nonempty(a, b),
        keeps_nonempty(b, c),
    ensures
        keeps_nonempty(a, c),
{
}

/// The queue entry would, applied to its target cell, make the arc from
/// `p` towards `dir` consistent.
spec fn entry_covers(
    c: CompiledDescription,
    g: FieldGrid,
    e: (Point, Mask),
    p: Point,
    dir: Direction,
) -> bool {
    match p.neighbor_spec(dir, g.dimensions) {
        Some(q) => e.0 == q && is_submask(bits(e.1), pot_spec(c, g.cell(p), dir)),
        None => false,
    }
}

/// Some not-yet-processed queue entry covers the arc.
spec fn arc_pending(
    c: CompiledDescription,
    g: FieldGrid,
    queue: Seq<(Point, Mask)>,
    head: int,
    p: Point,
    dir: Direction,
) -> bool {
    exists|k: int| head <= k < queue.len() && entry_covers(c, g, #[trigger] queue[k], p, dir)
}

/// The propagation loop's central invariant for one arc: its source still
/// allows everything, or it is consistent, or work that will make it
/// consistent is still queued.
spec fn arc_handled(
    c: CompiledDescription,
    g: FieldGrid,
    queue: Seq<(Point, Mask)>,
    head: int,
    p: Point,
    dir: Direction,
) -> bool {
    all_set(g.cell(p)) || arc_ok(c, g, p, dir) || arc_pending(c, g, queue, head, p, dir)
}

spec fn queue_inv(
    c: CompiledDescription,
    g: FieldGrid,
    queue: Seq<(Point, Mask)>,
    head: int,
) -> bool {
    forall|p: Point, dir: Direction|
        p.in_bounds(g.dimensions) ==> #[trigger] arc_handled(c, g, queue, head, p, dir)
}

spec fn queue_wf(queue: Seq<(Point, Mask)>, head: int, d: Dimensions, n: nat) -> bool {
    forall|k: int|
        head <= k < queue.len() ==> ((#[trigger] queue[k]).0.in_bounds(d) && bits(
            queue[k].1,
        ).len() == n)
}


/// The per-cell domains of a grid, as plain bit sequences.
pub open spec fn grid_cells(g: FieldGrid) -> Seq<Seq<bool>> {
    Seq::new(g.tiles@.len(), |k: int| bits(g.tiles@[k]))
}

/// The candidate assignment `h` refines the grid: one domain per cell, each
/// contained in the grid's.
pub open spec fn cells_below_grid(h: Seq<Seq<bool>>, g: FieldGrid) -> bool {
    h.len() == g.tiles@.len() && forall|k: int|
        0 <= k < h.len() ==> is_submask(#[trigger] h[k], bits(g.tiles@[k]))
}

/// Arc consistency of a plain assignment, cell by cell.
pub open spec fn cells_arc_ok(
    c: CompiledDescription,
    d: Dimensions,
    h: Seq<Seq<bool>>,
    p: Point,
    dir: Direction,
) -> bool {
    match p.neighbor_spec(dir, d) {
        Some(q) => is_submask(h[q.id_spec(d)], pot_spec(c, h[p.id_spec(d)], dir)),
        None => true,
    }
}

/// Every arc of the plain assignment is consistent with the tables.
pub open spec fn cells_closed(c: CompiledDescription, d: Dimensions, h: Seq<Seq<bool>>) -> bool {
    forall|p: Point, dir: Direction|
        p.in_bounds(d) ==> #[trigger] cells_arc_ok(c, d, h, p, dir)
}

/// Every cell of the plain assignment still allows something.
pub open spec fn cells_all_nonempty(h: Seq<Seq<bool>>) -> bool {
    forall|k: int| 0 <= k < h.len() ==> popcount(#[trigger] h[k]) >= 1
}

/// The cells lying on the outer face of the grid towards `dir`.
pub open spec fn on_face(p: Point, d: Dimensions, dir: Direction) -> bool {
    match dir {
        Direction::Up => p.y + 1 == d.height,
        Direction::Down => p.y == 0,
        Direction::Backward => p.z == 0,
        Direction::Forward => p.z + 1 == d.depth,
        Direction::Left => p.x == 0,
        Direction::Right => p.x + 1 == d.width,
    }
}

/// The faces that boundary seeding constrains.  The bottom face is exempt:
/// a deliberate override of the all-faces rule, keeping ground tiles
/// placeable on the lowest layer.
pub open spec fn seeded_dir(dir: Direction) -> bool {
    !(dir is Down)
}

/// Bit `i` of the face mask for `dir`: transformation `i`'s outward row
/// admits the zeroth transformation, the outside-world sentinel.
pub open spec fn side_mask_spec(c: CompiledDescription, dir: Direction) -> Seq<bool> {
    Seq::new(c.transformation@.len() as nat, |i: int| row_spec(c, dir, i)[0])
}

/// Every cell on a seeded face only admits transformations whose outward
/// row admits the sentinel.
pub open spec fn cells_face_confined(
    c: CompiledDescription,
    d: Dimensions,
    h: Seq<Seq<bool>>,
) -> bool {
    forall|p: Point, dir: Direction|
        p.in_bounds(d) && seeded_dir(dir) && #[trigger] on_face(p, d, dir) ==> is_submask(
            h[p.id_spec(d)],
            side_mask_spec(c, dir),
        )
}

/// An assignment that propagation from `(point, vec)` cannot disturb: it
/// refines the grid, lies inside `vec` at the origin, and is arc-consistent.
/// Propagation only ever removes transformations that no such assignment
/// keeps, so each of these stays below the grid throughout.
pub open spec fn confined_solution(
    c: CompiledDescription,
    g: FieldGrid,
    point: Point,
    vec_bits: Seq<bool>,
    h: Seq<Seq<bool>>,
) -> bool {
    &&& cells_below_grid(h, g)
    &&& is_submask(h[point.id_spec(g.dimensions)], vec_bits)
    &&& cells_closed(c, g.dimensions, h)
}

/// An assignment that boundary seeding cannot disturb: it refines the grid,
/// is arc-consistent, and already respects the seeded face masks.
pub open spec fn boundary_confined(c: CompiledDescription, g: FieldGrid, h: Seq<Seq<bool>>) -> bool {
    &&& cells_below_grid(h, g)
    &&& cells_closed(c, g.dimensions, h)
    &&& cells_face_confined(c, g.dimensions, h)
}

/// The box of cells a seeding pass walks.
pub open spec fn in_box(p: Point, x0: int, x1: int, y0: int, y1: int, z0: int, z1: int) -> bool {
    x0 <= p.x < x1 && y0 <= p.y < y1 && z0 <= p.z < z1
}

/// An assignment that seeding one box with `mask_bits` cannot disturb.
pub open spec fn box_confined(
    c: CompiledDescription,
    g: FieldGrid,
    mask_bits: Seq<bool>,
    x0: int,
    x1: int,
    y0: int,
    y1: int,
    z0: int,
    z1: int,
    h: Seq<Seq<bool>>,
) -> bool {
    &&& cells_below_grid(h, g)
    &&& cells_closed(c, g.dimensions, h)
    &&& forall|p: Point|
        p.in_bounds(g.dimensions) && #[trigger] in_box(p, x0, x1, y0, y1, z0, z1) ==> is_submask(
            h[p.id_spec(g.dimensions)],
            mask_bits,
        )
}

/// A plain assignment that satisfies the whole compiled problem's shape:
/// one domain of table width per cell, arc-consistent, and respecting the
/// seeded faces.  Every grid a successful solve returns is of this kind,
/// with every cell non-empty.
pub open spec fn admissible_cells(c: CompiledDescription, h: Seq<Seq<bool>>) -> bool {
    &&& h.len() == c.dimensions.len_spec()
    &&& forall|k: int| 0 <= k < h.len() ==> (#[trigger] h[k]).len() == c.transformation@.len()
    &&& cells_closed(c, c.dimensions, h)
    &&& cells_face_confined(c, c.dimensions, h)
}

/// Every not-yet-processed queue entry still contains the assignment's
/// domain at its target cell.
spec fn entries_contain(
    h: Seq<Seq<bool>>,
    d: Dimensions,
    queue: Seq<(Point, Mask)>,
    head: int,
) -> bool {
    forall|k: int|
        head <= k < queue.len() ==> is_submask(
            h[(#[trigger] queue[k]).0.id_spec(d)],
            bits(queue[k].1),
        )
}

/// The potential domain grows with the domain it is computed from.
proof fn lemma_pot_monotone(c: CompiledDescription, d1: Seq<bool>, d2: Seq<bool>, dir: Direction)
    requires
        is_submask(d1, d2),
    ensures
        is_submask(pot_spec(c, d1, dir), pot_spec(c, d2, dir)),
{
    let p1 = pot_spec(c, d1, dir);
    let p2 = pot_spec(c, d2, dir);
    assert forall|j: int| 0 <= j < p1.len() && #[trigger] p1[j] implies p2[j] by {
        let i = choose|i: int| 0 <= i < d1.len() && d1[i] && #[trigger] row_spec(c, dir, i)[j];
        assert(d2[i]);
        assert(0 <= i < d2.len() && d2[i] && row_spec(c, dir, i)[j]);
    }
}

/// A grid that still contains an everywhere-non-empty assignment is
/// satisfiable.
pub proof fn lemma_nonempty_below_satisfiable(h: Seq<Seq<bool>>, g: FieldGrid)
    requires
        cells_below_grid(h, g),
        cells_all_nonempty(h),
    ensures
        g.satisfiable_spec(),
{
    assert forall|k: int|
        0 <= k < g.tiles@.len() implies popcount(bits(#[trigger] g.tiles@[k])) >= 1 by {
        lemma_popcount_submask(h[k], bits(g.tiles@[k]));
    }
}

/// Narrowing a grid preserves the seeded-face confinement of its cells.
proof fn lemma_narrows_face_confined(
    c: CompiledDescription,
    d: Dimensions,
    g1: FieldGrid,
    g2: FieldGrid,
)
    requires
        d.wf(),
        g1.dimensions == d,
        g2.dimensions == d,
        g1.tiles@.len() == d.len_spec(),
        narrows(g2.tiles@, g1.tiles@),
        cells_face_confined(c, d, grid_cells(g1)),
    ensures
        cells_face_confined(c, d, grid_cells(g2)),
{
    assert forall|p: Point, dir: Direction|
        p.in_bounds(d) && seeded_dir(dir) && #[trigger] on_face(p, d, dir) implies is_submask(
        grid_cells(g2)[p.id_spec(d)],
        side_mask_spec(c, dir),
    ) by {
        lemma_id_in_range(p, d);
        let id = p.id_spec(d);
        assert(is_submask(grid_cells(g1)[id], side_mask_spec(c, dir)));
        lemma_submask_trans(bits(g2.tiles@[id]), bits(g1.tiles@[id]), side_mask_spec(c, dir));
    }
}

proof fn lemma_neighbor_in_bounds(p: Point, q: Point, dir: Direction, d: Dimensions)
    requires
        p.in_bounds(d),
        p.neighbor_spec(dir, d) == Some(q),
    ensures
        q.in_bounds(d),
{
    match dir {
        Direction::Up => {},
        Direction::Down => {},
        Direction::Backward => {},
        Direction::Forward => {},
        Direction::Left => {},
        Direction::Right => {},
    }
}

/// The union of the table rows selected by the set bits of `domain`.
fn potential_domain(domain: &Mask, description: &CompiledDescription, dir: Direction) -> (r: Mask)
    requires
        description.wf(),
        bits(*domain).len() == description.transformation@.len(),
    ensures
        bits(r) == pot_spec(*description, bits(*domain), dir),
{
    let ghost n = description.transformation@.len() as int;
    let ones = bv_ones(domain);
    let mut acc = bv_repeat(false, description.len());
    let mut t: usize = 0;
    while t < ones.len()
        invariant
            t <= ones@.len(),
            description.wf(),
            n == description.transformation@.len(),
            bits(*domain).len() == n,
            bits(acc).len() == n,
            forall|k: int|
                0 <= k < ones@.len() ==> (#[trigger] ones@[k]) < n && bits(*domain)[ones@[k] as int],
            forall|j: int|
                0 <= j < n && #[trigger] bits(*domain)[j] ==> ones@.contains(j as usize),
            forall|j: int|
                0 <= j < n ==> ((#[trigger] bits(acc)[j]) <==> exists|u: int|
                    0 <= u < t && row_spec(*description, dir, ones@[u] as int)[j]),
        decreases ones@.len() - t,
    {
        let row = table_row(description, dir, ones[t]);
        proof {
            lemma_row_len(*description, dir, ones@[t as int] as int);
        }
        let ghost before = bits(acc);
        bv_or_assign(&mut acc, row);
        proof {
            assert forall|j: int|
                0 <= j < n implies ((#[trigger] bits(acc)[j]) <==> exists|u: int|
                0 <= u < t + 1 && row_spec(*description, dir, ones@[u] as int)[j]) by {
                assert(bits(acc)[j] == (before[j] || row_spec(*description, dir, ones@[t as int] as int)[j]));
                if bits(acc)[j] {
                    if before[j] {
                        let u = choose|u: int|
                            0 <= u < t && row_spec(*description, dir, ones@[u] as int)[j];
                        assert(0 <= u < t + 1 && row_spec(*description, dir, ones@[u] as int)[j]);
                    } else {
                        assert(0 <= t < t + 1 && row_spec(*description, dir, ones@[t as int] as int)[j]);
                    }
                }
                if exists|u: int| 0 <= u < t + 1 && row_spec(*description, dir, ones@[u] as int)[j] {
                    let u = choose|u: int|
                        0 <= u < t + 1 && row_spec(*description, dir, ones@[u] as int)[j];
                    if u < t {
                        assert(before[j]);
                    }
                    assert(bits(acc)[j]);
                }
            }
        }
        t = t + 1;
    }
    proof {
        let d = bits(*domain);
        let pot = pot_spec(*description, d, dir);
        assert forall|j: int| 0 <= j < n implies bits(acc)[j] == pot[j] by {
            if bits(acc)[j] {
                let u = choose|u: int|
                    0 <= u < ones@.len() && row_spec(*description, dir, ones@[u] as int)[j];
                let i = ones@[u] as int;
                assert(0 <= i < d.len() && d[i] && row_spec(*description, dir, i)[j]);
                assert(pot[j]);
            }
            if pot[j] {
                let i = choose|i: int|
                    0 <= i < d.len() && d[i] && #[trigger] row_spec(*description, dir, i)[j];
                assert(ones@.contains(i as usize));
                let u = choose|u: int| 0 <= u < ones@.len() && ones@[u] == i as usize;
                assert(row_spec(*description, dir, ones@[u] as int)[j]);
                assert(bits(acc)[j]);
            }
        }
        assert(bits(acc) =~= pot);
    }
    acc
}

/// Inspects the neighbour of `p` in `dir` and queues the narrowed
/// potential domain for it whenever that would change its cell.
fn handle_direction(
    grid: &FieldGrid,
    queue: &mut Vec<(Point, Mask)>,
    description: &CompiledDescription,
    p: Point,
    domain: &Mask,
    dir: Direction,
)
    requires
        description.wf(),
        grid.wf(description.transformation@.len() as nat),
        grid.dimensions == description.dimensions,
        p.in_bounds(grid.dimensions),
        bits(*domain) == grid.cell(p),
    ensures
        old(queue)@.len() <= final(queue)@.len(),
        forall|k: int| 0 <= k < old(queue)@.len() ==> final(queue)@[k] == old(queue)@[k],
        forall|k: int|
            old(queue)@.len() <= k < final(queue)@.len() ==> ((#[trigger] final(queue)@[k]).0.in_bounds(
                grid.dimensions,
            ) && bits(final(queue)@[k].1).len() == description.transformation@.len()),
        arc_ok(*description, *grid, p, dir) || (exists|k: int|
            old(queue)@.len() <= k < final(queue)@.len() && entry_covers(
                *description,
                *grid,
                #[trigger] final(queue)@[k],
                p,
                dir,
            )),
        forall|h: Seq<Seq<bool>>, k: int|
            #![trigger cells_below_grid(h, *grid), final(queue)@[k]]
            cells_below_grid(h, *grid) && cells_closed(*description, grid.dimensions, h) && old(
                queue,
            )@.len() <= k < final(queue)@.len() ==> is_submask(
                h[final(queue)@[k].0.id_spec(grid.dimensions)],
                bits(final(queue)@[k].1),
            ),
{
    let ghost n = description.transformation@.len();
    proof {
        lemma_id_in_range(p, grid.dimensions);
    }
    match p.neighbor(dir, grid.dimensions) {
        None => {},
        Some(neighbour_point) => {
            let potential = potential_domain(domain, description, dir);
            proof {
                lemma_id_in_range(neighbour_point, grid.dimensions);
            }
            if grid.should_update(neighbour_point, &potential) {
                let ghost l0 = queue@.len() as int;
                queue.push((neighbour_point, potential));
                proof {
                    assert(queue@[l0] == (neighbour_point, potential));
                    assert(entry_covers(*description, *grid, queue@[l0], p, dir));
                    assert forall|h: Seq<Seq<bool>>|
                        cells_below_grid(h, *grid) && cells_closed(
                            *description,
                            grid.dimensions,
                            h,
                        ) implies is_submask(
                        h[neighbour_point.id_spec(grid.dimensions)],
                        bits(potential),
                    ) by {
                        assert(cells_arc_ok(*description, grid.dimensions, h, p, dir));
                        let pid = p.id_spec(grid.dimensions);
                        assert(is_submask(h[pid], bits(grid.tiles@[pid])));
                        lemma_pot_monotone(*description, h[pid], bits(*domain), dir);
                        lemma_submask_trans(
                            h[neighbour_point.id_spec(grid.dimensions)],
                            pot_spec(*description, h[pid], dir),
                            pot_spec(*description, bits(*domain), dir),
                        );
                    }
                }
            } else {
                proof {
                    assert(is_submask(
                        grid.cell(neighbour_point),
                        pot_spec(*description, grid.cell(p), dir),
                    ));
                }
            }
        },
    }
}

/// AC-3 style propagation from one point: applies `vec` to the cell at
/// `point` and pushes the consequences outward over a FIFO worklist until
/// nothing changes, or reports unsatisfiability as soon as a cell becomes
/// empty.  Cells only ever narrow; a redundant proposal (a superset of the
/// origin's domain) succeeds and changes nothing; failure means a cell of
/// the grid was emptied; and any arc-consistent assignment below the grid
/// that respects the proposal is never disturbed, so failure is impossible
/// while such an assignment keeps every cell non-empty.
pub fn propagate_point(
    grid: &mut FieldGrid,
    point: Point,
    vec: Mask,
    description: &CompiledDescription,
) -> (r: Result<(), ProblemError>)
    requires
        description.wf(),
        old(grid).wf(description.transformation@.len() as nat),
        old(grid).dimensions == description.dimensions,
        quiescent(*description, *old(grid)),
        point.in_bounds(old(grid).dimensions),
        bits(vec).len() == description.transformation@.len(),
    ensures
        final(grid).dimensions == old(grid).dimensions,
        final(grid).wf(description.transformation@.len() as nat),
        narrows(final(grid).tiles@, old(grid).tiles@),
        is_submask(final(grid).cell(point), mask_and(bits(vec), old(grid).cell(point))),
        forall|h: Seq<Seq<bool>>|
            #[trigger] confined_solution(*description, *old(grid), point, bits(vec), h)
                ==> cells_below_grid(h, *final(grid)),
        is_submask(old(grid).cell(point), bits(vec)) ==> r is Ok && final(grid).tiles@ == old(
            grid,
        ).tiles@,
        r is Ok ==> quiescent(*description, *final(grid)),
        r is Ok ==> keeps_nonempty(final(grid).tiles@, old(grid).tiles@),
        r is Err ==> !final(grid).satisfiable_spec(),
        r matches Err(e) ==> e == ProblemError::Unsatisfiable,
{
    let ghost n = description.transformation@.len();
    let ghost g0 = *grid;
    let mut queue: Vec<(Point, Mask)> = Vec::new();
    queue.push((point, vec));
    let mut head: usize = 0;
    proof {
        assert forall|p2: Point, dir2: Direction|
            p2.in_bounds(grid.dimensions) implies #[trigger] arc_handled(
            *description,
            *grid,
            queue@,
            0,
            p2,
            dir2,
        ) by {
            assert(source_ok(*description, *grid, p2, dir2));
        }
        assert forall|h: Seq<Seq<bool>>|
            #[trigger] confined_solution(*description, g0, point, bits(vec), h) implies
            cells_below_grid(h, *grid) && entries_contain(h, g0.dimensions, queue@, 0) by {
            assert(queue@[0] == (point, vec));
        }
    }
    while head < queue.len()
        invariant
            description.wf(),
            n == description.transformation@.len(),
            grid.wf(n),
            g0 == *old(grid),
            grid.dimensions == g0.dimensions,
            g0.dimensions == description.dimensions,
            point.in_bounds(g0.dimensions),
            bits(vec).len() == n,
            head <= queue@.len(),
            1 <= queue@.len(),
            queue_wf(queue@, head as int, grid.dimensions, n),
            queue_inv(*description, *grid, queue@, head as int),
            narrows(grid.tiles@, g0.tiles@),
            keeps_nonempty(grid.tiles@, g0.tiles@),
            head >= 1 ==> is_submask(grid.cell(point), mask_and(bits(vec), g0.cell(point))),
            head == 0 ==> queue@[0] == (point, vec) && *grid == g0,
            is_submask(g0.cell(point), bits(vec)) ==> grid.tiles@ == g0.tiles@ && queue@.len()
                == 1,
            forall|h: Seq<Seq<bool>>|
                #[trigger] confined_solution(*description, g0, point, bits(vec), h)
                    ==> cells_below_grid(h, *grid) && entries_contain(
                    h,
                    g0.dimensions,
                    queue@,
                    head as int,
                ),
        decreases total_count(grid.tiles@), queue@.len() - head,
    {
        let ghost pre = *grid;
        let ghost q0 = queue@;
        let ghost head0 = head as int;
        let p = queue[head].0;
        proof {
            assert(q0[head0].0.in_bounds(grid.dimensions) && bits(q0[head0].1).len() == n);
            lemma_id_in_range(p, grid.dimensions);
        }
        let updated = grid.update(p, &queue[head].1);
        head = head + 1;
        let ghost entry = q0[head0];
        let ghost pid = p.id_spec(pre.dimensions);
        proof {
            // the grid narrows across the update, and cells other than p's stay
            assert forall|k: int|
                0 <= k < grid.tiles@.len() implies is_submask(
                bits(#[trigger] grid.tiles@[k]),
                bits(pre.tiles@[k]),
            ) by {
                if k != pid {
                    assert(grid.tiles@[k] == pre.tiles@[k]);
                }
            }
            lemma_narrows_trans(grid.tiles@, pre.tiles@, g0.tiles@);
            // every confined assignment stays below the grid
            assert forall|h: Seq<Seq<bool>>|
                #[trigger] confined_solution(*description, g0, point, bits(vec), h) implies
                cells_below_grid(h, *grid) by {
                assert(cells_below_grid(h, pre) && entries_contain(h, g0.dimensions, q0, head0));
                assert(is_submask(h[q0[head0].0.id_spec(g0.dimensions)], bits(q0[head0].1)));
                assert forall|k: int|
                    0 <= k < h.len() implies is_submask(#[trigger] h[k], bits(grid.tiles@[k])) by {
                    if k == pid {
                        if updated {
                            assert(is_submask(h[pid], bits(pre.tiles@[pid])));
                            assert(is_submask(h[pid], bits(entry.1)));
                            assert(grid.cell(p) == mask_and(pre.cell(p), bits(entry.1)));
                            assert(h[pid].len() == bits(grid.tiles@[pid]).len());
                            assert forall|i: int|
                                0 <= i < h[pid].len() && #[trigger] h[pid][i] implies bits(
                                grid.tiles@[pid],
                            )[i] by {}
                        } else {
                            assert(grid.tiles@[k] == pre.tiles@[k]);
                        }
                    } else {
                        assert(grid.tiles@[k] == pre.tiles@[k]);
                    }
                }
            }
            // the origin keeps its bound
            lemma_id_in_range(point, grid.dimensions);
            if head0 == 0 {
                assert(entry == (point, vec));
                assert(pre == g0);
                if updated {
                    assert(grid.cell(point) == mask_and(g0.cell(point), bits(vec)));
                    assert(mask_and(g0.cell(point), bits(vec)) =~= mask_and(
                        bits(vec),
                        g0.cell(point),
                    ));
                } else {
                    assert(is_submask(g0.cell(point), bits(vec)));
                    assert forall|i: int|
                        0 <= i < g0.cell(point).len() && #[trigger] g0.cell(point)[i] implies
                        mask_and(bits(vec), g0.cell(point))[i] by {}
                }
            } else {
                if pid == point.id_spec(g0.dimensions) {
                    lemma_submask_trans(
                        grid.cell(point),
                        pre.cell(point),
                        mask_and(bits(vec), g0.cell(point)),
                    );
                } else {
                    assert(grid.cell(point) == pre.cell(point));
                }
            }
            assert(is_submask(grid.cell(point), mask_and(bits(vec), g0.cell(point))));
            // a redundant proposal cannot change anything
            if is_submask(g0.cell(point), bits(vec)) {
                assert(head0 == 0);
                assert(!updated);
            }
        }
        if updated {
            let id = p.id(grid.dimensions);
            let cell = bv_clone(&grid.tiles[id]);
            let cnt = bv_count_ones(&cell);
            if cnt == 0 {
                proof {
                    assert(popcount(bits(grid.tiles@[pid])) == 0);
                    assert(!grid.satisfiable_spec());
                }
                return Err(ProblemError::Unsatisfiable);
            }
            proof {
                // every cell is still non-empty or untouched
                assert forall|k: int|
                    0 <= k < grid.tiles@.len() implies (popcount(bits(#[trigger] grid.tiles@[k]))
                    >= 1 || grid.tiles@[k] == pre.tiles@[k]) by {
                    if k != pid {
                        assert(grid.tiles@[k] == pre.tiles@[k]);
                    }
                }
                lemma_keeps_trans(grid.tiles@, pre.tiles@, g0.tiles@);
            }
            let ghost l0 = queue@.len() as int;
            handle_direction(grid, &mut queue, description, p, &cell, Direction::Up);
            let ghost q1 = queue@;
            let ghost l1 = queue@.len() as int;
            handle_direction(grid, &mut queue, description, p, &cell, Direction::Down);
            let ghost q2 = queue@;
            let ghost l2 = queue@.len() as int;
            handle_direction(grid, &mut queue, description, p, &cell, Direction::Backward);
            let ghost q3 = queue@;
            let ghost l3 = queue@.len() as int;
            handle_direction(grid, &mut queue, description, p, &cell, Direction::Forward);
            let ghost q4 = queue@;
            let ghost l4 = queue@.len() as int;
            handle_direction(grid, &mut queue, description, p, &cell, Direction::Left);
            let ghost q5 = queue@;
            let ghost l5 = queue@.len() as int;
            handle_direction(grid, &mut queue, description, p, &cell, Direction::Right);
            let ghost q6 = queue@;
            let ghost l6 = queue@.len() as int;
            proof {
                let c = *description;
                let gu = *grid;
                // prefixes of every snapshot survive into the final queue
                assert(forall|k: int| 0 <= k < l0 ==> q6[k] == q0[k]);
                assert(forall|k: int| 0 <= k < l1 ==> q6[k] == q1[k]);
                assert(forall|k: int| 0 <= k < l2 ==> q6[k] == q2[k]);
                assert(forall|k: int| 0 <= k < l3 ==> q6[k] == q3[k]);
                assert(forall|k: int| 0 <= k < l4 ==> q6[k] == q4[k]);
                assert(forall|k: int| 0 <= k < l5 ==> q6[k] == q5[k]);
                assert(queue_wf(q6, head as int, gu.dimensions, n));
                // the updated cell is what the entry dictated
                assert(gu.cell(p) == mask_and(pre.cell(p), bits(entry.1)));
                assert forall|p2: Point, dir2: Direction|
                    p2.in_bounds(gu.dimensions) implies #[trigger] arc_handled(
                    c,
                    gu,
                    q6,
                    head as int,
                    p2,
                    dir2,
                ) by {
                    if p2 == p {
                        // the six calls re-established every arc out of p
                        match dir2 {
                            Direction::Up => {
                                if !arc_ok(c, gu, p, dir2) {
                                    let k = choose|k: int|
                                        l0 <= k < l1 && entry_covers(c, gu, #[trigger] q1[k], p, dir2);
                                    assert(entry_covers(c, gu, q6[k], p, dir2));
                                    assert(arc_pending(c, gu, q6, head as int, p2, dir2));
                                }
                            },
                            Direction::Down => {
                                if !arc_ok(c, gu, p, dir2) {
                                    let k = choose|k: int|
                                        l1 <= k < l2 && entry_covers(c, gu, #[trigger] q2[k], p, dir2);
                                    assert(entry_covers(c, gu, q6[k], p, dir2));
                                    assert(arc_pending(c, gu, q6, head as int, p2, dir2));
                                }
                            },
                            Direction::Backward => {
                                if !arc_ok(c, gu, p, dir2) {
                                    let k = choose|k: int|
                                        l2 <= k < l3 && entry_covers(c, gu, #[trigger] q3[k], p, dir2);
                                    assert(entry_covers(c, gu, q6[k], p, dir2));
                                    assert(arc_pending(c, gu, q6, head as int, p2, dir2));
                                }
                            },
                            Direction::Forward => {
                                if !arc_ok(c, gu, p, dir2) {
                                    let k = choose|k: int|
                                        l3 <= k < l4 && entry_covers(c, gu, #[trigger] q4[k], p, dir2);
                                    assert(entry_covers(c, gu, q6[k], p, dir2));
                                    assert(arc_pending(c, gu, q6, head as int, p2, dir2));
                                }
                            },
                            Direction::Left => {
                                if !arc_ok(c, gu, p, dir2) {
                                    let k = choose|k: int|
                                        l4 <= k < l5 && entry_covers(c, gu, #[trigger] q5[k], p, dir2);
                                    assert(entry_covers(c, gu, q6[k], p, dir2));
                                    assert(arc_pending(c, gu, q6, head as int, p2, dir2));
                                }
                            },
                            Direction::Right => {
                                if !arc_ok(c, gu, p, dir2) {
                                    let k = choose|k: int|
                                        l5 <= k < l6 && entry_covers(c, gu, #[trigger] q6[k], p, dir2);
                                    assert(entry_covers(c, gu, q6[k], p, dir2));
                                    assert(arc_pending(c, gu, q6, head as int, p2, dir2));
                                }
                            },
                        }
                    } else {
                        // p2's own cell is untouched
                        lemma_id_in_range(p2, gu.dimensions);
                        if p2.id_spec(gu.dimensions) == pid {
                            lemma_id_injective(p2, p, gu.dimensions);
                        }
                        assert(gu.cell(p2) == pre.cell(p2));
                        assert(arc_handled(c, pre, q0, head0, p2, dir2));
                        if all_set(pre.cell(p2)) {
                            assert(all_set(gu.cell(p2)));
                        } else if arc_ok(c, pre, p2, dir2) {
                            match p2.neighbor_spec(dir2, gu.dimensions) {
                                None => {},
                                Some(q2p) => {
                                    lemma_neighbor_in_bounds(p2, q2p, dir2, gu.dimensions);
                                    lemma_id_in_range(q2p, gu.dimensions);
                                    if q2p.id_spec(gu.dimensions) == pid {
                                        lemma_id_injective(q2p, p, gu.dimensions);
                                        lemma_submask_trans(
                                            gu.cell(q2p),
                                            pre.cell(q2p),
                                            pot_spec(c, pre.cell(p2), dir2),
                                        );
                                    } else {
                                        assert(gu.cell(q2p) == pre.cell(q2p));
                                    }
                                    assert(arc_ok(c, gu, p2, dir2));
                                },
                            }
                        } else {
                            let k = choose|k: int|
                                head0 <= k < q0.len() && entry_covers(c, pre, #[trigger] q0[k], p2, dir2);
                            if k == head0 {
                                match p2.neighbor_spec(dir2, gu.dimensions) {
                                    None => {},
                                    Some(q2p) => {
                                        assert(q2p == entry.0);
                                        assert(q2p == p);
                                        assert(is_submask(gu.cell(p), bits(entry.1)));
                                        lemma_submask_trans(
                                            gu.cell(p),
                                            bits(entry.1),
                                            pot_spec(c, pre.cell(p2), dir2),
                                        );
                                        assert(arc_ok(c, gu, p2, dir2));
                                    },
                                }
                            } else {
                                assert(q6[k] == q0[k]);
                                assert(entry_covers(c, gu, q6[k], p2, dir2));
                                assert(arc_pending(c, gu, q6, head as int, p2, dir2));
                            }
                        }
                    }
                }
                // confined assignments are still contained in every pending entry
                assert forall|h: Seq<Seq<bool>>|
                    #[trigger] confined_solution(c, g0, point, bits(vec), h) implies
                    entries_contain(h, g0.dimensions, q6, head as int) by {
                    assert(cells_below_grid(h, pre) && entries_contain(h, g0.dimensions, q0, head0));
                    assert(cells_below_grid(h, gu));
                    assert forall|k: int|
                        head <= k < q6.len() implies is_submask(
                        h[(#[trigger] q6[k]).0.id_spec(g0.dimensions)],
                        bits(q6[k].1),
                    ) by {
                        if k < l0 {
                            assert(q6[k] == q0[k]);
                            assert(is_submask(h[q0[k].0.id_spec(g0.dimensions)], bits(q0[k].1)));
                        } else if k < l1 {
                            assert(q6[k] == q1[k]);
                            assert(is_submask(
                                h[q1[k].0.id_spec(gu.dimensions)],
                                bits(q1[k].1),
                            ));
                        } else if k < l2 {
                            assert(q6[k] == q2[k]);
                            assert(is_submask(
                                h[q2[k].0.id_spec(gu.dimensions)],
                                bits(q2[k].1),
                            ));
                        } else if k < l3 {
                            assert(q6[k] == q3[k]);
                            assert(is_submask(
                                h[q3[k].0.id_spec(gu.dimensions)],
                                bits(q3[k].1),
                            ));
                        } else if k < l4 {
                            assert(q6[k] == q4[k]);
                            assert(is_submask(
                                h[q4[k].0.id_spec(gu.dimensions)],
                                bits(q4[k].1),
                            ));
                        } else if k < l5 {
                            assert(q6[k] == q5[k]);
                            assert(is_submask(
                                h[q5[k].0.id_spec(gu.dimensions)],
                                bits(q5[k].1),
                            ));
                        } else {
                            assert(is_submask(
                                h[q6[k].0.id_spec(gu.dimensions)],
                                bits(q6[k].1),
                            ));
                        }
                    }
                }
                // termination: one cell strictly shrank
                assert forall|k: int|
                    0 <= k < grid.tiles@.len() implies popcount(
                    bits(#[trigger] grid.tiles@[k]),
                ) <= popcount(bits(pre.tiles@[k])) by {
                    if k != pid {
                        assert(grid.tiles@[k] == pre.tiles@[k]);
                    }
                }
                lemma_total_strict(grid.tiles@, pre.tiles@, pid);
            }
        } else {
            proof {
                let c = *description;
                let gu = *grid;
                assert(gu.tiles@ == pre.tiles@);
                assert(gu.dimensions == pre.dimensions);
                assert(is_submask(pre.cell(p), bits(entry.1)));
                assert forall|p2: Point, dir2: Direction|
                    p2.in_bounds(gu.dimensions) implies #[trigger] arc_handled(
                    c,
                    gu,
                    queue@,
                    head as int,
                    p2,
                    dir2,
                ) by {
                    assert(arc_handled(c, pre, q0, head0, p2, dir2));
                    if !all_set(gu.cell(p2)) && !arc_ok(c, gu, p2, dir2) {
                        let k = choose|k: int|
                            head0 <= k < q0.len() && entry_covers(c, pre, #[trigger] q0[k], p2, dir2);
                        if k == head0 {
                            match p2.neighbor_spec(dir2, gu.dimensions) {
                                None => {},
                                Some(q2p) => {
                                    assert(q2p == p);
                                    lemma_submask_trans(
                                        gu.cell(p),
                                        bits(entry.1),
                                        pot_spec(c, pre.cell(p2), dir2),
                                    );
                                    assert(arc_ok(c, gu, p2, dir2));
                                },
                            }
                        } else {
                            assert(arc_pending(c, gu, queue@, head as int, p2, dir2));
                        }
                    }
                }
                // confined assignments are still contained in every pending entry
                assert forall|h: Seq<Seq<bool>>|
                    #[trigger] confined_solution(c, g0, point, bits(vec), h) implies
                    entries_contain(h, g0.dimensions, queue@, head as int) by {
                    assert(entries_contain(h, g0.dimensions, q0, head0));
                    assert forall|k: int|
                        head <= k < queue@.len() implies is_submask(
                        h[(#[trigger] queue@[k]).0.id_spec(g0.dimensions)],
                        bits(queue@[k].1),
                    ) by {
                        assert(queue@[k] == q0[k]);
                        assert(is_submask(h[q0[k].0.id_spec(g0.dimensions)], bits(q0[k].1)));
                    }
                }
            }
        }
    }
    proof {
        assert forall|p2: Point, dir2: Direction|
            p2.in_bounds(grid.dimensions) implies #[trigger] source_ok(
            *description,
            *grid,
            p2,
            dir2,
        ) by {
            assert(arc_handled(*description, *grid, queue@, head as int, p2, dir2));
            if arc_pending(*description, *grid, queue@, head as int, p2, dir2) {
                let k = choose|k: int|
                    head <= k < queue@.len() && entry_covers(
                        *description,
                        *grid,
                        #[trigger] queue@[k],
                        p2,
                        dir2,
                    );
                assert(false);
            }
        }
    }
    Ok(())
}

/// A width-`n` mask holding, for each transformation, bit 0 of its table
/// row in `dir`: the transformations whose `dir` face tolerates the
/// zeroth transformation as the outside-world sentinel.
fn side_mask(description: &CompiledDescription, dir: Direction) -> (r: Mask)
    requires
        description.wf(),
    ensures
        bits(r) == side_mask_spec(*description, dir),
{
    let ghost n = description.transformation@.len() as int;
    let count = description.len();
    let mut m = bv_repeat(false, count);
    let mut x: usize = 0;
    while x < count
        invariant
            x <= count,
            count == n,
            n == description.transformation@.len(),
            description.wf(),
            bits(m).len() == n,
            forall|i: int| 0 <= i < x ==> (#[trigger] bits(m)[i]) == row_spec(*description, dir, i)[0],
            forall|i: int| x <= i < n ==> !(#[trigger] bits(m)[i]),
        decreases count - x,
    {
        let row = table_row(description, dir, x);
        proof {
            lemma_row_len(*description, dir, x as int);
        }
        if bv_get(row, 0) {
            bv_set(&mut m, x, true);
        }
        x = x + 1;
    }
    proof {
        assert(bits(m) =~= side_mask_spec(*description, dir));
    }
    m
}

/// One face's confinement of a plain assignment: every cell on the face
/// towards `dir` admits only transformations whose outward row admits the
/// sentinel.
spec fn face_confined_one(
    c: CompiledDescription,
    d: Dimensions,
    h: Seq<Seq<bool>>,
    dir: Direction,
) -> bool {
    forall|p: Point|
        p.in_bounds(d) && #[trigger] on_face(p, d, dir) ==> is_submask(
            h[p.id_spec(d)],
            side_mask_spec(c, dir),
        )
}

/// One face of a grid is confined to its mask.
spec fn face_ok(c: CompiledDescription, g: FieldGrid, dir: Direction) -> bool {
    face_confined_one(c, g.dimensions, grid_cells(g), dir)
}

/// Narrowing a grid preserves one face's confinement.
proof fn lemma_face_ok_narrows(c: CompiledDescription, g1: FieldGrid, g2: FieldGrid, dir: Direction)
    requires
        g1.dimensions.wf(),
        g2.dimensions == g1.dimensions,
        g1.tiles@.len() == g1.dimensions.len_spec(),
        g2.tiles@.len() == g1.tiles@.len(),
        narrows(g2.tiles@, g1.tiles@),
        face_ok(c, g1, dir),
    ensures
        face_ok(c, g2, dir),
{
    let d = g1.dimensions;
    assert forall|p: Point|
        p.in_bounds(d) && #[trigger] on_face(p, d, dir) implies is_submask(
        grid_cells(g2)[p.id_spec(d)],
        side_mask_spec(c, dir),
    ) by {
        lemma_id_in_range(p, d);
        let id = p.id_spec(d);
        assert(is_submask(grid_cells(g1)[id], side_mask_spec(c, dir)));
        lemma_submask_trans(bits(g2.tiles@[id]), bits(g1.tiles@[id]), side_mask_spec(c, dir));
    }
}

/// The box of cells making up the face of the grid towards `dir`.
fn face_box(dims: Dimensions, dir: Direction) -> (b: (usize, usize, usize, usize, usize, usize))
    requires
        dims.wf(),
    ensures
        b.1 <= dims.width,
        b.3 <= dims.height,
        b.5 <= dims.depth,
        forall|p: Point|
            p.in_bounds(dims) ==> (#[trigger] in_box(
                p,
                b.0 as int,
                b.1 as int,
                b.2 as int,
                b.3 as int,
                b.4 as int,
                b.5 as int,
            ) <==> on_face(p, dims, dir)),
{
    let width = dims.width;
    let height = dims.height;
    let depth = dims.depth;
    match dir {
        Direction::Up => (0, width, height - 1, height, 0, depth),
        Direction::Down => (0, width, 0, 1, 0, depth),
        Direction::Backward => (0, width, 0, height, 0, 1),
        Direction::Forward => (0, width, 0, height, depth - 1, depth),
        Direction::Left => (0, 1, 0, height, 0, depth),
        Direction::Right => (width - 1, width, 0, height, 0, depth),
    }
}

/// Seeds one box of cells with the given mask, propagating each in turn.
/// On success every cell of the box is confined to the mask, and any
/// arc-consistent assignment that already respects the mask over the box is
/// never disturbed.
fn seed_box(
    grid: &mut FieldGrid,
    description: &CompiledDescription,
    mask: &Mask,
    x0: usize,
    x1: usize,
    y0: usize,
    y1: usize,
    z0: usize,
    z1: usize,
) -> (r: Result<(), ProblemError>)
    requires
        description.wf(),
        old(grid).wf(description.transformation@.len() as nat),
        old(grid).dimensions == description.dimensions,
        quiescent(*description, *old(grid)),
        bits(*mask).len() == description.transformation@.len(),
        x1 <= old(grid).dimensions.width,
        y1 <= old(grid).dimensions.height,
        z1 <= old(grid).dimensions.depth,
    ensures
        final(grid).dimensions == old(grid).dimensions,
        final(grid).wf(description.transformation@.len() as nat),
        narrows(final(grid).tiles@, old(grid).tiles@),
        forall|h: Seq<Seq<bool>>|
            #[trigger] box_confined(
                *description,
                *old(grid),
                bits(*mask),
                x0 as int,
                x1 as int,
                y0 as int,
                y1 as int,
                z0 as int,
                z1 as int,
                h,
            ) ==> cells_below_grid(h, *final(grid)),
        r is Ok ==> quiescent(*description, *final(grid)),
        r is Ok ==> keeps_nonempty(final(grid).tiles@, old(grid).tiles@),
        r is Ok ==> forall|p: Point|
            p.in_bounds(final(grid).dimensions) && #[trigger] in_box(
                p,
                x0 as int,
                x1 as int,
                y0 as int,
                y1 as int,
                z0 as int,
                z1 as int,
            ) ==> is_submask(final(grid).cell(p), bits(*mask)),
        r is Err ==> !final(grid).satisfiable_spec(),
        r matches Err(e) ==> e == ProblemError::Unsatisfiable,
{
    let ghost n = description.transformation@.len();
    let ghost g0 = *grid;
    let mut x = x0;
    while x < x1
        invariant
            description.wf(),
            n == description.transformation@.len(),
            grid.wf(n),
            g0 == *old(grid),
            grid.dimensions == g0.dimensions,
            g0.dimensions == description.dimensions,
            bits(*mask).len() == n,
            x0 <= x,
            x1 <= g0.dimensions.width,
            y1 <= g0.dimensions.height,
            z1 <= g0.dimensions.depth,
            quiescent(*description, *grid),
            narrows(grid.tiles@, g0.tiles@),
            keeps_nonempty(grid.tiles@, g0.tiles@),
            forall|q: Point|
                q.in_bounds(g0.dimensions) && #[trigger] in_box(
                    q,
                    x0 as int,
                    x1 as int,
                    y0 as int,
                    y1 as int,
                    z0 as int,
                    z1 as int,
                ) && scanned_before(q, x as int, y0 as int, z0 as int) ==> is_submask(
                    grid.cell(q),
                    bits(*mask),
                ),
            forall|h: Seq<Seq<bool>>|
                #[trigger] box_confined(
                    *description,
                    g0,
                    bits(*mask),
                    x0 as int,
                    x1 as int,
                    y0 as int,
                    y1 as int,
                    z0 as int,
                    z1 as int,
                    h,
                ) ==> cells_below_grid(h, *grid),
        decreases x1 - x,
    {
        let mut y = y0;
        while y < y1
            invariant
                description.wf(),
                n == description.transformation@.len(),
                grid.wf(n),
                g0 == *old(grid),
                grid.dimensions == g0.dimensions,
                g0.dimensions == description.dimensions,
                bits(*mask).len() == n,
                x0 <= x < x1,
                y0 <= y,
                x1 <= g0.dimensions.width,
                y1 <= g0.dimensions.height,
                z1 <= g0.dimensions.depth,
                quiescent(*description, *grid),
                narrows(grid.tiles@, g0.tiles@),
                keeps_nonempty(grid.tiles@, g0.tiles@),
                forall|q: Point|
                    q.in_bounds(g0.dimensions) && #[trigger] in_box(
                        q,
                        x0 as int,
                        x1 as int,
                        y0 as int,
                        y1 as int,
                        z0 as int,
                        z1 as int,
                    ) && scanned_before(q, x as int, y as int, z0 as int) ==> is_submask(
                        grid.cell(q),
                        bits(*mask),
                    ),
                forall|h: Seq<Seq<bool>>|
                    #[trigger] box_confined(
                        *description,
                        g0,
                        bits(*mask),
                        x0 as int,
                        x1 as int,
                        y0 as int,
                        y1 as int,
                        z0 as int,
                        z1 as int,
                        h,
                    ) ==> cells_below_grid(h, *grid),
            decreases y1 - y,
        {
            let mut z = z0;
            while z < z1
                invariant
                    description.wf(),
                    n == description.transformation@.len(),
                    grid.wf(n),
                    g0 == *old(grid),
                    grid.dimensions == g0.dimensions,
                    g0.dimensions == description.dimensions,
                    bits(*mask).len() == n,
                    x0 <= x < x1,
                    y0 <= y < y1,
                    z0 <= z,
                    x1 <= g0.dimensions.width,
                    y1 <= g0.dimensions.height,
                    z1 <= g0.dimensions.depth,
                    quiescent(*description, *grid),
                    narrows(grid.tiles@, g0.tiles@),
                    keeps_nonempty(grid.tiles@, g0.tiles@),
                    forall|q: Point|
                        q.in_bounds(g0.dimensions) && #[trigger] in_box(
                            q,
                            x0 as int,
                            x1 as int,
                            y0 as int,
                            y1 as int,
                            z0 as int,
                            z1 as int,
                        ) && scanned_before(q, x as int, y as int, z as int) ==> is_submask(
                            grid.cell(q),
                            bits(*mask),
                        ),
                    forall|h: Seq<Seq<bool>>|
                        #[trigger] box_confined(
                            *description,
                            g0,
                            bits(*mask),
                            x0 as int,
                            x1 as int,
                            y0 as int,
                            y1 as int,
                            z0 as int,
                            z1 as int,
                        h,
                        ) ==> cells_below_grid(h, *grid),
                decreases z1 - z,
            {
                let ghost pre = *grid;
                let p = Point::new(x, y, z);
                let seed = bv_clone(mask);
                let ghost sb = bits(seed);
                let result = propagate_point(grid, p, seed, description);
                proof {
                    lemma_narrows_trans(grid.tiles@, pre.tiles@, g0.tiles@);
                    // the scanned part of the box is confined to the mask
                    assert forall|q: Point|
                        q.in_bounds(g0.dimensions) && #[trigger] in_box(
                            q,
                            x0 as int,
                            x1 as int,
                            y0 as int,
                            y1 as int,
                            z0 as int,
                            z1 as int,
                        ) && scanned_before(q, x as int, y as int, z + 1) implies is_submask(
                        grid.cell(q),
                        bits(*mask),
                    ) by {
                        lemma_id_in_range(q, g0.dimensions);
                        if q == p {
                            assert(is_submask(grid.cell(p), mask_and(sb, pre.cell(p))));
                            assert(is_submask(mask_and(sb, pre.cell(p)), bits(*mask)));
                            lemma_submask_trans(
                                grid.cell(p),
                                mask_and(sb, pre.cell(p)),
                                bits(*mask),
                            );
                        } else {
                            assert(scanned_before(q, x as int, y as int, z as int));
                            assert(is_submask(pre.cell(q), bits(*mask)));
                            lemma_submask_trans(grid.cell(q), pre.cell(q), bits(*mask));
                        }
                    }
                    // assignments confined to the mask over the box are untouched
                    assert forall|h: Seq<Seq<bool>>|
                        #[trigger] box_confined(
                            *description,
                            g0,
                            bits(*mask),
                            x0 as int,
                            x1 as int,
                            y0 as int,
                            y1 as int,
                            z0 as int,
                            z1 as int,
                            h,
                        ) implies cells_below_grid(h, *grid) by {
                        assert(cells_below_grid(h, pre));
                        assert(in_box(
                            p,
                            x0 as int,
                            x1 as int,
                            y0 as int,
                            y1 as int,
                            z0 as int,
                            z1 as int,
                        ));
                        assert(is_submask(h[p.id_spec(g0.dimensions)], bits(*mask)));
                        assert(confined_solution(*description, pre, p, sb, h));
                    }
                }
                match result {
                    Ok(()) => {
                        proof {
                            lemma_keeps_trans(grid.tiles@, pre.tiles@, g0.tiles@);
                        }
                    },
                    Err(e) => {
                        return Err(e);
                    },
                }
                z = z + 1;
            }
            y = y + 1;
        }
        x = x + 1;
    }
    Ok(())
}

/// Seeds one whole face of the grid with its sentinel mask.
fn seed_face(grid: &mut FieldGrid, description: &CompiledDescription, dir: Direction) -> (r: Result<
    (),
    ProblemError,
>)
    requires
        description.wf(),
        old(grid).wf(description.transformation@.len() as nat),
        old(grid).dimensions == description.dimensions,
        quiescent(*description, *old(grid)),
    ensures
        final(grid).dimensions == old(grid).dimensions,
        final(grid).wf(description.transformation@.len() as nat),
        narrows(final(grid).tiles@, old(grid).tiles@),
        forall|h: Seq<Seq<bool>>|
            cells_below_grid(h, *old(grid)) && cells_closed(
                *description,
                old(grid).dimensions,
                h,
            ) && #[trigger] face_confined_one(*description, old(grid).dimensions, h, dir)
                ==> cells_below_grid(h, *final(grid)),
        r is Ok ==> quiescent(*description, *final(grid)),
        r is Ok ==> keeps_nonempty(final(grid).tiles@, old(grid).tiles@),
        r is Ok ==> face_ok(*description, *final(grid), dir),
        r is Err ==> !final(grid).satisfiable_spec(),
        r matches Err(e) ==> e == ProblemError::Unsatisfiable,
{
    let ghost g0 = *grid;
    let mask = side_mask(description, dir);
    let b = face_box(grid.dimensions(), dir);
    let r = seed_box(grid, description, &mask, b.0, b.1, b.2, b.3, b.4, b.5);
    proof {
        let d = g0.dimensions;
        assert forall|h: Seq<Seq<bool>>|
            cells_below_grid(h, g0) && cells_closed(*description, d, h) && #[trigger] face_confined_one(
                *description,
                d,
                h,
                dir,
            ) implies cells_below_grid(h, *grid) by {
            assert(box_confined(
                *description,
                g0,
                bits(mask),
                b.0 as int,
                b.1 as int,
                b.2 as int,
                b.3 as int,
                b.4 as int,
                b.5 as int,
                h,
            )) by {
                assert forall|p: Point|
                    p.in_bounds(d) && #[trigger] in_box(
                        p,
                        b.0 as int,
                        b.1 as int,
                        b.2 as int,
                        b.3 as int,
                        b.4 as int,
                        b.5 as int,
                    ) implies is_submask(h[p.id_spec(d)], bits(mask)) by {
                    assert(on_face(p, d, dir));
                    assert(is_submask(h[p.id_spec(d)], side_mask_spec(*description, dir)));
                }
            }
        }
        if r is Ok {
            assert forall|p: Point|
                p.in_bounds(d) && #[trigger] on_face(p, d, dir) implies is_submask(
                grid_cells(*grid)[p.id_spec(d)],
                side_mask_spec(*description, dir),
            ) by {
                lemma_id_in_range(p, d);
                assert(in_box(
                    p,
                    b.0 as int,
                    b.1 as int,
                    b.2 as int,
                    b.3 as int,
                    b.4 as int,
                    b.5 as int,
                ));
                assert(is_submask(grid.cell(p), bits(mask)));
            }
        }
    }
    r
}

/// Seeds the boundary of the grid: the cells of the top and of the four
/// side faces are narrowed to the transformations whose outward row admits
/// the zeroth transformation as the outside-world sentinel.  The bottom
/// face is deliberately exempt (`seeded_dir`), so ground tiles stay
/// placeable on the lowest layer.  Failure means a cell of the grid was
/// emptied, and never happens while some arc-consistent, face-respecting
/// assignment below the grid keeps every cell non-empty.
pub fn update_initial_sides(grid: &mut FieldGrid, description: &CompiledDescription) -> (r: Result<
    (),
    ProblemError,
>)
    requires
        description.wf(),
        old(grid).wf(description.transformation@.len() as nat),
        old(grid).dimensions == description.dimensions,
        quiescent(*description, *old(grid)),
    ensures
        final(grid).dimensions == old(grid).dimensions,
        final(grid).wf(description.transformation@.len() as nat),
        narrows(final(grid).tiles@, old(grid).tiles@),
        forall|h: Seq<Seq<bool>>|
            #[trigger] boundary_confined(*description, *old(grid), h) ==> cells_below_grid(
                h,
                *final(grid),
            ),
        r is Ok ==> quiescent(*description, *final(grid)),
        r is Ok ==> keeps_nonempty(final(grid).tiles@, old(grid).tiles@),
        r is Ok ==> cells_face_confined(
            *description,
            final(grid).dimensions,
            grid_cells(*final(grid)),
        ),
        r is Err ==> !final(grid).satisfiable_spec(),
        r matches Err(e) ==> e == ProblemError::Unsatisfiable,
{
    let ghost cd = *description;
    let ghost g0 = *grid;
    let ghost d = g0.dimensions;

    let r = seed_face(grid, description, Direction::Up);
    let ghost g1 = *grid;
    proof {
        assert forall|h: Seq<Seq<bool>>| #[trigger] boundary_confined(cd, g0, h) implies
            cells_below_grid(h, g1) by {
            assert(face_confined_one(cd, d, h, Direction::Up)) by {
                assert forall|p: Point|
                    p.in_bounds(d) && #[trigger] on_face(p, d, Direction::Up) implies is_submask(
                    h[p.id_spec(d)],
                    side_mask_spec(cd, Direction::Up),
                ) by {
                    assert(seeded_dir(Direction::Up));
                }
            }
        }
    }
    if let Err(e) = r {
        return Err(e);
    }

    let r = seed_face(grid, description, Direction::Left);
    let ghost g2 = *grid;
    proof {
        lemma_narrows_trans(g2.tiles@, g1.tiles@, g0.tiles@);
        lemma_face_ok_narrows(cd, g1, g2, Direction::Up);
        assert forall|h: Seq<Seq<bool>>| #[trigger] boundary_confined(cd, g0, h) implies
            cells_below_grid(h, g2) by {
            assert(cells_below_grid(h, g1));
            assert(face_confined_one(cd, d, h, Direction::Left)) by {
                assert forall|p: Point|
                    p.in_bounds(d) && #[trigger] on_face(p, d, Direction::Left) implies is_submask(
                    h[p.id_spec(d)],
                    side_mask_spec(cd, Direction::Left),
                ) by {
                    assert(seeded_dir(Direction::Left));
                }
            }
        }
    }
    if let Err(e) = r {
        return Err(e);
    }
    proof {
        lemma_keeps_trans(g2.tiles@, g1.tiles@, g0.tiles@);
    }

    let r = seed_face(grid, description, Direction::Right);
    let ghost g3 = *grid;
    proof {
        lemma_narrows_trans(g3.tiles@, g2.tiles@, g0.tiles@);
        lemma_face_ok_narrows(cd, g2, g3, Direction::Up);
        lemma_face_ok_narrows(cd, g2, g3, Direction::Left);
        assert forall|h: Seq<Seq<bool>>| #[trigger] boundary_confined(cd, g0, h) implies
            cells_below_grid(h, g3) by {
            assert(cells_below_grid(h, g2));
            assert(face_confined_one(cd, d, h, Direction::Right)) by {
                assert forall|p: Point|
                    p.in_bounds(d) && #[trigger] on_face(p, d, Direction::Right) implies is_submask(
                    h[p.id_spec(d)],
                    side_mask_spec(cd, Direction::Right),
                ) by {
                    assert(seeded_dir(Direction::Right));
                }
            }
        }
    }
    if let Err(e) = r {
        return Err(e);
    }
    proof {
        lemma_keeps_trans(g3.tiles@, g2.tiles@, g0.tiles@);
    }

    let r = seed_face(grid, description, Direction::Forward);
    let ghost g4 = *grid;
    proof {
        lemma_narrows_trans(g4.tiles@, g3.tiles@, g0.tiles@);
        lemma_face_ok_narrows(cd, g3, g4, Direction::Up);
        lemma_face_ok_narrows(cd, g3, g4, Direction::Left);
        lemma_face_ok_narrows(cd, g3, g4, Direction::Right);
        assert forall|h: Seq<Seq<bool>>| #[trigger] boundary_confined(cd, g0, h) implies
            cells_below_grid(h, g4) by {
            assert(cells_below_grid(h, g3));
            assert(face_confined_one(cd, d, h, Direction::Forward)) by {
                assert forall|p: Point|
                    p.in_bounds(d) && #[trigger] on_face(p, d, Direction::Forward) implies
                    is_submask(h[p.id_spec(d)], side_mask_spec(cd, Direction::Forward)) by {
                    assert(seeded_dir(Direction::Forward));
                }
            }
        }
    }
    if let Err(e) = r {
        return Err(e);
    }
    proof {
        lemma_keeps_trans(g4.tiles@, g3.tiles@, g0.tiles@);
    }

    let r = seed_face(grid, description, Direction::Backward);
    let ghost g5 = *grid;
    proof {
        lemma_narrows_trans(g5.tiles@, g4.tiles@, g0.tiles@);
        lemma_face_ok_narrows(cd, g4, g5, Direction::Up);
        lemma_face_ok_narrows(cd, g4, g5, Direction::Left);
        lemma_face_ok_narrows(cd, g4, g5, Direction::Right);
        lemma_face_ok_narrows(cd, g4, g5, Direction::Forward);
        assert forall|h: Seq<Seq<bool>>| #[trigger] boundary_confined(cd, g0, h) implies
            cells_below_grid(h, g5) by {
            assert(cells_below_grid(h, g4));
            assert(face_confined_one(cd, d, h, Direction::Backward)) by {
                assert forall|p: Point|
                    p.in_bounds(d) && #[trigger] on_face(p, d, Direction::Backward) implies
                    is_submask(h[p.id_spec(d)], side_mask_spec(cd, Direction::Backward)) by {
                    assert(seeded_dir(Direction::Backward));
                }
            }
        }
    }
    if let Err(e) = r {
        return Err(e);
    }
    proof {
        lemma_keeps_trans(g5.tiles@, g4.tiles@, g0.tiles@);
        // all five seeded faces stay confined on the final grid
        assert forall|p: Point, dir: Direction|
            p.in_bounds(d) && seeded_dir(dir) && #[trigger] on_face(p, d, dir) implies is_submask(
            grid_cells(g5)[p.id_spec(d)],
            side_mask_spec(cd, dir),
        ) by {
            match dir {
                Direction::Up => assert(face_ok(cd, g5, Direction::Up)),
                Direction::Down => assert(false),
                Direction::Backward => assert(face_ok(cd, g5, Direction::Backward)),
                Direction::Forward => assert(face_ok(cd, g5, Direction::Forward)),
                Direction::Left => assert(face_ok(cd, g5, Direction::Left)),
                Direction::Right => assert(face_ok(cd, g5, Direction::Right)),
            }
        }
    }
    Ok(())
}


/// For every flat cell index there is an in-bounds point addressing it.
proof fn lemma_id_surjective(d: Dimensions, k: int)
    requires
        d.wf(),
        0 <= k < d.len_spec(),
    ensures
        exists|p: Point|
            #[trigger] p.in_bounds(d) && p.id_spec(d) == k,
{
    let wd = d.width * d.depth;
    assert(0 < wd) by (nonlinear_arith)
        requires
            wd == d.width * d.depth,
            1 <= d.width,
            1 <= d.depth,
    ;
    let y = k / wd;
    let rem = k % wd;
    lemma_fundamental_div_mod(k, wd);
    lemma_mod_bound(k, wd);
    lemma_div_pos_is_pos(k, wd);
    assert(k < wd * d.height) by (nonlinear_arith)
        requires
            k < d.width * d.height * d.depth,
            wd == d.width * d.depth,
    ;
    lemma_multiply_divide_lt(k, wd, d.height as int);
    let z = rem / (d.width as int);
    let x = rem % (d.width as int);
    lemma_fundamental_div_mod(rem, d.width as int);
    lemma_mod_bound(rem, d.width as int);
    lemma_div_pos_is_pos(rem, d.width as int);
    assert(rem < d.width * d.depth);
    lemma_multiply_divide_lt(rem, d.width as int, d.depth as int);
    let p = Point { x: x as usize, y: y as usize, z: z as usize };
    assert(p.in_bounds(d));
    assert(p.id_spec(d) == k) by (nonlinear_arith)
        requires
            p.x == x,
            p.y == y,
            p.z == z,
            k == wd * y + rem,
            wd == d.width * d.depth,
            rem == d.width * z + x,
    ;
}

/// The point scanned strictly before position `(x, y, z)` in x-major order.
spec fn scanned_before(p: Point, x: int, y: int, z: int) -> bool {
    p.x < x || (p.x == x && (p.y < y || (p.y == y && p.z < z)))
}

/// Scans the grid in x-major order for the cell with the fewest remaining
/// possibilities among those still undecided (more than one possibility),
/// keeping the first minimum encountered.
fn pick_min_entropy(grid: &FieldGrid) -> (r: Option<Point>)
    requires
        grid.dimensions.wf(),
        grid.tiles@.len() == grid.dimensions.len_spec(),
    ensures
        r matches Some(p) ==> p.in_bounds(grid.dimensions) && popcount(grid.cell(p)) > 1,
        r matches Some(p) ==> forall|q: Point|
            q.in_bounds(grid.dimensions) && (#[trigger] popcount(grid.cell(q))) > 1 ==> popcount(
                grid.cell(p),
            ) <= popcount(grid.cell(q)),
        r is None ==> forall|k: int|
            0 <= k < grid.tiles@.len() ==> popcount(bits(#[trigger] grid.tiles@[k])) <= 1,
{
    let width = grid.dimensions.width;
    let height = grid.dimensions.height;
    let depth = grid.dimensions.depth;
    let mut best: Option<Point> = None;
    let mut best_count: usize = 0;
    let mut x: usize = 0;
    while x < width
        invariant
            grid.dimensions.wf(),
            grid.tiles@.len() == grid.dimensions.len_spec(),
            width == grid.dimensions.width,
            height == grid.dimensions.height,
            depth == grid.dimensions.depth,
            x <= width,
            best matches Some(b) ==> b.in_bounds(grid.dimensions) && popcount(grid.cell(b)) > 1
                && best_count == popcount(grid.cell(b)),
            best matches Some(b) ==> forall|q: Point|
                q.in_bounds(grid.dimensions) && scanned_before(q, x as int, 0, 0) && (
                #[trigger] popcount(grid.cell(q))) > 1 ==> best_count <= popcount(grid.cell(q)),
            best is None ==> forall|p: Point|
                #[trigger] p.in_bounds(grid.dimensions) && scanned_before(p, x as int, 0, 0)
                    ==> popcount(grid.cell(p)) <= 1,
        decreases width - x,
    {
        let mut y: usize = 0;
        while y < height
            invariant
                grid.dimensions.wf(),
                grid.tiles@.len() == grid.dimensions.len_spec(),
                width == grid.dimensions.width,
                height == grid.dimensions.height,
                depth == grid.dimensions.depth,
                x < width,
                y <= height,
                best matches Some(b) ==> b.in_bounds(grid.dimensions) && popcount(grid.cell(b))
                    > 1 && best_count == popcount(grid.cell(b)),
                best matches Some(b) ==> forall|q: Point|
                    q.in_bounds(grid.dimensions) && scanned_before(q, x as int, y as int, 0) && (
                    #[trigger] popcount(grid.cell(q))) > 1 ==> best_count <= popcount(grid.cell(q)),
                best is None ==> forall|p: Point|
                    #[trigger] p.in_bounds(grid.dimensions) && scanned_before(
                        p,
                        x as int,
                        y as int,
                        0,
                    ) ==> popcount(grid.cell(p)) <= 1,
            decreases height - y,
        {
            let mut z: usize = 0;
            while z < depth
                invariant
                    grid.dimensions.wf(),
                    grid.tiles@.len() == grid.dimensions.len_spec(),
                    width == grid.dimensions.width,
                    height == grid.dimensions.height,
                    depth == grid.dimensions.depth,
                    x < width,
                    y < height,
                    z <= depth,
                    best matches Some(b) ==> b.in_bounds(grid.dimensions) && popcount(grid.cell(b))
                        > 1 && best_count == popcount(grid.cell(b)),
                    best matches Some(b) ==> forall|q: Point|
                        q.in_bounds(grid.dimensions) && scanned_before(q, x as int, y as int, z as int)
                            && (#[trigger] popcount(grid.cell(q))) > 1 ==> best_count <= popcount(
                            grid.cell(q),
                        ),
                    best is None ==> forall|p: Point|
                        #[trigger] p.in_bounds(grid.dimensions) && scanned_before(
                            p,
                            x as int,
                            y as int,
                            z as int,
                        ) ==> popcount(grid.cell(p)) <= 1,
                decreases depth - z,
            {
                let p = Point::new(x, y, z);
                let id = p.id(grid.dimensions);
                let c = grid.tiles[id].count_ones();
                proof {
                    assert(c == popcount(grid.cell(p)));
                    assert forall|q: Point|
                        q.in_bounds(grid.dimensions) && scanned_before(
                            q,
                            x as int,
                            y as int,
                            z + 1,
                        ) && q != p implies scanned_before(q, x as int, y as int, z as int) by {}
                }
                if c > 1 && (best.is_none() || c < best_count) {
                    best = Some(p);
                    best_count = c;
                }
                z = z + 1;
            }
            y = y + 1;
        }
        x = x + 1;
    }
    proof {
        if best is None {
            assert forall|k: int|
                0 <= k < grid.tiles@.len() implies popcount(bits(#[trigger] grid.tiles@[k]))
                <= 1 by {
                lemma_id_surjective(grid.dimensions, k);
                let p = choose|p: Point| #[trigger] p.in_bounds(grid.dimensions) && p.id_spec(grid.dimensions) == k;
                assert(scanned_before(p, width as int, 0, 0));
                assert(popcount(grid.cell(p)) <= 1);
            }
        }
    }
    best
}

impl NaiveSolver {
    /// Builds the all-possible grid, seeds the boundary, then observes the
    /// lowest-entropy cell and propagates until the grid is complete.  On
    /// success every cell holds exactly one transformation, every adjacent
    /// pair is compatible with the adjacency tables, and every seeded
    /// boundary cell respects its face mask.  On a one-cell grid that some
    /// admissible assignment satisfies, success is guaranteed; larger grids
    /// can also fail through an unlucky random collapse.
    pub fn solve(&mut self, rng: &mut StdRng, description: &CompiledDescription) -> (r: Result<
        FieldGrid,
        ProblemError,
    >)
        requires
            description.wf(),
            2 <= description.transformation@.len(),
        ensures
            r matches Ok(grid) ==> {
                &&& grid.wf(description.transformation@.len() as nat)
                &&& grid.dimensions == description.dimensions
                &&& grid.complete_spec()
                &&& adjacency_closed(*description, grid)
                &&& cells_face_confined(*description, description.dimensions, grid_cells(grid))
            },
            (description.dimensions.len_spec() == 1 && (exists|h: Seq<Seq<bool>>|
                #[trigger] admissible_cells(*description, h) && cells_all_nonempty(h))) ==> r is Ok,
            r matches Err(e) ==> e == ProblemError::Unsatisfiable,
    {
        let ghost n = description.transformation@.len();
        let ghost cd = *description;
        let mut grid = FieldGrid::new(description.dimensions(), description.all_domain());
        let ghost fresh = grid;
        proof {
            assert forall|p: Point, dir: Direction|
                p.in_bounds(grid.dimensions) implies #[trigger] source_ok(
                *description,
                grid,
                p,
                dir,
            ) by {
                lemma_id_in_range(p, grid.dimensions);
                assert(all_set(grid.cell(p)));
            }
            // every admissible assignment starts out below the fresh grid
            assert forall|h: Seq<Seq<bool>>|
                #[trigger] admissible_cells(cd, h) implies boundary_confined(cd, fresh, h) by {
                assert forall|k: int|
                    0 <= k < h.len() implies is_submask(#[trigger] h[k], bits(fresh.tiles@[k])) by {
                    assert(all_set(bits(fresh.tiles@[k])));
                    assert forall|i: int| 0 <= i < h[k].len() && #[trigger] h[k][i] implies bits(
                        fresh.tiles@[k],
                    )[i] by {}
                }
            }
        }
        let r = update_initial_sides(&mut grid, description);
        if let Err(e) = r {
            proof {
                if exists|h: Seq<Seq<bool>>|
                    #[trigger] admissible_cells(cd, h) && cells_all_nonempty(h) {
                    let h = choose|h: Seq<Seq<bool>>|
                        #[trigger] admissible_cells(cd, h) && cells_all_nonempty(h);
                    assert(cells_below_grid(h, grid));
                    lemma_nonempty_below_satisfiable(h, grid);
                    assert(false);
                }
            }
            return Err(e);
        }
        let ghost seeded = grid;
        if !grid.is_satisfiable() {
            proof {
                if exists|h: Seq<Seq<bool>>|
                    #[trigger] admissible_cells(cd, h) && cells_all_nonempty(h) {
                    let h = choose|h: Seq<Seq<bool>>|
                        #[trigger] admissible_cells(cd, h) && cells_all_nonempty(h);
                    assert(cells_below_grid(h, grid));
                    lemma_nonempty_below_satisfiable(h, grid);
                    assert(false);
                }
            }
            return Err(ProblemError::Unsatisfiable);
        }
        let r = start_process(&mut grid, rng, description);
        if let Err(e) = r {
            return Err(e);
        }
        proof {
            lemma_narrows_face_confined(cd, cd.dimensions, seeded, grid);
        }
        proof {
            assert forall|p: Point, dir: Direction|
                p.in_bounds(grid.dimensions) implies #[trigger] arc_ok(
                *description,
                grid,
                p,
                dir,
            ) by {
                assert(source_ok(*description, grid, p, dir));
                if all_set(grid.cell(p)) {
                    lemma_id_in_range(p, grid.dimensions);
                    lemma_popcount_all(grid.cell(p));
                    assert(popcount(grid.cell(p)) == 1);
                    assert(false);
                }
            }
        }
        Ok(grid)
    }
}

/// The observation loop: while some cell is undecided, collapse the
/// lowest-entropy cell to one randomly chosen transformation and propagate.
/// Cells only ever narrow; a grid that is already complete succeeds at
/// once; failure means a cell of the grid was emptied; and on a one-cell
/// grid no contradiction is reachable, so a satisfiable cell always
/// collapses successfully.
fn start_process(
    grid: &mut FieldGrid,
    rng: &mut StdRng,
    description: &CompiledDescription,
) -> (r: Result<(), ProblemError>)
    requires
        description.wf(),
        old(grid).wf(description.transformation@.len() as nat),
        old(grid).dimensions == description.dimensions,
        quiescent(*description, *old(grid)),
        old(grid).satisfiable_spec(),
    ensures
        final(grid).dimensions == old(grid).dimensions,
        final(grid).wf(description.transformation@.len() as nat),
        narrows(final(grid).tiles@, old(grid).tiles@),
        old(grid).complete_spec() ==> r is Ok,
        old(grid).dimensions.len_spec() == 1 ==> r is Ok,
        r is Ok ==> final(grid).complete_spec(),
        r is Ok ==> quiescent(*description, *final(grid)),
        r is Err ==> !final(grid).satisfiable_spec(),
        r matches Err(e) ==> e == ProblemError::Unsatisfiable,
{
    let ghost n = description.transformation@.len();
    let ghost g0 = *grid;
    let mut done = grid.is_complete();
    while !done
        invariant
            description.wf(),
            n == description.transformation@.len(),
            grid.wf(n),
            g0 == *old(grid),
            grid.dimensions == g0.dimensions,
            g0.dimensions == description.dimensions,
            quiescent(*description, *grid),
            grid.satisfiable_spec(),
            done == grid.complete_spec(),
            narrows(grid.tiles@, g0.tiles@),
            g0.complete_spec() ==> done,
        decreases total_count(grid.tiles@),
    {
        let ghost pre = *grid;
        let choice = pick_min_entropy(grid);
        match choice {
            None => {
                proof {
                    assert forall|k: int|
                        0 <= k < grid.tiles@.len() implies popcount(
                        bits(#[trigger] grid.tiles@[k]),
                    ) == 1 by {
                        assert(popcount(bits(grid.tiles@[k])) >= 1);
                    }
                    assert(grid.complete_spec());
                    assert(false);
                }
            },
            Some(point) => {
                proof {
                    lemma_id_in_range(point, grid.dimensions);
                }
                let id = point.id(grid.dimensions);
                let ghost pid = id as int;
                let ones = bv_ones(&grid.tiles[id]);
                proof {
                    let cellbits = grid.cell(point);
                    assert(popcount(bits(grid.tiles@[pid])) >= 1);
                    if forall|j: int| 0 <= j < cellbits.len() ==> !cellbits[j] {
                        lemma_popcount_none(cellbits);
                        assert(false);
                    }
                    let w = choose|j: int| 0 <= j < cellbits.len() && cellbits[j];
                    assert(bits(grid.tiles@[pid])[w]);
                    assert(ones@.contains(w as usize));
                }
                let fixed_index = match choose_from(rng, &ones) {
                    Some(i) => i,
                    None => {
                        proof {
                            assert(false);
                        }
                        return Err(ProblemError::Unsatisfiable);
                    },
                };
                proof {
                    let u = choose|u: int| 0 <= u < ones@.len() && ones@[u] == fixed_index;
                    assert((ones@[u] as int) < n && bits(grid.tiles@[pid])[ones@[u] as int]);
                }
                let mut mask = bv_repeat(false, description.len());
                bv_set(&mut mask, fixed_index, true);
                proof {
                    lemma_popcount_single(bits(mask), fixed_index as int);
                }
                let result = propagate_point(grid, point, mask, description);
                proof {
                    lemma_narrows_trans(grid.tiles@, pre.tiles@, g0.tiles@);
                    // on a one-cell grid the singleton itself is an
                    // arc-consistent assignment, so no contradiction exists
                    if g0.dimensions.len_spec() == 1 {
                        assert(g0.dimensions.width == 1 && g0.dimensions.height == 1
                            && g0.dimensions.depth == 1) by (nonlinear_arith)
                            requires
                                g0.dimensions.width * g0.dimensions.height * g0.dimensions.depth
                                    == 1,
                                1 <= g0.dimensions.width,
                                1 <= g0.dimensions.height,
                                1 <= g0.dimensions.depth,
                        ;
                        assert(point.x == 0 && point.y == 0 && point.z == 0);
                        assert(pid == 0);
                        let hw: Seq<Seq<bool>> = seq![bits(mask)];
                        assert(confined_solution(*description, pre, point, bits(mask), hw)) by {
                            assert(pre.tiles@.len() == 1);
                            assert(hw[0] == bits(mask));
                            assert(bits(pre.tiles@[0])[fixed_index as int]);
                            assert(is_submask(bits(mask), bits(pre.tiles@[0])));
                            assert(cells_below_grid(hw, pre));
                            assert(is_submask(hw[point.id_spec(pre.dimensions)], bits(mask)));
                            assert forall|p2: Point, dir2: Direction|
                                p2.in_bounds(pre.dimensions) implies #[trigger] cells_arc_ok(
                                *description,
                                pre.dimensions,
                                hw,
                                p2,
                                dir2,
                            ) by {
                                assert(p2.x == 0 && p2.y == 0 && p2.z == 0);
                                match dir2 {
                                    Direction::Up => {},
                                    Direction::Down => {},
                                    Direction::Backward => {},
                                    Direction::Forward => {},
                                    Direction::Left => {},
                                    Direction::Right => {},
                                }
                            }
                        }
                        assert(cells_below_grid(hw, *grid));
                        lemma_popcount_single(bits(mask), fixed_index as int);
                        assert(cells_all_nonempty(hw));
                        lemma_nonempty_below_satisfiable(hw, *grid);
                    }
                }
                match result {
                    Ok(()) => {},
                    Err(e) => {
                        proof {
                            if g0.dimensions.len_spec() == 1 {
                                assert(false);
                            }
                        }
                        return Err(e);
                    },
                }
                proof {
                    // every cell stays non-empty
                    assert forall|k: int|
                        0 <= k < grid.tiles@.len() implies popcount(
                        bits(#[trigger] grid.tiles@[k]),
                    ) >= 1 by {
                        if grid.tiles@[k] == pre.tiles@[k] {
                            assert(popcount(bits(pre.tiles@[k])) >= 1);
                        }
                    }
                    // the observed cell strictly shrank, so the total does
                    assert forall|k: int|
                        0 <= k < grid.tiles@.len() implies popcount(
                        bits(#[trigger] grid.tiles@[k]),
                    ) <= popcount(bits(pre.tiles@[k])) by {
                        lemma_popcount_submask(bits(grid.tiles@[k]), bits(pre.tiles@[k]));
                    }
                    let target = mask_and(bits(mask), pre.cell(point));
                    assert(is_submask(target, bits(mask)));
                    lemma_popcount_submask(target, bits(mask));
                    lemma_popcount_submask(grid.cell(point), target);
                    lemma_total_strict(grid.tiles@, pre.tiles@, pid);
                }
                done = grid.is_complete();
            },
        }
    }
    Ok(())
}

/// Admissibility does not depend on which of two equal compilations of the
/// same catalog is consulted: matching compiled descriptions hold the same
/// table bits, so they accept the same assignments.
pub proof fn lemma_admissible_transfer<D>(
    tiles: Seq<Tile<D>>,
    dimensions: Dimensions,
    c1: CompiledDescription,
    c2: CompiledDescription,
    h: Seq<Seq<bool>>,
)
    requires
        dimensions.wf(),
        compiled_matches(tiles, dimensions, c1),
        compiled_matches(tiles, dimensions, c2),
        admissible_cells(c1, h),
    ensures
        admissible_cells(c2, h),
{
    lemma_compile_deterministic(tiles, dimensions, c1, c2);
    let n = c1.transformation@.len() as int;
    assert forall|dir: Direction, i: int|
        0 <= i < n implies #[trigger] row_spec(c1, dir, i) == row_spec(c2, dir, i) by {
        match dir {
            Direction::Up => assert(bits(c1.up@[i]) == bits(c2.up@[i])),
            Direction::Down => assert(bits(c1.down@[i]) == bits(c2.down@[i])),
            Direction::Backward => assert(bits(c1.backward@[i]) == bits(c2.backward@[i])),
            Direction::Forward => assert(bits(c1.forward@[i]) == bits(c2.forward@[i])),
            Direction::Left => assert(bits(c1.left@[i]) == bits(c2.left@[i])),
            Direction::Right => assert(bits(c1.right@[i]) == bits(c2.right@[i])),
        }
    }
    let d = c2.dimensions;
    assert forall|p: Point, dir: Direction|
        p.in_bounds(d) implies #[trigger] cells_arc_ok(c2, d, h, p, dir) by {
        assert(cells_arc_ok(c1, d, h, p, dir));
        match p.neighbor_spec(dir, d) {
            None => {},
            Some(q) => {
                lemma_id_in_range(p, d);
                let dom = h[p.id_spec(d)];
                let pot1 = pot_spec(c1, dom, dir);
                let pot2 = pot_spec(c2, dom, dir);
                assert forall|j: int| 0 <= j < pot1.len() implies pot1[j] == pot2[j] by {
                    if pot1[j] {
                        let i = choose|i: int|
                            0 <= i < dom.len() && dom[i] && #[trigger] row_spec(c1, dir, i)[j];
                        assert(row_spec(c1, dir, i) == row_spec(c2, dir, i));
                        assert(0 <= i < dom.len() && dom[i] && row_spec(c2, dir, i)[j]);
                    }
                    if pot2[j] {
                        let i = choose|i: int|
                            0 <= i < dom.len() && dom[i] && #[trigger] row_spec(c2, dir, i)[j];
                        assert(row_spec(c1, dir, i) == row_spec(c2, dir, i));
                        assert(0 <= i < dom.len() && dom[i] && row_spec(c1, dir, i)[j]);
                    }
                }
                assert(pot1 =~= pot2);
            },
        }
    }
    assert forall|dir: Direction| #[trigger] side_mask_spec(c1, dir) == side_mask_spec(
        c2,
        dir,
    ) by {
        assert forall|i: int|
            0 <= i < n implies side_mask_spec(c1, dir)[i] == side_mask_spec(c2, dir)[i] by {
            assert(row_spec(c1, dir, i) == row_spec(c2, dir, i));
        }
        assert(side_mask_spec(c1, dir) =~= side_mask_spec(c2, dir));
    }
    assert forall|p: Point, dir: Direction|
        p.in_bounds(d) && seeded_dir(dir) && #[trigger] on_face(p, d, dir) implies is_submask(
        h[p.id_spec(d)],
        side_mask_spec(c2, dir),
    ) by {
        assert(is_submask(h[p.id_spec(d)], side_mask_spec(c1, dir)));
    }
}

/// On a complete, adjacency-closed grid, the single transformations of two
/// adjacent cells are compatible across their shared face.
pub proof fn lemma_collapsed_neighbors_compatible(
    c: CompiledDescription,
    g: FieldGrid,
    p: Point,
    q: Point,
    dir: Direction,
    i: int,
    j: int,
)
    requires
        g.wf(c.transformation@.len() as nat),
        g.dimensions == c.dimensions,
        adjacency_closed(c, g),
        g.complete_spec(),
        p.in_bounds(g.dimensions),
        p.neighbor_spec(dir, g.dimensions) == Some(q),
        0 <= i < g.cell(p).len(),
        0 <= j < g.cell(q).len(),
        g.cell(p)[i],
        g.cell(q)[j],
    ensures
        row_spec(c, dir, i)[j],
{
    lemma_neighbor_in_bounds(p, q, dir, g.dimensions);
    lemma_id_in_range(p, g.dimensions);
    lemma_id_in_range(q, g.dimensions);
    assert(arc_ok(c, g, p, dir));
    let pot = pot_spec(c, g.cell(p), dir);
    assert(pot[j]);
    let w = choose|w: int| 0 <= w < g.cell(p).len() && g.cell(p)[w] && #[trigger] row_spec(c, dir, w)[j];
    lemma_popcount_one(g.cell(p), i, w);
}

} // verus!
