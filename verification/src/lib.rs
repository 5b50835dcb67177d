//! A three-dimensional wave-function-collapse tile solver.
//!
//! A tile catalog with symbolic per-face connection tags is compiled into a
//! flat array of transformations (tile x rotation) with six per-direction
//! adjacency bit tables; the solver then collapses a 3D grid of domain masks
//! into one transformation per cell, or reports that the constraints are
//! unsatisfiable.  On success, every cell of the returned grid holds exactly
//! one transformation and every pair of adjacent cells is compatible across
//! their shared face.

use vstd::prelude::*;

pub mod bits;
pub mod utils;
pub mod description;
pub mod error;
pub mod solver;

use crate::utils::FieldGrid;
use crate::description::{CompiledDescription, ProblemDescription, compiled_matches};
use crate::error::ProblemError;
use crate::solver::{NaiveSolver, adjacency_closed, admissible_cells, cells_all_nonempty, cells_face_confined, grid_cells, lemma_admissible_transfer};

verus! {

/// A collapsed grid, together with the problem it solves and the compiled
/// form that interprets each transformation index.
pub struct Solution<D> {
    pub grid: FieldGrid,
    pub description: ProblemDescription<D>,
    pub compiled: CompiledDescription,
}

/// Compiles the description, then collapses a fresh grid.  On success the
/// returned grid is complete (every cell holds exactly one transformation),
/// adjacency-closed with respect to the compiled tables, and confined to
/// the seeded boundary masks; the only reported failure is
/// unsatisfiability.  A one-cell problem that some admissible assignment
/// satisfies always succeeds; on larger grids success additionally depends
/// on the random collapses.
pub fn solve<D>(rng: &mut rand::rngs::StdRng, description: ProblemDescription<D>) -> (r: Result<
    Solution<D>,
    ProblemError,
>)
    requires
        description.wf(),
    ensures
        r matches Ok(s) ==> {
            &&& s.description == description
            &&& compiled_matches(description.tiles@, description.dimensions, s.compiled)
            &&& s.grid.wf(s.compiled.transformation@.len() as nat)
            &&& s.grid.dimensions == description.dimensions
            &&& s.grid.complete_spec()
            &&& adjacency_closed(s.compiled, s.grid)
            &&& cells_face_confined(s.compiled, description.dimensions, grid_cells(s.grid))
        },
        (description.dimensions.len_spec() == 1 && (exists|cd: CompiledDescription, h: Seq<
            Seq<bool>,
        >|
            #![trigger compiled_matches(description.tiles@, description.dimensions, cd), admissible_cells(cd, h)]
            compiled_matches(description.tiles@, description.dimensions, cd) && admissible_cells(
                cd,
                h,
            ) && cells_all_nonempty(h))) ==> r is Ok,
        r matches Err(e) ==> e == ProblemError::Unsatisfiable,
{
    let compiled = description.compile();
    proof {
        assert(compiled.transformation@.len() == 4 * description.tiles@.len());
        assert(compiled.wf());
    }
    let mut solver = NaiveSolver {};
    let grid = match solver.solve(rng, &compiled) {
        Ok(g) => g,
        Err(e) => {
            proof {
                if description.dimensions.len_spec() == 1 && (exists|cd: CompiledDescription, h:
                    Seq<Seq<bool>>|
                    #![trigger compiled_matches(description.tiles@, description.dimensions, cd), admissible_cells(cd, h)]
                    compiled_matches(description.tiles@, description.dimensions, cd)
                        && admissible_cells(cd, h) && cells_all_nonempty(h)) {
                    let (cd, h) = choose|cd: CompiledDescription, h: Seq<Seq<bool>>|
                        #![trigger compiled_matches(description.tiles@, description.dimensions, cd), admissible_cells(cd, h)]
                        compiled_matches(description.tiles@, description.dimensions, cd)
                            && admissible_cells(cd, h) && cells_all_nonempty(h);
                    lemma_admissible_transfer(
                        description.tiles@,
                        description.dimensions,
                        cd,
                        compiled,
                        h,
                    );
                    assert(admissible_cells(compiled, h) && cells_all_nonempty(h));
                    assert(false);
                }
            }
            return Err(e);
        },
    };
    Ok(Solution { grid, description, compiled })
}

} // verus!
