//! The check that a set of survey points is large enough to build a
//! terrain model from.

use vstd::prelude::*;

use crate::error::TerrainError;

verus! {

/// Whether `n` survey points are enough for a terrain model: none gives
/// `EmptyTerrain`, one or two give `InsufficientPoints` (three are needed).
pub fn check_survey_size(n: usize) -> (r: Result<(), TerrainError>)
    ensures
        n == 0 ==> r == Err::<(), TerrainError>(TerrainError::EmptyTerrain),
        0 < n < 3 ==> r == Err::<(), TerrainError>(TerrainError::InsufficientPoints { got: n, need: 3 }),
        n >= 3 ==> r is Ok,
{
    if n == 0 {
        return Err(TerrainError::EmptyTerrain);
    }
    if n < 3 {
        return Err(TerrainError::InsufficientPoints { got: n, need: 3 });
    }
    Ok(())
}

} // verus!
