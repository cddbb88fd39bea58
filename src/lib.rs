//! Light propagation and visibility over a 3-D tile grid: the integer and boolean side
//! of the engine. Grid positions and dense fields, the collision field, the angular
//! cache that rasterises occluders into angle buckets, the shadow floors of each
//! propagation source, the breadth-first visibility flood, and the incremental spread of
//! prebaked light past dynamic occluders. Lux, colours and exposure are floating point
//! and are computed around these pieces by their callers.
use vstd::prelude::*;

pub mod position;
pub mod sector;
pub mod angular;
pub mod board;
pub mod collision;
pub mod shadow;
pub mod visibility;
pub mod prebaked;

use crate::board::BoardDataToRebuild;

verus! {

/// Starts a run: the first tick builds both the collision field and the light field, so
/// a run begins with this request pending.
pub fn app_run() -> (r: BoardDataToRebuild)
    ensures
        r.collision,
        r.lighting,
{
    BoardDataToRebuild { lighting: true, collision: true }
}

} // verus!
