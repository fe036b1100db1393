use vstd::prelude::*;
use rayon::iter::{IntoParallelRefMutIterator, ParallelIterator};
use crate::cell::{Cell, begun};
use crate::chunk::{Chunk, MAX_IDLE_FRAMES, started};

verus! {

/// Relies on rayon's `par_iter_mut().for_each`: the closure runs exactly
/// once on every element, in place, and the vector keeps its length.
#[verifier::external_body]
pub(crate) fn start_chunks(chunks: &mut Vec<Chunk>)
    requires
        forall|k: int|
            0 <= k < old(chunks)@.len() ==> (#[trigger] old(chunks)@[k]).num_frames_without_step < MAX_IDLE_FRAMES,
    ensures
        final(chunks)@.len() == old(chunks)@.len(),
        forall|k: int| 0 <= k < final(chunks)@.len() ==> #[trigger] final(chunks)@[k] == started(old(chunks)@[k]),
{
    chunks.par_iter_mut().for_each(|c| c.start_step());
}

/// Relies on rayon's `par_iter_mut().for_each`: the closure runs exactly
/// once on every element, in place, and the vector keeps its length.
#[verifier::external_body]
pub(crate) fn begin_cells(cells: &mut Vec<Cell>)
    ensures
        final(cells)@.len() == old(cells)@.len(),
        forall|k: int| 0 <= k < final(cells)@.len() ==> #[trigger] final(cells)@[k] == begun(old(cells)@[k]),
{
    cells.par_iter_mut().for_each(|c| c.begin_frame());
}

} // verus!
