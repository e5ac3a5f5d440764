use vstd::prelude::*;

use crate::error::SgError;
use crate::graph::SpectralGraph;

verus! {

impl<W: Copy> SpectralGraph<W> {
    /// The part of spectral clustering into `k` clusters that needs no
    /// spectrum: `k` must lie between 1 and the number of vertices, and one
    /// cluster puts every vertex in cluster 0. `Ok(None)` leaves the
    /// assignment to the spectral computation.
    pub fn cluster_precheck(&self, k: usize) -> (r: Result<Option<Vec<usize>>, SgError>)
        requires
            self@.wf(),
        ensures
            r is Err <==> (k == 0 || k > self@.n),
            r is Err ==> r == Err::<Option<Vec<usize>>, SgError>(SgError::InvalidParam),
            r matches Ok(Some(ids)) ==> k == 1 && ids@ == Seq::new(self@.n, |i: int| 0usize),
            r matches Ok(None) ==> 2 <= k <= self@.n,
    {
        let n = self.num_vertices();
        if k == 0 || k > n {
            return Err(SgError::InvalidParam);
        }
        if k == 1 {
            let mut ids: Vec<usize> = Vec::new();
            let mut i: usize = 0;
            while i < n
                invariant
                    i <= n,
                    ids@ == Seq::new(i as nat, |j: int| 0usize),
                decreases n - i,
            {
                ids.push(0);
                i = i + 1;
                assert(ids@ =~= Seq::new(i as nat, |j: int| 0usize));
            }
            return Ok(Some(ids));
        }
        Ok(None)
    }
}

} // verus!
