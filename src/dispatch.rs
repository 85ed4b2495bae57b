//! Trimming of the records of one window on a pool of workers: each record
//! is taken out as a job of its own, so that workers share no bytes.
use crate::record::{FQRec, TrimParams};
use rayon::iter::{IntoParallelRefMutIterator, ParallelIterator};
use vstd::prelude::*;

verus! {

/// The bytes of one record, with its offsets among them.
pub struct Job {
    pub rec: FQRec,
    pub bytes: Vec<u8>,
}

impl Job {
    /// The record starts the bytes and is well formed.
    pub open spec fn ready(&self) -> bool {
        self.rec.n == 0 && self.rec.valid(self.bytes@)
    }

    /// The bytes the record is rewritten to.
    pub open spec fn output(&self, adaptor: Seq<u8>, p: TrimParams) -> Seq<u8> {
        self.rec.trimmed(self.bytes@, adaptor, p)
    }

    /// Trims the record and keeps only its rewritten bytes.
    pub fn run(&mut self, adaptor: &[u8], params: TrimParams)
        requires
            old(self).ready(),
            params.min_frac.wf(),
        ensures
            final(self).bytes@ == old(self).output(adaptor@, params),
    {
        self.rec.process(adaptor, params, &mut self.bytes);
        self.bytes.truncate(self.rec.e);
    }
}

/// The rewritten bytes of `jobs`, in order.
pub open spec fn jobs_output(jobs: Seq<Job>, adaptor: Seq<u8>, p: TrimParams) -> Seq<u8>
    decreases jobs.len(),
{
    if jobs.len() == 0 {
        Seq::empty()
    } else {
        jobs_output(jobs.drop_last(), adaptor, p) + jobs.last().output(adaptor, p)
    }
}

/// Relies on rayon's `par_iter_mut` and `for_each`: the closure is called
/// once on each element of the vector, which it may change, and the vector
/// keeps its length.
#[verifier::external_body]
pub(crate) fn run_all(jobs: &mut Vec<Job>, adaptor: &[u8], params: TrimParams)
    requires
        forall|i: int| 0 <= i < old(jobs)@.len() ==> old(jobs)@[i].ready(),
        params.min_frac.wf(),
    ensures
        final(jobs)@.len() == old(jobs)@.len(),
        forall|i: int|
            0 <= i < old(jobs)@.len() ==> final(jobs)@[i].bytes@ == old(jobs)@[i].output(
                adaptor@,
                params,
            ),
{
    jobs.par_iter_mut().for_each(|job| job.run(adaptor, params));
}

} // verus!
