//! The pool that starts one thread per job. Its threads are started by the
//! caller; the type only carries the pool's identity.
use vstd::prelude::*;
use crate::error::KvsError;

verus! {

/// A pool without workers of its own: each job gets a fresh thread.
pub struct NaiveThreadPool;

impl NaiveThreadPool {
    /// Creating the pool never fails, whatever the number of threads.
    pub fn new(threads: u32) -> (r: Result<NaiveThreadPool, KvsError>)
        ensures
            r is Ok,
    {
        Ok(NaiveThreadPool)
    }
}

} // verus!
