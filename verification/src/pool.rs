//! The thread pool on which the parallel steps run.

use vstd::prelude::*;

verus! {

/// rayon's `ThreadPool`: a set of worker threads. Nothing is known of what
/// is inside.
#[verifier::external_type_specification]
#[verifier::external_body]
pub struct ExThreadPool(rayon::ThreadPool);

/// rayon's `ThreadPoolBuildError`: why a pool could not be built.
#[verifier::external_type_specification]
#[verifier::external_body]
pub struct ExThreadPoolBuildError(rayon::ThreadPoolBuildError);

/// Builds a pool with rayon's `ThreadPoolBuilder`: `new`, `num_threads`,
/// `build`. For `threads == 0` rayon chooses the number of threads. Whether
/// the pool can be built is up to the system, so nothing is claimed of the
/// result.
#[verifier::external_body]
fn build_pool(threads: usize) -> (r: Result<rayon::ThreadPool, rayon::ThreadPoolBuildError>) {
    rayon::ThreadPoolBuilder::new().num_threads(threads).build()
}

/// A pool of `threads` worker threads, or of as many as rayon chooses for
/// `threads == 0`. `None` where the system does not give the threads.
pub fn thread_pool(threads: usize) -> (pool: Option<rayon::ThreadPool>) {
    pool_or_none(build_pool(threads))
}

/// What becomes of an attempt to build a pool: the pool where it was built,
/// and `None` where it was not. Why it was not is dropped: the solver then
/// runs on the calling thread, and its answer is the same.
pub fn pool_or_none(built: Result<rayon::ThreadPool, rayon::ThreadPoolBuildError>) -> (pool: Option<
    rayon::ThreadPool,
>)
    ensures
        match built {
            Ok(workers) => pool == Some(workers),
            Err(_) => pool is None,
        },
{
    match built {
        Ok(workers) => Some(workers),
        Err(_) => None,
    }
}

} // verus!
