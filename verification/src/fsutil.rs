//! Sizing and outcome of the parallel copy pool.

use vstd::prelude::*;

verus! {

/// Number of worker threads: the available parallelism (4 when unknown),
/// never more than the number of jobs.
pub open spec fn spec_workers(jobs: int, available: Option<usize>) -> int {
    let a = match available {
        Some(n) => n as int,
        None => 4,
    };
    if a < jobs {
        a
    } else {
        jobs
    }
}

/// Jobs per worker: the jobs divided among the workers, rounded up.
pub open spec fn spec_chunk_size(jobs: int, available: Option<usize>) -> int {
    (jobs + spec_workers(jobs, available) - 1) / spec_workers(jobs, available)
}

/// How many consecutive jobs each worker of the copy pool takes.
pub fn copy_chunk_size(jobs: usize, available: Option<usize>) -> (r: usize)
    requires
        jobs >= 2,
        available matches Some(n) ==> n >= 1,
    ensures
        r == spec_chunk_size(jobs as int, available),
        1 <= r <= jobs,
{
    let a: usize = match available {
        Some(n) => n,
        None => 4,
    };
    let workers: usize = if a < jobs {
        a
    } else {
        jobs
    };
    let r = (jobs - 1) / workers + 1;
    let ghost w = workers as int;
    let ghost n = jobs as int;
    assert(r as int == (n + w - 1) / w && 1 <= r as int <= n) by (nonlinear_arith)
        requires
            1 <= w <= n,
            r as int == (n - 1) / w + 1,
    ;
    r
}

/// The outcome of the pool: the first error reported, in the order of the
/// workers' chunks; success when none failed.
pub fn first_error(results: Vec<Option<String>>) -> (r: Result<(), String>)
    ensures
        match r {
            Ok(()) => forall|i: int| 0 <= i < results@.len() ==> (#[trigger] results@[i]) is None,
            Err(e) => exists|i: int|
                0 <= i < results@.len() && (#[trigger] results@[i]) == Some(e) && forall|k: int|
                    0 <= k < i ==> (#[trigger] results@[k]) is None,
        },
{
    let mut i: usize = 0;
    while i < results.len()
        invariant
            i <= results@.len(),
            forall|k: int| 0 <= k < i ==> (#[trigger] results@[k]) is None,
        decreases results.len() - i,
    {
        match &results[i] {
            Some(e) => {
                let e2 = e.clone();
                assert(results@[i as int] == Some(e2));
                return Err(e2);
            },
            None => {},
        }
        i += 1;
    }
    Ok(())
}

} // verus!

verus! {

/// The pool covers every job as evenly as it can: with `w` workers (the
/// available parallelism, 4 when unknown, at most one per job), `w` chunks
/// of the chunk size hold all the jobs, and one job less per chunk would not.
pub proof fn law_chunks_cover_the_jobs(jobs: int, available: Option<usize>)
    requires
        jobs >= 1,
        available matches Some(n) ==> n >= 1,
    ensures
        ({
            let a = match available {
                Some(n) => n as int,
                None => 4,
            };
            let w = if a < jobs {
                a
            } else {
                jobs
            };
            let c = spec_chunk_size(jobs, available);
            &&& 1 <= w <= jobs
            &&& c * w >= jobs
            &&& (c - 1) * w < jobs
        }),
{
    let w = spec_workers(jobs, available);
    let c = spec_chunk_size(jobs, available);
    assert(c * w >= jobs && (c - 1) * w < jobs) by (nonlinear_arith)
        requires
            w >= 1,
            c == (jobs + w - 1) / w,
    ;
}

} // verus!
