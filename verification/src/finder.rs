//! Trial division up to the integer square root, split across workers that
//! each scan an interleaved stride of the candidates.

use crate::arithmetic::{integer_sqrt, is_divisible, lemma_floor_sqrt, lemma_floor_sqrt_bound};
use crate::listing::{
    divisor_listing, found_at, lemma_listing_has_no_duplicates, lemma_listing_holds_the_divisors,
    search_limit_of, stride_listing, worker_listing, worker_listings,
};
use vstd::prelude::*;

verus! {

/// Number of candidates that justifies one more worker.
pub const DIVISOR_THREAD_GRANULARITY: u128 = 65536;

/// Number of workers for `limit` candidates on a machine with `cores` cores:
/// at most one per core, at most one per `DIVISOR_THREAD_GRANULARITY`
/// candidates, and at least one.
pub open spec fn planned_workers(cores: int, limit: int) -> int {
    let by_work = limit / (DIVISOR_THREAD_GRANULARITY as int);
    let capped = if cores < by_work { cores } else { by_work };
    if capped < 1 { 1 } else { capped }
}

/// The result lists `parts`, joined in order.
pub open spec fn joined(parts: Seq<Vec<u128>>) -> Seq<u128> {
    parts.map_values(|part: Vec<u128>| part@).flatten()
}

/// `num_cpus::get_physical`: the number of physical cores of the machine, which
/// the crate documents as always at least 1. Trusted; the value depends on the
/// machine, so nothing else is claimed of it.
#[verifier::external_body]
fn physical_cores() -> (cores: usize)
    ensures
        cores >= 1,
{
    num_cpus::get_physical()
}

/// Computes the exclusive upper bound of the candidates for `number`.
pub fn search_limit(number: u128) -> (limit: u128)
    ensures
        limit == search_limit_of(number),
{
    proof {
        lemma_floor_sqrt(number as nat);
        lemma_floor_sqrt_bound(number);
    }
    integer_sqrt(number) + 1
}

/// Decides how many workers share `limit` candidates on `cores` cores.
pub fn worker_count(cores: usize, limit: u128) -> (threads: usize)
    ensures
        threads == planned_workers(cores as int, limit as int),
        threads >= 1,
{
    let by_work = limit / DIVISOR_THREAD_GRANULARITY;
    let capped = if (cores as u128) < by_work {
        cores
    } else {
        by_work as usize
    };
    if capped < 1 {
        1
    } else {
        capped
    }
}

/// Scans the stride of worker `worker` out of `threads` below `limit` and
/// returns what it finds.
pub fn worker_divisors(number: u128, worker: usize, threads: usize, limit: u128) -> (found: Vec<u128>)
    requires
        threads >= 1,
    ensures
        found@ == worker_listing(number, worker as int, threads as int, limit as int),
{
    let step = threads as u128;
    let mut found: Vec<u128> = Vec::new();
    let mut d: u128 = worker as u128 + 1;
    while d < limit
        invariant
            1 <= d,
            step == threads,
            step >= 1,
            found@ + stride_listing(number, d as int, threads as int, limit as int)
                == worker_listing(number, worker as int, threads as int, limit as int),
        decreases limit - d,
    {
        let ghost before = found@;
        if is_divisible(number, d) {
            found.push(d);
            let complement = number / d;
            if complement != d {
                found.push(complement);
            }
        }
        assert(found@ == before + found_at(number, d));
        if limit - d <= step {
            assert(stride_listing(number, d + threads, threads as int, limit as int)
                == stride_listing(number, limit as int, threads as int, limit as int));
            d = limit;
        } else {
            d = d + step;
        }
    }
    found
}

/// Joins the workers' result lists in worker order.
pub fn merge(parts: Vec<Vec<u128>>) -> (merged: Vec<u128>)
    ensures
        merged@ == joined(parts@),
{
    let ghost lists = parts@.map_values(|part: Vec<u128>| part@);
    let mut merged: Vec<u128> = Vec::new();
    let mut i: usize = 0;
    while i < parts.len()
        invariant
            i <= parts.len(),
            lists == parts@.map_values(|part: Vec<u128>| part@),
            merged@ == lists.take(i as int).flatten(),
        decreases parts.len() - i,
    {
        let ghost before = merged@;
        let part = &parts[i];
        let mut j: usize = 0;
        while j < part.len()
            invariant
                j <= part.len(),
                merged@ == before + part@.take(j as int),
            decreases part.len() - j,
        {
            merged.push(part[j]);
            j = j + 1;
        }
        proof {
            assert(part@.take(part.len() as int) == part@);
            assert(lists.take(i + 1) == lists.take(i as int).push(part@));
            lists.take(i as int).lemma_flatten_push(part@);
        }
        i = i + 1;
    }
    assert(lists.take(parts.len() as int) == lists);
    merged
}

/// Finds the divisors of `number` with `threads` workers, one after the
/// other: each scans its stride of the candidates up to the integer square
/// root, and the findings are joined in worker order. Whatever the number of
/// workers, the result holds every divisor of `number` once and nothing else;
/// for 0 it is empty.
pub fn find_divisors_with(number: u128, threads: usize) -> (divisors: Vec<u128>)
    requires
        threads >= 1,
    ensures
        divisors@ == divisor_listing(number, threads as int),
        forall|d: u128| #[trigger] divisors@.contains(d) <==> 1 <= d <= number && number % d == 0,
        divisors@.no_duplicates(),
{
    let limit = search_limit(number);
    let ghost listings = worker_listings(number, threads as int);
    let mut parts: Vec<Vec<u128>> = Vec::new();
    let mut worker: usize = 0;
    while worker < threads
        invariant
            worker <= threads,
            threads >= 1,
            limit == search_limit_of(number),
            listings == worker_listings(number, threads as int),
            parts@.map_values(|part: Vec<u128>| part@) == listings.take(worker as int),
        decreases threads - worker,
    {
        let found = worker_divisors(number, worker, threads, limit);
        let ghost before = parts@.map_values(|part: Vec<u128>| part@);
        parts.push(found);
        assert(parts@.map_values(|part: Vec<u128>| part@) == before.push(found@));
        assert(listings.take(worker + 1) == listings.take(worker as int).push(listings[worker as int]));
        worker = worker + 1;
    }
    assert(listings.take(threads as int) == listings);
    proof {
        lemma_listing_holds_the_divisors(number, threads as int);
        lemma_listing_has_no_duplicates(number, threads as int);
    }
    merge(parts)
}

/// Finds the divisors of `number` with as many workers as the machine's
/// physical cores and the size of the search call for. The result holds
/// every divisor of `number` once and nothing else; for 0 it is empty. The
/// order is that of `find_divisors_with` for the number of workers chosen.
pub fn find_divisors(number: u128) -> (divisors: Vec<u128>)
    ensures
        exists|cores: int|
            1 <= cores <= usize::MAX && divisors@ == divisor_listing(
                number,
                #[trigger] planned_workers(cores, search_limit_of(number)),
            ),
        forall|d: u128| #[trigger] divisors@.contains(d) <==> 1 <= d <= number && number % d == 0,
        divisors@.no_duplicates(),
{
    let limit = search_limit(number);
    let cores = physical_cores();
    let threads = worker_count(cores, limit);
    assert(threads == planned_workers(cores as int, search_limit_of(number)));
    find_divisors_with(number, threads)
}

} // verus!
