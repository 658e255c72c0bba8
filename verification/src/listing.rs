//! What the workers find, and why it is the divisors of the number, each once.

use crate::arithmetic::{divides, floor_sqrt, lemma_floor_sqrt, lemma_floor_sqrt_bound};
use vstd::arithmetic::div_mod::{
    lemma_div_multiples_vanish, lemma_fundamental_div_mod, lemma_mod_multiples_basic,
    lemma_mod_multiples_vanish, lemma_mod_sub_multiples_vanish, lemma_small_mod,
};
use vstd::prelude::*;
use vstd::seq_lib::{lemma_no_dup_in_concat, lemma_seq_concat_contains_all_elements};

verus! {

/// Exclusive upper bound of the candidates for `number`: its integer square
/// root plus one.
pub open spec fn search_limit_of(number: u128) -> int {
    floor_sqrt(number as nat) as int + 1
}

/// What the candidate `d` contributes to the divisors of `number`: nothing if
/// it is no divisor, else itself followed by its complement `number / d`,
/// the complement left out where it equals `d`.
pub open spec fn found_at(number: u128, d: u128) -> Seq<u128> {
    if !divides(number, d) {
        Seq::empty()
    } else if number / d == d {
        seq![d]
    } else {
        seq![d, number / d]
    }
}

/// How many integers lie from `first` up to, but not including, `limit`.
pub open spec fn span(first: int, limit: int) -> nat {
    if first < limit {
        (limit - first) as nat
    } else {
        0
    }
}

/// The findings for the candidates `first`, `first + stride`, `first + 2 * stride`, ...
/// below `limit`, in that order.
pub open spec fn stride_listing(number: u128, first: int, stride: int, limit: int) -> Seq<u128>
    decreases span(first, limit),
{
    if first >= limit || stride <= 0 {
        Seq::empty()
    } else {
        found_at(number, first as u128) + stride_listing(number, first + stride, stride, limit)
    }
}

/// The findings of worker `worker` out of `threads`: it scans the candidates
/// `worker + 1`, `worker + 1 + threads`, ... below `limit`.
pub open spec fn worker_listing(number: u128, worker: int, threads: int, limit: int) -> Seq<u128> {
    stride_listing(number, worker + 1, threads, limit)
}

/// The findings of each of the `threads` workers for `number`, by worker index.
pub open spec fn worker_listings(number: u128, threads: int) -> Seq<Seq<u128>> {
    Seq::new(
        threads as nat,
        |worker: int| worker_listing(number, worker, threads, search_limit_of(number)),
    )
}

/// The findings of all `threads` workers for `number`, joined in worker order.
pub open spec fn divisor_listing(number: u128, threads: int) -> Seq<u128> {
    worker_listings(number, threads).flatten()
}

/// `d` is one of the candidates `first`, `first + stride`, `first + 2 * stride`, ...
/// below `limit`.
pub open spec fn on_stride(first: int, stride: int, limit: int, d: int) -> bool {
    first <= d < limit && (d - first) % stride == 0
}

/// `d` is one of the candidates of worker `worker` out of `threads`.
pub open spec fn scans(worker: int, threads: int, limit: int, d: int) -> bool {
    on_stride(worker + 1, threads, limit, d)
}

/// The candidate `d` contributes `x` to the divisors of `number`.
pub open spec fn finds(number: u128, d: int, x: u128) -> bool {
    0 <= d <= u128::MAX && found_at(number, d as u128).contains(x)
}

/// A candidate contributes itself and its complement, if it is a divisor.
pub proof fn lemma_found_at(number: u128, d: u128, x: u128)
    ensures
        found_at(number, d).contains(x) <==> divides(number, d) && (x == d || x == number / d),
{
    let found = found_at(number, d);
    if divides(number, d) {
        assert(found[0] == d);
        if number / d != d {
            assert(found[1] == number / d);
        }
    }
}

/// A candidate contributes nothing twice.
pub proof fn lemma_found_at_no_duplicates(number: u128, d: u128)
    ensures
        found_at(number, d).no_duplicates(),
{
}

/// A divisor times its complement is the number.
proof fn lemma_complement(number: u128, d: u128)
    requires
        divides(number, d),
    ensures
        number == d * (number / d),
{
    lemma_fundamental_div_mod(number as int, d as int);
}

/// What a candidate up to the square root contributes is a divisor of the number.
pub proof fn lemma_found_at_sound(number: u128, d: u128, x: u128)
    requires
        1 <= d,
        d * d <= number,
        found_at(number, d).contains(x),
    ensures
        1 <= x <= number,
        number % x == 0,
{
    lemma_found_at(number, d, x);
    lemma_complement(number, d);
    let q = number / d;
    assert(1 <= d * d) by (nonlinear_arith)
        requires
            1 <= d,
    ;
    assert(1 <= q <= number && d <= number) by (nonlinear_arith)
        requires
            number == d * q,
            1 <= d,
            1 <= number,
            0 <= q,
    ;
    if x == q {
        lemma_mod_multiples_basic(d as int, q as int);
    }
}

/// Every divisor of the number is contributed by a candidate up to the square root.
pub proof fn lemma_found_at_complete(number: u128, x: u128) -> (d: u128)
    requires
        1 <= x <= number,
        number % x == 0,
    ensures
        1 <= d <= floor_sqrt(number as nat),
        found_at(number, d).contains(x),
{
    lemma_floor_sqrt(number as nat);
    let root = floor_sqrt(number as nat);
    if x <= root {
        lemma_found_at(number, x, x);
        x
    } else {
        let d = number / x;
        lemma_complement(number, x);
        assert(1 <= d <= root) by (nonlinear_arith)
            requires
                number == x * d,
                1 <= x <= number,
                0 <= d,
                root < x,
                number < (root + 1) * (root + 1),
        ;
        lemma_mod_multiples_basic(x as int, d as int);
        lemma_div_multiples_vanish(x as int, d as int);
        assert(number / d == x);
        lemma_found_at(number, d, x);
        d
    }
}

/// Two different candidates up to the square root contribute different divisors.
pub proof fn lemma_origin_unique(number: u128, root: int, d1: u128, d2: u128, x: u128)
    requires
        root * root <= number,
        1 <= d1 <= root,
        1 <= d2 <= root,
        found_at(number, d1).contains(x),
        found_at(number, d2).contains(x),
    ensures
        d1 == d2,
{
    lemma_found_at(number, d1, x);
    lemma_found_at(number, d2, x);
    lemma_complement(number, d1);
    lemma_complement(number, d2);
    let q1 = number / d1;
    let q2 = number / d2;
    if d1 != d2 {
        assert(d1 * d2 < root * root) by (nonlinear_arith)
            requires
                1 <= d1 <= root,
                1 <= d2 <= root,
                d1 != d2,
        ;
        assert(1 <= root * root) by (nonlinear_arith)
            requires
                1 <= root,
        ;
        if x == d1 && x == q2 {
            assert(d1 * d2 == d2 * d1) by (nonlinear_arith);
            assert(false);
        } else if x == q1 && x == d2 {
            assert(false);
        } else {
            assert(x == q1 && x == q2);
            assert(d1 == d2) by (nonlinear_arith)
                requires
                    number == d1 * x,
                    number == d2 * x,
                    1 <= number,
            ;
        }
    }
}

/// The candidates on a stride are its first one and those on the stride that
/// starts one step later.
proof fn lemma_on_stride_step(first: int, stride: int, limit: int, d: int)
    requires
        stride >= 1,
    ensures
        on_stride(first, stride, limit, d) <==> (d == first && first < limit) || on_stride(
            first + stride,
            stride,
            limit,
            d,
        ),
{
    lemma_mod_sub_multiples_vanish(d - first, stride);
    assert(-stride + (d - first) == d - (first + stride));
    if first <= d < first + stride {
        lemma_small_mod((d - first) as nat, stride as nat);
    }
}

/// A stride's findings are what its candidates contribute.
pub proof fn lemma_stride_listing_contains(
    number: u128,
    first: int,
    stride: int,
    limit: int,
    x: u128,
)
    requires
        0 <= first,
        1 <= stride,
        limit <= u128::MAX + 1,
    ensures
        stride_listing(number, first, stride, limit).contains(x) <==> exists|d: int|
            on_stride(first, stride, limit, d) && finds(number, d, x),
    decreases span(first, limit),
{
    if first < limit {
        let head = found_at(number, first as u128);
        let tail = stride_listing(number, first + stride, stride, limit);
        lemma_stride_listing_contains(number, first + stride, stride, limit, x);
        lemma_seq_concat_contains_all_elements(head, tail, x);
        if head.contains(x) {
            lemma_on_stride_step(first, stride, limit, first);
            assert(on_stride(first, stride, limit, first) && finds(number, first, x));
        }
        if tail.contains(x) {
            let d = choose|d: int| on_stride(first + stride, stride, limit, d) && finds(number, d, x);
            lemma_on_stride_step(first, stride, limit, d);
            assert(on_stride(first, stride, limit, d) && finds(number, d, x));
        }
        if exists|d: int| on_stride(first, stride, limit, d) && finds(number, d, x) {
            let d = choose|d: int| on_stride(first, stride, limit, d) && finds(number, d, x);
            lemma_on_stride_step(first, stride, limit, d);
            if d != first {
                assert(on_stride(first + stride, stride, limit, d) && finds(number, d, x));
            }
        }
    }
}

/// A stride that stays at or below the square root finds nothing twice.
pub proof fn lemma_stride_listing_no_duplicates(
    number: u128,
    first: int,
    stride: int,
    limit: int,
)
    requires
        1 <= first,
        1 <= stride,
        (limit - 1) * (limit - 1) <= number,
    ensures
        stride_listing(number, first, stride, limit).no_duplicates(),
    decreases span(first, limit),
{
    if first < limit {
        assert(limit <= u128::MAX + 1) by (nonlinear_arith)
            requires
                (limit - 1) * (limit - 1) <= number,
                1 < limit,
        ;
        let head = found_at(number, first as u128);
        let tail = stride_listing(number, first + stride, stride, limit);
        lemma_stride_listing_no_duplicates(number, first + stride, stride, limit);
        lemma_found_at_no_duplicates(number, first as u128);
        assert forall|i: int, j: int| 0 <= i < head.len() && 0 <= j < tail.len() implies head[i]
            != tail[j] by {
            if head[i] == tail[j] {
                let x = head[i];
                assert(head.contains(x));
                assert(tail.contains(x));
                lemma_stride_listing_contains(number, first + stride, stride, limit, x);
                let d = choose|d: int| on_stride(first + stride, stride, limit, d) && finds(number, d, x);
                lemma_origin_unique(number, limit - 1, first as u128, d as u128, x);
            }
        }
        lemma_no_dup_in_concat(head, tail);
    }
}

/// Each candidate from 1 up is on the stride of the worker whose index is the
/// candidate's predecessor modulo the number of workers, and of no other.
pub proof fn lemma_worker_of(threads: int, limit: int, d: int)
    requires
        threads >= 1,
        1 <= d < limit,
    ensures
        0 <= (d - 1) % threads < threads,
        scans((d - 1) % threads, threads, limit, d),
        forall|worker: int|
            0 <= worker < threads && #[trigger] scans(worker, threads, limit, d) ==> worker == (d
                - 1) % threads,
{
    let home = (d - 1) % threads;
    lemma_fundamental_div_mod(d - 1, threads);
    let turns = (d - 1) / threads;
    assert(d - (home + 1) == threads * turns);
    lemma_mod_multiples_vanish(turns, 0, threads);
    assert(threads * turns + 0 == threads * turns);
    lemma_small_mod(0, threads as nat);
    assert forall|worker: int|
        0 <= worker < threads && #[trigger] scans(worker, threads, limit, d) implies worker
        == home by {
        let gap = d - (worker + 1);
        lemma_fundamental_div_mod(gap, threads);
        lemma_mod_multiples_vanish(gap / threads, worker, threads);
        assert(threads * (gap / threads) + worker == d - 1);
        lemma_small_mod(worker as nat, threads as nat);
    }
}

/// A value is in the joined lists exactly if it is in one of them.
pub proof fn lemma_flatten_contains<A>(parts: Seq<Seq<A>>, x: A)
    ensures
        parts.flatten().contains(x) <==> exists|k: int|
            0 <= k < parts.len() && (#[trigger] parts[k]).contains(x),
    decreases parts.len(),
{
    if parts.len() > 0 {
        let rest = parts.drop_first();
        lemma_flatten_contains(rest, x);
        lemma_seq_concat_contains_all_elements(parts.first(), rest.flatten(), x);
        if parts.first().contains(x) {
            assert(parts[0].contains(x));
        }
        if rest.flatten().contains(x) {
            let k = choose|k: int| 0 <= k < rest.len() && (#[trigger] rest[k]).contains(x);
            assert(parts[k + 1].contains(x));
        }
        if exists|k: int| 0 <= k < parts.len() && (#[trigger] parts[k]).contains(x) {
            let k = choose|k: int| 0 <= k < parts.len() && (#[trigger] parts[k]).contains(x);
            if k > 0 {
                assert(rest[k - 1].contains(x));
            }
        }
    }
}

/// Lists without duplicates that share no value join to a list without duplicates.
pub proof fn lemma_flatten_no_duplicates<A>(parts: Seq<Seq<A>>)
    requires
        forall|k: int| 0 <= k < parts.len() ==> (#[trigger] parts[k]).no_duplicates(),
        forall|i: int, j: int, x: A|
            0 <= i < j < parts.len() && (#[trigger] parts[i].contains(x)) ==> !(
            #[trigger] parts[j].contains(x)),
    ensures
        parts.flatten().no_duplicates(),
    decreases parts.len(),
{
    if parts.len() > 0 {
        let head = parts.first();
        let rest = parts.drop_first();
        assert forall|k: int| 0 <= k < rest.len() implies (#[trigger] rest[k]).no_duplicates() by {
            assert(rest[k] == parts[k + 1]);
        }
        assert forall|i: int, j: int, x: A|
            0 <= i < j < rest.len() && (#[trigger] rest[i].contains(x)) implies !(
        #[trigger] rest[j].contains(x)) by {
            assert(rest[i] == parts[i + 1]);
            assert(rest[j] == parts[j + 1]);
        }
        lemma_flatten_no_duplicates(rest);
        let tail = rest.flatten();
        assert forall|i: int, j: int| 0 <= i < head.len() && 0 <= j < tail.len() implies head[i]
            != tail[j] by {
            if head[i] == tail[j] {
                let x = head[i];
                assert(parts[0].contains(x));
                assert(tail.contains(x));
                lemma_flatten_contains(rest, x);
                let k = choose|k: int| 0 <= k < rest.len() && (#[trigger] rest[k]).contains(x);
                assert(rest[k] == parts[k + 1]);
                assert(parts[k + 1].contains(x));
            }
        }
        lemma_no_dup_in_concat(head, tail);
    }
}

/// A value is among a worker's findings exactly if one of the worker's
/// candidates contributes it.
proof fn lemma_worker_listing_contains(number: u128, worker: int, threads: int, x: u128)
    requires
        0 <= worker,
        1 <= threads,
    ensures
        worker_listing(number, worker, threads, search_limit_of(number)).contains(x)
            <==> exists|d: int|
            scans(worker, threads, search_limit_of(number), d) && finds(number, d, x),
{
    let limit = search_limit_of(number);
    lemma_floor_sqrt_bound(number);
    lemma_stride_listing_contains(number, worker + 1, threads, limit, x);
    if exists|d: int| on_stride(worker + 1, threads, limit, d) && finds(number, d, x) {
        let d = choose|d: int| on_stride(worker + 1, threads, limit, d) && finds(number, d, x);
        assert(scans(worker, threads, limit, d) && finds(number, d, x));
    }
    if exists|d: int| scans(worker, threads, limit, d) && finds(number, d, x) {
        let d = choose|d: int| scans(worker, threads, limit, d) && finds(number, d, x);
        assert(on_stride(worker + 1, threads, limit, d) && finds(number, d, x));
    }
}

/// With any number of workers, the joined findings hold the divisors of
/// `number` and nothing else.
pub proof fn lemma_listing_holds_the_divisors(number: u128, threads: int)
    requires
        threads >= 1,
    ensures
        forall|x: u128| #[trigger]
            divisor_listing(number, threads).contains(x) <==> 1 <= x <= number && number % x == 0,
        divisor_listing(number, threads).to_set() == Set::new(
            |x: u128| 1 <= x <= number && number % x == 0,
        ),
{
    let limit = search_limit_of(number);
    let parts = worker_listings(number, threads);
    lemma_floor_sqrt(number as nat);
    lemma_floor_sqrt_bound(number);
    assert forall|x: u128| #[trigger]
        divisor_listing(number, threads).contains(x) <==> 1 <= x <= number && number % x
            == 0 by {
        lemma_flatten_contains(parts, x);
        if parts.flatten().contains(x) {
            let worker = choose|k: int| 0 <= k < parts.len() && (#[trigger] parts[k]).contains(x);
            lemma_worker_listing_contains(number, worker, threads, x);
            let d = choose|d: int| scans(worker, threads, limit, d) && finds(number, d, x);
            assert(d * d <= (limit - 1) * (limit - 1)) by (nonlinear_arith)
                requires
                    1 <= d <= limit - 1,
            ;
            lemma_found_at_sound(number, d as u128, x);
        }
        if 1 <= x <= number && number % x == 0 {
            let d = lemma_found_at_complete(number, x);
            lemma_worker_of(threads, limit, d as int);
            let worker = (d - 1) % threads;
            assert(scans(worker, threads, limit, d as int) && finds(number, d as int, x));
            lemma_worker_listing_contains(number, worker, threads, x);
            assert(parts[worker].contains(x));
        }
    }
}

/// With any number of workers, the joined findings hold no value twice.
pub proof fn lemma_listing_has_no_duplicates(number: u128, threads: int)
    requires
        threads >= 1,
    ensures
        divisor_listing(number, threads).no_duplicates(),
{
    let limit = search_limit_of(number);
    let parts = worker_listings(number, threads);
    lemma_floor_sqrt(number as nat);
    lemma_floor_sqrt_bound(number);
    assert forall|k: int| 0 <= k < parts.len() implies (#[trigger] parts[k]).no_duplicates() by {
        lemma_stride_listing_no_duplicates(number, k + 1, threads, limit);
    }
    assert forall|i: int, j: int, x: u128|
        0 <= i < j < parts.len() && (#[trigger] parts[i].contains(x)) implies !(
    #[trigger] parts[j].contains(x)) by {
        if parts[j].contains(x) {
            lemma_worker_listing_contains(number, i, threads, x);
            lemma_worker_listing_contains(number, j, threads, x);
            let di = choose|d: int| scans(i, threads, limit, d) && finds(number, d, x);
            let dj = choose|d: int| scans(j, threads, limit, d) && finds(number, d, x);
            lemma_origin_unique(number, limit - 1, di as u128, dj as u128, x);
            lemma_worker_of(threads, limit, di);
        }
    }
    lemma_flatten_no_duplicates(parts);
}

/// With any number of workers, the complement `number / d` of each value `d`
/// among the joined findings is among them too, in particular that of each
/// divisor up to the square root. Where the two are equal, at a perfect
/// square's root, the value is there once, like every other.
pub proof fn lemma_listing_holds_complements(number: u128, threads: int, d: u128)
    requires
        threads >= 1,
        divisor_listing(number, threads).contains(d),
    ensures
        divisor_listing(number, threads).contains(number / d),
        divisor_listing(number, threads).no_duplicates(),
{
    lemma_listing_holds_the_divisors(number, threads);
    lemma_listing_has_no_duplicates(number, threads);
    lemma_complement(number, d);
    let q = number / d;
    assert(1 <= q <= number) by (nonlinear_arith)
        requires
            number == d * q,
            1 <= d <= number,
            0 <= q,
    ;
    lemma_mod_multiples_basic(d as int, q as int);
}

} // verus!
