//! A lazy filter that keeps, of a sequence of candidates, those that divide a
//! dividend, and can be consumed from the front, from the back, or from both.

use crate::arithmetic::{divides, is_divisible};
use vstd::prelude::*;
use vstd::std_specs::iter::IteratorSpec;

verus! {

/// The candidates of `candidates` that divide `dividend`, in their order.
pub open spec fn divisors_among(dividend: u128, candidates: Seq<u128>) -> Seq<u128> {
    candidates.filter(|candidate: u128| divides(dividend, candidate))
}

/// `candidates[k]` is the first of the candidates that divides `dividend`.
pub open spec fn is_first_divisor(dividend: u128, candidates: Seq<u128>, k: int) -> bool {
    &&& 0 <= k < candidates.len()
    &&& divides(dividend, candidates[k])
    &&& forall|j: int| 0 <= j < k ==> !divides(dividend, #[trigger] candidates[j])
}

/// `candidates[k]` is the last of the candidates that divides `dividend`.
pub open spec fn is_last_divisor(dividend: u128, candidates: Seq<u128>, k: int) -> bool {
    &&& 0 <= k < candidates.len()
    &&& divides(dividend, candidates[k])
    &&& forall|j: int| k < j < candidates.len() ==> !divides(dividend, #[trigger] candidates[j])
}

/// None of the candidates divides `dividend`.
pub open spec fn has_no_divisor(dividend: u128, candidates: Seq<u128>) -> bool {
    forall|j: int| 0 <= j < candidates.len() ==> !divides(dividend, #[trigger] candidates[j])
}

/// What a step from the front does to the candidates `before`: it hands out
/// the first divisor and leaves the candidates after it, or hands out nothing,
/// where there is no divisor, and leaves none.
pub open spec fn steps_from_front(
    dividend: u128,
    before: Seq<u128>,
    found: Option<u128>,
    after: Seq<u128>,
) -> bool {
    match found {
        Some(d) => exists|k: int|
            #[trigger] is_first_divisor(dividend, before, k) && d == before[k] && after
                == before.skip(k + 1),
        None => has_no_divisor(dividend, before) && after == Seq::<u128>::empty(),
    }
}

/// What a step from the back does to the candidates `before`: it hands out
/// the last divisor and leaves the candidates before it, or hands out nothing,
/// where there is no divisor, and leaves none.
pub open spec fn steps_from_back(
    dividend: u128,
    before: Seq<u128>,
    found: Option<u128>,
    after: Seq<u128>,
) -> bool {
    match found {
        Some(d) => exists|k: int|
            #[trigger] is_last_divisor(dividend, before, k) && d == before[k] && after
                == before.take(k),
        None => has_no_divisor(dividend, before) && after == Seq::<u128>::empty(),
    }
}

/// The divisors of a dividend among the candidates that an iterator yields.
#[derive(Debug, Clone)]
pub struct Divisors<N, I> {
    dividend: N,
    divisors: I,
}

impl<N, I> Divisors<N, I> {
    /// The dividend.
    pub closed spec fn dividend(&self) -> N {
        self.dividend
    }

    /// The iterator over the candidates that are still to be tested.
    pub closed spec fn candidates(&self) -> I {
        self.divisors
    }

    /// A filter for the divisors of `dividend` among what `divisors` yields.
    pub fn new(dividend: N, divisors: I) -> (filter: Self)
        ensures
            filter.dividend() == dividend,
            filter.candidates() == divisors,
    {
        Self { dividend, divisors }
    }
}

impl<I: Iterator<Item = u128>> Divisors<u128, I> {
    /// The candidates form a finite sequence that the iterator hands out item
    /// by item, with a measure that bounds what is left.
    pub open spec fn is_finite(&self) -> bool {
        &&& self.candidates().obeys_prophetic_iter_laws()
        &&& self.candidates().decrease() is Some
    }

    /// Takes candidates from the front up to the first divisor and returns it,
    /// or `None` when no divisor is left, with all candidates taken.
    pub fn next(&mut self) -> (found: Option<u128>)
        requires
            old(self).is_finite(),
        ensures
            final(self).is_finite(),
            final(self).dividend() == old(self).dividend(),
            steps_from_front(
                old(self).dividend(),
                old(self).candidates().remaining(),
                found,
                final(self).candidates().remaining(),
            ),
            found is Some ==> final(self).candidates().decrease()->0 < old(
                self,
            ).candidates().decrease()->0,
    {
        let ghost all = self.divisors.remaining();
        let ghost mut skipped: int = 0;
        loop
            invariant
                self.dividend == old(self).dividend,
                self.divisors.obeys_prophetic_iter_laws(),
                self.divisors.decrease() is Some,
                self.divisors.decrease()->0 <= old(self).divisors.decrease()->0,
                all == old(self).divisors.remaining(),
                0 <= skipped <= all.len(),
                self.divisors.remaining() == all.skip(skipped),
                forall|j: int| 0 <= j < skipped ==> !divides(self.dividend, #[trigger] all[j]),
            decreases self.divisors.decrease()->0,
        {
            match self.divisors.next() {
                None => {
                    assert(self.candidates().remaining() == Seq::<u128>::empty());
                    return None;
                },
                Some(d) => {
                    proof {
                        assert(d == all.skip(skipped)[0]);
                        assert(all.skip(skipped).drop_first() == all.skip(skipped + 1));
                    }
                    if is_divisible(self.dividend, d) {
                        proof {
                            let before = old(self).candidates().remaining();
                            assert(is_first_divisor(old(self).dividend(), before, skipped));
                            assert(d == before[skipped]);
                            assert(self.candidates().remaining() == before.skip(skipped + 1));
                        }
                        return Some(d);
                    }
                    proof {
                        skipped = skipped + 1;
                    }
                },
            }
        }
    }

    /// Takes all candidates from the front and returns the divisors among
    /// them, in the order of the candidates.
    pub fn collect(self) -> (found: Vec<u128>)
        requires
            self.is_finite(),
        ensures
            found@ == divisors_among(self.dividend(), self.candidates().remaining()),
    {
        let mut filter = self;
        let mut found: Vec<u128> = Vec::new();
        loop
            invariant
                filter.is_finite(),
                filter.dividend() == self.dividend(),
                found@ + divisors_among(filter.dividend(), filter.candidates().remaining())
                    == divisors_among(self.dividend(), self.candidates().remaining()),
            decreases filter.candidates().decrease()->0,
        {
            let ghost left = filter.candidates().remaining();
            match filter.next() {
                None => {
                    proof {
                        lemma_no_divisor_among(self.dividend(), left);
                    }
                    return found;
                },
                Some(d) => {
                    proof {
                        let k = choose|k: int|
                            #[trigger] is_first_divisor(self.dividend(), left, k) && d == left[k]
                                && filter.candidates().remaining() == left.skip(k + 1);
                        lemma_split_at_first_divisor(self.dividend(), left, k);
                    }
                    found.push(d);
                },
            }
        }
    }
}

impl<I: DoubleEndedIterator<Item = u128>> Divisors<u128, I> {
    /// Takes candidates from the back down to the last divisor and returns it,
    /// or `None` when no divisor is left, with all candidates taken.
    pub fn next_back(&mut self) -> (found: Option<u128>)
        requires
            old(self).is_finite(),
        ensures
            final(self).is_finite(),
            final(self).dividend() == old(self).dividend(),
            steps_from_back(
                old(self).dividend(),
                old(self).candidates().remaining(),
                found,
                final(self).candidates().remaining(),
            ),
            found is Some ==> final(self).candidates().decrease()->0 < old(
                self,
            ).candidates().decrease()->0,
    {
        let ghost all = self.divisors.remaining();
        let ghost mut kept: int = all.len() as int;
        loop
            invariant
                self.dividend == old(self).dividend,
                self.divisors.obeys_prophetic_iter_laws(),
                self.divisors.decrease() is Some,
                self.divisors.decrease()->0 <= old(self).divisors.decrease()->0,
                all == old(self).divisors.remaining(),
                0 <= kept <= all.len(),
                self.divisors.remaining() == all.take(kept),
                forall|j: int| kept <= j < all.len() ==> !divides(self.dividend, #[trigger] all[j]),
            decreases self.divisors.decrease()->0,
        {
            match self.divisors.next_back() {
                None => {
                    assert(self.candidates().remaining() == Seq::<u128>::empty());
                    return None;
                },
                Some(d) => {
                    proof {
                        assert(d == all.take(kept).last());
                        assert(all.take(kept).drop_last() == all.take(kept - 1));
                    }
                    if is_divisible(self.dividend, d) {
                        proof {
                            let before = old(self).candidates().remaining();
                            assert(is_last_divisor(old(self).dividend(), before, kept - 1));
                            assert(d == before[kept - 1]);
                            assert(self.candidates().remaining() == before.take(kept - 1));
                        }
                        return Some(d);
                    }
                    proof {
                        kept = kept - 1;
                    }
                },
            }
        }
    }

    /// Takes all candidates from the back and returns the divisors among
    /// them, in the order of the candidates read back to front.
    pub fn collect_back(self) -> (found: Vec<u128>)
        requires
            self.is_finite(),
        ensures
            found@ == divisors_among(self.dividend(), self.candidates().remaining().reverse()),
            found@ == divisors_among(self.dividend(), self.candidates().remaining()).reverse(),
    {
        let mut filter = self;
        let mut found: Vec<u128> = Vec::new();
        proof {
            lemma_back_is_front_reversed(self.dividend(), self.candidates().remaining());
        }
        loop
            invariant
                filter.is_finite(),
                filter.dividend() == self.dividend(),
                found@ + divisors_among(
                    filter.dividend(),
                    filter.candidates().remaining().reverse(),
                ) == divisors_among(self.dividend(), self.candidates().remaining().reverse()),
                divisors_among(self.dividend(), self.candidates().remaining().reverse())
                    == divisors_among(self.dividend(), self.candidates().remaining()).reverse(),
            decreases filter.candidates().decrease()->0,
        {
            let ghost left = filter.candidates().remaining();
            match filter.next_back() {
                None => {
                    proof {
                        assert(has_no_divisor(self.dividend(), left.reverse())) by {
                            assert forall|j: int| 0 <= j < left.reverse().len() implies !divides(
                                self.dividend(),
                                #[trigger] left.reverse()[j],
                            ) by {
                                assert(left.reverse()[j] == left[left.len() - 1 - j]);
                            }
                        }
                        lemma_no_divisor_among(self.dividend(), left.reverse());
                    }
                    return found;
                },
                Some(d) => {
                    proof {
                        let k = choose|k: int|
                            #[trigger] is_last_divisor(self.dividend(), left, k) && d == left[k]
                                && filter.candidates().remaining() == left.take(k);
                        lemma_split_at_last_divisor(self.dividend(), left, k);
                    }
                    found.push(d);
                },
            }
        }
    }
}

/// Turns a source of candidates into the filter for the divisors of a dividend.
pub trait IntoDivisors<N, I> {
    /// The iterator over the candidates that `self` stands for.
    spec fn candidates(self) -> I;

    /// The filter for the divisors of `dividend` among the candidates of `self`.
    fn divisors(self, dividend: N) -> (filter: Divisors<N, I>)
        ensures
            filter.dividend() == dividend,
            filter.candidates() == self.candidates(),
    ;
}

impl<N, I: Iterator<Item = N>> IntoDivisors<N, I> for I {
    open spec fn candidates(self) -> I {
        self
    }

    fn divisors(self, dividend: N) -> (filter: Divisors<N, I>) {
        Divisors::new(dividend, self)
    }
}

/// Up to its first divisor, a sequence of candidates holds no divisor: its
/// divisors are that one, followed by those among the candidates after it.
pub proof fn lemma_split_at_first_divisor(dividend: u128, candidates: Seq<u128>, k: int)
    requires
        is_first_divisor(dividend, candidates, k),
    ensures
        divisors_among(dividend, candidates) == seq![candidates[k]] + divisors_among(
            dividend,
            candidates.skip(k + 1),
        ),
    decreases k,
{
    let keep = |candidate: u128| divides(dividend, candidate);
    let rest = candidates.drop_first();
    assert(candidates == seq![candidates[0]] + rest);
    rest.lemma_filter_prepend(candidates[0], keep);
    if k == 0 {
        assert(rest == candidates.skip(1));
    } else {
        assert(is_first_divisor(dividend, rest, k - 1)) by {
            assert forall|j: int| 0 <= j < k - 1 implies !divides(dividend, #[trigger] rest[j]) by {
                assert(rest[j] == candidates[j + 1]);
            }
        }
        lemma_split_at_first_divisor(dividend, rest, k - 1);
        assert(rest.skip(k) == candidates.skip(k + 1));
        assert(!keep(candidates[0]));
        assert(Seq::<u128>::empty() + rest.filter(keep) == rest.filter(keep));
    }
}

/// Where no candidate divides, there are no divisors among the candidates.
pub proof fn lemma_no_divisor_among(dividend: u128, candidates: Seq<u128>)
    requires
        has_no_divisor(dividend, candidates),
    ensures
        divisors_among(dividend, candidates) == Seq::<u128>::empty(),
{
    let keep = |candidate: u128| divides(dividend, candidate);
    candidates.lemma_all_neg_filter_empty(keep);
    assert(candidates.filter(keep).len() == 0);
}

/// Read back to front, a sequence of candidates holds no divisor down to its
/// last one: its divisors in that direction are that one, followed by those
/// among the candidates before it, read back to front.
pub proof fn lemma_split_at_last_divisor(dividend: u128, candidates: Seq<u128>, k: int)
    requires
        is_last_divisor(dividend, candidates, k),
    ensures
        divisors_among(dividend, candidates.reverse()) == seq![candidates[k]] + divisors_among(
            dividend,
            candidates.take(k).reverse(),
        ),
{
    let turned = candidates.reverse();
    let at = candidates.len() - 1 - k;
    assert(is_first_divisor(dividend, turned, at)) by {
        assert forall|j: int| 0 <= j < at implies !divides(dividend, #[trigger] turned[j]) by {
            assert(turned[j] == candidates[candidates.len() - 1 - j]);
        }
    }
    lemma_split_at_first_divisor(dividend, turned, at);
    assert(turned.skip(at + 1) == candidates.take(k).reverse());
}

/// Filtering is idempotent: the divisors among the divisors among some
/// candidates are those divisors again.
pub proof fn lemma_divisors_among_is_idempotent(dividend: u128, candidates: Seq<u128>)
    ensures
        divisors_among(dividend, divisors_among(dividend, candidates)) == divisors_among(
            dividend,
            candidates,
        ),
    decreases candidates.len(),
{
    let keep = |candidate: u128| divides(dividend, candidate);
    if candidates.len() == 0 {
        lemma_no_divisor_among(dividend, candidates);
        lemma_no_divisor_among(dividend, Seq::<u128>::empty());
    } else {
        let front = candidates.drop_last();
        let last = candidates.last();
        assert(candidates == front.push(last));
        front.lemma_filter_push(last, keep);
        lemma_divisors_among_is_idempotent(dividend, front);
        if divides(dividend, last) {
            front.filter(keep).lemma_filter_push(last, keep);
        }
    }
}

/// Filtering depends on the candidates alone: two sequences that hold the
/// same candidates in the same order have the same divisors in the same order.
pub proof fn lemma_equal_candidates_equal_divisors(dividend: u128, a: Seq<u128>, b: Seq<u128>)
    requires
        a.len() == b.len(),
        forall|i: int| 0 <= i < a.len() ==> a[i] == b[i],
    ensures
        divisors_among(dividend, a) == divisors_among(dividend, b),
{
    assert(a == b);
}

/// The divisors met from the back are those met from the front, in reverse.
pub proof fn lemma_back_is_front_reversed(dividend: u128, candidates: Seq<u128>)
    ensures
        divisors_among(dividend, candidates.reverse()) == divisors_among(
            dividend,
            candidates,
        ).reverse(),
        divisors_among(dividend, candidates) == divisors_among(
            dividend,
            candidates.reverse(),
        ).reverse(),
    decreases candidates.len(),
{
    let keep = |candidate: u128| divides(dividend, candidate);
    if candidates.len() == 0 {
        assert(candidates.reverse() == candidates);
        lemma_no_divisor_among(dividend, candidates);
        assert(Seq::<u128>::empty().reverse() == Seq::<u128>::empty());
    } else {
        let front = candidates.drop_last();
        let last = candidates.last();
        assert(candidates == front.push(last));
        front.lemma_filter_push(last, keep);
        assert(candidates.reverse() == seq![last] + front.reverse());
        front.reverse().lemma_filter_prepend(last, keep);
        lemma_back_is_front_reversed(dividend, front);
        let kept = front.filter(keep);
        if divides(dividend, last) {
            assert(kept.push(last).reverse() == seq![last] + kept.reverse());
        } else {
            assert(Seq::<u128>::empty() + kept.reverse() == kept.reverse());
        }
    }
    let forth = divisors_among(dividend, candidates);
    assert(forth.reverse().reverse() == forth);
}

} // verus!
