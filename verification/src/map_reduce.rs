//! The map phase, which turns every chunk into the sum of its digits, and the
//! reduce phase, which folds those sums into one.

use crate::error::SumError;
use crate::prefix::{leading_count, lemma_leading_count_is, lemma_leading_count_is_prefix};
use crate::text::{decimal_digit, spec_decimal_digit};
use vstd::prelude::*;

verus! {

/// The value that `c` adds to a digit sum: its value as a decimal digit, and
/// nothing where it is none.
pub open spec fn digit_value(c: char) -> nat {
    match spec_decimal_digit(c) {
        Some(v) => v as nat,
        None => 0,
    }
}

/// Sum of the values of the decimal digits in `chunk`.
pub open spec fn digit_total(chunk: Seq<char>) -> nat
    decreases chunk.len(),
{
    if chunk.len() == 0 {
        0
    } else {
        digit_total(chunk.drop_last()) + digit_value(chunk.last())
    }
}

/// The test that the characters of a well-formed chunk pass.
pub open spec fn is_digit() -> spec_fn(char) -> bool {
    |c: char| spec_decimal_digit(c) is Some
}

/// Number of decimal digits that `chunk` starts with.
pub open spec fn digit_prefix_len(chunk: Seq<char>) -> nat {
    leading_count(chunk, is_digit())
}

/// What the worker for the chunk at index `segment` yields. It adds digit by
/// digit from the left and fails at the first character that is no digit, or
/// as soon as the sum leaves the range of `u32`.
pub open spec fn chunk_outcome(chunk: Seq<char>, segment: usize) -> Result<u32, SumError> {
    let n = digit_prefix_len(chunk) as int;
    if digit_total(chunk.take(n)) > u32::MAX {
        Err(SumError::Overflow)
    } else if n < chunk.len() {
        Err(SumError::InvalidCharacter { segment, character: chunk[n] })
    } else {
        Ok(digit_total(chunk) as u32)
    }
}

/// A longer prefix has no smaller sum.
pub proof fn lemma_digit_total_monotonic(chunk: Seq<char>, shorter: int, longer: int)
    requires
        0 <= shorter <= longer <= chunk.len(),
    ensures
        digit_total(chunk.take(shorter)) <= digit_total(chunk.take(longer)),
    decreases longer - shorter,
{
    if shorter < longer {
        assert(chunk.take(longer).drop_last() == chunk.take(longer - 1));
        lemma_digit_total_monotonic(chunk, shorter, longer - 1);
    }
}

/// Sums the decimal digits of one chunk, the one at index `segment`.
pub fn digit_sum(chunk: &str, segment: usize) -> (partial: Result<u32, SumError>)
    ensures
        partial == chunk_outcome(chunk@, segment),
{
    broadcast use vstd::string::axiom_spec_iter;

    let mut sum: u32 = 0;
    assert(chunk@.take(0).len() == 0);
    for c in it: chunk.chars()
        invariant
            it.seq() == chunk@,
            forall|i: int| 0 <= i < it.index() ==> is_digit()(#[trigger] chunk@[i]),
            sum == digit_total(chunk@.take(it.index() as int)),
    {
        let ghost at = it.index() as int;
        assert(chunk@.take(at + 1).drop_last() == chunk@.take(at));
        match decimal_digit(c) {
            None => {
                proof {
                    lemma_leading_count_is(chunk@, is_digit(), at);
                }
                return Err(SumError::InvalidCharacter { segment, character: c });
            },
            Some(value) => {
                match sum.checked_add(value) {
                    None => {
                        proof {
                            lemma_leading_count_is_prefix(chunk@, is_digit());
                            let n = digit_prefix_len(chunk@) as int;
                            if n <= at {
                                assert(is_digit()(chunk@[n]));
                            }
                            lemma_digit_total_monotonic(chunk@, at + 1, n);
                        }
                        return Err(SumError::Overflow);
                    },
                    Some(next) => {
                        sum = next;
                    },
                }
            },
        }
    }
    proof {
        let n = chunk@.len() as int;
        lemma_leading_count_is(chunk@, is_digit(), n);
        assert(chunk@.take(n) == chunk@);
    }
    Ok(sum)
}

/// The partial results of `chunks`, one for each chunk and in their order.
pub open spec fn map_outcomes(chunks: Seq<Seq<char>>) -> Seq<Result<u32, SumError>> {
    Seq::new(chunks.len(), |i: int| chunk_outcome(chunks[i], i as usize))
}

/// The map phase: gives every chunk to a worker, which takes it over, and
/// lists what the workers yield in the order of the chunks.
pub fn map(chunked_data: Vec<String>) -> (children: Vec<Result<u32, SumError>>)
    ensures
        children@ == map_outcomes(chunked_data.deep_view()),
{
    let mut children: Vec<Result<u32, SumError>> = Vec::new();
    for i in 0..chunked_data.len()
        invariant
            children@ == map_outcomes(chunked_data.deep_view()).take(i as int),
    {
        let partial = digit_sum(chunked_data[i].as_str(), i);
        children.push(partial);
    }
    children
}

/// The test that the result of a worker that succeeded passes.
pub open spec fn is_ok() -> spec_fn(Result<u32, SumError>) -> bool {
    |partial: Result<u32, SumError>| partial is Ok
}

/// Number of successes that `results` starts with.
pub open spec fn ok_prefix_len(results: Seq<Result<u32, SumError>>) -> nat {
    leading_count(results, is_ok())
}

/// What a partial result adds to the total: its sum, and nothing where the
/// worker failed.
pub open spec fn partial_value(partial: Result<u32, SumError>) -> nat {
    match partial {
        Ok(sum) => sum as nat,
        Err(_) => 0,
    }
}

/// Sum of the partial sums in `results`.
pub open spec fn partial_total(results: Seq<Result<u32, SumError>>) -> nat
    decreases results.len(),
{
    if results.len() == 0 {
        0
    } else {
        partial_total(results.drop_last()) + partial_value(results.last())
    }
}

/// What the reduce phase yields. It adds the partial sums in their order and
/// fails at the first failed worker, with that worker's error, or as soon as
/// the total leaves the range of `u32`.
pub open spec fn reduce_outcome(results: Seq<Result<u32, SumError>>) -> Result<u32, SumError> {
    let n = ok_prefix_len(results) as int;
    if partial_total(results.take(n)) > u32::MAX {
        Err(SumError::Overflow)
    } else if n < results.len() {
        results[n]
    } else {
        Ok(partial_total(results) as u32)
    }
}

/// A longer prefix has no smaller total.
pub proof fn lemma_partial_total_monotonic(
    results: Seq<Result<u32, SumError>>,
    shorter: int,
    longer: int,
)
    requires
        0 <= shorter <= longer <= results.len(),
    ensures
        partial_total(results.take(shorter)) <= partial_total(results.take(longer)),
    decreases longer - shorter,
{
    if shorter < longer {
        assert(results.take(longer).drop_last() == results.take(longer - 1));
        lemma_partial_total_monotonic(results, shorter, longer - 1);
    }
}

/// The reduce phase: folds the partial results, taken in their order, into
/// the final result.
pub fn reduce(children_vector: Vec<Result<u32, SumError>>) -> (final_result: Result<u32, SumError>)
    ensures
        final_result == reduce_outcome(children_vector@),
{
    let ghost results = children_vector@;
    let mut total: u32 = 0;
    assert(results.take(0).len() == 0);
    for i in 0..children_vector.len()
        invariant
            results == children_vector@,
            forall|j: int| 0 <= j < i ==> is_ok()(#[trigger] results[j]),
            total == partial_total(results.take(i as int)),
    {
        assert(results.take(i + 1).drop_last() == results.take(i as int));
        match children_vector[i] {
            Err(error) => {
                proof {
                    lemma_leading_count_is(results, is_ok(), i as int);
                }
                return Err(error);
            },
            Ok(partial) => {
                match total.checked_add(partial) {
                    None => {
                        proof {
                            lemma_leading_count_is_prefix(results, is_ok());
                            let n = ok_prefix_len(results) as int;
                            if n <= i {
                                assert(is_ok()(results[n]));
                            }
                            lemma_partial_total_monotonic(results, i + 1, n);
                        }
                        return Err(SumError::Overflow);
                    },
                    Some(next) => {
                        total = next;
                    },
                }
            },
        }
    }
    proof {
        let n = results.len() as int;
        lemma_leading_count_is(results, is_ok(), n);
        assert(results.take(n) == results);
    }
    Ok(total)
}

/// A chunk of decimal digits alone.
pub open spec fn is_digits(chunk: Seq<char>) -> bool {
    forall|i: int| 0 <= i < chunk.len() ==> spec_decimal_digit(#[trigger] chunk[i]) is Some
}

/// A sum as a result: itself where a `u32` holds it, the overflow else.
pub open spec fn checked_total(total: nat) -> Result<u32, SumError> {
    if total <= u32::MAX {
        Ok(total as u32)
    } else {
        Err(SumError::Overflow)
    }
}

/// Sum of the digit sums of `chunks`.
pub open spec fn grand_total(chunks: Seq<Seq<char>>) -> nat
    decreases chunks.len(),
{
    if chunks.len() == 0 {
        0
    } else {
        grand_total(chunks.drop_last()) + digit_total(chunks.last())
    }
}

/// A partial result of a chunk of digits: a sum, or the overflow.
pub open spec fn is_sum_or_overflow(partial: Result<u32, SumError>) -> bool {
    partial is Ok || partial == Err::<u32, SumError>(SumError::Overflow)
}

/// The worker for a chunk of digits yields their sum, and fails only where
/// the sum does not fit.
pub proof fn lemma_digit_chunk_outcome(chunk: Seq<char>, segment: usize)
    requires
        is_digits(chunk),
    ensures
        chunk_outcome(chunk, segment) == checked_total(digit_total(chunk)),
{
    let n = chunk.len() as int;
    assert forall|i: int| 0 <= i < n implies is_digit()(#[trigger] chunk[i]) by {}
    lemma_leading_count_is(chunk, is_digit(), n);
    assert(chunk.take(n) == chunk);
}

/// The worker succeeds on chunks of digits alone, and on no others.
pub proof fn lemma_chunk_outcome_ok(chunk: Seq<char>, segment: usize)
    ensures
        chunk_outcome(chunk, segment) is Ok <==> is_digits(chunk) && digit_total(chunk)
            <= u32::MAX,
{
    lemma_leading_count_is_prefix(chunk, is_digit());
    let n = digit_prefix_len(chunk) as int;
    if is_digits(chunk) {
        lemma_digit_chunk_outcome(chunk, segment);
    } else {
        if n == chunk.len() {
            assert forall|i: int| 0 <= i < chunk.len() implies spec_decimal_digit(
                #[trigger] chunk[i],
            ) is Some by {
                assert(is_digit()(chunk[i]));
            }
        }
    }
}

/// Folding sums and overflows gives the total of the sums where none is an
/// overflow and the total fits, and the overflow else.
pub proof fn lemma_reduce_sums_and_overflows(results: Seq<Result<u32, SumError>>)
    requires
        forall|i: int| 0 <= i < results.len() ==> is_sum_or_overflow(#[trigger] results[i]),
    ensures
        (forall|i: int| 0 <= i < results.len() ==> (#[trigger] results[i]) is Ok)
            ==> reduce_outcome(results) == checked_total(partial_total(results)),
        (exists|i: int| 0 <= i < results.len() && (#[trigger] results[i]) is Err)
            ==> reduce_outcome(results) == Err::<u32, SumError>(SumError::Overflow),
{
    lemma_leading_count_is_prefix(results, is_ok());
    let n = ok_prefix_len(results) as int;
    if n < results.len() {
        assert(!is_ok()(results[n]));
        assert(is_sum_or_overflow(results[n]));
    } else {
        assert(results.take(n) == results);
        assert forall|i: int| 0 <= i < results.len() implies !((#[trigger] results[i]) is Err) by {
            assert(is_ok()(results[i]));
        }
    }
}

/// The total of two runs of partial results is the sum of their totals.
pub proof fn lemma_partial_total_concat(
    front: Seq<Result<u32, SumError>>,
    back: Seq<Result<u32, SumError>>,
)
    ensures
        partial_total(front + back) == partial_total(front) + partial_total(back),
    decreases back.len(),
{
    if back.len() == 0 {
        assert(front + back == front);
    } else {
        assert((front + back).drop_last() == front + back.drop_last());
        lemma_partial_total_concat(front, back.drop_last());
    }
}

/// The total does not depend on the order of the partial results.
pub proof fn lemma_partial_total_permutation(
    a: Seq<Result<u32, SumError>>,
    b: Seq<Result<u32, SumError>>,
)
    requires
        a.to_multiset() == b.to_multiset(),
    ensures
        partial_total(a) == partial_total(b),
    decreases a.len(),
{
    broadcast use vstd::seq_lib::group_to_multiset_ensures;

    assert(a.to_multiset().len() == a.len());
    assert(b.to_multiset().len() == b.len());
    if a.len() == 0 {
    } else {
        let item = a.last();
        let a_rest = a.drop_last();
        assert(a == a_rest.push(item));
        assert(b.to_multiset().count(item) > 0);
        assert(b.contains(item));
        let at = choose|at: int| 0 <= at < b.len() && b[at] == item;
        let b_rest = b.remove(at);
        assert(a_rest.to_multiset() =~= b_rest.to_multiset());
        lemma_partial_total_permutation(a_rest, b_rest);
        let front = b.take(at);
        let back = b.skip(at + 1);
        assert(b == front.push(item) + back);
        assert(b_rest == front + back);
        lemma_partial_total_concat(front.push(item), back);
        lemma_partial_total_concat(front, back);
        assert(front.push(item).drop_last() == front);
    }
}

/// The partial sums of chunks of digits add up to the sum of their digits.
pub proof fn lemma_partial_total_of_outcomes(chunks: Seq<Seq<char>>)
    requires
        forall|i: int| 0 <= i < chunks.len() ==> chunk_outcome(#[trigger] chunks[i], i as usize) is Ok,
    ensures
        partial_total(map_outcomes(chunks)) == grand_total(chunks),
    decreases chunks.len(),
{
    if chunks.len() > 0 {
        let last = chunks.len() - 1;
        let rest = chunks.drop_last();
        assert forall|i: int| 0 <= i < rest.len() implies chunk_outcome(
            #[trigger] rest[i],
            i as usize,
        ) is Ok by {
            assert(rest[i] == chunks[i]);
        }
        lemma_partial_total_of_outcomes(rest);
        assert(map_outcomes(chunks).drop_last() == map_outcomes(rest));
        lemma_chunk_outcome_ok(chunks[last], last as usize);
        lemma_digit_chunk_outcome(chunks[last], last as usize);
    }
}

/// No chunk has a larger digit sum than all chunks together.
pub proof fn lemma_grand_total_bounds(chunks: Seq<Seq<char>>, i: int)
    requires
        0 <= i < chunks.len(),
    ensures
        digit_total(chunks[i]) <= grand_total(chunks),
    decreases chunks.len(),
{
    if i < chunks.len() - 1 {
        lemma_grand_total_bounds(chunks.drop_last(), i);
    }
}

/// Mapping and reducing chunks of digits gives the sum of all their digits,
/// and fails only where that sum does not fit.
pub proof fn lemma_digit_chunks_total(chunks: Seq<Seq<char>>)
    requires
        forall|i: int| 0 <= i < chunks.len() ==> is_digits(#[trigger] chunks[i]),
    ensures
        reduce_outcome(map_outcomes(chunks)) == checked_total(grand_total(chunks)),
{
    let results = map_outcomes(chunks);
    assert forall|i: int| 0 <= i < results.len() implies is_sum_or_overflow(
        #[trigger] results[i],
    ) by {
        assert(is_digits(chunks[i]));
        lemma_digit_chunk_outcome(chunks[i], i as usize);
    }
    lemma_reduce_sums_and_overflows(results);
    if exists|i: int| 0 <= i < results.len() && (#[trigger] results[i]) is Err {
        let i = choose|i: int| 0 <= i < results.len() && (#[trigger] results[i]) is Err;
        assert(is_digits(chunks[i]));
        lemma_digit_chunk_outcome(chunks[i], i as usize);
        lemma_grand_total_bounds(chunks, i);
    } else {
        assert forall|i: int| 0 <= i < chunks.len() implies chunk_outcome(
            #[trigger] chunks[i],
            i as usize,
        ) is Ok by {
            assert(!(results[i] is Err));
        }
        lemma_partial_total_of_outcomes(chunks);
    }
}

/// The final result of chunks of digits does not depend on the order in which
/// their partial results are folded.
pub proof fn lemma_reduce_order_independent(
    a: Seq<Result<u32, SumError>>,
    b: Seq<Result<u32, SumError>>,
)
    requires
        a.to_multiset() == b.to_multiset(),
        forall|i: int| 0 <= i < a.len() ==> is_sum_or_overflow(#[trigger] a[i]),
    ensures
        reduce_outcome(a) == reduce_outcome(b),
{
    broadcast use vstd::seq_lib::group_to_multiset_ensures;

    assert forall|j: int| 0 <= j < b.len() implies is_sum_or_overflow(#[trigger] b[j]) by {
        assert(b.contains(b[j]));
        assert(a.to_multiset().count(b[j]) > 0);
        assert(a.contains(b[j]));
    }
    lemma_reduce_sums_and_overflows(a);
    lemma_reduce_sums_and_overflows(b);
    if exists|i: int| 0 <= i < a.len() && (#[trigger] a[i]) is Err {
        let i = choose|i: int| 0 <= i < a.len() && (#[trigger] a[i]) is Err;
        assert(a.contains(a[i]));
        assert(b.to_multiset().count(a[i]) > 0);
        assert(b.contains(a[i]));
        let j = choose|j: int| 0 <= j < b.len() && b[j] == a[i];
        assert(b[j] is Err);
    } else {
        assert forall|j: int| 0 <= j < b.len() implies (#[trigger] b[j]) is Ok by {
            assert(b.contains(b[j]));
            assert(a.to_multiset().count(b[j]) > 0);
            assert(a.contains(b[j]));
            let i = choose|i: int| 0 <= i < a.len() && a[i] == b[j];
            assert(!(a[i] is Err));
        }
        lemma_partial_total_permutation(a, b);
    }
}

/// Without chunks the final result is 0.
pub proof fn lemma_no_chunks_sum_to_zero(chunks: Seq<Seq<char>>)
    requires
        chunks.len() == 0,
    ensures
        reduce_outcome(map_outcomes(chunks)) == Ok::<u32, SumError>(0u32),
{
    lemma_digit_chunks_total(chunks);
}

/// The reduce phase succeeds where every worker did and the total fits, and
/// nowhere else.
pub proof fn lemma_reduce_outcome_ok(results: Seq<Result<u32, SumError>>)
    ensures
        reduce_outcome(results) is Ok <==> (forall|i: int|
            0 <= i < results.len() ==> (#[trigger] results[i]) is Ok) && partial_total(results)
            <= u32::MAX,
{
    lemma_leading_count_is_prefix(results, is_ok());
    let n = ok_prefix_len(results) as int;
    if n < results.len() {
        assert(!is_ok()(results[n]));
    } else {
        assert(results.take(n) == results);
        assert forall|i: int| 0 <= i < results.len() implies (#[trigger] results[i]) is Ok by {
            assert(is_ok()(results[i]));
        }
    }
}

/// The digit sum of two runs of characters is the sum of their digit sums.
pub proof fn lemma_digit_total_concat(front: Seq<char>, back: Seq<char>)
    ensures
        digit_total(front + back) == digit_total(front) + digit_total(back),
    decreases back.len(),
{
    if back.len() == 0 {
        assert(front + back == front);
    } else {
        assert((front + back).drop_last() == front + back.drop_last());
        lemma_digit_total_concat(front, back.drop_last());
    }
}

/// The digit sum of two runs of chunks is the sum of their digit sums.
pub proof fn lemma_grand_total_concat(front: Seq<Seq<char>>, back: Seq<Seq<char>>)
    ensures
        grand_total(front + back) == grand_total(front) + grand_total(back),
    decreases back.len(),
{
    if back.len() == 0 {
        assert(front + back == front);
    } else {
        assert((front + back).drop_last() == front + back.drop_last());
        lemma_grand_total_concat(front, back.drop_last());
    }
}

} // verus!
