//! From a text to the sum of its digits.

use crate::chunker::{
    all_pass, chunks_of, lemma_blank_text_has_no_chunks, lemma_chunks_hold_the_text, not_whitespace,
    split_chunks, word_len,
};
use crate::error::SumError;
use crate::map_reduce::{
    checked_total, chunk_outcome, digit_total, grand_total, is_digit, is_digits,
    lemma_chunk_outcome_ok, lemma_digit_chunks_total, lemma_digit_total_concat,
    lemma_grand_total_concat, lemma_no_chunks_sum_to_zero, lemma_reduce_outcome_ok, map_outcomes,
    reduce, reduce_outcome,
};
use crate::prefix::lemma_leading_count_is_prefix;
use crate::text::{spec_decimal_digit, spec_is_whitespace};
use vstd::prelude::*;

verus! {

/// What the whole computation yields for `text`: its chunks, mapped and then
/// reduced.
pub open spec fn text_outcome(text: Seq<char>) -> Result<u32, SumError> {
    reduce_outcome(map_outcomes(chunks_of(text)))
}

/// Sums the decimal digits of `text`, chunk by chunk. Whitespace only
/// separates the chunks; any other character that is no digit fails the sum.
pub fn sum_digits(text: &str) -> (final_result: Result<u32, SumError>)
    ensures
        final_result == text_outcome(text@),
{
    let chunks = split_chunks(text);
    let children = crate::map_reduce::map(chunks);
    reduce(children)
}

/// A text of decimal digits and whitespace alone.
pub open spec fn is_digit_text(text: Seq<char>) -> bool {
    forall|k: int|
        0 <= k < text.len() ==> spec_is_whitespace(#[trigger] text[k]) || spec_decimal_digit(
            text[k],
        ) is Some
}

/// The digits in the chunks of a text are the digits in the text.
pub proof fn lemma_grand_total_of_chunks(text: Seq<char>)
    ensures
        grand_total(chunks_of(text)) == digit_total(text),
    decreases text.len(),
{
    if text.len() == 0 {
        assert(chunks_of(text).len() == 0);
    } else if spec_is_whitespace(text[0]) {
        let rest = text.drop_first();
        lemma_grand_total_of_chunks(rest);
        assert(chunks_of(text) == chunks_of(rest));
        let first = seq![text[0]];
        assert(text == first + rest);
        lemma_digit_total_concat(first, rest);
        assert(digit_total(first.drop_last()) == 0);
        assert(spec_decimal_digit(first.last()) is None);
    } else {
        lemma_leading_count_is_prefix(text, not_whitespace());
        let n = word_len(text) as int;
        let word = text.take(n);
        let rest = text.skip(n);
        lemma_grand_total_of_chunks(rest);
        assert(text == word + rest);
        lemma_digit_total_concat(word, rest);
        assert(chunks_of(text) == seq![word] + chunks_of(rest));
        lemma_grand_total_concat(seq![word], chunks_of(rest));
        assert(grand_total(seq![word].drop_last()) == 0);
        assert(seq![word].last() == word);
    }
}

/// The sum succeeds on the texts of digits and whitespace whose digits add up
/// to what a `u32` holds, and on no others; it is then the sum of the digits.
/// A text of digits and whitespace fails only with the overflow.
pub proof fn lemma_text_outcome_ok(text: Seq<char>)
    ensures
        text_outcome(text) is Ok <==> is_digit_text(text) && digit_total(text) <= u32::MAX,
        is_digit_text(text) ==> text_outcome(text) == checked_total(digit_total(text)),
{
    let chunks = chunks_of(text);
    let results = map_outcomes(chunks);
    lemma_chunks_hold_the_text(text, is_digit());
    lemma_grand_total_of_chunks(text);
    lemma_reduce_outcome_ok(results);
    if is_digit_text(text) {
        assert forall|i: int| 0 <= i < chunks.len() implies is_digits(#[trigger] chunks[i]) by {
            assert(all_pass(chunks[i], is_digit()));
        }
        lemma_digit_chunks_total(chunks);
    } else if text_outcome(text) is Ok {
        assert forall|i: int| 0 <= i < chunks.len() implies all_pass(
            #[trigger] chunks[i],
            is_digit(),
        ) by {
            assert(results[i] is Ok);
            lemma_chunk_outcome_ok(chunks[i], i as usize);
        }
    }
}

/// A text of whitespace alone, the empty text among them, sums to 0.
pub proof fn lemma_blank_text_sums_to_zero(text: Seq<char>)
    requires
        forall|i: int| 0 <= i < text.len() ==> spec_is_whitespace(#[trigger] text[i]),
    ensures
        chunks_of(text).len() == 0,
        text_outcome(text) == Ok::<u32, SumError>(0u32),
{
    lemma_blank_text_has_no_chunks(text);
    lemma_no_chunks_sum_to_zero(chunks_of(text));
}

/// Summing the same text again gives the same result: the result depends on
/// the characters of the text and on nothing else.
pub proof fn lemma_same_text_same_result(first: &str, second: &str)
    requires
        first@ == second@,
    ensures
        text_outcome(first@) == text_outcome(second@),
{
}

} // verus!
