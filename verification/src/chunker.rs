//! Cutting a text into chunks at whitespace.

use crate::prefix::{leading_count, lemma_leading_count_is, lemma_leading_count_is_prefix};
use crate::text::{is_whitespace, spec_is_whitespace};
use vstd::prelude::*;

verus! {

/// The test that the characters of a chunk pass.
pub open spec fn not_whitespace() -> spec_fn(char) -> bool {
    |c: char| !spec_is_whitespace(c)
}

/// Length of the run of characters other than whitespace that `text` starts with.
pub open spec fn word_len(text: Seq<char>) -> nat {
    leading_count(text, not_whitespace())
}

/// A chunk: one character or more, none of them whitespace.
pub open spec fn is_chunk(word: Seq<char>) -> bool {
    &&& word.len() > 0
    &&& forall|i: int| 0 <= i < word.len() ==> !spec_is_whitespace(#[trigger] word[i])
}

/// The chunks of `text`, from left to right: its maximal runs of characters
/// other than whitespace.
pub open spec fn chunks_of(text: Seq<char>) -> Seq<Seq<char>>
    decreases text.len(),
    via chunks_of_decreases
{
    if text.len() == 0 {
        Seq::empty()
    } else if spec_is_whitespace(text[0]) {
        chunks_of(text.drop_first())
    } else {
        let n = word_len(text) as int;
        seq![text.take(n)] + chunks_of(text.skip(n))
    }
}

#[via_fn]
proof fn chunks_of_decreases(text: Seq<char>) {
    lemma_leading_count_is_prefix(text, not_whitespace());
}

/// A chunk in front of whitespace, or of the end, is the first chunk of the
/// whole.
pub proof fn lemma_chunks_of_chunk_then(word: Seq<char>, rest: Seq<char>)
    requires
        is_chunk(word),
        rest.len() > 0 ==> spec_is_whitespace(rest[0]),
    ensures
        chunks_of(word + rest) == seq![word] + chunks_of(rest),
{
    let text = word + rest;
    let n = word.len() as int;
    assert forall|i: int| 0 <= i < n implies not_whitespace()(#[trigger] text[i]) by {
        assert(text[i] == word[i]);
    }
    if n < text.len() {
        assert(text[n] == rest[0]);
    }
    lemma_leading_count_is(text, not_whitespace(), n);
    assert(text[0] == word[0]);
    assert(text.take(n) == word);
    assert(text.skip(n) == rest);
}

/// Cuts `text` at whitespace. The chunks come in the order of the text; a run
/// of whitespace separates two chunks as one space does, and whitespace at
/// either end gives no chunk.
pub fn split_chunks(text: &str) -> (chunks: Vec<String>)
    ensures
        chunks.deep_view() == chunks_of(text@),
{
    broadcast use vstd::string::axiom_spec_iter;

    let mut chunks: Vec<String> = Vec::new();
    let mut word = String::new();
    assert(word@ + text@.skip(0) == text@);
    for c in it: text.chars()
        invariant
            it.seq() == text@,
            forall|i: int| 0 <= i < word@.len() ==> !spec_is_whitespace(#[trigger] word@[i]),
            chunks_of(text@) == chunks.deep_view() + chunks_of(
                word@ + text@.skip(it.index() as int),
            ),
    {
        let ghost at = it.index() as int;
        let ghost rest = text@.skip(at);
        let ghost after = text@.skip(at + 1);
        assert(rest.drop_first() == after);
        assert(Seq::<char>::empty() + after == after);
        if is_whitespace(c) {
            if !word.as_str().is_empty() {
                proof {
                    lemma_chunks_of_chunk_then(word@, rest);
                }
                let ghost before = chunks.deep_view();
                chunks.push(word);
                assert(chunks.deep_view() == before + seq![word@]);
                word = String::new();
            } else {
                assert(word@ + rest == rest);
            }
        } else {
            let ghost before = word@;
            word.push(c);
            assert(word@ + after == before + rest);
        }
    }
    let ghost rest = text@.skip(text@.len() as int);
    assert(word@ + rest == word@);
    if !word.as_str().is_empty() {
        proof {
            lemma_chunks_of_chunk_then(word@, rest);
        }
        let ghost before = chunks.deep_view();
        chunks.push(word);
        assert(chunks.deep_view() == before + seq![word@]);
    }
    chunks
}

/// The chunks glued together again, with one space between neighbours.
pub open spec fn join_with_spaces(chunks: Seq<Seq<char>>) -> Seq<char>
    decreases chunks.len(),
{
    if chunks.len() == 0 {
        Seq::empty()
    } else if chunks.len() == 1 {
        chunks[0]
    } else {
        chunks[0] + seq![' '] + join_with_spaces(chunks.drop_first())
    }
}

/// Every chunk of a text holds a character, and none holds whitespace.
pub proof fn lemma_chunks_are_chunks(text: Seq<char>)
    ensures
        forall|i: int| 0 <= i < chunks_of(text).len() ==> is_chunk(#[trigger] chunks_of(text)[i]),
    decreases text.len(),
{
    if text.len() == 0 {
        assert(chunks_of(text).len() == 0);
    } else if spec_is_whitespace(text[0]) {
        lemma_chunks_are_chunks(text.drop_first());
        assert(chunks_of(text) == chunks_of(text.drop_first()));
    } else {
        lemma_leading_count_is_prefix(text, not_whitespace());
        let n = word_len(text) as int;
        let word = text.take(n);
        assert forall|j: int| 0 <= j < word.len() implies !spec_is_whitespace(
            #[trigger] word[j],
        ) by {
            assert(not_whitespace()(text[j]));
        }
        assert(not_whitespace()(text[0]));
        assert(is_chunk(word));
        let others = chunks_of(text.skip(n));
        lemma_chunks_are_chunks(text.skip(n));
        assert(chunks_of(text) == seq![word] + others);
        assert forall|i: int| 0 <= i < chunks_of(text).len() implies is_chunk(
            #[trigger] chunks_of(text)[i],
        ) by {
            if i > 0 {
                assert(chunks_of(text)[i] == others[i - 1]);
            }
        }
    }
}

/// A text of whitespace alone, the empty text among them, has no chunks.
pub proof fn lemma_blank_text_has_no_chunks(text: Seq<char>)
    requires
        forall|i: int| 0 <= i < text.len() ==> spec_is_whitespace(#[trigger] text[i]),
    ensures
        chunks_of(text).len() == 0,
    decreases text.len(),
{
    if text.len() > 0 {
        let rest = text.drop_first();
        assert forall|i: int| 0 <= i < rest.len() implies spec_is_whitespace(#[trigger] rest[i]) by {
            assert(rest[i] == text[i + 1]);
        }
        lemma_blank_text_has_no_chunks(rest);
    }
}

/// Chunks that were joined with single spaces come apart as they were.
pub proof fn lemma_chunks_of_joined(chunks: Seq<Seq<char>>)
    requires
        forall|i: int| 0 <= i < chunks.len() ==> is_chunk(#[trigger] chunks[i]),
    ensures
        chunks_of(join_with_spaces(chunks)) == chunks,
    decreases chunks.len(),
{
    if chunks.len() == 0 {
    } else {
        let word = chunks[0];
        let others = chunks.drop_first();
        assert(is_chunk(word));
        assert forall|i: int| 0 <= i < others.len() implies is_chunk(#[trigger] others[i]) by {
            assert(others[i] == chunks[i + 1]);
        }
        lemma_chunks_of_joined(others);
        assert(chunks == seq![word] + others);
        if chunks.len() == 1 {
            let nothing = Seq::<char>::empty();
            lemma_chunks_of_chunk_then(word, nothing);
            assert(word + nothing == word);
        } else {
            let tail = seq![' '] + join_with_spaces(others);
            assert(spec_is_whitespace(tail[0]));
            assert(tail.drop_first() == join_with_spaces(others));
            lemma_chunks_of_chunk_then(word, tail);
            assert(word + tail == join_with_spaces(chunks));
        }
    }
}

/// Cutting a text, joining its chunks with single spaces and cutting again
/// gives the chunks of the first cut.
pub proof fn lemma_rejoined_chunks(text: Seq<char>)
    ensures
        chunks_of(join_with_spaces(chunks_of(text))) == chunks_of(text),
{
    lemma_chunks_are_chunks(text);
    lemma_chunks_of_joined(chunks_of(text));
}

/// Every character of `word` satisfies `pass`.
pub open spec fn all_pass(word: Seq<char>, pass: spec_fn(char) -> bool) -> bool {
    forall|j: int| 0 <= j < word.len() ==> pass(#[trigger] word[j])
}

/// The chunks of a text hold its characters other than whitespace, all of
/// them and no others: what holds of each of these holds of every character
/// of every chunk, and the other way round.
pub proof fn lemma_chunks_hold_the_text(text: Seq<char>, pass: spec_fn(char) -> bool)
    ensures
        (forall|k: int| 0 <= k < text.len() ==> spec_is_whitespace(#[trigger] text[k]) || pass(text[k]))
            <==> (forall|i: int| 0 <= i < chunks_of(text).len() ==> all_pass(#[trigger] chunks_of(text)[i], pass)),
    decreases text.len(),
{
    let chunks = chunks_of(text);
    let in_text = forall|k: int|
        0 <= k < text.len() ==> spec_is_whitespace(#[trigger] text[k]) || pass(text[k]);
    let in_chunks = forall|i: int| 0 <= i < chunks.len() ==> all_pass(#[trigger] chunks[i], pass);
    if text.len() == 0 {
        assert(chunks.len() == 0);
    } else if spec_is_whitespace(text[0]) {
        let rest = text.drop_first();
        lemma_chunks_hold_the_text(rest, pass);
        assert(chunks == chunks_of(rest));
        if in_text {
            assert forall|k: int| 0 <= k < rest.len() implies spec_is_whitespace(
                #[trigger] rest[k],
            ) || pass(rest[k]) by {
                assert(rest[k] == text[k + 1]);
            }
        }
        if in_chunks {
            assert forall|k: int| 0 <= k < text.len() implies spec_is_whitespace(
                #[trigger] text[k],
            ) || pass(text[k]) by {
                if k > 0 {
                    assert(text[k] == rest[k - 1]);
                }
            }
        }
    } else {
        lemma_leading_count_is_prefix(text, not_whitespace());
        let n = word_len(text) as int;
        let word = text.take(n);
        let rest = text.skip(n);
        let others = chunks_of(rest);
        lemma_chunks_hold_the_text(rest, pass);
        assert(chunks == seq![word] + others);
        if in_text {
            assert forall|k: int| 0 <= k < rest.len() implies spec_is_whitespace(
                #[trigger] rest[k],
            ) || pass(rest[k]) by {
                assert(rest[k] == text[k + n]);
            }
            assert forall|i: int| 0 <= i < chunks.len() implies all_pass(
                #[trigger] chunks[i],
                pass,
            ) by {
                if i == 0 {
                    assert forall|j: int| 0 <= j < word.len() implies pass(#[trigger] word[j]) by {
                        assert(not_whitespace()(text[j]));
                    }
                } else {
                    assert(chunks[i] == others[i - 1]);
                }
            }
        }
        if in_chunks {
            assert(all_pass(chunks[0], pass));
            assert forall|i: int| 0 <= i < others.len() implies all_pass(
                #[trigger] others[i],
                pass,
            ) by {
                assert(others[i] == chunks[i + 1]);
            }
            assert forall|k: int| 0 <= k < text.len() implies spec_is_whitespace(
                #[trigger] text[k],
            ) || pass(text[k]) by {
                if k < n {
                    assert(text[k] == word[k]);
                } else {
                    assert(text[k] == rest[k - n]);
                }
            }
        }
    }
}

} // verus!
