//! The longest prefix of a sequence whose items all pass a test.
//!
//! Chunks end at the first whitespace, a digit sum stops at the first
//! character that is no digit, and a fold stops at the first failed item:
//! all three are stated over [`leading_count`].

use vstd::prelude::*;

verus! {

/// Length of the longest prefix of `s` whose items all satisfy `keep`.
pub open spec fn leading_count<T>(s: Seq<T>, keep: spec_fn(T) -> bool) -> nat
    decreases s.len(),
{
    if s.len() == 0 || !keep(s[0]) {
        0
    } else {
        1 + leading_count(s.drop_first(), keep)
    }
}

/// The prefix ends inside `s`, holds only items that pass, and is followed,
/// if anything follows, by an item that does not.
pub proof fn lemma_leading_count_is_prefix<T>(s: Seq<T>, keep: spec_fn(T) -> bool)
    ensures
        leading_count(s, keep) <= s.len(),
        forall|i: int| 0 <= i < leading_count(s, keep) ==> keep(#[trigger] s[i]),
        leading_count(s, keep) < s.len() ==> !keep(s[leading_count(s, keep) as int]),
    decreases s.len(),
{
    if s.len() == 0 || !keep(s[0]) {
    } else {
        let rest = s.drop_first();
        lemma_leading_count_is_prefix(rest, keep);
        let n = leading_count(rest, keep) as int;
        assert forall|i: int| 0 <= i < n + 1 implies keep(#[trigger] s[i]) by {
            if i > 0 {
                assert(s[i] == rest[i - 1]);
            }
        }
        if n + 1 < s.len() {
            assert(s[n + 1] == rest[n]);
        }
    }
}

/// A position with only passing items before it and a failing item, or the
/// end, at it is the length of the prefix.
pub proof fn lemma_leading_count_is<T>(s: Seq<T>, keep: spec_fn(T) -> bool, n: int)
    requires
        0 <= n <= s.len(),
        forall|i: int| 0 <= i < n ==> keep(#[trigger] s[i]),
        n < s.len() ==> !keep(s[n]),
    ensures
        leading_count(s, keep) == n,
    decreases s.len(),
{
    if n == 0 {
    } else {
        let rest = s.drop_first();
        assert(keep(s[0]));
        assert forall|i: int| 0 <= i < n - 1 implies keep(#[trigger] rest[i]) by {
            assert(rest[i] == s[i + 1]);
        }
        if n - 1 < rest.len() {
            assert(rest[n - 1] == s[n]);
        }
        lemma_leading_count_is(rest, keep, n - 1);
    }
}

} // verus!
