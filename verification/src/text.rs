use vstd::prelude::*;

verus! {

/// Taken on trust, from the documentation of `String::push` in std: it puts
/// `c` at the end of the string and leaves the characters before it as
/// they were. Nothing here proves it.
pub assume_specification[ std::string::String::push ](s: &mut std::string::String, c: char)
    ensures
        final(s)@ == old(s)@.push(c),
;

/// The number of leading elements of `s` that satisfy `accept`: the length
/// of the longest prefix of `s` made of accepted characters only.
pub open spec fn prefix_len(s: Seq<char>, accept: spec_fn(char) -> bool) -> nat
    decreases s.len(),
{
    if s.len() > 0 && accept(s[0]) {
        1 + prefix_len(s.drop_first(), accept)
    } else {
        0
    }
}

/// `prefix_len` is the one position that is preceded by accepted characters
/// only and that is the end of `s` or holds a character that is not accepted.
pub proof fn lemma_prefix_len(s: Seq<char>, accept: spec_fn(char) -> bool, n: nat)
    requires
        n <= s.len(),
        forall|i: int| 0 <= i < n ==> accept(#[trigger] s[i]),
        n == s.len() || !accept(s[n as int]),
    ensures
        prefix_len(s, accept) == n,
    decreases s.len(),
{
    if n > 0 {
        let tail = s.drop_first();
        assert forall|i: int| 0 <= i < n - 1 implies accept(#[trigger] tail[i]) by {
            assert(tail[i] == s[i + 1]);
        }
        lemma_prefix_len(tail, accept, (n - 1) as nat);
    }
}

/// What `prefix_len` says of its result, for use where the result is given.
pub proof fn lemma_prefix_len_bounds(s: Seq<char>, accept: spec_fn(char) -> bool)
    ensures
        prefix_len(s, accept) <= s.len(),
        forall|i: int| 0 <= i < prefix_len(s, accept) ==> accept(#[trigger] s[i]),
        prefix_len(s, accept) == s.len() || !accept(s[prefix_len(s, accept) as int]),
    decreases s.len(),
{
    if s.len() > 0 && accept(s[0]) {
        let tail = s.drop_first();
        lemma_prefix_len_bounds(tail, accept);
        assert forall|i: int| 0 <= i < prefix_len(s, accept) implies accept(#[trigger] s[i]) by {
            if i > 0 {
                assert(s[i] == tail[i - 1]);
            }
        }
    }
}

} // verus!
