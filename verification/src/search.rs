//! Where a byte or a run of bytes stands in a longer one.

use vstd::prelude::*;

verus! {

/// `needle` stands in `haystack` at position `at`.
pub open spec fn occurs_at(haystack: Seq<u8>, needle: Seq<u8>, at: int) -> bool {
    &&& 0 <= at
    &&& at + needle.len() <= haystack.len()
    &&& haystack.subrange(at, at + needle.len()) == needle
}

/// `at` is the first position at which `needle` stands in `haystack`.
pub open spec fn first_at(haystack: Seq<u8>, needle: Seq<u8>, at: int) -> bool {
    &&& occurs_at(haystack, needle, at)
    &&& forall|j: int| j < at ==> !occurs_at(haystack, needle, j)
}

/// The first position at which `needle` stands in `haystack`, if it does.
pub open spec fn first_occurrence(haystack: Seq<u8>, needle: Seq<u8>) -> Option<int> {
    if exists|at: int| first_at(haystack, needle, at) {
        Some(choose|at: int| first_at(haystack, needle, at))
    } else {
        None
    }
}

/// The first position of `byte` in `bytes`, if it is there.
pub open spec fn first_byte(bytes: Seq<u8>, byte: u8) -> Option<int> {
    first_occurrence(bytes, seq![byte])
}

/// The last position of `byte` in `bytes`, or 0 if it is not there.
pub open spec fn last_byte_or_zero(bytes: Seq<u8>, byte: u8) -> int
    decreases bytes.len(),
{
    if bytes.len() == 0 {
        0
    } else if bytes.last() == byte {
        bytes.len() - 1
    } else {
        last_byte_or_zero(bytes.drop_last(), byte)
    }
}

/// `memchr::memmem::find` returns the first position at which `needle` stands in
/// `haystack`, and `None` where it does not stand in it.
pub assume_specification[ memchr::memmem::find ](haystack: &[u8], needle: &[u8]) -> (found: Option<
    usize,
>)
    ensures
        match found {
            Some(at) => first_at(haystack@, needle@, at as int),
            None => forall|j: int| !occurs_at(haystack@, needle@, j),
        },
;

/// `memchr::memchr` returns the first position of the byte `needle` in
/// `haystack`, and `None` where it is not in it.
pub assume_specification[ memchr::memchr ](needle: u8, haystack: &[u8]) -> (found: Option<usize>)
    ensures
        match found {
            Some(at) => at < haystack@.len() && haystack@[at as int] == needle && forall|j: int|
                0 <= j < at ==> haystack@[j] != needle,
            None => forall|j: int| 0 <= j < haystack@.len() ==> haystack@[j] != needle,
        },
;

/// `memchr::memrchr` returns the last position of the byte `needle` in
/// `haystack`, and `None` where it is not in it.
pub assume_specification[ memchr::memrchr ](needle: u8, haystack: &[u8]) -> (found: Option<usize>)
    ensures
        match found {
            Some(at) => at < haystack@.len() && haystack@[at as int] == needle && forall|j: int|
                at < j < haystack@.len() ==> haystack@[j] != needle,
            None => forall|j: int| 0 <= j < haystack@.len() ==> haystack@[j] != needle,
        },
;

/// What stands somewhere has a first place where it stands.
pub proof fn lemma_first_exists(haystack: Seq<u8>, needle: Seq<u8>, at: int)
    requires
        occurs_at(haystack, needle, at),
    ensures
        exists|i: int| first_at(haystack, needle, i),
    decreases at,
{
    if exists|j: int| j < at && occurs_at(haystack, needle, j) {
        let j = choose|j: int| j < at && occurs_at(haystack, needle, j);
        lemma_first_exists(haystack, needle, j);
    } else {
        assert(first_at(haystack, needle, at));
    }
}

/// A first position is the first occurrence.
pub proof fn lemma_first_is(haystack: Seq<u8>, needle: Seq<u8>, at: int)
    requires
        first_at(haystack, needle, at),
    ensures
        first_occurrence(haystack, needle) == Some(at),
{
    let i = choose|i: int| first_at(haystack, needle, i);
    assert(first_at(haystack, needle, i));
    assert(!(i < at) && !(at < i));
}

/// Where nothing stands there is no first occurrence.
pub proof fn lemma_first_is_none(haystack: Seq<u8>, needle: Seq<u8>)
    requires
        forall|j: int| !occurs_at(haystack, needle, j),
    ensures
        first_occurrence(haystack, needle) is None,
{
}

/// A first occurrence is a first position, and none means that nothing stands.
pub proof fn lemma_first_means(haystack: Seq<u8>, needle: Seq<u8>)
    ensures
        match first_occurrence(haystack, needle) {
            Some(at) => first_at(haystack, needle, at),
            None => forall|j: int| !occurs_at(haystack, needle, j),
        },
{
    if first_occurrence(haystack, needle) is None {
        assert forall|j: int| !occurs_at(haystack, needle, j) by {
            if occurs_at(haystack, needle, j) {
                lemma_first_exists(haystack, needle, j);
            }
        }
    }
}

/// A beginning of the haystack shows the same first occurrence once it is long
/// enough to hold it, and none before.
pub proof fn lemma_first_in_prefix(haystack: Seq<u8>, needle: Seq<u8>, at: int, len: int)
    requires
        first_at(haystack, needle, at),
        0 <= len <= haystack.len(),
    ensures
        at + needle.len() <= len ==> first_occurrence(haystack.take(len), needle) == Some(at),
        at + needle.len() > len ==> first_occurrence(haystack.take(len), needle) is None,
{
    let front = haystack.take(len);
    assert forall|j: int| occurs_at(front, needle, j) implies occurs_at(haystack, needle, j) by {
        assert(haystack.subrange(j, j + needle.len()) =~= front.subrange(j, j + needle.len()));
    }
    if at + needle.len() <= len {
        assert(front.subrange(at, at + needle.len()) =~= haystack.subrange(at, at + needle.len()));
        lemma_first_is(front, needle, at);
    } else {
        assert forall|j: int| !occurs_at(front, needle, j) by {
            if occurs_at(front, needle, j) {
                assert(occurs_at(haystack, needle, j));
                assert(!(j < at));
            }
        }
        lemma_first_is_none(front, needle);
    }
}

/// Without its first `n` bytes the haystack shows the same first occurrence, `n`
/// places earlier.
pub proof fn lemma_first_after_skip(haystack: Seq<u8>, needle: Seq<u8>, at: int, n: int)
    requires
        first_at(haystack, needle, at),
        0 <= n <= at,
    ensures
        first_at(haystack.skip(n), needle, at - n),
{
    let rest = haystack.skip(n);
    assert(rest.subrange(at - n, at - n + needle.len()) =~= haystack.subrange(
        at,
        at + needle.len(),
    ));
    assert forall|j: int| j < at - n implies !occurs_at(rest, needle, j) by {
        if occurs_at(rest, needle, j) {
            assert(haystack.subrange(j + n, j + n + needle.len()) =~= rest.subrange(
                j,
                j + needle.len(),
            ));
            assert(occurs_at(haystack, needle, j + n));
        }
    }
}

/// The first occurrence stays where it is when bytes are appended.
pub proof fn lemma_first_after_append(haystack: Seq<u8>, needle: Seq<u8>, at: int, more: Seq<u8>)
    requires
        first_at(haystack, needle, at),
    ensures
        first_at(haystack + more, needle, at),
{
    let whole = haystack + more;
    assert(whole.subrange(at, at + needle.len()) =~= haystack.subrange(at, at + needle.len()));
    assert forall|j: int| j < at implies !occurs_at(whole, needle, j) by {
        if occurs_at(whole, needle, j) {
            assert(haystack.subrange(j, j + needle.len()) =~= whole.subrange(j, j + needle.len()));
            assert(occurs_at(haystack, needle, j));
        }
    }
}

/// A byte that is nowhere before `at` and stands at `at` is there first.
pub proof fn lemma_first_byte_is(bytes: Seq<u8>, byte: u8, at: int)
    requires
        0 <= at < bytes.len(),
        bytes[at] == byte,
        forall|j: int| 0 <= j < at ==> bytes[j] != byte,
    ensures
        first_byte(bytes, byte) == Some(at),
{
    let needle = seq![byte];
    assert(bytes.subrange(at, at + 1) =~= needle);
    assert forall|j: int| j < at implies !occurs_at(bytes, needle, j) by {
        if occurs_at(bytes, needle, j) {
            assert(bytes.subrange(j, j + 1)[0] == bytes[j]);
        }
    }
    lemma_first_is(bytes, needle, at);
}

/// A byte that is nowhere has no first position.
pub proof fn lemma_first_byte_is_none(bytes: Seq<u8>, byte: u8)
    requires
        forall|j: int| 0 <= j < bytes.len() ==> bytes[j] != byte,
    ensures
        first_byte(bytes, byte) is None,
{
    let needle = seq![byte];
    assert forall|j: int| !occurs_at(bytes, needle, j) by {
        if occurs_at(bytes, needle, j) {
            assert(bytes.subrange(j, j + 1)[0] == bytes[j]);
        }
    }
    lemma_first_is_none(bytes, needle);
}

/// The last position of a byte is what `last_byte_or_zero` gives.
pub proof fn lemma_last_byte_is(bytes: Seq<u8>, byte: u8, at: int)
    requires
        0 <= at < bytes.len(),
        bytes[at] == byte,
        forall|j: int| at < j < bytes.len() ==> bytes[j] != byte,
    ensures
        last_byte_or_zero(bytes, byte) == at,
    decreases bytes.len(),
{
    if bytes.last() != byte {
        lemma_last_byte_is(bytes.drop_last(), byte, at);
    }
}

/// A byte that is nowhere has 0 for its last position.
pub proof fn lemma_last_byte_is_zero(bytes: Seq<u8>, byte: u8)
    requires
        forall|j: int| 0 <= j < bytes.len() ==> bytes[j] != byte,
    ensures
        last_byte_or_zero(bytes, byte) == 0,
    decreases bytes.len(),
{
    if bytes.len() != 0 {
        lemma_last_byte_is_zero(bytes.drop_last(), byte);
    }
}

} // verus!
