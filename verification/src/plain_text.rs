//! Texts compared and trimmed, stated character by character.

use vstd::prelude::*;

use crate::content_type::param_of;
use crate::text::{is_white_space, same_ignoring_case, trimmed, trimmed_end, trimmed_start};

verus! {

/// What is trimmed off the start of a text is white space, and what is left starts
/// with something else.
proof fn lemma_trimmed_start(text: Seq<char>) -> (i: int)
    ensures
        0 <= i <= text.len(),
        trimmed_start(text) == text.skip(i),
        forall|k: int| 0 <= k < i ==> is_white_space(#[trigger] text[k]),
        i < text.len() ==> !is_white_space(text[i]),
    decreases text.len(),
{
    if text.len() > 0 && is_white_space(text[0]) {
        let rest = text.drop_first();
        let j = lemma_trimmed_start(rest);
        assert(rest.skip(j) =~= text.skip(j + 1));
        assert forall|k: int| 0 <= k < j + 1 implies is_white_space(#[trigger] text[k]) by {
            if k > 0 {
                assert(rest[k - 1] == text[k]);
            }
        }
        j + 1
    } else {
        assert(text.skip(0) =~= text);
        0
    }
}

/// What is trimmed off the end of a text is white space, and what is left ends with
/// something else.
proof fn lemma_trimmed_end(text: Seq<char>) -> (j: int)
    ensures
        0 <= j <= text.len(),
        trimmed_end(text) == text.take(j),
        forall|k: int| j <= k < text.len() ==> is_white_space(#[trigger] text[k]),
        j > 0 ==> !is_white_space(text[j - 1]),
    decreases text.len(),
{
    if text.len() > 0 && is_white_space(text.last()) {
        let rest = text.drop_last();
        let j = lemma_trimmed_end(rest);
        assert(rest.take(j) =~= text.take(j));
        assert forall|k: int| j <= k < text.len() implies is_white_space(#[trigger] text[k]) by {
            if k < rest.len() {
                assert(rest[k] == text[k]);
            }
        }
        j
    } else {
        assert(text.take(text.len() as int) =~= text);
        text.len() as int
    }
}

/// A trimmed text is a piece of the text. What stands before it and after it is white
/// space, and it neither starts nor ends with any.
pub proof fn law_trimmed_is_the_inner_piece(text: Seq<char>) -> (place: (int, int))
    ensures
        0 <= place.0 <= place.1 <= text.len(),
        trimmed(text) == text.subrange(place.0, place.1),
        forall|k: int|
            0 <= k < place.0 || place.1 <= k < text.len() ==> is_white_space(#[trigger] text[k]),
        place.0 < place.1 ==> !is_white_space(text[place.0]) && !is_white_space(text[place.1 - 1]),
{
    let i = lemma_trimmed_start(text);
    let inner = text.skip(i);
    let j = lemma_trimmed_end(inner);
    assert(inner.take(j) =~= text.subrange(i, i + j));
    assert forall|k: int| 0 <= k < i || i + j <= k < text.len() implies is_white_space(
        #[trigger] text[k],
    ) by {
        if k >= i + j {
            assert(inner[k - i] == text[k]);
        }
    }
    (i, i + j)
}

/// A piece of a text that neither starts nor ends with white space, and has nothing but
/// white space around it, is the trimmed text.
pub proof fn law_inner_piece_is_trimmed(before: Seq<char>, inner: Seq<char>, after: Seq<char>)
    requires
        forall|k: int| 0 <= k < before.len() ==> is_white_space(#[trigger] before[k]),
        forall|k: int| 0 <= k < after.len() ==> is_white_space(#[trigger] after[k]),
        inner.len() > 0 ==> !is_white_space(inner[0]) && !is_white_space(inner.last()),
    ensures
        trimmed(before + inner + after) == inner,
{
    let text = before + inner + after;
    let a = before.len() as int;
    let b = a + inner.len();
    let (i, j) = law_trimmed_is_the_inner_piece(text);
    if inner.len() == 0 {
        if i < j {
            if i < a {
                assert(text[i] == before[i]);
            } else {
                assert(text[i] == after[i - a]);
            }
        }
        assert(text.subrange(i, j) =~= inner);
    } else {
        assert(text[a] == inner[0]);
        assert(text[b - 1] == inner.last());
        if i < a {
            assert(text[i] == before[i]);
        }
        if j > b {
            assert(text[j - 1] == after[j - 1 - b]);
        }
        assert(i == a && j == b);
        assert(text.subrange(i, j) =~= inner);
    }
}

/// White space is a tab, a line feed, a vertical tab, a form feed, a carriage return, a
/// space, or one of the other white characters of Unicode, by their numbers.
pub proof fn law_white_space_by_number(c: char)
    ensures
        is_white_space(c) <==> {
            let n = c as u32;
            ||| n == 9 || n == 10 || n == 11 || n == 12 || n == 13 || n == 32
            ||| n == 133 || n == 160 || n == 5760
            ||| 8192 <= n <= 8202
            ||| n == 8232 || n == 8233 || n == 8239 || n == 8287 || n == 12288
        },
{
}

/// Two texts are the same without regard to case where they have the same length, and at
/// every place the same character, or a letter from A to Z in the one and the letter from
/// a to z in the other, whose number is larger by 32.
pub proof fn law_same_ignoring_case(a: Seq<char>, b: Seq<char>)
    ensures
        same_ignoring_case(a, b) <==> a.len() == b.len() && forall|k: int|
            #![trigger a[k]]
            0 <= k < a.len() ==> {
                let x = a[k] as u32;
                let y = b[k] as u32;
                ||| x == y
                ||| 65 <= x <= 90 && y == x + 32
                ||| 65 <= y <= 90 && x == y + 32
            },
{
}

/// The value of a parameter is that at the first place with its name, wherever that is
/// and however many other parameters there are.
pub proof fn law_param_is_the_first(params: Seq<(Seq<char>, Seq<char>)>, name: Seq<char>, i: int)
    requires
        0 <= i < params.len(),
        same_ignoring_case(params[i].0, name),
        forall|j: int| 0 <= j < i ==> !same_ignoring_case((#[trigger] params[j]).0, name),
    ensures
        param_of(params, name) == Some(params[i].1),
    decreases i,
{
    if i > 0 {
        let rest = params.drop_first();
        assert(!same_ignoring_case(params[0].0, name));
        assert forall|j: int| 0 <= j < i - 1 implies !same_ignoring_case(
            (#[trigger] rest[j]).0,
            name,
        ) by {
            assert(rest[j] == params[j + 1]);
        }
        law_param_is_the_first(rest, name, i - 1);
    }
}

/// A parameter has no value only where no place has its name.
pub proof fn law_param_is_missing(params: Seq<(Seq<char>, Seq<char>)>, name: Seq<char>)
    requires
        forall|j: int| 0 <= j < params.len() ==> !same_ignoring_case((#[trigger] params[j]).0, name),
    ensures
        param_of(params, name) is None,
    decreases params.len(),
{
    if params.len() > 0 {
        let rest = params.drop_first();
        assert(!same_ignoring_case(params[0].0, name));
        assert forall|j: int| 0 <= j < rest.len() implies !same_ignoring_case(
            (#[trigger] rest[j]).0,
            name,
        ) by {
            assert(rest[j] == params[j + 1]);
        }
        law_param_is_missing(rest, name);
    }
}

} // verus!
