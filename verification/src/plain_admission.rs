//! Which requests are read, refused and passed on, stated on the characters of their
//! content type.

use vstd::prelude::*;
use vstd::utf8::encode_utf8;

use crate::decoder::{FrameView, MultipartDecoderState};
use crate::plain_text::{law_param_is_missing, law_param_is_the_first};
use crate::reader::{admission, is_multipart, AdmissionView};
use crate::text::{ascii_lower, same_ignoring_case};

verus! {

/// A character that is a given small letter without regard to case.
proof fn lemma_small_letter(c: char, letter: char)
    requires
        'a' <= letter <= 'z',
    ensures
        ascii_lower(c) == ascii_lower(letter) <==> c as u32 == letter as u32 || c as u32 == letter
            as u32 - 32,
{
}

/// A content type is that of a multipart stream where its top-level type has 9 characters,
/// each the letter of `multipart` at its place or its capital, by their numbers.
pub proof fn law_multipart_by_letters(
    top: Seq<char>,
    sub: Seq<char>,
    params: Seq<(Seq<char>, Seq<char>)>,
)
    ensures
        is_multipart((top, sub, params)) <==> {
            &&& top.len() == 9
            &&& top[0] as u32 == 109 || top[0] as u32 == 77
            &&& top[1] as u32 == 117 || top[1] as u32 == 85
            &&& top[2] as u32 == 108 || top[2] as u32 == 76
            &&& top[3] as u32 == 116 || top[3] as u32 == 84
            &&& top[4] as u32 == 105 || top[4] as u32 == 73
            &&& top[5] as u32 == 112 || top[5] as u32 == 80
            &&& top[6] as u32 == 97 || top[6] as u32 == 65
            &&& top[7] as u32 == 114 || top[7] as u32 == 82
            &&& top[8] as u32 == 116 || top[8] as u32 == 84
        },
{
    reveal_strlit("multipart");
    let word = "multipart"@;
    assert(word =~= seq!['m', 'u', 'l', 't', 'i', 'p', 'a', 'r', 't']);
    if top.len() == 9 {
        assert forall|k: int| 0 <= k < 9 implies (ascii_lower(#[trigger] top[k]) == ascii_lower(
            word[k],
        ) <==> top[k] as u32 == word[k] as u32 || top[k] as u32 == word[k] as u32 - 32) by {
            lemma_small_letter(top[k], word[k]);
        }
        if is_multipart((top, sub, params)) {
            assert(same_ignoring_case(top, word));
        }
    }
}

/// A name is `boundary` without regard to case where it has 8 characters, each the letter
/// of `boundary` at its place or its capital, by their numbers.
pub proof fn law_boundary_by_letters(name: Seq<char>)
    ensures
        same_ignoring_case(name, "boundary"@) <==> {
            &&& name.len() == 8
            &&& name[0] as u32 == 98 || name[0] as u32 == 66
            &&& name[1] as u32 == 111 || name[1] as u32 == 79
            &&& name[2] as u32 == 117 || name[2] as u32 == 85
            &&& name[3] as u32 == 110 || name[3] as u32 == 78
            &&& name[4] as u32 == 100 || name[4] as u32 == 68
            &&& name[5] as u32 == 97 || name[5] as u32 == 65
            &&& name[6] as u32 == 114 || name[6] as u32 == 82
            &&& name[7] as u32 == 121 || name[7] as u32 == 89
        },
{
    reveal_strlit("boundary");
    let word = "boundary"@;
    assert(word =~= seq!['b', 'o', 'u', 'n', 'd', 'a', 'r', 'y']);
    if name.len() == 8 {
        assert forall|k: int| 0 <= k < 8 implies (ascii_lower(#[trigger] name[k]) == ascii_lower(
            word[k],
        ) <==> name[k] as u32 == word[k] as u32 || name[k] as u32 == word[k] as u32 - 32) by {
            lemma_small_letter(name[k], word[k]);
        }
        if same_ignoring_case(name, word) {
            assert(ascii_lower(name[0]) == ascii_lower(word[0]));
        }
    }
}

/// A request without a content type, or with a top-level type that is not `multipart`
/// without regard to case, whatever else it says, goes on to other handlers.
pub proof fn law_other_requests_are_forwarded(
    top: Seq<char>,
    sub: Seq<char>,
    params: Seq<(Seq<char>, Seq<char>)>,
    limit: Option<u64>,
)
    requires
        !same_ignoring_case(top, "multipart"@),
    ensures
        admission(Some((top, sub, params)), limit) == AdmissionView::Forward(400),
        admission(None, limit) == AdmissionView::Forward(400),
{
}

/// A multipart request is read with the value of its first parameter named `boundary`,
/// from the start of the stream, and with the configured limit, or 1 MiB where there is
/// none. Its content type stays as it was given.
pub proof fn law_request_with_boundary_is_read(
    top: Seq<char>,
    sub: Seq<char>,
    params: Seq<(Seq<char>, Seq<char>)>,
    limit: Option<u64>,
    i: int,
)
    requires
        same_ignoring_case(top, "multipart"@),
        0 <= i < params.len(),
        same_ignoring_case(params[i].0, "boundary"@),
        forall|j: int|
            0 <= j < i ==> !same_ignoring_case((#[trigger] params[j]).0, "boundary"@),
    ensures
        admission(Some((top, sub, params)), limit) matches AdmissionView::Success(
            reader,
            decoder,
            bytes,
        ) && {
            &&& reader.content_type == (top, sub, params)
            &&& reader.buffer == FrameView::Data(Seq::empty())
            &&& decoder.boundary == encode_utf8(params[i].1)
            &&& decoder.state == MultipartDecoderState::BeforeFirstBoundary
            &&& limit matches Some(l) ==> bytes == l
            &&& limit is None ==> bytes == 1024 * 1024
        },
{
    law_param_is_the_first(params, "boundary"@, i);
}

/// A multipart request none of whose parameters is named `boundary` is refused.
pub proof fn law_request_without_boundary_is_refused(
    top: Seq<char>,
    sub: Seq<char>,
    params: Seq<(Seq<char>, Seq<char>)>,
    limit: Option<u64>,
)
    requires
        same_ignoring_case(top, "multipart"@),
        forall|j: int|
            0 <= j < params.len() ==> !same_ignoring_case((#[trigger] params[j]).0, "boundary"@),
    ensures
        admission(Some((top, sub, params)), limit) == AdmissionView::Error(400),
{
    law_param_is_missing(params, "boundary"@);
}

} // verus!
