//! Facts about the UTF-8 form of a text and about trimming.

use vstd::prelude::*;
use vstd::utf8::{
    char_is_scalar, encode_scalar, encode_utf8, has_width_1_encoding, last_continuation_byte,
    leading_byte_width_1, leading_byte_width_2, leading_byte_width_3, leading_byte_width_4,
    second_last_continuation_byte, third_last_continuation_byte,
};

use crate::search::{first_at, occurs_at};
use crate::text::{is_white_space, trimmed, trimmed_end, trimmed_start};

verus! {

/// The UTF-8 form of two texts in a row is that of the one and then that of the
/// other.
pub proof fn lemma_encode_concat(a: Seq<char>, b: Seq<char>)
    ensures
        encode_utf8(a + b) == encode_utf8(a) + encode_utf8(b),
    decreases a.len(),
{
    if a.len() == 0 {
        assert(a + b =~= b);
        assert(encode_utf8(a) + encode_utf8(b) =~= encode_utf8(b));
    } else {
        lemma_encode_concat(a.drop_first(), b);
        assert((a + b).drop_first() =~= a.drop_first() + b);
        assert((a + b)[0] == a[0]);
        assert(encode_scalar(a[0] as u32) + (encode_utf8(a.drop_first()) + encode_utf8(b)) =~= (
        encode_scalar(a[0] as u32) + encode_utf8(a.drop_first())) + encode_utf8(b));
    }
}

/// An ASCII character is one byte, its own number. Every other character is made
/// of bytes that are no ASCII characters.
pub proof fn lemma_encode_char(c: char)
    ensures
        (c as u32) < 128 ==> encode_scalar(c as u32) == seq![c as u8],
        (c as u32) >= 128 ==> forall|i: int|
            0 <= i < encode_scalar(c as u32).len() ==> #[trigger] encode_scalar(c as u32)[i] >= 128,
        encode_scalar(c as u32).len() > 0,
{
    char_is_scalar(c);
    let v = c as u32;
    if has_width_1_encoding(v) {
        assert(v as u8 == leading_byte_width_1(v)) by (bit_vector)
            requires
                has_width_1_encoding(v),
        ;
        assert(c as u8 == v as u8);
    } else {
        assert(last_continuation_byte(v) >= 128u8) by (bit_vector);
        assert(second_last_continuation_byte(v) >= 128u8) by (bit_vector);
        assert(third_last_continuation_byte(v) >= 128u8) by (bit_vector);
        assert(leading_byte_width_2(v) >= 128u8) by (bit_vector);
        assert(leading_byte_width_3(v) >= 128u8) by (bit_vector);
        assert(leading_byte_width_4(v) >= 128u8) by (bit_vector);
    }
}

/// The UTF-8 form of a text of one character.
pub proof fn lemma_encode_one(c: char)
    ensures
        encode_utf8(seq![c]) == encode_scalar(c as u32),
{
    assert(seq![c].drop_first() =~= Seq::empty());
    assert(encode_utf8(Seq::<char>::empty()) =~= Seq::empty());
    assert(encode_scalar(c as u32) + Seq::<u8>::empty() =~= encode_scalar(c as u32));
}

/// The UTF-8 form of a text of two ASCII characters.
pub proof fn lemma_encode_ascii_pair(c: char, d: char)
    requires
        (c as u32) < 128,
        (d as u32) < 128,
    ensures
        encode_utf8(seq![c, d]) == seq![c as u8, d as u8],
{
    lemma_encode_char(c);
    lemma_encode_char(d);
    lemma_encode_one(c);
    lemma_encode_one(d);
    assert(seq![c, d] =~= seq![c] + seq![d]);
    lemma_encode_concat(seq![c], seq![d]);
    assert(seq![c as u8] + seq![d as u8] =~= seq![c as u8, d as u8]);
}

/// ASCII characters with the same number are the same.
proof fn lemma_ascii_same(c: char, d: char)
    requires
        (c as u32) < 128,
        (d as u32) < 128,
        c as u8 == d as u8,
    ensures
        c == d,
{
}

/// An ASCII character that is not in a text is not among its bytes.
pub proof fn lemma_encode_lacks(text: Seq<char>, c: char)
    requires
        (c as u32) < 128,
        forall|i: int| 0 <= i < text.len() ==> text[i] != c,
    ensures
        forall|i: int| 0 <= i < encode_utf8(text).len() ==> #[trigger] encode_utf8(text)[i] != c as u8,
    decreases text.len(),
{
    if text.len() > 0 {
        lemma_encode_char(text[0]);
        lemma_encode_lacks(text.drop_first(), c);
        let head = encode_scalar(text[0] as u32);
        let tail = encode_utf8(text.drop_first());
        assert(encode_utf8(text) == head + tail);
        assert forall|i: int| 0 <= i < encode_utf8(text).len() implies #[trigger] encode_utf8(
            text,
        )[i] != c as u8 by {
            if i < head.len() {
                assert(encode_utf8(text)[i] == head[i]);
                if (text[0] as u32) < 128 {
                    assert(head[i] == text[0] as u8);
                    if text[0] as u8 == c as u8 {
                        lemma_ascii_same(text[0], c);
                    }
                }
            } else {
                assert(encode_utf8(text)[i] == tail[i - head.len()]);
            }
        }
    }
}

/// A line break stands at this place of the text.
pub open spec fn breaks_at(text: Seq<char>, at: int) -> bool {
    &&& 0 <= at
    &&& at + 1 < text.len()
    &&& text[at] == '\r'
    &&& text[at + 1] == '\n'
}

/// Where a line break stands among the bytes of a text, one stands in the text.
pub proof fn lemma_break_in_bytes(text: Seq<char>, at: int) -> (place: int)
    requires
        occurs_at(encode_utf8(text), seq![13u8, 10u8], at),
    ensures
        breaks_at(text, place),
        encode_utf8(text.take(place)).len() == at,
    decreases text.len(),
{
    let bytes = encode_utf8(text);
    let pair = bytes.subrange(at, at + 2);
    assert(pair[0] == 13 && pair[1] == 10);
    assert(bytes[at] == 13 && bytes[at + 1] == 10);
    assert(text.len() > 0);
    lemma_encode_char(text[0]);
    let head = encode_scalar(text[0] as u32);
    let tail = encode_utf8(text.drop_first());
    assert(bytes == head + tail);
    if at >= head.len() {
        let k = at - head.len();
        assert(tail[k] == 13 && tail[k + 1] == 10);
        assert(tail.subrange(k, k + 2) =~= seq![13u8, 10u8]);
        let inner = lemma_break_in_bytes(text.drop_first(), k);
        let place = inner + 1;
        assert(text.take(place).drop_first() =~= text.drop_first().take(inner));
        assert(text.take(place)[0] == text[0]);
        place
    } else {
        assert(head[at] == 13);
        assert((text[0] as u32) < 128);
        assert(text[0] as u8 == 13);
        lemma_ascii_same(text[0], '\r');
        assert(tail[0] == 10);
        assert(text.drop_first().len() > 0);
        let second = text.drop_first()[0];
        lemma_encode_char(second);
        let second_bytes = encode_scalar(second as u32);
        assert(tail == second_bytes + encode_utf8(text.drop_first().drop_first()));
        assert(tail[0] == second_bytes[0]);
        assert((second as u32) < 128);
        assert(second as u8 == 10);
        lemma_ascii_same(second, '\n');
        assert(text.take(0) =~= Seq::empty());
        0
    }
}

/// After a text without a line break, the first line break among the bytes is the
/// one that follows.
pub proof fn lemma_first_break(text: Seq<char>)
    requires
        forall|at: int| !breaks_at(text, at),
    ensures
        first_at(encode_utf8(text + seq!['\r', '\n']), seq![13u8, 10u8], encode_utf8(text).len() as int),
        encode_utf8(text + seq!['\r', '\n']) == encode_utf8(text) + seq![13u8, 10u8],
{
    let line = text + seq!['\r', '\n'];
    let bytes = encode_utf8(line);
    lemma_encode_concat(text, seq!['\r', '\n']);
    lemma_encode_ascii_pair('\r', '\n');
    let n = encode_utf8(text).len() as int;
    assert(bytes.subrange(n, n + 2) =~= seq![13u8, 10u8]);
    assert forall|j: int| j < n implies !occurs_at(bytes, seq![13u8, 10u8], j) by {
        if occurs_at(bytes, seq![13u8, 10u8], j) {
            let place = lemma_break_in_bytes(line, j);
            if place < text.len() - 1 {
                assert(breaks_at(text, place));
            } else if place == text.len() - 1 {
                assert(line[place + 1] == '\r');
            } else {
                assert(line.take(place) =~= text);
            }
        }
    }
}

/// Trimming makes no text longer, and leaves one as it is where its length stays.
proof fn lemma_trimmed_lengths(text: Seq<char>)
    ensures
        trimmed_start(text).len() <= text.len(),
        trimmed_end(text).len() <= text.len(),
        trimmed_start(text).len() == text.len() ==> trimmed_start(text) == text,
        trimmed_end(text).len() == text.len() ==> trimmed_end(text) == text,
    decreases text.len(),
{
    if text.len() > 0 {
        lemma_trimmed_lengths(text.drop_first());
        lemma_trimmed_lengths(text.drop_last());
    }
}

/// A trimmed text comes back from a text with a space before it and a line break
/// after it.
pub proof fn lemma_trim_field_value(value: Seq<char>)
    requires
        trimmed(value) == value,
    ensures
        trimmed(seq![' '] + value + seq!['\r', '\n']) == value,
{
    let text = seq![' '] + value + seq!['\r', '\n'];
    let rest = value + seq!['\r', '\n'];
    assert(text.drop_first() =~= rest);
    assert(trimmed_start(text) == trimmed_start(rest));
    lemma_trimmed_lengths(value);
    lemma_trimmed_lengths(trimmed_start(value));
    assert(trimmed_start(value) == value);
    assert(trimmed_end(value) == value);
    if value.len() == 0 {
        assert(rest =~= seq!['\r', '\n']);
        assert(rest.drop_first() =~= seq!['\n']);
        assert(rest.drop_first().drop_first() =~= Seq::empty());
        assert(trimmed_start(rest.drop_first().drop_first()) =~= Seq::empty());
        assert(trimmed_start(rest.drop_first()) =~= Seq::empty());
        assert(trimmed_start(rest) =~= Seq::empty());
        assert(trimmed_end(Seq::<char>::empty()) =~= Seq::empty());
        assert(value =~= Seq::empty());
    } else {
        if is_white_space(value[0]) {
            lemma_trimmed_lengths(value.drop_first());
            assert(false);
        }
        assert(rest[0] == value[0]);
        assert(trimmed_start(rest) == rest);
        assert(rest.last() == '\n');
        assert(rest.drop_last() =~= value + seq!['\r']);
        assert(rest.drop_last().drop_last() =~= value);
        assert(trimmed_end(rest) == trimmed_end(rest.drop_last()));
        assert(trimmed_end(rest.drop_last()) == trimmed_end(value));
    }
}

} // verus!
