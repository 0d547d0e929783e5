//! How the model of a text as characters and the model of the same text as
//! UTF-8 bytes agree: lines, occurrences and reports of the one are those of
//! the other, encoded.

use vstd::prelude::*;
use vstd::utf8::*;
use crate::text::{
    after_first_line, first_break, first_line, holds, lemma_first_break, lemma_first_break_unique,
    lines, matching_lines, occurs_at, occurs_in, report, terminated, without_trailing,
};

verus! {

/// The line feed as a byte: it ends a line.
pub const LF: u8 = 0x0A;

/// The carriage return as a byte: it may precede the line feed that ends a
/// line.
pub const CR: u8 = 0x0D;

/// A byte with one of the marks of a leading or continuation byte set is
/// `0x80` or above.
proof fn lemma_marked_bytes(low: u8)
    by (bit_vector)
    ensures
        0x80u8 | low >= 0x80,
        0xC0u8 | low >= 0x80,
        0xE0u8 | low >= 0x80,
        0xF0u8 | low >= 0x80,
{
}

/// A scalar value below `0x80` fits in the low seven bits of one byte.
proof fn lemma_low_scalar(scalar: u32)
    by (bit_vector)
    requires
        scalar <= 0x7F,
    ensures
        (scalar & 0x7F) as u8 == scalar as u8,
        (scalar as u8) < 0x80,
        (scalar as u8) as u32 == scalar,
{
}

/// A character below U+0080 is encoded as the one byte of that value; every
/// byte in the encoding of any other character is `0x80` or above.
pub proof fn lemma_encode_scalar_bytes(c: char)
    ensures
        c as u32 <= 0x7F ==> encode_scalar(c as u32) == seq![c as u8],
        c as u32 > 0x7F ==> forall|i: int|
            0 <= i < encode_scalar(c as u32).len() ==> #[trigger] encode_scalar(c as u32)[i]
                >= 0x80,
        1 <= encode_scalar(c as u32).len() <= 4,
{
    let scalar = c as u32;
    char_is_scalar(c);
    if has_width_1_encoding(scalar) {
        lemma_low_scalar(scalar);
    } else {
        lemma_marked_bytes((scalar & 0x3F) as u8);
        lemma_marked_bytes(((scalar >> 6) & 0x3F) as u8);
        lemma_marked_bytes(((scalar >> 12) & 0x3F) as u8);
        lemma_marked_bytes(((scalar >> 6) & 0x1F) as u8);
        lemma_marked_bytes(((scalar >> 12) & 0x0F) as u8);
        lemma_marked_bytes(((scalar >> 18) & 0x7) as u8);
    }
}

/// The encoding of a concatenation is the concatenation of the encodings.
pub proof fn lemma_encode_concat(a: Seq<char>, b: Seq<char>)
    ensures
        encode_utf8(a + b) == encode_utf8(a) + encode_utf8(b),
    decreases a.len(),
{
    if a.len() == 0 {
        assert(a + b =~= b);
        assert(encode_utf8(a) + encode_utf8(b) =~= encode_utf8(b));
    } else {
        lemma_encode_concat(a.drop_first(), b);
        assert((a + b).drop_first() =~= a.drop_first() + b);
        assert(encode_scalar(a[0] as u32) + (encode_utf8(a.drop_first()) + encode_utf8(b))
            =~= encode_scalar(a[0] as u32) + encode_utf8(a.drop_first()) + encode_utf8(b));
    }
}

/// The encoding of a single character.
pub proof fn lemma_encode_one(c: char)
    ensures
        encode_utf8(seq![c]) == encode_scalar(c as u32),
{
    reveal_with_fuel(encode_utf8, 2);
    assert(seq![c].drop_first() =~= Seq::<char>::empty());
    assert(encode_scalar(c as u32) + Seq::<u8>::empty() =~= encode_scalar(c as u32));
}

/// An encoding has at least one byte for each character, so only the empty
/// text has an empty encoding.
pub proof fn lemma_encode_len(cs: Seq<char>)
    ensures
        encode_utf8(cs).len() >= cs.len(),
    decreases cs.len(),
{
    if cs.len() > 0 {
        lemma_encode_scalar_bytes(cs[0]);
        lemma_encode_len(cs.drop_first());
    }
}

/// A byte below `0x80` stands in the encoding of a character only if it is
/// that character.
proof fn lemma_plain_byte_is_char(c: char, mark: char, i: int)
    requires
        mark as u32 <= 0x7F,
        0 <= i < encode_scalar(c as u32).len(),
        encode_scalar(c as u32)[i] == mark as u8,
    ensures
        c == mark,
{
    lemma_encode_scalar_bytes(c);
    lemma_low_scalar(mark as u32);
    if c as u32 <= 0x7F {
        lemma_low_scalar(c as u32);
    }
}

/// The first line feed of a text stands, in the encoding, right after the
/// encoding of what precedes it.
pub proof fn lemma_first_break_encoded(cs: Seq<char>)
    ensures
        first_break(encode_utf8(cs), LF) == encode_utf8(cs.take(first_break(cs, '\n'))).len(),
    decreases cs.len(),
{
    if cs.len() == 0 {
        assert(cs.take(0) =~= cs);
    } else {
        let c = cs[0];
        let tail = cs.drop_first();
        let head_bytes = encode_scalar(c as u32);
        let tail_bytes = encode_utf8(tail);
        let bytes = encode_utf8(cs);
        assert(bytes == head_bytes + tail_bytes);
        lemma_encode_scalar_bytes(c);
        if c == '\n' {
            assert(bytes[0] == LF);
            assert(cs.take(0) =~= Seq::<char>::empty());
        } else {
            lemma_first_break_encoded(tail);
            lemma_first_break(tail_bytes, LF);
            let end = head_bytes.len() + first_break(tail_bytes, LF);
            assert forall|i: int| 0 <= i < end implies bytes[i] != LF by {
                if i < head_bytes.len() {
                    if head_bytes[i] == LF {
                        lemma_plain_byte_is_char(c, '\n', i);
                    }
                } else {
                    assert(bytes[i] == tail_bytes[i - head_bytes.len()]);
                }
            }
            if end < bytes.len() {
                assert(bytes[end] == tail_bytes[end - head_bytes.len()]);
            }
            lemma_first_break_unique(bytes, LF, end);
            let kept = tail.take(first_break(tail, '\n'));
            lemma_first_break(tail, '\n');
            assert(cs.take(first_break(cs, '\n')) =~= seq![c] + kept);
            lemma_encode_concat(seq![c], kept);
            lemma_encode_one(c);
        }
    }
}

/// Dropping a trailing carriage return from a line and encoding it come to
/// the same in either order.
pub proof fn lemma_without_trailing_encoded(line: Seq<char>)
    ensures
        without_trailing(encode_utf8(line), CR) == encode_utf8(without_trailing(line, '\r')),
{
    if line.len() > 0 {
        let c = line.last();
        let init = line.drop_last();
        let last_bytes = encode_scalar(c as u32);
        assert(line =~= init + seq![c]);
        lemma_encode_concat(init, seq![c]);
        lemma_encode_one(c);
        lemma_encode_scalar_bytes(c);
        let bytes = encode_utf8(line);
        assert(bytes.last() == last_bytes.last());
        if c == '\r' {
            assert(bytes.drop_last() =~= encode_utf8(init));
        } else if bytes.last() == CR {
            lemma_plain_byte_is_char(c, '\r', last_bytes.len() - 1);
        }
    }
}

/// The first line of an encoded text is the encoding of the text's first
/// line, and what follows it is the encoding of what follows that line.
pub proof fn lemma_first_line_encoded(cs: Seq<char>)
    requires
        cs.len() > 0,
    ensures
        encode_utf8(cs).len() > 0,
        first_line(encode_utf8(cs), LF, CR) == encode_utf8(first_line(cs, '\n', '\r')),
        after_first_line(encode_utf8(cs), LF) == encode_utf8(after_first_line(cs, '\n')),
{
    let end = first_break(cs, '\n');
    let bytes = encode_utf8(cs);
    lemma_encode_len(cs);
    lemma_first_break(cs, '\n');
    lemma_first_break_encoded(cs);
    if end < cs.len() {
        let before = cs.take(end);
        let after = cs.skip(end + 1);
        assert(cs =~= before + seq!['\n'] + after);
        lemma_encode_concat(before + seq!['\n'], after);
        lemma_encode_concat(before, seq!['\n']);
        lemma_encode_one('\n');
        lemma_encode_scalar_bytes('\n');
        assert(bytes == encode_utf8(before) + seq![LF] + encode_utf8(after));
        let cut = encode_utf8(before).len() as int;
        assert(bytes.take(cut) =~= encode_utf8(before));
        assert(bytes.skip(cut + 1) =~= encode_utf8(after));
        lemma_without_trailing_encoded(before);
    } else {
        assert(cs.take(end) =~= cs);
    }
}

/// Encodes one line: the step from the lines of a text to the lines of its
/// encoding.
pub open spec fn encoded() -> spec_fn(Seq<char>) -> Seq<u8> {
    |line: Seq<char>| encode_utf8(line)
}

/// The lines of an encoded text are the encoded lines of the text.
pub proof fn lemma_lines_encoded(cs: Seq<char>)
    ensures
        lines(encode_utf8(cs), LF, CR) == lines(cs, '\n', '\r').map_values(encoded()),
    decreases cs.len(),
{
    if cs.len() == 0 {
        assert(lines(cs, '\n', '\r').map_values(encoded()) =~= Seq::<Seq<u8>>::empty());
    } else {
        lemma_first_line_encoded(cs);
        lemma_first_break(cs, '\n');
        let rest = after_first_line(cs, '\n');
        lemma_lines_encoded(rest);
        assert((seq![first_line(cs, '\n', '\r')] + lines(rest, '\n', '\r')).map_values(encoded())
            =~= seq![encode_utf8(first_line(cs, '\n', '\r'))] + lines(rest, '\n', '\r').map_values(
            encoded(),
        ));
    }
}

/// Where one well-formed byte sequence begins with another, the longer one
/// has a character boundary at the end of the shorter.
proof fn lemma_boundary_after_prefix(part: Seq<u8>, whole: Seq<u8>)
    requires
        valid_utf8(part),
        valid_utf8(whole),
        part.is_prefix_of(whole),
    ensures
        is_char_boundary(whole, part.len() as int),
    decreases part.len(),
{
    if part.len() > 0 {
        assert(part[0] == whole[0]);
        let width = length_of_first_scalar(part);
        assert(width == length_of_first_scalar(whole));
        assert(width <= part.len());
        let part_rest = pop_first_scalar(part);
        let whole_rest = pop_first_scalar(whole);
        assert(part_rest =~= whole_rest.subrange(0, part.len() - width));
        lemma_boundary_after_prefix(part_rest, whole_rest);
    }
}

/// A pattern occurs in a text exactly when its encoding occurs in the
/// encoding of the text: an occurrence among the bytes never begins or ends
/// inside a character.
pub proof fn lemma_occurs_encoded(pat: Seq<char>, hay: Seq<char>)
    ensures
        occurs_in(encode_utf8(pat), encode_utf8(hay)) <==> occurs_in(pat, hay),
{
    let pat_bytes = encode_utf8(pat);
    let hay_bytes = encode_utf8(hay);
    encode_utf8_valid_utf8(pat);
    encode_utf8_valid_utf8(hay);
    encode_utf8_decode_utf8(pat);
    encode_utf8_decode_utf8(hay);
    if occurs_in(pat, hay) {
        let at = choose|at: int| occurs_at(pat, hay, at);
        let before = hay.take(at);
        let after = hay.skip(at + pat.len());
        assert(hay =~= before + pat + after);
        lemma_encode_concat(before + pat, after);
        lemma_encode_concat(before, pat);
        let at_byte = encode_utf8(before).len() as int;
        assert(hay_bytes.subrange(at_byte, at_byte + pat_bytes.len()) =~= pat_bytes);
        assert(occurs_at(pat_bytes, hay_bytes, at_byte));
    }
    if occurs_in(pat_bytes, hay_bytes) {
        if pat.len() == 0 {
            assert(hay.subrange(0, 0) =~= pat);
            assert(occurs_at(pat, hay, 0));
        } else {
            lemma_encode_len(pat);
            let at_byte = choose|at: int| occurs_at(pat_bytes, hay_bytes, at);
            let end_byte = hay_bytes.len() as int;
            assert(hay_bytes[at_byte] == hay_bytes.subrange(at_byte, at_byte + pat_bytes.len())[0]);
            is_char_boundary_iff_not_is_continuation_byte(pat_bytes, 0);
            is_char_boundary_iff_not_is_continuation_byte(hay_bytes, at_byte);
            valid_utf8_split(hay_bytes, at_byte);
            decode_utf8_split(hay_bytes, at_byte);
            let before_bytes = hay_bytes.subrange(0, at_byte);
            let from_bytes = hay_bytes.subrange(at_byte, end_byte);
            assert(pat_bytes =~= from_bytes.subrange(0, pat_bytes.len() as int));
            lemma_boundary_after_prefix(pat_bytes, from_bytes);
            decode_utf8_split(from_bytes, pat_bytes.len() as int);
            let before = decode_utf8(before_bytes);
            let after = decode_utf8(from_bytes.subrange(pat_bytes.len() as int, from_bytes.len() as int));
            let at = before.len() as int;
            assert(hay == before + (pat + after));
            assert(hay.subrange(at, at + pat.len()) =~= pat);
            assert(occurs_at(pat, hay, at));
        }
    }
}

/// Choosing the lines in which a pattern occurs and encoding them come to
/// the same in either order.
proof fn lemma_filter_encoded(ls: Seq<Seq<char>>, pat: Seq<char>)
    ensures
        ls.map_values(encoded()).filter(holds(encode_utf8(pat))) == ls.filter(
            holds(pat),
        ).map_values(encoded()),
    decreases ls.len(),
{
    reveal(Seq::filter);
    let bytes = ls.map_values(encoded());
    if ls.len() == 0 {
        assert(ls.filter(holds(pat)).map_values(encoded()) =~= Seq::<Seq<u8>>::empty());
    } else {
        let init = ls.drop_last();
        lemma_filter_encoded(init, pat);
        lemma_occurs_encoded(pat, ls.last());
        assert(bytes.drop_last() =~= init.map_values(encoded()));
        assert(bytes.last() == encode_utf8(ls.last()));
        if occurs_in(pat, ls.last()) {
            assert(init.filter(holds(pat)).push(ls.last()).map_values(encoded()) =~= init.filter(
                holds(pat),
            ).map_values(encoded()).push(encode_utf8(ls.last())));
        }
    }
}

/// Writing lines out one after the other, each with its line feed, and
/// encoding them come to the same in either order.
proof fn lemma_flatten_encoded(ls: Seq<Seq<char>>)
    ensures
        ls.map_values(encoded()).map_values(terminated(LF)).flatten() == encode_utf8(
            ls.map_values(terminated('\n')).flatten(),
        ),
    decreases ls.len(),
{
    let bytes = ls.map_values(encoded()).map_values(terminated(LF));
    let chars = ls.map_values(terminated('\n'));
    if ls.len() > 0 {
        let rest = ls.drop_first();
        lemma_flatten_encoded(rest);
        assert(bytes.drop_first() =~= rest.map_values(encoded()).map_values(terminated(LF)));
        assert(chars.drop_first() =~= rest.map_values(terminated('\n')));
        lemma_encode_concat(chars.first(), chars.drop_first().flatten());
        assert(chars.first() =~= ls[0] + seq!['\n']);
        lemma_encode_concat(ls[0], seq!['\n']);
        lemma_encode_one('\n');
        lemma_encode_scalar_bytes('\n');
        assert(bytes.first() =~= encode_utf8(ls[0]) + seq![LF]);
    }
}

/// A search among the bytes of a text finds the lines that a search among
/// its characters finds, and reports them encoded.
pub proof fn lemma_search_encoded(text: Seq<char>, pat: Seq<char>)
    ensures
        lines(encode_utf8(text), LF, CR) == lines(text, '\n', '\r').map_values(encoded()),
        matching_lines(encode_utf8(text), encode_utf8(pat), LF, CR) == matching_lines(
            text,
            pat,
            '\n',
            '\r',
        ).map_values(encoded()),
        report(encode_utf8(text), encode_utf8(pat), LF, CR) == encode_utf8(
            report(text, pat, '\n', '\r'),
        ),
{
    lemma_lines_encoded(text);
    lemma_filter_encoded(lines(text, '\n', '\r'), pat);
    lemma_flatten_encoded(matching_lines(text, pat, '\n', '\r'));
}

} // verus!
