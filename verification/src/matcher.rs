//! The search itself: a single pass over the bytes of a text, line by line.
//!
//! The contract of [`find_matches`] speaks of the text as characters; the
//! code reads its UTF-8 bytes. The module `encoding` shows that the two
//! come to the same.

use vstd::prelude::*;
use vstd::slice::slice_subrange;
use vstd::utf8::encode_utf8;
use crate::encoding::{lemma_search_encoded, CR, LF};
use crate::sink::{Sink, WriteError};
use crate::text::{
    after_first_line, first_line, lemma_empty_pattern_matches_every_line, lemma_first_break_unique,
    lemma_first_line_in_place, lemma_report_is_empty_iff_no_match, lemma_report_of_empty,
    lemma_report_unfold, lines, matching_lines, occurs_at, occurs_in, report, terminated,
};

verus! {

/// The lines of `content` in which `pattern` occurs, in the order of the
/// text.
pub open spec fn matched_lines(content: Seq<char>, pattern: Seq<char>) -> Seq<Seq<char>> {
    matching_lines(content, pattern, '\n', '\r')
}

/// The bytes that a search for `pattern` in `content` writes: the UTF-8
/// encoding of each matching line followed by one line feed.
pub open spec fn output(content: Seq<char>, pattern: Seq<char>) -> Seq<u8> {
    encode_utf8(report(content, pattern, '\n', '\r'))
}

/// How a search for `pattern` in `content` may end, for a sink that held
/// `before` when the search began and holds `after` when it ends.
///
/// A search that succeeds has appended the whole output and returns whether
/// any line matched. A search fails only when the sink refuses a write, so
/// only when some line matched; the sink then holds some first part of the
/// output after what it held before.
pub open spec fn search_outcome(
    content: Seq<char>,
    pattern: Seq<char>,
    before: Seq<u8>,
    after: Seq<u8>,
    outcome: Result<bool, WriteError>,
) -> bool {
    match outcome {
        Ok(found) => {
            &&& after == before + output(content, pattern)
            &&& found == (matched_lines(content, pattern).len() > 0)
        },
        Err(_) => {
            &&& matched_lines(content, pattern).len() > 0
            &&& before.is_prefix_of(after)
            &&& after.is_prefix_of(before + output(content, pattern))
        },
    }
}

/// Whether `pat` stands in `hay` at index `at`.
fn stands_at(hay: &[u8], pat: &[u8], at: usize) -> (found: bool)
    requires
        at + pat@.len() <= hay@.len(),
    ensures
        found == occurs_at(pat@, hay@, at as int),
{
    let len = pat.len();
    let room = hay.len();
    let mut i: usize = 0;
    while i < len
        invariant
            len == pat@.len(),
            room == hay@.len(),
            i <= len,
            at + len <= room,
            forall|j: int| 0 <= j < i ==> hay@[at + j] == pat@[j],
        decreases len - i,
    {
        if hay[at + i] != pat[i] {
            assert(hay@.subrange(at as int, at + pat@.len())[i as int] != pat@[i as int]);
            return false;
        }
        i += 1;
    }
    assert(hay@.subrange(at as int, at + pat@.len()) =~= pat@);
    true
}

/// Whether `pat` occurs somewhere in `hay`.
pub fn contains(hay: &[u8], pat: &[u8]) -> (found: bool)
    ensures
        found == occurs_in(pat@, hay@),
{
    if pat.len() > hay.len() {
        return false;
    }
    let last: usize = hay.len() - pat.len();
    let mut at: usize = 0;
    loop
        invariant
            at <= last,
            last + pat@.len() == hay@.len(),
            forall|k: int| 0 <= k < at ==> !occurs_at(pat@, hay@, k),
        decreases last - at,
    {
        if stands_at(hay, pat, at) {
            return true;
        }
        if at == last {
            return false;
        }
        at += 1;
    }
}

/// Where the line that begins at `start` ends, and where the next one begins:
/// the line is `text[start..stop]`, without its terminator.
fn next_line(text: &[u8], start: usize) -> (bounds: (usize, usize))
    requires
        start < text@.len(),
    ensures
        start <= bounds.0 <= bounds.1 <= text@.len(),
        start < bounds.1,
        text@.subrange(start as int, bounds.0 as int) == first_line(text@.skip(start as int), LF, CR),
        text@.skip(bounds.1 as int) == after_first_line(text@.skip(start as int), LF),
{
    let len = text.len();
    let mut end: usize = start;
    while end < len && text[end] != LF
        invariant
            len == text@.len(),
            start <= end <= len,
            forall|i: int| start <= i < end ==> text@[i] != LF,
        decreases len - end,
    {
        end += 1;
    }
    proof {
        lemma_first_break_unique(text@.skip(start as int), LF, end - start);
        lemma_first_line_in_place(text@, LF, CR, start as int, end as int);
    }
    if end == len {
        (end, end)
    } else if start < end && text[end - 1] == CR {
        (end - 1, end + 1)
    } else {
        (end, end + 1)
    }
}

/// What a sink holds after a write that may have stopped part-way through
/// `chunk`, seen from the start of a longer output: it still begins with what
/// it held at first, and holds no more than the whole output after that.
proof fn lemma_partial_output(
    at_first: Seq<u8>,
    done: Seq<u8>,
    chunk: Seq<u8>,
    more: Seq<u8>,
    now: Seq<u8>,
)
    requires
        (at_first + done).is_prefix_of(now),
        now.is_prefix_of(at_first + done + chunk),
    ensures
        at_first.is_prefix_of(now),
        now.is_prefix_of(at_first + (done + chunk + more)),
{
    let whole = at_first + (done + chunk + more);
    assert(at_first =~= (at_first + done).subrange(0, at_first.len() as int));
    assert(at_first =~= now.subrange(0, at_first.len() as int));
    assert(now =~= whole.subrange(0, now.len() as int)) by {
        assert(now =~= (at_first + done + chunk).subrange(0, now.len() as int));
    }
}

/// Writes `line` and one line feed after it.
fn write_line<W: Sink>(writer: &mut W, line: &[u8]) -> (outcome: Result<(), WriteError>)
    ensures
        outcome is Ok ==> final(writer).written() == old(writer).written() + line@.push(LF),
        outcome is Err ==> old(writer).written().is_prefix_of(final(writer).written())
            && final(writer).written().is_prefix_of(old(writer).written() + line@.push(LF)),
        W::never_fails() ==> outcome is Ok,
{
    let line_feed: [u8; 1] = [LF];
    match writer.write_all(line) {
        Ok(()) => {},
        Err(e) => {
            proof {
                lemma_partial_output(
                    old(writer).written(),
                    Seq::empty(),
                    line@,
                    seq![LF],
                    writer.written(),
                );
                assert(Seq::<u8>::empty() + line@ + seq![LF] =~= line@.push(LF));
            }
            return Err(e);
        },
    }
    match writer.write_all(line_feed.as_slice()) {
        Ok(()) => {
            assert(old(writer).written() + line@ + seq![LF] =~= old(writer).written() + line@.push(
                LF,
            ));
            Ok(())
        },
        Err(e) => {
            proof {
                lemma_partial_output(
                    old(writer).written(),
                    line@,
                    seq![LF],
                    Seq::empty(),
                    writer.written(),
                );
                assert(line@ + seq![LF] + Seq::<u8>::empty() =~= line@.push(LF));
            }
            Err(e)
        },
    }
}

/// Writes every line of `content` in which `pattern` occurs to `writer`, in
/// the order of the text, each followed by one line feed, and tells whether
/// there was such a line. The first write that `writer` refuses ends the
/// search.
pub fn find_matches<W: Sink>(content: &str, pattern: &str, writer: &mut W) -> (outcome: Result<
    bool,
    WriteError,
>)
    ensures
        search_outcome(
            content@,
            pattern@,
            old(writer).written(),
            final(writer).written(),
            outcome,
        ),
        W::never_fails() || matched_lines(content@, pattern@).len() == 0 ==> outcome is Ok,
        content@.len() == 0 ==> {
            &&& outcome == Ok::<bool, WriteError>(false)
            &&& final(writer).written() == old(writer).written()
        },
{
    let text = content.as_bytes();
    let pat = pattern.as_bytes();
    let mut start: usize = 0;
    let mut is_matched = false;
    let ghost total = report(text@, pat@, LF, CR);
    let ghost emitted: Seq<u8> = Seq::empty();
    proof {
        lemma_search_encoded(content@, pattern@);
        lemma_report_is_empty_iff_no_match(text@, pat@, LF, CR);
        lemma_report_of_empty(pattern@, '\n', '\r');
        assert(text@.skip(0) =~= text@);
    }
    while start < text.len()
        invariant
            start <= text@.len(),
            total == output(content@, pattern@),
            total.len() > 0 <==> matched_lines(content@, pattern@).len() > 0,
            total == emitted + report(text@.skip(start as int), pat@, LF, CR),
            writer.written() == old(writer).written() + emitted,
            is_matched == (emitted.len() > 0),
        decreases text@.len() - start,
    {
        let (stop, next) = next_line(text, start);
        let line = slice_subrange(text, start, stop);
        proof {
            lemma_report_unfold(text@.skip(start as int), pat@, LF, CR);
        }
        if contains(line, pat) {
            let ghost more = report(text@.skip(next as int), pat@, LF, CR);
            match write_line(writer, line) {
                Ok(()) => {
                    is_matched = true;
                    proof {
                        emitted = emitted + line@.push(LF);
                    }
                },
                Err(e) => {
                    proof {
                        lemma_partial_output(
                            old(writer).written(),
                            emitted,
                            line@.push(LF),
                            more,
                            writer.written(),
                        );
                    }
                    return Err(e);
                },
            }
        }
        start = next;
    }
    proof {
        lemma_report_of_empty(pat@, LF, CR);
        assert(text@.skip(start as int) =~= Seq::<u8>::empty());
    }
    Ok(is_matched)
}

/// A search for the empty pattern finds every line of the text and writes
/// each of them.
pub proof fn lemma_empty_pattern_finds_every_line(content: Seq<char>)
    ensures
        matched_lines(content, Seq::empty()) == lines(content, '\n', '\r'),
        output(content, Seq::empty()) == encode_utf8(
            lines(content, '\n', '\r').map_values(terminated('\n')).flatten(),
        ),
{
    lemma_empty_pattern_matches_every_line(content, '\n', '\r');
}

/// A search in the empty text finds no line, writes nothing, and succeeds
/// with `false`, whatever the pattern and the sink.
pub proof fn lemma_empty_content_finds_nothing(
    pattern: Seq<char>,
    before: Seq<u8>,
    after: Seq<u8>,
    outcome: Result<bool, WriteError>,
)
    requires
        search_outcome(Seq::empty(), pattern, before, after, outcome),
    ensures
        matched_lines(Seq::empty(), pattern).len() == 0,
        output(Seq::empty(), pattern).len() == 0,
        outcome == Ok::<bool, WriteError>(false),
        after == before,
{
    lemma_report_of_empty(pattern, '\n', '\r');
    assert(before + Seq::<u8>::empty() =~= before);
}

/// The flag that a successful search returns tells whether a line was
/// written: it is `true` exactly when some line matched, and exactly when the
/// sink has grown.
pub proof fn lemma_flag_tells_whether_written(
    content: Seq<char>,
    pattern: Seq<char>,
    before: Seq<u8>,
    after: Seq<u8>,
    found: bool,
)
    requires
        search_outcome(content, pattern, before, after, Ok(found)),
    ensures
        found == (matched_lines(content, pattern).len() > 0),
        found == (after.len() > before.len()),
{
    lemma_search_encoded(content, pattern);
    lemma_report_is_empty_iff_no_match(encode_utf8(content), encode_utf8(pattern), LF, CR);
}

/// Two successful searches for the same pattern in the same text, into sinks
/// that held the same bytes before, leave the same bytes in both and return
/// the same flag.
pub proof fn lemma_search_is_repeatable(
    content: Seq<char>,
    pattern: Seq<char>,
    before: Seq<u8>,
    first_after: Seq<u8>,
    first_found: bool,
    second_after: Seq<u8>,
    second_found: bool,
)
    requires
        search_outcome(content, pattern, before, first_after, Ok(first_found)),
        search_outcome(content, pattern, before, second_after, Ok(second_found)),
    ensures
        first_after == second_after,
        first_found == second_found,
{
}

} // verus!
