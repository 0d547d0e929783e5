//! The mathematical model of a text: where its lines begin and end, what it
//! means for a pattern to occur in a line, and what a search reports.
//!
//! Everything here is stated over `Seq<T>` with the line feed `lf` and the
//! carriage return `cr` as parameters, so that one definition serves a text
//! seen as characters (`'\n'`, `'\r'`) and the same text seen as bytes
//! (`0x0A`, `0x0D`).
//!
//! A line ends at a line feed. A carriage return directly before that line
//! feed belongs to the terminator. The last line needs no terminator; when it
//! has none, a carriage return at its end stays part of the line. A text that
//! ends in a terminator has no empty line after it.

use vstd::prelude::*;

verus! {

/// `pat` occurs in `hay` as a contiguous run of elements starting at `at`.
pub open spec fn occurs_at<T>(pat: Seq<T>, hay: Seq<T>, at: int) -> bool {
    &&& 0 <= at
    &&& at + pat.len() <= hay.len()
    &&& hay.subrange(at, at + pat.len()) == pat
}

/// `pat` occurs somewhere in `hay`.
pub open spec fn occurs_in<T>(pat: Seq<T>, hay: Seq<T>) -> bool {
    exists|at: int| occurs_at(pat, hay, at)
}

/// The index of the first `lf` in `s`, or `s.len()` if there is none.
pub open spec fn first_break<T>(s: Seq<T>, lf: T) -> int
    decreases s.len(),
{
    if s.len() == 0 || s[0] == lf {
        0
    } else {
        1 + first_break(s.drop_first(), lf)
    }
}

/// `line` without one `cr` at its end, if it ends in one.
pub open spec fn without_trailing<T>(line: Seq<T>, cr: T) -> Seq<T> {
    if line.len() > 0 && line.last() == cr {
        line.drop_last()
    } else {
        line
    }
}

/// The first line of a non-empty `s`, without its terminator.
pub open spec fn first_line<T>(s: Seq<T>, lf: T, cr: T) -> Seq<T> {
    let end = first_break(s, lf);
    if 0 <= end < s.len() {
        without_trailing(s.take(end), cr)
    } else {
        s
    }
}

/// What follows the first line of `s` and its terminator.
pub open spec fn after_first_line<T>(s: Seq<T>, lf: T) -> Seq<T> {
    let end = first_break(s, lf);
    if 0 <= end < s.len() {
        s.skip(end + 1)
    } else {
        Seq::empty()
    }
}

/// The lines of `s`, in order, each without its terminator.
pub open spec fn lines<T>(s: Seq<T>, lf: T, cr: T) -> Seq<Seq<T>>
    decreases s.len(),
{
    if s.len() == 0 {
        Seq::empty()
    } else {
        seq![first_line(s, lf, cr)] + lines(after_first_line(s, lf), lf, cr)
    }
}

/// The test a line has to pass to be reported: `pat` occurs in it.
pub open spec fn holds<T>(pat: Seq<T>) -> spec_fn(Seq<T>) -> bool {
    |line: Seq<T>| occurs_in(pat, line)
}

/// How a reported line is written: followed by one `lf`.
pub open spec fn terminated<T>(lf: T) -> spec_fn(Seq<T>) -> Seq<T> {
    |line: Seq<T>| line.push(lf)
}

/// The lines of `s` in which `pat` occurs, in the order in which they stand
/// in `s`.
pub open spec fn matching_lines<T>(s: Seq<T>, pat: Seq<T>, lf: T, cr: T) -> Seq<Seq<T>> {
    lines(s, lf, cr).filter(holds(pat))
}

/// What a search for `pat` in `s` writes: each matching line followed by one
/// `lf`, one after the other.
pub open spec fn report<T>(s: Seq<T>, pat: Seq<T>, lf: T, cr: T) -> Seq<T> {
    matching_lines(s, pat, lf, cr).map_values(terminated(lf)).flatten()
}

/// `first_break` returns an index up to `s.len()`; no `lf` stands before it,
/// and one stands at it unless it is `s.len()`.
pub proof fn lemma_first_break<T>(s: Seq<T>, lf: T)
    ensures
        0 <= first_break(s, lf) <= s.len(),
        forall|i: int| 0 <= i < first_break(s, lf) ==> s[i] != lf,
        first_break(s, lf) < s.len() ==> s[first_break(s, lf)] == lf,
    decreases s.len(),
{
    if s.len() == 0 || s[0] == lf {
    } else {
        let tail = s.drop_first();
        lemma_first_break(tail, lf);
        let end = first_break(tail, lf);
        assert(first_break(s, lf) == 1 + end);
        assert forall|i: int| 0 <= i < 1 + end implies s[i] != lf by {
            if i > 0 {
                assert(s[i] == tail[i - 1]);
            }
        }
        if end < tail.len() {
            assert(s[1 + end] == tail[end]);
        }
    }
}

/// An index with the three properties of `lemma_first_break` is the first
/// break.
pub proof fn lemma_first_break_unique<T>(s: Seq<T>, lf: T, end: int)
    requires
        0 <= end <= s.len(),
        forall|i: int| 0 <= i < end ==> s[i] != lf,
        end < s.len() ==> s[end] == lf,
    ensures
        first_break(s, lf) == end,
{
    lemma_first_break(s, lf);
    let found = first_break(s, lf);
    if found < end {
        assert(s[found] == lf);
    } else if end < found {
        assert(s[end] == lf);
    }
}

/// Where the first line of the part of `s` that begins at `start` lies in
/// `s` itself, given the index `end` of the first `lf` at or after `start`:
/// the line is `s[start..stop]`, and what follows it begins at `next`.
pub proof fn lemma_first_line_in_place<T>(s: Seq<T>, lf: T, cr: T, start: int, end: int)
    requires
        0 <= start < s.len(),
        start <= end <= s.len(),
        end - start == first_break(s.skip(start), lf),
    ensures
        first_line(s.skip(start), lf, cr) == s.subrange(
            start,
            if end < s.len() && start < end && s[end - 1] == cr {
                end - 1
            } else {
                end
            },
        ),
        after_first_line(s.skip(start), lf) == s.skip(
            if end < s.len() {
                end + 1
            } else {
                end
            },
        ),
{
    let rest = s.skip(start);
    if end < s.len() {
        assert(rest.take(end - start) =~= s.subrange(start, end));
        if start < end && s[end - 1] == cr {
            assert(s.subrange(start, end).drop_last() =~= s.subrange(start, end - 1));
        }
        assert(rest.skip(end - start + 1) =~= s.skip(end + 1));
    } else {
        assert(rest =~= s.subrange(start, end));
        assert(s.skip(end) =~= Seq::<T>::empty());
    }
}

/// A search in the empty text reports nothing.
pub proof fn lemma_report_of_empty<T>(pat: Seq<T>, lf: T, cr: T)
    ensures
        lines(Seq::<T>::empty(), lf, cr) == Seq::<Seq<T>>::empty(),
        matching_lines(Seq::<T>::empty(), pat, lf, cr) == Seq::<Seq<T>>::empty(),
        report(Seq::<T>::empty(), pat, lf, cr) == Seq::<T>::empty(),
{
    reveal(Seq::filter);
    let none = Seq::<Seq<T>>::empty();
    assert(none.filter(holds(pat)) == none);
    assert(none.map_values(terminated(lf)) =~= none);
}

/// The report of a non-empty text is what its first line contributes,
/// followed by the report of what comes after that line.
pub proof fn lemma_report_unfold<T>(s: Seq<T>, pat: Seq<T>, lf: T, cr: T)
    requires
        s.len() > 0,
    ensures
        matching_lines(s, pat, lf, cr) == (if occurs_in(pat, first_line(s, lf, cr)) {
            seq![first_line(s, lf, cr)]
        } else {
            Seq::empty()
        }) + matching_lines(after_first_line(s, lf), pat, lf, cr),
        report(s, pat, lf, cr) == (if occurs_in(pat, first_line(s, lf, cr)) {
            first_line(s, lf, cr).push(lf)
        } else {
            Seq::empty()
        }) + report(after_first_line(s, lf), pat, lf, cr),
{
    let head = seq![first_line(s, lf, cr)];
    let tail = lines(after_first_line(s, lf), lf, cr);
    let kept_head = head.filter(holds(pat));
    let kept_tail = tail.filter(holds(pat));
    assert(lines(s, lf, cr) == head + tail);
    Seq::filter_distributes_over_add(head, tail, holds(pat));
    assert(kept_head == if occurs_in(pat, first_line(s, lf, cr)) {
        head
    } else {
        Seq::empty()
    }) by {
        reveal_with_fuel(Seq::filter, 2);
        assert(head.drop_last() =~= Seq::<Seq<T>>::empty());
        assert(Seq::<Seq<T>>::empty().push(head.last()) =~= head);
    }
    assert((kept_head + kept_tail).map_values(terminated(lf)) =~= kept_head.map_values(
        terminated(lf),
    ) + kept_tail.map_values(terminated(lf)));
    vstd::seq_lib::lemma_flatten_concat(
        kept_head.map_values(terminated(lf)),
        kept_tail.map_values(terminated(lf)),
    );
    if occurs_in(pat, first_line(s, lf, cr)) {
        assert(kept_head.map_values(terminated(lf)) =~= seq![first_line(s, lf, cr).push(lf)]);
        seq![first_line(s, lf, cr).push(lf)].lemma_flatten_one_element();
    } else {
        assert(kept_head.map_values(terminated(lf)) =~= Seq::<Seq<T>>::empty());
    }
}

/// Where the elements that pass a test stand: the positions, in rising
/// order, of the elements of `s` that `s.filter(pred)` keeps.
proof fn lemma_filter_positions<A>(s: Seq<A>, pred: spec_fn(A) -> bool) -> (at: Seq<int>)
    ensures
        at.len() == s.filter(pred).len(),
        forall|k: int|
            0 <= k < at.len() ==> 0 <= #[trigger] at[k] < s.len() && s[at[k]] == s.filter(pred)[k],
        forall|j: int, k: int| 0 <= j < k < at.len() ==> at[j] < at[k],
        forall|i: int| 0 <= i < s.len() ==> (at.contains(i) <==> pred(#[trigger] s[i])),
    decreases s.len(),
{
    reveal(Seq::filter);
    if s.len() == 0 {
        Seq::empty()
    } else {
        let init = s.drop_last();
        let last = s.len() - 1;
        let init_at = lemma_filter_positions(init, pred);
        let at = if pred(s.last()) {
            init_at.push(last)
        } else {
            init_at
        };
        assert forall|i: int| 0 <= i < s.len() implies (at.contains(i) <==> pred(
            #[trigger] s[i],
        )) by {
            if i < last {
                assert(s[i] == init[i]);
                if init_at.contains(i) {
                    let k = choose|k: int| 0 <= k < init_at.len() && init_at[k] == i;
                    assert(at[k] == i);
                }
                if at.contains(i) {
                    let k = choose|k: int| 0 <= k < at.len() && at[k] == i;
                    assert(init_at[k] == i);
                }
            } else {
                if pred(s.last()) {
                    assert(at[at.len() - 1] == last);
                }
                if at.contains(i) {
                    let k = choose|k: int| 0 <= k < at.len() && at[k] == i;
                    if k < init_at.len() {
                        assert(init_at[k] < init.len());
                    }
                }
            }
        }
        at
    }
}

/// The matching lines are the lines of the text in which the pattern occurs,
/// each as often as it stands in the text and in the order of the text.
/// `at` gives for each matching line its position among the lines of the
/// text: the positions rise, and they are those of the lines in which the
/// pattern occurs.
pub proof fn lemma_matching_lines_positions<T>(s: Seq<T>, pat: Seq<T>, lf: T, cr: T) -> (at: Seq<
    int,
>)
    ensures
        at.len() == matching_lines(s, pat, lf, cr).len(),
        forall|k: int|
            0 <= k < at.len() ==> 0 <= #[trigger] at[k] < lines(s, lf, cr).len() && lines(
                s,
                lf,
                cr,
            )[at[k]] == matching_lines(s, pat, lf, cr)[k],
        forall|j: int, k: int| 0 <= j < k < at.len() ==> at[j] < at[k],
        forall|i: int|
            0 <= i < lines(s, lf, cr).len() ==> (at.contains(i) <==> occurs_in(
                pat,
                #[trigger] lines(s, lf, cr)[i],
            )),
{
    lemma_filter_positions(lines(s, lf, cr), holds(pat))
}

/// A test that every element passes keeps the whole sequence.
proof fn lemma_filter_keeps_all<A>(s: Seq<A>, pred: spec_fn(A) -> bool)
    requires
        forall|i: int| 0 <= i < s.len() ==> pred(#[trigger] s[i]),
    ensures
        s.filter(pred) == s,
    decreases s.len(),
{
    reveal(Seq::filter);
    if s.len() > 0 {
        lemma_filter_keeps_all(s.drop_last(), pred);
        assert(s.drop_last().push(s.last()) =~= s);
    }
}

/// The empty pattern occurs in every line, so a search for it reports every
/// line of the text.
pub proof fn lemma_empty_pattern_matches_every_line<T>(s: Seq<T>, lf: T, cr: T)
    ensures
        matching_lines(s, Seq::empty(), lf, cr) == lines(s, lf, cr),
        report(s, Seq::empty(), lf, cr) == lines(s, lf, cr).map_values(terminated(lf)).flatten(),
{
    let all = lines(s, lf, cr);
    assert forall|i: int| 0 <= i < all.len() implies holds(Seq::<T>::empty())(
        #[trigger] all[i],
    ) by {
        assert(all[i].subrange(0, 0) =~= Seq::<T>::empty());
        assert(occurs_at(Seq::<T>::empty(), all[i], 0));
    }
    lemma_filter_keeps_all(all, holds(Seq::<T>::empty()));
}

/// Something is reported exactly when some line matches: every reported line
/// brings at least its terminator.
pub proof fn lemma_report_is_empty_iff_no_match<T>(s: Seq<T>, pat: Seq<T>, lf: T, cr: T)
    ensures
        report(s, pat, lf, cr).len() > 0 <==> matching_lines(s, pat, lf, cr).len() > 0,
{
    let written = matching_lines(s, pat, lf, cr).map_values(terminated(lf));
    if written.len() > 0 {
        assert(written.first().len() > 0);
        assert(written.flatten() == written.first() + written.drop_first().flatten());
    }
}

} // verus!
