//! Sentence-level comparison: splitting a text into sentences, word-set
//! (Jaccard) and edit-distance (Levenshtein) comparison of sentences, and
//! removal of the sentences that a template shares with a text.

use vstd::prelude::*;
use crate::text::{
    byte_len, byte_offsets, char_pos, chars_eq, chars_of, copy_range, count_words, is_boundary,
    is_space, is_space_char, lemma_byte_len_take_mono, lemma_char_pos, lemma_len_le_byte_len,
    lemma_occurs_in_trans, lemma_occurs_in_trim, lemma_trim_len, lemma_trim_occurs, lemma_words_len,
    lowercase, occurs_in, push_all, split_words, string_of,
    to_lowercase_chars, trim, trim_end, trim_range, trim_start, utf8_len, views, words,
};

verus! {

/// Sentence-ending punctuation.
pub open spec fn is_terminal(c: char) -> bool {
    c == '.' || c == '!' || c == '?'
}

/// The first position at or after `e` that holds neither white space nor
/// sentence-ending punctuation (or the length).
pub open spec fn skip_after(cs: Seq<char>, e: int) -> int
    decreases cs.len() - e,
{
    if 0 <= e < cs.len() && (is_space(cs[e]) || is_terminal(cs[e])) {
        skip_after(cs, e + 1)
    } else {
        e
    }
}

pub proof fn lemma_skip_after_bounds(cs: Seq<char>, e: int)
    requires
        0 <= e <= cs.len(),
    ensures
        e <= skip_after(cs, e) <= cs.len(),
    decreases cs.len() - e,
{
    if e < cs.len() && (is_space(cs[e]) || is_terminal(cs[e])) {
        lemma_skip_after_bounds(cs, e + 1);
    }
}

/// A piece `cs[a..b]` counts as a sentence when, trimmed, it is not empty
/// and holds at least three words.
pub open spec fn keeps(cs: Seq<char>, a: int, b: int) -> bool {
    let t = trim(cs.subrange(a, b));
    t.len() > 0 && words(t).len() >= 3
}

pub open spec fn span_if(cs: Seq<char>, a: int, b: int) -> Seq<(int, int)> {
    if keeps(cs, a, b) {
        seq![(a, b)]
    } else {
        seq![]
    }
}

/// The sentence pieces of `cs` from the scan state (`start`, `i`): a piece
/// ends after a `.`, `!` or `?` (the next piece starts after the run of white
/// space and punctuation that follows), or before a blank line (two
/// consecutive line feeds, which are skipped), or at the end of the text.
pub open spec fn scan_spans(cs: Seq<char>, start: int, i: int) -> Seq<(int, int)>
    decreases cs.len() - i,
{
    if i < 0 || i >= cs.len() {
        if 0 <= start < cs.len() {
            span_if(cs, start, cs.len() as int)
        } else {
            seq![]
        }
    } else if is_terminal(cs[i]) {
        let end = skip_after(cs, i + 1);
        proof {
            lemma_skip_after_bounds(cs, i + 1);
        }
        span_if(cs, start, i + 1) + scan_spans(cs, end, end)
    } else if cs[i] == '\n' && i + 1 < cs.len() && cs[i + 1] == '\n' {
        span_if(cs, start, i) + scan_spans(cs, i + 2, i + 2)
    } else {
        scan_spans(cs, start, i + 1)
    }
}

/// The character ranges of the sentences of `cs`, in order.
pub open spec fn sentence_spans(cs: Seq<char>) -> Seq<(int, int)> {
    scan_spans(cs, 0, 0)
}

/// The sentences of `cs`: each trimmed sentence with the UTF-8 byte offsets
/// of the start and the end of its range in `cs`.
pub open spec fn sentences(cs: Seq<char>) -> Seq<(Seq<char>, nat, nat)> {
    sentence_spans(cs).map_values(
        |p: (int, int)|
            (trim(cs.subrange(p.0, p.1)), byte_len(cs.take(p.0)), byte_len(cs.take(p.1))),
    )
}

proof fn lemma_span_if(cs: Seq<char>, a: int, b: int)
    requires
        0 <= a <= b <= cs.len(),
    ensures
        forall|k: int|
            0 <= k < span_if(cs, a, b).len() ==> #[trigger] span_if(cs, a, b)[k] == (a, b) && a < b
                && keeps(cs, a, b),
{
    if keeps(cs, a, b) {
        lemma_trim_len(cs.subrange(a, b));
    }
}

proof fn lemma_scan_spans(cs: Seq<char>, start: int, i: int)
    requires
        0 <= start <= i,
    ensures
        forall|k: int|
            0 <= k < scan_spans(cs, start, i).len() ==> start <= (#[trigger] scan_spans(cs, start, i)[k]).0
                < scan_spans(cs, start, i)[k].1 <= cs.len() && keeps(
                cs,
                scan_spans(cs, start, i)[k].0,
                scan_spans(cs, start, i)[k].1,
            ),
        forall|k: int, l: int|
            0 <= k < l < scan_spans(cs, start, i).len() ==> (#[trigger] scan_spans(cs, start, i)[k]).1
                <= (#[trigger] scan_spans(cs, start, i)[l]).0,
    decreases cs.len() - i,
{
    let r = scan_spans(cs, start, i);
    if i >= cs.len() {
        if start < cs.len() {
            lemma_span_if(cs, start, cs.len() as int);
            assert(r == span_if(cs, start, cs.len() as int));
        } else {
            assert(r == Seq::<(int, int)>::empty());
        }
    } else if is_terminal(cs[i]) {
        let end = skip_after(cs, i + 1);
        lemma_skip_after_bounds(cs, i + 1);
        lemma_span_if(cs, start, i + 1);
        lemma_scan_spans(cs, end, end);
        let a = span_if(cs, start, i + 1);
        let b = scan_spans(cs, end, end);
        assert(r == a + b);
        assert forall|k: int| 0 <= k < r.len() implies start <= (#[trigger] r[k]).0 < r[k].1 <= cs.len()
            && keeps(cs, r[k].0, r[k].1) by {
            if k < a.len() {
                assert(r[k] == a[k]);
            } else {
                assert(r[k] == b[k - a.len()]);
            }
        }
        assert forall|k: int, l: int| 0 <= k < l < r.len() implies (#[trigger] r[k]).1 <= (
        #[trigger] r[l]).0 by {
            if l < a.len() {
                assert(r[k] == a[k] && r[l] == a[l]);
            } else if k < a.len() {
                assert(r[k] == a[k] && r[l] == b[l - a.len()]);
            } else {
                assert(r[k] == b[k - a.len()] && r[l] == b[l - a.len()]);
            }
        }
    } else if cs[i] == '\n' && i + 1 < cs.len() && cs[i + 1] == '\n' {
        lemma_span_if(cs, start, i);
        lemma_scan_spans(cs, i + 2, i + 2);
        let a = span_if(cs, start, i);
        let b = scan_spans(cs, i + 2, i + 2);
        assert(r == a + b);
        assert forall|k: int| 0 <= k < r.len() implies start <= (#[trigger] r[k]).0 < r[k].1 <= cs.len()
            && keeps(cs, r[k].0, r[k].1) by {
            if k < a.len() {
                assert(r[k] == a[k]);
            } else {
                assert(r[k] == b[k - a.len()]);
            }
        }
        assert forall|k: int, l: int| 0 <= k < l < r.len() implies (#[trigger] r[k]).1 <= (
        #[trigger] r[l]).0 by {
            if l < a.len() {
                assert(r[k] == a[k] && r[l] == a[l]);
            } else if k < a.len() {
                assert(r[k] == a[k] && r[l] == b[l - a.len()]);
            } else {
                assert(r[k] == b[k - a.len()] && r[l] == b[l - a.len()]);
            }
        }
    } else {
        lemma_scan_spans(cs, start, i + 1);
        assert(r == scan_spans(cs, start, i + 1));
    }
}

/// The sentences of a text hold at least three words each, and lie in the
/// text in order, without overlapping: each byte range is non-empty, ends
/// within the text, and ends before the next one starts.
pub proof fn lemma_sentences_in_order(cs: Seq<char>)
    ensures
        forall|k: int|
            0 <= k < sentences(cs).len() ==> words((#[trigger] sentences(cs)[k]).0).len() >= 3
                && sentences(cs)[k].1 < sentences(cs)[k].2 <= byte_len(cs) && is_boundary(
                cs,
                sentences(cs)[k].1,
            ) && is_boundary(cs, sentences(cs)[k].2) && sentences(cs)[k].0 == trim(
                cs.subrange(char_pos(cs, sentences(cs)[k].1), char_pos(cs, sentences(cs)[k].2)),
            ),
        forall|k: int, l: int|
            0 <= k < l < sentences(cs).len() ==> (#[trigger] sentences(cs)[k]).2 <= (
            #[trigger] sentences(cs)[l]).1,
{
    lemma_scan_spans(cs, 0, 0);
    let sp = sentence_spans(cs);
    let ss = sentences(cs);
    assert(cs.take(cs.len() as int) =~= cs);
    assert forall|k: int| 0 <= k < ss.len() implies words((#[trigger] ss[k]).0).len() >= 3 && ss[k].1
        < ss[k].2 <= byte_len(cs) && is_boundary(cs, ss[k].1) && is_boundary(cs, ss[k].2) && ss[k].0
        == trim(cs.subrange(char_pos(cs, ss[k].1), char_pos(cs, ss[k].2))) by {
        let p = sp[k];
        lemma_byte_len_take_mono(cs, p.0, p.1);
        lemma_byte_len_take_mono(cs, p.1, cs.len() as int);
        lemma_char_pos(cs, p.0);
        lemma_char_pos(cs, p.1);
    }
    assert forall|k: int, l: int| 0 <= k < l < ss.len() implies (#[trigger] ss[k]).2 <= (
    #[trigger] ss[l]).1 by {
        lemma_byte_len_take_mono(cs, sp[k].1, sp[l].0);
    }
}

/// No `.`, `!` or `?` stands in `t` but, possibly, at its last position.
pub open spec fn stop_only_last(t: Seq<char>) -> bool {
    forall|q: int| 0 <= q < t.len() - 1 ==> #[trigger] t[q] != '.' && t[q] != '!' && t[q] != '?'
}

proof fn lemma_trim_start_stop(t: Seq<char>)
    requires
        stop_only_last(t),
    ensures
        stop_only_last(trim_start(t)),
    decreases t.len(),
{
    if t.len() > 0 && is_space(t[0]) {
        let u = t.drop_first();
        assert forall|q: int| 0 <= q < u.len() - 1 implies #[trigger] u[q] != '.' && u[q] != '!'
            && u[q] != '?' by {
            assert(u[q] == t[q + 1]);
        }
        lemma_trim_start_stop(u);
    }
}

proof fn lemma_trim_end_stop(t: Seq<char>)
    requires
        stop_only_last(t),
    ensures
        stop_only_last(trim_end(t)),
    decreases t.len(),
{
    if t.len() > 0 && is_space(t.last()) {
        let u = t.drop_last();
        assert forall|q: int| 0 <= q < u.len() - 1 implies #[trigger] u[q] != '.' && u[q] != '!'
            && u[q] != '?' by {
            assert(u[q] == t[q]);
        }
        lemma_trim_end_stop(u);
    }
}

proof fn lemma_scan_spans_stop(cs: Seq<char>, start: int, i: int)
    requires
        0 <= start <= i,
        forall|q: int|
            start <= q < i && q < cs.len() ==> #[trigger] cs[q] != '.' && cs[q] != '!' && cs[q]
                != '?',
    ensures
        forall|k: int|
            0 <= k < scan_spans(cs, start, i).len() ==> stop_only_last(
                cs.subrange(
                    (#[trigger] scan_spans(cs, start, i)[k]).0,
                    scan_spans(cs, start, i)[k].1,
                ),
            ),
    decreases cs.len() - i,
{
    let r = scan_spans(cs, start, i);
    lemma_scan_spans(cs, start, i);
    if i >= cs.len() {
        if start < cs.len() {
            assert(r == span_if(cs, start, cs.len() as int));
            lemma_span_if(cs, start, cs.len() as int);
            assert forall|k: int| 0 <= k < r.len() implies stop_only_last(
                cs.subrange((#[trigger] r[k]).0, r[k].1),
            ) by {
                let sub = cs.subrange(r[k].0, r[k].1);
                assert forall|q: int| 0 <= q < sub.len() - 1 implies #[trigger] sub[q] != '.'
                    && sub[q] != '!' && sub[q] != '?' by {
                    assert(sub[q] == cs[start + q]);
                }
            }
        } else {
            assert(r == Seq::<(int, int)>::empty());
        }
    } else if is_terminal(cs[i]) {
        let end = skip_after(cs, i + 1);
        lemma_skip_after_bounds(cs, i + 1);
        lemma_span_if(cs, start, i + 1);
        lemma_scan_spans_stop(cs, end, end);
        let a = span_if(cs, start, i + 1);
        let b = scan_spans(cs, end, end);
        assert(r == a + b);
        assert forall|k: int| 0 <= k < r.len() implies stop_only_last(
            cs.subrange((#[trigger] r[k]).0, r[k].1),
        ) by {
            if k < a.len() {
                assert(r[k] == a[k]);
                let sub = cs.subrange(start, i + 1);
                assert forall|q: int| 0 <= q < sub.len() - 1 implies #[trigger] sub[q] != '.'
                    && sub[q] != '!' && sub[q] != '?' by {
                    assert(sub[q] == cs[start + q]);
                }
            } else {
                assert(r[k] == b[k - a.len()]);
            }
        }
    } else if cs[i] == '\n' && i + 1 < cs.len() && cs[i + 1] == '\n' {
        lemma_span_if(cs, start, i);
        lemma_scan_spans_stop(cs, i + 2, i + 2);
        let a = span_if(cs, start, i);
        let b = scan_spans(cs, i + 2, i + 2);
        assert(r == a + b);
        assert forall|k: int| 0 <= k < r.len() implies stop_only_last(
            cs.subrange((#[trigger] r[k]).0, r[k].1),
        ) by {
            if k < a.len() {
                assert(r[k] == a[k]);
                let sub = cs.subrange(start, i);
                assert forall|q: int| 0 <= q < sub.len() - 1 implies #[trigger] sub[q] != '.'
                    && sub[q] != '!' && sub[q] != '?' by {
                    assert(sub[q] == cs[start + q]);
                }
            } else {
                assert(r[k] == b[k - a.len()]);
            }
        }
    } else {
        assert(cs[i] != '.' && cs[i] != '!' && cs[i] != '?');
        lemma_scan_spans_stop(cs, start, i + 1);
        assert(r == scan_spans(cs, start, i + 1));
    }
}

/// A sentence ends at the first `.`, `!` or `?` of its piece of text: in the
/// text of each sentence, and in the range of the input that it comes from,
/// none of these three characters stands anywhere but at the last position.
/// So a `?` (or `.`, `!`) that is followed by more words always starts a new
/// sentence after it.
pub proof fn lemma_sentences_stop_at_terminal(cs: Seq<char>)
    ensures
        forall|k: int|
            0 <= k < sentences(cs).len() ==> stop_only_last((#[trigger] sentences(cs)[k]).0)
                && stop_only_last(
                cs.subrange(char_pos(cs, sentences(cs)[k].1), char_pos(cs, sentences(cs)[k].2)),
            ),
{
    lemma_scan_spans(cs, 0, 0);
    lemma_scan_spans_stop(cs, 0, 0);
    let sp = sentence_spans(cs);
    let ss = sentences(cs);
    assert forall|k: int| 0 <= k < ss.len() implies stop_only_last((#[trigger] ss[k]).0)
        && stop_only_last(cs.subrange(char_pos(cs, ss[k].1), char_pos(cs, ss[k].2))) by {
        let p = sp[k];
        lemma_char_pos(cs, p.0);
        lemma_char_pos(cs, p.1);
        let sub = cs.subrange(p.0, p.1);
        lemma_trim_start_stop(sub);
        lemma_trim_end_stop(trim_start(sub));
    }
}

/// `a` may start a piece of `cs`: the start of the text, or just after white
/// space or a `.`, `!` or `?`.
pub open spec fn starts_piece(cs: Seq<char>, a: int) -> bool {
    a == 0 || is_space(cs[a - 1]) || cs[a - 1] == '.' || cs[a - 1] == '!' || cs[a - 1] == '?'
}

/// `b` may end a piece of `cs`: the end of the text, just after a `.`, `!`
/// or `?`, or just before a blank line.
pub open spec fn ends_piece(cs: Seq<char>, b: int) -> bool {
    ||| b == cs.len()
    ||| 0 < b && (cs[b - 1] == '.' || cs[b - 1] == '!' || cs[b - 1] == '?')
    ||| b + 1 < cs.len() && cs[b] == '\n' && cs[b + 1] == '\n'
}

proof fn lemma_skip_after_prev(cs: Seq<char>, e: int)
    requires
        0 <= e <= cs.len(),
    ensures
        skip_after(cs, e) == e || (e < skip_after(cs, e) && (is_space(cs[skip_after(cs, e) - 1])
            || is_terminal(cs[skip_after(cs, e) - 1]))),
    decreases cs.len() - e,
{
    if e < cs.len() && (is_space(cs[e]) || is_terminal(cs[e])) {
        lemma_skip_after_prev(cs, e + 1);
    }
}

proof fn lemma_scan_spans_bounds(cs: Seq<char>, start: int, i: int)
    requires
        0 <= start <= i,
        starts_piece(cs, start),
    ensures
        forall|k: int|
            0 <= k < scan_spans(cs, start, i).len() ==> starts_piece(
                cs,
                (#[trigger] scan_spans(cs, start, i)[k]).0,
            ) && ends_piece(cs, scan_spans(cs, start, i)[k].1),
    decreases cs.len() - i,
{
    let r = scan_spans(cs, start, i);
    if i >= cs.len() {
        if start < cs.len() {
            assert(r == span_if(cs, start, cs.len() as int));
            lemma_span_if(cs, start, cs.len() as int);
        } else {
            assert(r == Seq::<(int, int)>::empty());
        }
    } else if is_terminal(cs[i]) {
        let end = skip_after(cs, i + 1);
        lemma_skip_after_bounds(cs, i + 1);
        lemma_skip_after_prev(cs, i + 1);
        lemma_span_if(cs, start, i + 1);
        lemma_scan_spans_bounds(cs, end, end);
        let a = span_if(cs, start, i + 1);
        let b = scan_spans(cs, end, end);
        assert(r == a + b);
        assert forall|k: int| 0 <= k < r.len() implies starts_piece(cs, (#[trigger] r[k]).0)
            && ends_piece(cs, r[k].1) by {
            if k < a.len() {
                assert(r[k] == a[k]);
            } else {
                assert(r[k] == b[k - a.len()]);
            }
        }
    } else if cs[i] == '\n' && i + 1 < cs.len() && cs[i + 1] == '\n' {
        assert(is_space('\n'));
        lemma_span_if(cs, start, i);
        lemma_scan_spans_bounds(cs, i + 2, i + 2);
        let a = span_if(cs, start, i);
        let b = scan_spans(cs, i + 2, i + 2);
        assert(r == a + b);
        assert forall|k: int| 0 <= k < r.len() implies starts_piece(cs, (#[trigger] r[k]).0)
            && ends_piece(cs, r[k].1) by {
            if k < a.len() {
                assert(r[k] == a[k]);
            } else {
                assert(r[k] == b[k - a.len()]);
            }
        }
    } else {
        lemma_scan_spans_bounds(cs, start, i + 1);
        assert(r == scan_spans(cs, start, i + 1));
    }
}

/// The text is split into sentences only at the three sentence-ending marks
/// and at blank lines: the range of each sentence in the text starts at the
/// start of the text or just after white space or a `.`, `!` or `?`, and
/// ends at the end of the text, just after a `.`, `!` or `?`, or just before
/// a blank line.
pub proof fn lemma_sentence_pieces(cs: Seq<char>)
    ensures
        forall|k: int|
            0 <= k < sentences(cs).len() ==> starts_piece(
                cs,
                char_pos(cs, (#[trigger] sentences(cs)[k]).1),
            ) && ends_piece(cs, char_pos(cs, sentences(cs)[k].2)),
{
    lemma_scan_spans_bounds(cs, 0, 0);
    let sp = sentence_spans(cs);
    let ss = sentences(cs);
    lemma_scan_spans(cs, 0, 0);
    assert forall|k: int| 0 <= k < ss.len() implies starts_piece(cs, char_pos(cs, (#[trigger] ss[k]).1))
        && ends_piece(cs, char_pos(cs, ss[k].2)) by {
        let p = sp[k];
        lemma_char_pos(cs, p.0);
        lemma_char_pos(cs, p.1);
    }
}

/// A sentence found in a text: its character range and its trimmed text.
pub struct Span {
    pub start: usize,
    pub end: usize,
    pub text: Vec<char>,
}

/// The character ranges of the spans (their texts are described by
/// `spans_of`).
pub open spec fn span_ranges(v: Seq<Span>) -> Seq<(int, int)> {
    v.map_values(|s: Span| (s.start as int, s.end as int))
}

/// The spans are those of the text `cs`: ranges within it, with trimmed texts.
pub open spec fn spans_of(cs: Seq<char>, v: Seq<Span>) -> bool {
    forall|k: int|
        0 <= k < v.len() ==> #[trigger] v[k].start <= v[k].end <= cs.len() && v[k].text@ == trim(
            cs.subrange(v[k].start as int, v[k].end as int),
        )
}

fn push_if(cs: &[char], out: &mut Vec<Span>, a: usize, b: usize)
    requires
        a <= b <= cs@.len(),
        spans_of(cs@, old(out)@),
    ensures
        span_ranges(final(out)@) == span_ranges(old(out)@) + span_if(cs@, a as int, b as int),
        spans_of(cs@, final(out)@),
{
    let t = trim_range(cs, a, b);
    if t.len() > 0 && count_words(&t) >= 3 {
        out.push(Span { start: a, end: b, text: t });
        assert(span_ranges(final(out)@) =~= span_ranges(old(out)@) + span_if(
            cs@,
            a as int,
            b as int,
        ));
    } else {
        assert(span_ranges(final(out)@) =~= span_ranges(old(out)@) + span_if(
            cs@,
            a as int,
            b as int,
        ));
    }
}

fn is_terminal_char(c: char) -> (r: bool)
    ensures
        r == is_terminal(c),
{
    c == '.' || c == '!' || c == '?'
}

/// The sentences of `cs` with their character ranges.
pub fn scan_sentences(cs: &[char]) -> (r: Vec<Span>)
    ensures
        span_ranges(r@) == sentence_spans(cs@),
        spans_of(cs@, r@),
{
    let n = cs.len();
    let mut out: Vec<Span> = Vec::new();
    let mut start: usize = 0;
    let mut i: usize = 0;
    assert(span_ranges(out@) =~= Seq::<(int, int)>::empty());
    while i < n
        invariant
            n == cs@.len(),
            start <= i <= n,
            span_ranges(out@) + scan_spans(cs@, start as int, i as int) == sentence_spans(cs@),
            spans_of(cs@, out@),
        decreases n - i,
    {
        let c = cs[i];
        if is_terminal_char(c) {
            let mut end = i + 1;
            while end < n && (is_space_char(cs[end]) || is_terminal_char(cs[end]))
                invariant
                    n == cs@.len(),
                    i + 1 <= end <= n,
                    skip_after(cs@, end as int) == skip_after(cs@, i + 1),
                decreases n - end,
            {
                end = end + 1;
            }
            let ghost before = span_ranges(out@);
            push_if(cs, &mut out, start, i + 1);
            proof {
                assert(skip_after(cs@, end as int) == end);
                assert(before + scan_spans(cs@, start as int, i as int) == sentence_spans(cs@));
                assert(scan_spans(cs@, start as int, i as int) == span_if(
                    cs@,
                    start as int,
                    i + 1,
                ) + scan_spans(cs@, end as int, end as int));
                assert(span_ranges(out@) + scan_spans(cs@, end as int, end as int) =~= before
                    + scan_spans(cs@, start as int, i as int));
            }
            start = end;
            i = end;
        } else if c == '\n' && i + 1 < n && cs[i + 1] == '\n' {
            let ghost before = span_ranges(out@);
            push_if(cs, &mut out, start, i);
            proof {
                assert(scan_spans(cs@, start as int, i as int) == span_if(cs@, start as int, i as int)
                    + scan_spans(cs@, i + 2, i + 2));
                assert(span_ranges(out@) + scan_spans(cs@, i + 2, i + 2) =~= before + scan_spans(
                    cs@,
                    start as int,
                    i as int,
                ));
            }
            start = i + 2;
            i = start;
        } else {
            i = i + 1;
        }
    }
    let ghost before = span_ranges(out@);
    if start < n {
        push_if(cs, &mut out, start, n);
        assert(span_ranges(out@) =~= before + scan_spans(cs@, start as int, i as int));
    } else {
        assert(span_ranges(out@) =~= before + scan_spans(cs@, start as int, i as int));
    }
    out
}

pub open spec fn sentence_view(v: Seq<(String, usize, usize)>) -> Seq<(Seq<char>, nat, nat)> {
    v.map_values(|t: (String, usize, usize)| (t.0@, t.1 as nat, t.2 as nat))
}

/// Split text into sentences (by period, exclamation, question mark, or
/// double newline). Each sentence comes trimmed, with the byte offsets of
/// its range in `text`; pieces with fewer than three words are left out.
pub fn split_sentences(text: &str) -> (r: Vec<(String, usize, usize)>)
    ensures
        sentence_view(r@) == sentences(text@),
{
    let cs = chars_of(text);
    let recs = sentence_records(&cs);
    let ghost rv = recs@.map_values(|t: (Vec<char>, usize, usize)| (t.0@, t.1 as nat, t.2 as nat));
    let mut out: Vec<(String, usize, usize)> = Vec::new();
    let mut k: usize = 0;
    while k < recs.len()
        invariant
            k <= recs@.len(),
            rv == recs@.map_values(|t: (Vec<char>, usize, usize)| (t.0@, t.1 as nat, t.2 as nat)),
            rv == sentences(text@),
            sentence_view(out@) == rv.take(k as int),
        decreases recs@.len() - k,
    {
        let rec = &recs[k];
        let s = string_of(&rec.0);
        let ghost old_out = out@;
        out.push((s, rec.1, rec.2));
        proof {
            assert(rv[k as int] == (rec.0@, rec.1 as nat, rec.2 as nat));
            assert(sentence_view(out@) =~= sentence_view(old_out).push(rv[k as int]));
            assert(sentence_view(out@) =~= rv.take(k + 1));
        }
        k = k + 1;
    }
    assert(rv.take(k as int) =~= rv);
    out
}

/// The lower-cased words of a text.
pub open spec fn lower_words(cs: Seq<char>) -> Seq<Seq<char>> {
    words(cs).map_values(|w: Seq<char>| lowercase(w))
}

/// The set of lower-cased words of a text.
pub open spec fn word_set(cs: Seq<char>) -> Set<Seq<char>> {
    lower_words(cs).to_set()
}

/// Size of the intersection of the word sets of two texts.
pub open spec fn jaccard_inter(a: Seq<char>, b: Seq<char>) -> nat {
    word_set(a).intersect(word_set(b)).len()
}

/// Size of the union of the word sets of two texts.
pub open spec fn jaccard_union(a: Seq<char>, b: Seq<char>) -> nat {
    word_set(a).union(word_set(b)).len()
}

/// Whether `v` holds the character sequence `w`.
pub fn contains_chars(v: &Vec<Vec<char>>, w: &[char]) -> (b: bool)
    ensures
        b == views(v@).contains(w@),
{
    let mut k: usize = 0;
    while k < v.len()
        invariant
            k <= v@.len(),
            forall|j: int| 0 <= j < k ==> v@[j]@ != w@,
        decreases v@.len() - k,
    {
        if chars_eq(&v[k], w) {
            assert(views(v@)[k as int] == w@);
            return true;
        }
        k = k + 1;
    }
    assert forall|j: int| 0 <= j < views(v@).len() implies views(v@)[j] != w@ by {
        assert(views(v@)[j] == v@[j]@);
    }
    false
}

/// The distinct lower-cased words of a text, in order of first appearance.
pub fn distinct_lower_words(cs: &[char]) -> (r: Vec<Vec<char>>)
    ensures
        views(r@).no_duplicates(),
        views(r@).to_set() == word_set(cs@),
        r@.len() <= cs@.len(),
{
    let ws = split_words(cs);
    let ghost lw = lower_words(cs@);
    let mut r: Vec<Vec<char>> = Vec::new();
    let mut k: usize = 0;
    proof {
        lemma_words_len(cs@);
        assert(lw.take(0) =~= Seq::<Seq<char>>::empty());
        assert(views(r@) =~= Seq::<Seq<char>>::empty());
    }
    while k < ws.len()
        invariant
            views(ws@) == words(cs@),
            lw == lower_words(cs@),
            k <= ws@.len(),
            ws@.len() <= cs@.len(),
            views(r@).no_duplicates(),
            views(r@).to_set() == lw.take(k as int).to_set(),
            r@.len() <= k,
        decreases ws@.len() - k,
    {
        let w = to_lowercase_chars(&ws[k]);
        proof {
            assert(views(ws@)[k as int] == ws@[k as int]@);
            assert(lw[k as int] == w@);
            assert(lw.take(k + 1) =~= lw.take(k as int).push(w@));
            lw.take(k as int).lemma_push_to_set_commute(w@);
        }
        if !contains_chars(&r, &w) {
            let ghost old_r = views(r@);
            r.push(w);
            proof {
                assert(views(r@) =~= old_r.push(w@));
                old_r.lemma_push_to_set_commute(w@);
                assert forall|i: int, j: int|
                    0 <= i < views(r@).len() && 0 <= j < views(r@).len() && i != j implies views(
                    r@,
                )[i] != views(r@)[j] by {
                    if i < old_r.len() && j < old_r.len() {
                    } else if i == old_r.len() {
                        assert(old_r.contains(old_r[j]));
                    } else {
                        assert(old_r.contains(old_r[i]));
                    }
                }
            }
        } else {
            proof {
                assert(views(r@).to_set().insert(w@) =~= views(r@).to_set());
            }
        }
        k = k + 1;
    }
    proof {
        assert(lw.take(ws@.len() as int) =~= lw);
    }
    r
}

/// The number of sequences of `a` that `b` also holds.
fn count_shared(a: &Vec<Vec<char>>, b: &Vec<Vec<char>>) -> (n: usize)
    requires
        views(a@).no_duplicates(),
    ensures
        n == views(a@).to_set().intersect(views(b@).to_set()).len(),
{
    broadcast use vstd::seq_lib::seq_to_set_is_finite;

    let ghost va = views(a@);
    let ghost sb = views(b@).to_set();
    let mut n: usize = 0;
    let mut k: usize = 0;
    proof {
        assert(va.take(0).to_set().intersect(sb) =~= Set::<Seq<char>>::empty());
    }
    while k < a.len()
        invariant
            va == views(a@),
            sb == views(b@).to_set(),
            va.no_duplicates(),
            k <= a@.len(),
            n <= k,
            n == va.take(k as int).to_set().intersect(sb).len(),
        decreases a@.len() - k,
    {
        let x = &a[k];
        let ghost s0 = va.take(k as int).to_set().intersect(sb);
        proof {
            assert(va[k as int] == x@);
            assert(va.take(k + 1) =~= va.take(k as int).push(x@));
            va.take(k as int).lemma_push_to_set_commute(x@);
            assert(!va.take(k as int).contains(x@)) by {
                if va.take(k as int).contains(x@) {
                    let j = choose|j: int| 0 <= j < k && va.take(k as int)[j] == x@;
                    assert(va[j] == va[k as int]);
                }
            }
        }
        if contains_chars(b, x) {
            proof {
                assert(va.take(k + 1).to_set().intersect(sb) =~= s0.insert(x@));
            }
            n = n + 1;
        } else {
            proof {
                assert(va.take(k + 1).to_set().intersect(sb) =~= s0);
            }
        }
        k = k + 1;
    }
    proof {
        assert(va.take(a@.len() as int) =~= va);
    }
    n
}

/// The sizes of the intersection and of the union of the lower-cased word
/// sets of two texts (the Jaccard similarity is their quotient).
pub fn jaccard_counts(a: &[char], b: &[char]) -> (r: (usize, usize))
    requires
        a@.len() + b@.len() <= usize::MAX,
    ensures
        r.0 == jaccard_inter(a@, b@),
        r.1 == jaccard_union(a@, b@),
        r.0 <= r.1,
{
    broadcast use vstd::seq_lib::seq_to_set_is_finite;

    let wa = distinct_lower_words(a);
    let wb = distinct_lower_words(b);
    let inter = count_shared(&wa, &wb);
    proof {
        views(wa@).unique_seq_to_set();
        views(wb@).unique_seq_to_set();
        vstd::set_lib::lemma_set_intersect_union_lens(word_set(a@), word_set(b@));
        vstd::set_lib::lemma_len_intersect(word_set(b@), word_set(a@));
        assert(word_set(b@).intersect(word_set(a@)) =~= word_set(a@).intersect(word_set(b@)));
        assert(word_set(a@) + word_set(b@) == word_set(a@).union(word_set(b@)));
        vstd::set_lib::lemma_len_subset(
            word_set(a@).intersect(word_set(b@)),
            word_set(a@).union(word_set(b@)),
        );
    }
    let union = wa.len() + (wb.len() - inter);
    (inter, union)
}

pub open spec fn min3(a: nat, b: nat, c: nat) -> nat {
    if a <= b && a <= c {
        a
    } else if b <= c {
        b
    } else {
        c
    }
}

pub open spec fn max_nat(a: nat, b: nat) -> nat {
    if a >= b {
        a
    } else {
        b
    }
}

/// The Levenshtein distance of two character sequences: the least number of
/// single-character insertions, deletions and substitutions that turn one
/// into the other.
pub open spec fn levenshtein(a: Seq<char>, b: Seq<char>) -> nat
    decreases a.len() + b.len(),
{
    if a.len() == 0 {
        b.len()
    } else if b.len() == 0 {
        a.len()
    } else {
        min3(
            levenshtein(a.drop_last(), b) + 1,
            levenshtein(a, b.drop_last()) + 1,
            levenshtein(a.drop_last(), b.drop_last()) + if a.last() == b.last() {
                0nat
            } else {
                1nat
            },
        )
    }
}

/// The Levenshtein distance is at most the length of the longer sequence.
pub proof fn lemma_levenshtein_le_max(a: Seq<char>, b: Seq<char>)
    ensures
        levenshtein(a, b) <= max_nat(a.len(), b.len()),
    decreases a.len() + b.len(),
{
    if a.len() > 0 && b.len() > 0 {
        lemma_levenshtein_le_max(a.drop_last(), b.drop_last());
    }
}

/// The Levenshtein distance does not depend on the order of the two sequences.
pub proof fn lemma_levenshtein_symmetric(a: Seq<char>, b: Seq<char>)
    ensures
        levenshtein(a, b) == levenshtein(b, a),
    decreases a.len() + b.len(),
{
    if a.len() > 0 && b.len() > 0 {
        lemma_levenshtein_symmetric(a.drop_last(), b);
        lemma_levenshtein_symmetric(a, b.drop_last());
        lemma_levenshtein_symmetric(a.drop_last(), b.drop_last());
    }
}

/// A sequence is at distance zero from itself.
pub proof fn lemma_levenshtein_self(a: Seq<char>)
    ensures
        levenshtein(a, a) == 0,
    decreases a.len(),
{
    if a.len() > 0 {
        lemma_levenshtein_self(a.drop_last());
    }
}

/// The Jaccard counts of two texts do not depend on their order.
pub proof fn lemma_jaccard_symmetric(a: Seq<char>, b: Seq<char>)
    ensures
        jaccard_inter(a, b) == jaccard_inter(b, a),
        jaccard_union(a, b) == jaccard_union(b, a),
{
    assert(word_set(a).intersect(word_set(b)) =~= word_set(b).intersect(word_set(a)));
    assert(word_set(a).union(word_set(b)) =~= word_set(b).union(word_set(a)));
}

/// Texts with the same lower-cased words, in whatever order and however
/// often, have a Jaccard intersection as large as their union.
pub proof fn lemma_jaccard_same_words(a: Seq<char>, b: Seq<char>)
    requires
        word_set(a) == word_set(b),
    ensures
        jaccard_inter(a, b) == jaccard_union(a, b),
{
    assert(word_set(a).intersect(word_set(b)) =~= word_set(a));
    assert(word_set(a).union(word_set(b)) =~= word_set(a));
}

/// A text's Levenshtein similarity with itself is one.
pub proof fn lemma_lev_ratio_self(a: Seq<char>)
    ensures
        lev_ratio(a, a).0 == lev_ratio(a, a).1,
{
    lemma_levenshtein_self(lowercase(a));
}

/// `strsim::levenshtein` on the strings made of `a` and `b`: the least number
/// of character insertions, deletions and substitutions between them.
#[verifier::external_body]
fn edit_distance(a: &[char], b: &[char]) -> (d: usize)
    ensures
        d == levenshtein(a@, b@),
{
    let sa: String = a.iter().collect();
    let sb: String = b.iter().collect();
    strsim::levenshtein(&sa, &sb)
}

/// The edit distance of the lower-cased texts.
pub open spec fn lev_distance(a: Seq<char>, b: Seq<char>) -> nat {
    levenshtein(lowercase(a), lowercase(b))
}

/// The UTF-8 length of the longer of the lower-cased texts.
pub open spec fn lev_max_len(a: Seq<char>, b: Seq<char>) -> nat {
    max_nat(byte_len(lowercase(a)), byte_len(lowercase(b)))
}

/// The edit distance of the lower-cased texts and the UTF-8 length of the
/// longer of them (the Levenshtein similarity is one minus their quotient).
pub fn levenshtein_counts(a: &[char], b: &[char]) -> (r: (usize, usize))
    ensures
        r.0 == lev_distance(a@, b@),
        r.1 == lev_max_len(a@, b@),
        r.0 <= r.1,
{
    let la = to_lowercase_chars(a);
    let lb = to_lowercase_chars(b);
    let d = edit_distance(&la, &lb);
    let na = utf8_len(&la);
    let nb = utf8_len(&lb);
    proof {
        lemma_levenshtein_le_max(la@, lb@);
        lemma_len_le_byte_len(la@);
        lemma_len_le_byte_len(lb@);
    }
    let m = if na >= nb {
        na
    } else {
        nb
    };
    (d, m)
}

/// The Jaccard similarity as a fraction (intersection over union; zero when
/// both word sets are empty).
pub open spec fn jaccard_ratio(a: Seq<char>, b: Seq<char>) -> (nat, nat) {
    if jaccard_union(a, b) == 0 {
        (0, 1)
    } else {
        (jaccard_inter(a, b), jaccard_union(a, b))
    }
}

/// The Levenshtein similarity as a fraction (one minus distance over the
/// longer UTF-8 length; one when both texts are empty).
pub open spec fn lev_ratio(a: Seq<char>, b: Seq<char>) -> (nat, nat) {
    let m = lev_max_len(a, b);
    if m == 0 {
        (1, 1)
    } else {
        ((m - lev_distance(a, b)) as nat, m)
    }
}

/// The fraction `r` is at least the threshold `tn / td`.
pub open spec fn at_least(r: (nat, nat), tn: nat, td: nat) -> bool {
    r.0 * td >= tn * r.1
}

/// The fraction `r` as a percentage rounded to the nearest integer, halves
/// away from zero, computed exactly. A floating-point computation of the same
/// rounding (quotient times 100, then `f64::round`) can land just below a half
/// and round down instead: for 29/200 it gives 14 where this gives 15.
pub open spec fn percent(r: (nat, nat)) -> nat {
    (200 * r.0 + r.1) / (2 * r.1)
}

/// A percentage is the whole number nearest to a hundred times the
/// fraction, a half rounded up: `100·n/d − 1/2 ≤ p < 100·n/d + 1/2`.
pub proof fn lemma_percent_nearest(n: nat, d: nat)
    requires
        d > 0,
    ensures
        (2 * percent((n, d)) - 1) * d <= 200 * n,
        200 * n < (2 * percent((n, d)) + 1) * d,
{
    let p = percent((n, d));
    assert(p == (200 * n + d) / (2 * d));
    assert((2 * p - 1) * d <= 200 * n && 200 * n < (2 * p + 1) * d) by (nonlinear_arith)
        requires
            d > 0,
            p == (200 * n + d) / (2 * d),
    ;
}

fn percent_of(num: usize, den: usize) -> (p: u64)
    requires
        0 < den,
        num <= den,
    ensures
        p == percent((num as nat, den as nat)),
        p <= 100,
{
    let n = num as u128;
    let d = den as u128;
    assert((200 * n + d) / (2 * d) <= 100) by (nonlinear_arith)
        requires
            0 < d,
            n <= d,
    ;
    ((200 * n + d) / (2 * d)) as u64
}

fn at_least_exec(num: usize, den: usize, tn: u64, td: u64) -> (b: bool)
    ensures
        b == at_least((num as nat, den as nat), tn as nat, td as nat),
{
    assert((num as u128) * (td as u128) <= u128::MAX) by (nonlinear_arith);
    assert((tn as u128) * (den as u128) <= u128::MAX) by (nonlinear_arith);
    (num as u128) * (td as u128) >= (tn as u128) * (den as u128)
}

/// A pair of suspicious sentences: their texts, their Jaccard and Levenshtein
/// similarities as rounded percentages, and their byte ranges in the texts.
pub struct SuspiciousPair {
    pub sentence_a: String,
    pub sentence_b: String,
    pub jaccard_percent: u64,
    pub levenshtein_percent: u64,
    pub pos_a: (usize, usize),
    pub pos_b: (usize, usize),
}

/// The mathematical value of a suspicious pair.
pub struct PairView {
    pub sentence_a: Seq<char>,
    pub sentence_b: Seq<char>,
    pub jaccard_percent: nat,
    pub levenshtein_percent: nat,
    pub pos_a: (nat, nat),
    pub pos_b: (nat, nat),
}

impl View for SuspiciousPair {
    type V = PairView;

    open spec fn view(&self) -> PairView {
        PairView {
            sentence_a: self.sentence_a@,
            sentence_b: self.sentence_b@,
            jaccard_percent: self.jaccard_percent as nat,
            levenshtein_percent: self.levenshtein_percent as nat,
            pos_a: (self.pos_a.0 as nat, self.pos_a.1 as nat),
            pos_b: (self.pos_b.0 as nat, self.pos_b.1 as nat),
        }
    }
}

pub open spec fn pair_views(v: Seq<SuspiciousPair>) -> Seq<PairView> {
    v.map_values(|p: SuspiciousPair| p@)
}

/// Two sentences are suspicious when either similarity reaches the threshold.
pub open spec fn flagged(a: Seq<char>, b: Seq<char>, tn: nat, td: nat) -> bool {
    at_least(jaccard_ratio(a, b), tn, td) || at_least(lev_ratio(a, b), tn, td)
}

pub open spec fn make_pair(sa: (Seq<char>, nat, nat), sb: (Seq<char>, nat, nat)) -> PairView {
    PairView {
        sentence_a: sa.0,
        sentence_b: sb.0,
        jaccard_percent: percent(jaccard_ratio(sa.0, sb.0)),
        levenshtein_percent: percent(lev_ratio(sa.0, sb.0)),
        pos_a: (sa.1, sa.2),
        pos_b: (sb.1, sb.2),
    }
}

/// The suspicious pairs that one sentence forms with the sentences `sbs`, in order.
pub open spec fn row_pairs(sa: (Seq<char>, nat, nat), sbs: Seq<(Seq<char>, nat, nat)>, tn: nat, td: nat) -> Seq<PairView>
    decreases sbs.len(),
{
    if sbs.len() == 0 {
        seq![]
    } else {
        let r = row_pairs(sa, sbs.drop_last(), tn, td);
        if flagged(sa.0, sbs.last().0, tn, td) {
            r.push(make_pair(sa, sbs.last()))
        } else {
            r
        }
    }
}

/// All suspicious pairs, sentence by sentence of the first text.
pub open spec fn all_pairs(sas: Seq<(Seq<char>, nat, nat)>, sbs: Seq<(Seq<char>, nat, nat)>, tn: nat, td: nat) -> Seq<PairView>
    decreases sas.len(),
{
    if sas.len() == 0 {
        seq![]
    } else {
        all_pairs(sas.drop_last(), sbs, tn, td) + row_pairs(sas.last(), sbs, tn, td)
    }
}

/// The ordering key of a pair: the larger of its two percentages.
pub open spec fn pair_key(p: PairView) -> nat {
    max_nat(p.jaccard_percent, p.levenshtein_percent)
}

/// The pairs of `s` whose key is `k`, in order.
pub open spec fn with_key(s: Seq<PairView>, k: int) -> Seq<PairView>
    decreases s.len(),
{
    if s.len() == 0 {
        seq![]
    } else {
        let r = with_key(s.drop_last(), k);
        if pair_key(s.last()) == k {
            r.push(s.last())
        } else {
            r
        }
    }
}

/// The pairs of `s` by decreasing key from `k` down to 0, keeping the order
/// of `s` among pairs with the same key.
pub open spec fn by_key_desc(s: Seq<PairView>, k: int) -> Seq<PairView>
    decreases k + 1,
{
    if k < 0 {
        seq![]
    } else {
        with_key(s, k) + by_key_desc(s, k - 1)
    }
}

/// The suspicious sentence pairs of two texts at threshold `tn / td`, by
/// decreasing key (stable).
pub open spec fn suspicious_pairs(ta: Seq<char>, tb: Seq<char>, tn: nat, td: nat) -> Seq<PairView> {
    by_key_desc(all_pairs(sentences(ta), sentences(tb), tn, td), 100)
}

proof fn lemma_with_key(s: Seq<PairView>, k: int)
    ensures
        forall|i: int|
            0 <= i < with_key(s, k).len() ==> pair_key(#[trigger] with_key(s, k)[i]) == k && s.contains(
                with_key(s, k)[i],
            ),
        forall|p: PairView| s.contains(p) && pair_key(p) == k ==> #[trigger] with_key(s, k).contains(p),
    decreases s.len(),
{
    if s.len() > 0 {
        let d = s.drop_last();
        lemma_with_key(d, k);
        let r = with_key(d, k);
        assert(s =~= d.push(s.last()));
        let w = with_key(s, k);
        assert forall|i: int| 0 <= i < w.len() implies pair_key(#[trigger] w[i]) == k && s.contains(w[i]) by {
            if i < r.len() {
                assert(w[i] == r[i]);
                let j = choose|j: int| 0 <= j < d.len() && d[j] == r[i];
                assert(s[j] == d[j]);
            } else {
                assert(w[i] == s.last());
                assert(s[s.len() - 1] == s.last());
            }
        }
        assert forall|p: PairView| s.contains(p) && pair_key(p) == k implies #[trigger] w.contains(p) by {
            let j = choose|j: int| 0 <= j < s.len() && s[j] == p;
            if j < d.len() {
                assert(d[j] == p);
                assert(d.contains(p));
                assert(r.contains(p));
                let q = choose|q: int| 0 <= q < r.len() && r[q] == p;
                assert(w[q] == r[q]);
            } else {
                assert(w[w.len() - 1] == p);
            }
        }
    }
}

proof fn lemma_by_key_desc(s: Seq<PairView>, k: int)
    ensures
        forall|i: int, j: int|
            0 <= i < j < by_key_desc(s, k).len() ==> pair_key(#[trigger] by_key_desc(s, k)[i])
                >= pair_key(#[trigger] by_key_desc(s, k)[j]),
        forall|i: int|
            0 <= i < by_key_desc(s, k).len() ==> pair_key(#[trigger] by_key_desc(s, k)[i]) <= k
                && s.contains(by_key_desc(s, k)[i]),
        forall|p: PairView|
            s.contains(p) && pair_key(p) <= k ==> #[trigger] by_key_desc(s, k).contains(p),
    decreases k + 1,
{
    if k >= 0 {
        lemma_with_key(s, k);
        lemma_by_key_desc(s, k - 1);
        let a = with_key(s, k);
        let b = by_key_desc(s, k - 1);
        let r = a + b;
        assert forall|i: int| 0 <= i < r.len() implies pair_key(#[trigger] r[i]) <= k && s.contains(r[i]) by {
            if i < a.len() {
                assert(r[i] == a[i]);
            } else {
                assert(r[i] == b[i - a.len()]);
            }
        }
        assert forall|i: int, j: int| 0 <= i < j < r.len() implies pair_key(#[trigger] r[i]) >= pair_key(
            #[trigger] r[j],
        ) by {
            if j < a.len() {
                assert(r[i] == a[i] && r[j] == a[j]);
            } else if i < a.len() {
                assert(r[i] == a[i] && r[j] == b[j - a.len()]);
            } else {
                assert(r[i] == b[i - a.len()] && r[j] == b[j - a.len()]);
            }
        }
        assert forall|p: PairView| s.contains(p) && pair_key(p) <= k implies #[trigger] r.contains(p) by {
            if pair_key(p) == k {
                assert(a.contains(p));
                let q = choose|q: int| 0 <= q < a.len() && a[q] == p;
                assert(r[q] == a[q]);
            } else {
                assert(b.contains(p));
                let q = choose|q: int| 0 <= q < b.len() && b[q] == p;
                assert(r[q + a.len()] == b[q]);
            }
        }
    }
}

/// The Jaccard intersection is at most the union.
pub proof fn lemma_jaccard_inter_le_union(a: Seq<char>, b: Seq<char>)
    ensures
        jaccard_inter(a, b) <= jaccard_union(a, b),
{
    broadcast use vstd::seq_lib::seq_to_set_is_finite;

    vstd::set_lib::lemma_len_subset(
        word_set(a).intersect(word_set(b)),
        word_set(a).union(word_set(b)),
    );
}

proof fn lemma_percent_le_100(r: (nat, nat))
    requires
        r.0 <= r.1,
        r.1 > 0,
    ensures
        percent(r) <= 100,
{
    assert((200 * r.0 + r.1) / (2 * r.1) <= 100) by (nonlinear_arith)
        requires
            r.0 <= r.1,
            r.1 > 0,
    ;
}

/// The ordering key of a pair of sentences is at most 100.
proof fn lemma_key_le_100(sa: (Seq<char>, nat, nat), sb: (Seq<char>, nat, nat))
    ensures
        pair_key(make_pair(sa, sb)) <= 100,
{
    lemma_jaccard_inter_le_union(sa.0, sb.0);
    lemma_percent_le_100(jaccard_ratio(sa.0, sb.0));
    lemma_levenshtein_le_max(lowercase(sa.0), lowercase(sb.0));
    lemma_len_le_byte_len(lowercase(sa.0));
    lemma_len_le_byte_len(lowercase(sb.0));
    lemma_percent_le_100(lev_ratio(sa.0, sb.0));
}

proof fn lemma_row_pairs(sa: (Seq<char>, nat, nat), sbs: Seq<(Seq<char>, nat, nat)>, tn: nat, td: nat)
    ensures
        forall|i: int|
            0 <= i < row_pairs(sa, sbs, tn, td).len() ==> flagged(
                (#[trigger] row_pairs(sa, sbs, tn, td)[i]).sentence_a,
                row_pairs(sa, sbs, tn, td)[i].sentence_b,
                tn,
                td,
            ) && pair_key(row_pairs(sa, sbs, tn, td)[i]) <= 100,
    decreases sbs.len(),
{
    if sbs.len() > 0 {
        lemma_row_pairs(sa, sbs.drop_last(), tn, td);
        lemma_key_le_100(sa, sbs.last());
        let r = row_pairs(sa, sbs.drop_last(), tn, td);
        let w = row_pairs(sa, sbs, tn, td);
        assert forall|i: int| 0 <= i < w.len() implies flagged(
            (#[trigger] w[i]).sentence_a,
            w[i].sentence_b,
            tn,
            td,
        ) && pair_key(w[i]) <= 100 by {
            if i < r.len() {
                assert(w[i] == r[i]);
            }
        }
    }
}

proof fn lemma_all_pairs(sas: Seq<(Seq<char>, nat, nat)>, sbs: Seq<(Seq<char>, nat, nat)>, tn: nat, td: nat)
    ensures
        forall|i: int|
            0 <= i < all_pairs(sas, sbs, tn, td).len() ==> flagged(
                (#[trigger] all_pairs(sas, sbs, tn, td)[i]).sentence_a,
                all_pairs(sas, sbs, tn, td)[i].sentence_b,
                tn,
                td,
            ) && pair_key(all_pairs(sas, sbs, tn, td)[i]) <= 100,
    decreases sas.len(),
{
    if sas.len() > 0 {
        lemma_all_pairs(sas.drop_last(), sbs, tn, td);
        lemma_row_pairs(sas.last(), sbs, tn, td);
        let a = all_pairs(sas.drop_last(), sbs, tn, td);
        let b = row_pairs(sas.last(), sbs, tn, td);
        let w = a + b;
        assert forall|i: int| 0 <= i < w.len() implies flagged(
            (#[trigger] w[i]).sentence_a,
            w[i].sentence_b,
            tn,
            td,
        ) && pair_key(w[i]) <= 100 by {
            if i < a.len() {
                assert(w[i] == a[i]);
            } else {
                assert(w[i] == b[i - a.len()]);
            }
        }
    }
}

proof fn lemma_row_pairs_has(
    sa: (Seq<char>, nat, nat),
    sbs: Seq<(Seq<char>, nat, nat)>,
    tn: nat,
    td: nat,
    l: int,
)
    requires
        0 <= l < sbs.len(),
        flagged(sa.0, sbs[l].0, tn, td),
    ensures
        row_pairs(sa, sbs, tn, td).contains(make_pair(sa, sbs[l])),
    decreases sbs.len(),
{
    let d = sbs.drop_last();
    let r = row_pairs(sa, d, tn, td);
    let w = row_pairs(sa, sbs, tn, td);
    if l < sbs.len() - 1 {
        assert(d[l] == sbs[l]);
        lemma_row_pairs_has(sa, d, tn, td, l);
        let q = choose|q: int| 0 <= q < r.len() && r[q] == make_pair(sa, sbs[l]);
        assert(w[q] == r[q]);
    } else {
        assert(sbs.last() == sbs[l]);
        assert(w[w.len() - 1] == make_pair(sa, sbs[l]));
    }
}

proof fn lemma_all_pairs_has(
    sas: Seq<(Seq<char>, nat, nat)>,
    sbs: Seq<(Seq<char>, nat, nat)>,
    tn: nat,
    td: nat,
    k: int,
    l: int,
)
    requires
        0 <= k < sas.len(),
        0 <= l < sbs.len(),
        flagged(sas[k].0, sbs[l].0, tn, td),
    ensures
        all_pairs(sas, sbs, tn, td).contains(make_pair(sas[k], sbs[l])),
    decreases sas.len(),
{
    let d = sas.drop_last();
    let a = all_pairs(d, sbs, tn, td);
    let b = row_pairs(sas.last(), sbs, tn, td);
    let x = make_pair(sas[k], sbs[l]);
    if k < sas.len() - 1 {
        assert(d[k] == sas[k]);
        lemma_all_pairs_has(d, sbs, tn, td, k, l);
        let q = choose|q: int| 0 <= q < a.len() && a[q] == x;
        assert((a + b)[q] == a[q]);
    } else {
        assert(sas.last() == sas[k]);
        lemma_row_pairs_has(sas.last(), sbs, tn, td, l);
        let q = choose|q: int| 0 <= q < b.len() && b[q] == x;
        assert((a + b)[q + a.len()] == b[q]);
    }
}

/// A sentence pair is found whenever either similarity reaches the
/// threshold `tn / td`: the Levenshtein similarity (one minus the edit
/// distance of the lower-cased sentences over the longer UTF-8 length of
/// them, one for two empty texts), or the Jaccard similarity (the size of
/// the intersection of the lower-cased word sets over that of their union,
/// zero for two empty sets); the other similarity plays no part.
pub proof fn lemma_suspicious_pairs_complete(
    ta: Seq<char>,
    tb: Seq<char>,
    tn: nat,
    td: nat,
    k: int,
    l: int,
)
    requires
        0 <= k < sentences(ta).len(),
        0 <= l < sentences(tb).len(),
        ({
            let a = sentences(ta)[k].0;
            let b = sentences(tb)[l].0;
            let m = max_nat(byte_len(lowercase(a)), byte_len(lowercase(b)));
            let d = levenshtein(lowercase(a), lowercase(b));
            let i = word_set(a).intersect(word_set(b)).len();
            let u = word_set(a).union(word_set(b)).len();
            ||| m == 0 && td >= tn
            ||| m > 0 && (m - d) * td >= tn * m
            ||| u == 0 && tn == 0
            ||| u > 0 && i * td >= tn * u
        }),
    ensures
        suspicious_pairs(ta, tb, tn, td).contains(make_pair(sentences(ta)[k], sentences(tb)[l])),
{
    let a = sentences(ta)[k].0;
    let b = sentences(tb)[l].0;
    lemma_levenshtein_le_max(lowercase(a), lowercase(b));
    lemma_len_le_byte_len(lowercase(a));
    lemma_len_le_byte_len(lowercase(b));
    let m = max_nat(byte_len(lowercase(a)), byte_len(lowercase(b)));
    let d = levenshtein(lowercase(a), lowercase(b));
    assert(d <= m);
    let i = word_set(a).intersect(word_set(b)).len();
    let u = word_set(a).union(word_set(b)).len();
    if m == 0 && td >= tn {
        assert(lev_ratio(a, b) == (1nat, 1nat));
        assert(at_least(lev_ratio(a, b), tn, td));
    } else if m > 0 && (m - d) * td >= tn * m {
        let r = lev_ratio(a, b);
        assert(r == ((m - d) as nat, m));
        assert(r.0 == m - d);
        assert(r.0 * td >= tn * r.1);
        assert(at_least(lev_ratio(a, b), tn, td));
    } else if u == 0 && tn == 0 {
        assert(jaccard_ratio(a, b) == (0nat, 1nat));
        assert(at_least(jaccard_ratio(a, b), tn, td));
    } else {
        assert(jaccard_ratio(a, b) == (i, u));
        assert(at_least(jaccard_ratio(a, b), tn, td));
    }
    assert(flagged(a, b, tn, td));
    lemma_all_pairs_has(sentences(ta), sentences(tb), tn, td, k, l);
    lemma_suspicious_pairs_ranked(ta, tb, tn, td);
}

/// The suspicious pairs of two texts come by decreasing key (the larger of
/// their two percentages); each of them reaches the threshold; and they
/// are exactly the flagged pairs of a sentence of the first text and a
/// sentence of the second.
pub proof fn lemma_suspicious_pairs_ranked(ta: Seq<char>, tb: Seq<char>, tn: nat, td: nat)
    ensures
        forall|i: int, j: int|
            0 <= i < j < suspicious_pairs(ta, tb, tn, td).len() ==> pair_key(
                #[trigger] suspicious_pairs(ta, tb, tn, td)[i],
            ) >= pair_key(#[trigger] suspicious_pairs(ta, tb, tn, td)[j]),
        forall|i: int|
            0 <= i < suspicious_pairs(ta, tb, tn, td).len() ==> flagged(
                (#[trigger] suspicious_pairs(ta, tb, tn, td)[i]).sentence_a,
                suspicious_pairs(ta, tb, tn, td)[i].sentence_b,
                tn,
                td,
            ),
        forall|p: PairView|
            #[trigger] suspicious_pairs(ta, tb, tn, td).contains(p) <==> all_pairs(
                sentences(ta),
                sentences(tb),
                tn,
                td,
            ).contains(p),
{
    let s = all_pairs(sentences(ta), sentences(tb), tn, td);
    lemma_all_pairs(sentences(ta), sentences(tb), tn, td);
    lemma_by_key_desc(s, 100);
    let r = suspicious_pairs(ta, tb, tn, td);
    assert forall|i: int| 0 <= i < r.len() implies flagged(
        (#[trigger] r[i]).sentence_a,
        r[i].sentence_b,
        tn,
        td,
    ) by {
        let j = choose|j: int| 0 <= j < s.len() && s[j] == r[i];
        assert(flagged(s[j].sentence_a, s[j].sentence_b, tn, td));
    }
    assert forall|p: PairView| #[trigger] r.contains(p) <==> s.contains(p) by {
        if s.contains(p) {
            let j = choose|j: int| 0 <= j < s.len() && s[j] == p;
            assert(pair_key(s[j]) <= 100);
        }
    }
}

/// One of the two similarities of `a` and `b`, written out, reaches the
/// threshold `tn / td`: the Levenshtein similarity (one minus the edit
/// distance of the lower-cased texts over the longer UTF-8 length of them,
/// one for two empty texts) or the Jaccard similarity (the size of the
/// intersection of the lower-cased word sets over that of their union, zero
/// for two empty sets).
pub open spec fn similarity_reaches(a: Seq<char>, b: Seq<char>, tn: nat, td: nat) -> bool {
    let m = max_nat(byte_len(lowercase(a)), byte_len(lowercase(b)));
    let d = levenshtein(lowercase(a), lowercase(b));
    let i = word_set(a).intersect(word_set(b)).len();
    let u = word_set(a).union(word_set(b)).len();
    ||| m == 0 && td >= tn
    ||| m > 0 && (m - d) * td >= tn * m
    ||| u == 0 && tn == 0
    ||| u > 0 && i * td >= tn * u
}

proof fn lemma_flagged_reaches(a: Seq<char>, b: Seq<char>, tn: nat, td: nat)
    requires
        flagged(a, b, tn, td),
    ensures
        similarity_reaches(a, b, tn, td),
{
    lemma_levenshtein_le_max(lowercase(a), lowercase(b));
    lemma_len_le_byte_len(lowercase(a));
    lemma_len_le_byte_len(lowercase(b));
    let m = max_nat(byte_len(lowercase(a)), byte_len(lowercase(b)));
    let d = levenshtein(lowercase(a), lowercase(b));
    assert(d <= m);
    let i = word_set(a).intersect(word_set(b)).len();
    let u = word_set(a).union(word_set(b)).len();
    if at_least(lev_ratio(a, b), tn, td) {
        if m > 0 {
            let r = lev_ratio(a, b);
            assert(r == ((m - d) as nat, m));
            assert(r.0 * td >= tn * r.1);
            assert((m - d) * td >= tn * m);
        } else {
            let r = lev_ratio(a, b);
            assert(r == (1nat, 1nat));
            assert(td >= tn) by (nonlinear_arith)
                requires
                    r.0 == 1,
                    r.1 == 1,
                    r.0 * td >= tn * r.1,
            ;
        }
    } else {
        assert(at_least(jaccard_ratio(a, b), tn, td));
        if u == 0 {
            let r = jaccard_ratio(a, b);
            assert(r == (0nat, 1nat));
            assert(tn == 0) by (nonlinear_arith)
                requires
                    r.0 == 0,
                    r.1 == 1,
                    r.0 * td >= tn * r.1,
            ;
        } else {
            assert(jaccard_ratio(a, b) == (i, u));
            assert(i * td >= tn * u);
        }
    }
}

proof fn lemma_row_pairs_from(
    sa: (Seq<char>, nat, nat),
    sbs: Seq<(Seq<char>, nat, nat)>,
    tn: nat,
    td: nat,
    p: PairView,
)
    requires
        row_pairs(sa, sbs, tn, td).contains(p),
    ensures
        exists|l: int| 0 <= l < sbs.len() && flagged(sa.0, sbs[l].0, tn, td) && p == make_pair(sa, #[trigger] sbs[l]),
    decreases sbs.len(),
{
    let d = sbs.drop_last();
    let r = row_pairs(sa, d, tn, td);
    let w = row_pairs(sa, sbs, tn, td);
    let q = choose|q: int| 0 <= q < w.len() && w[q] == p;
    if q < r.len() {
        assert(w[q] == r[q]);
        assert(r.contains(p));
        lemma_row_pairs_from(sa, d, tn, td, p);
        let l = choose|l: int| 0 <= l < d.len() && flagged(sa.0, d[l].0, tn, td) && p == make_pair(sa, #[trigger] d[l]);
        assert(sbs[l] == d[l]);
    } else {
        assert(sbs[sbs.len() - 1] == sbs.last());
    }
}

proof fn lemma_all_pairs_from(
    sas: Seq<(Seq<char>, nat, nat)>,
    sbs: Seq<(Seq<char>, nat, nat)>,
    tn: nat,
    td: nat,
    p: PairView,
)
    requires
        all_pairs(sas, sbs, tn, td).contains(p),
    ensures
        exists|k: int, l: int|
            0 <= k < sas.len() && 0 <= l < sbs.len() && flagged(sas[k].0, sbs[l].0, tn, td) && p
                == make_pair(#[trigger] sas[k], #[trigger] sbs[l]),
    decreases sas.len(),
{
    let d = sas.drop_last();
    let a = all_pairs(d, sbs, tn, td);
    let b = row_pairs(sas.last(), sbs, tn, td);
    let w = a + b;
    let q = choose|q: int| 0 <= q < w.len() && w[q] == p;
    if q < a.len() {
        assert(w[q] == a[q]);
        assert(a.contains(p));
        lemma_all_pairs_from(d, sbs, tn, td, p);
        let (k, l) = choose|k: int, l: int|
            0 <= k < d.len() && 0 <= l < sbs.len() && flagged(d[k].0, sbs[l].0, tn, td) && p
                == make_pair(#[trigger] d[k], #[trigger] sbs[l]);
        assert(sas[k] == d[k]);
    } else {
        assert(w[q] == b[q - a.len()]);
        assert(b.contains(p));
        lemma_row_pairs_from(sas.last(), sbs, tn, td, p);
        let l = choose|l: int| 0 <= l < sbs.len() && flagged(sas.last().0, sbs[l].0, tn, td) && p
            == make_pair(sas.last(), #[trigger] sbs[l]);
        assert(sas[sas.len() - 1] == sas.last());
    }
}

/// Every pair found is a sentence of the first text and a sentence of the
/// second, with their texts, percentages and byte ranges, and one of their
/// two similarities, written out, reaches the threshold `tn / td`.
pub proof fn lemma_suspicious_pairs_sound(ta: Seq<char>, tb: Seq<char>, tn: nat, td: nat, p: PairView)
    requires
        suspicious_pairs(ta, tb, tn, td).contains(p),
    ensures
        exists|k: int, l: int|
            0 <= k < sentences(ta).len() && 0 <= l < sentences(tb).len() && p == make_pair(
                #[trigger] sentences(ta)[k],
                #[trigger] sentences(tb)[l],
            ) && similarity_reaches(sentences(ta)[k].0, sentences(tb)[l].0, tn, td),
{
    lemma_suspicious_pairs_ranked(ta, tb, tn, td);
    let sas = sentences(ta);
    let sbs = sentences(tb);
    lemma_all_pairs_from(sas, sbs, tn, td, p);
    let (k, l) = choose|k: int, l: int|
        0 <= k < sas.len() && 0 <= l < sbs.len() && flagged(sas[k].0, sbs[l].0, tn, td) && p
            == make_pair(#[trigger] sas[k], #[trigger] sbs[l]);
    lemma_flagged_reaches(sas[k].0, sbs[l].0, tn, td);
}

/// The sentences of `cs`: trimmed text and byte range.
fn sentence_records(cs: &[char]) -> (r: Vec<(Vec<char>, usize, usize)>)
    requires
        byte_len(cs@) <= usize::MAX,
    ensures
        r@.map_values(|t: (Vec<char>, usize, usize)| (t.0@, t.1 as nat, t.2 as nat)) == sentences(cs@),
        forall|k: int| 0 <= k < r@.len() ==> (#[trigger] r@[k]).0@.len() <= cs@.len(),
{
    let offs = byte_offsets(cs);
    let spans = scan_sentences(cs);
    let mut out: Vec<(Vec<char>, usize, usize)> = Vec::new();
    let mut k: usize = 0;
    while k < spans.len()
        invariant
            k <= spans@.len(),
            offs@.len() == cs@.len() + 1,
            forall|j: int| 0 <= j <= cs@.len() ==> offs@[j] == byte_len(#[trigger] cs@.take(j)),
            span_ranges(spans@) == sentence_spans(cs@),
            spans_of(cs@, spans@),
            out@.map_values(|t: (Vec<char>, usize, usize)| (t.0@, t.1 as nat, t.2 as nat)) == sentences(cs@).take(k as int),
            forall|j: int| 0 <= j < out@.len() ==> (#[trigger] out@[j]).0@.len() <= cs@.len(),
        decreases spans@.len() - k,
    {
        let sp = &spans[k];
        let t = copy_text(&sp.text);
        proof {
            assert(span_ranges(spans@)[k as int] == (sp.start as int, sp.end as int));
            assert(spans_of(cs@, spans@) ==> spans@[k as int].start <= spans@[k as int].end);
            assert(sentence_spans(cs@)[k as int] == (sp.start as int, sp.end as int));
            lemma_trim_len(cs@.subrange(sp.start as int, sp.end as int));
            assert(sentences(cs@)[k as int] == (
                trim(cs@.subrange(sp.start as int, sp.end as int)),
                byte_len(cs@.take(sp.start as int)),
                byte_len(cs@.take(sp.end as int)),
            ));
        }
        let bs = offs[sp.start];
        let be = offs[sp.end];
        let ghost old_out = out@;
        out.push((t, bs, be));
        proof {
            assert(out@.map_values(|t: (Vec<char>, usize, usize)| (t.0@, t.1 as nat, t.2 as nat))
                =~= old_out.map_values(|t: (Vec<char>, usize, usize)| (t.0@, t.1 as nat, t.2 as nat)).push(sentences(cs@)[k as int]));
            assert(out@.map_values(|t: (Vec<char>, usize, usize)| (t.0@, t.1 as nat, t.2 as nat))
                =~= sentences(cs@).take(k + 1));
        }
        k = k + 1;
    }
    assert(sentences(cs@).take(k as int) =~= sentences(cs@));
    out
}

fn copy_text(s: &Vec<char>) -> (r: Vec<char>)
    ensures
        r@ == s@,
{
    let mut r: Vec<char> = Vec::new();
    crate::text::push_all(&mut r, s.as_slice());
    r
}

fn copy_pair(p: &SuspiciousPair) -> (r: SuspiciousPair)
    ensures
        r@ == p@,
{
    SuspiciousPair {
        sentence_a: p.sentence_a.clone(),
        sentence_b: p.sentence_b.clone(),
        jaccard_percent: p.jaccard_percent,
        levenshtein_percent: p.levenshtein_percent,
        pos_a: p.pos_a,
        pos_b: p.pos_b,
    }
}

fn pair_key_exec(p: &SuspiciousPair) -> (k: u64)
    ensures
        k == pair_key(p@),
{
    if p.jaccard_percent >= p.levenshtein_percent {
        p.jaccard_percent
    } else {
        p.levenshtein_percent
    }
}

pub open spec fn record_views(v: Seq<(Vec<char>, usize, usize)>) -> Seq<(Seq<char>, nat, nat)> {
    v.map_values(|t: (Vec<char>, usize, usize)| (t.0@, t.1 as nat, t.2 as nat))
}

/// The pairs of `s` whose key is `k`, appended to `out`.
fn push_with_key(s: &Vec<SuspiciousPair>, k: u64, out: &mut Vec<SuspiciousPair>)
    ensures
        pair_views(final(out)@) == pair_views(old(out)@) + with_key(pair_views(s@), k as int),
{
    let ghost sv = pair_views(s@);
    let mut m: usize = 0;
    assert(sv.take(0) =~= Seq::<PairView>::empty());
    assert(pair_views(out@) =~= pair_views(old(out)@) + with_key(sv.take(0), k as int));
    while m < s.len()
        invariant
            sv == pair_views(s@),
            m <= s@.len(),
            pair_views(out@) == pair_views(old(out)@) + with_key(sv.take(m as int), k as int),
        decreases s@.len() - m,
    {
        let ghost before = pair_views(out@);
        proof {
            assert(sv.take(m + 1).drop_last() =~= sv.take(m as int));
            assert(sv.take(m + 1).last() == s@[m as int]@);
        }
        if pair_key_exec(&s[m]) == k {
            let p = copy_pair(&s[m]);
            out.push(p);
            assert(pair_views(out@) =~= before.push(s@[m as int]@));
        }
        m = m + 1;
    }
    assert(sv.take(s@.len() as int) =~= sv);
}

/// Find suspicious sentence pairs between two texts: the pairs whose Jaccard
/// or Levenshtein similarity reaches the threshold `threshold_num /
/// threshold_den`, ordered by the larger of their two rounded percentages,
/// descending, pairs with equal keys in the order of the first text's
/// sentences and then of the second's.
pub fn find_suspicious_sentences(
    text_a: &str,
    text_b: &str,
    threshold_num: u64,
    threshold_den: u64,
) -> (r: Vec<SuspiciousPair>)
    ensures
        pair_views(r@) == suspicious_pairs(
            text_a@,
            text_b@,
            threshold_num as nat,
            threshold_den as nat,
        ),
{
    let ghost tn = threshold_num as nat;
    let ghost td = threshold_den as nat;
    let ca = chars_of(text_a);
    let cb = chars_of(text_b);
    proof {
        lemma_len_le_byte_len(ca@);
        lemma_len_le_byte_len(cb@);
    }
    let sa = sentence_records(&ca);
    let sb = sentence_records(&cb);
    let ghost sas = sentences(ca@);
    let ghost sbs = sentences(cb@);
    let mut cands: Vec<SuspiciousPair> = Vec::new();
    let mut i: usize = 0;
    assert(sas.take(0) =~= Seq::<(Seq<char>, nat, nat)>::empty());
    assert(pair_views(cands@) =~= all_pairs(sas.take(0), sbs, tn, td));
    while i < sa.len()
        invariant
            tn == threshold_num as nat,
            td == threshold_den as nat,
            record_views(sa@) == sas,
            record_views(sb@) == sbs,
            ca@.len() <= isize::MAX,
            cb@.len() <= isize::MAX,
            forall|k: int| 0 <= k < sa@.len() ==> (#[trigger] sa@[k]).0@.len() <= ca@.len(),
            forall|k: int| 0 <= k < sb@.len() ==> (#[trigger] sb@[k]).0@.len() <= cb@.len(),
            i <= sa@.len(),
            pair_views(cands@) == all_pairs(sas.take(i as int), sbs, tn, td),
        decreases sa@.len() - i,
    {
        let mut j: usize = 0;
        assert(sbs.take(0) =~= Seq::<(Seq<char>, nat, nat)>::empty());
        assert(pair_views(cands@) =~= all_pairs(sas.take(i as int), sbs, tn, td) + row_pairs(
            sas[i as int],
            sbs.take(0),
            tn,
            td,
        ));
        while j < sb.len()
            invariant
                tn == threshold_num as nat,
                td == threshold_den as nat,
                record_views(sa@) == sas,
                record_views(sb@) == sbs,
                ca@.len() <= isize::MAX,
                cb@.len() <= isize::MAX,
                forall|k: int| 0 <= k < sa@.len() ==> (#[trigger] sa@[k]).0@.len() <= ca@.len(),
                forall|k: int| 0 <= k < sb@.len() ==> (#[trigger] sb@[k]).0@.len() <= cb@.len(),
                i < sa@.len(),
                j <= sb@.len(),
                pair_views(cands@) == all_pairs(sas.take(i as int), sbs, tn, td) + row_pairs(
                    sas[i as int],
                    sbs.take(j as int),
                    tn,
                    td,
                ),
            decreases sb@.len() - j,
        {
            let a = &sa[i].0;
            let b = &sb[j].0;
            proof {
                assert(sa@[i as int].0@.len() <= ca@.len());
                assert(sb@[j as int].0@.len() <= cb@.len());
                assert(sas[i as int] == (a@, sa@[i as int].1 as nat, sa@[i as int].2 as nat));
                assert(sbs[j as int] == (b@, sb@[j as int].1 as nat, sb@[j as int].2 as nat));
                assert(sbs.take(j + 1).drop_last() =~= sbs.take(j as int));
                assert(sbs.take(j + 1).last() == sbs[j as int]);
            }
            let (inter, uni) = jaccard_counts(a, b);
            let (dist, m) = levenshtein_counts(a, b);
            let (jn, jd) = if uni == 0 {
                (0usize, 1usize)
            } else {
                (inter, uni)
            };
            let (ln, ld) = if m == 0 {
                (1usize, 1usize)
            } else {
                (m - dist, m)
            };
            let ghost before = pair_views(cands@);
            proof {
                assert(jaccard_ratio(a@, b@) == (jn as nat, jd as nat));
                assert(lev_ratio(a@, b@) == (ln as nat, ld as nat));
                let rj = row_pairs(sas[i as int], sbs.take(j + 1), tn, td);
                let r0 = row_pairs(sas[i as int], sbs.take(j as int), tn, td);
                if flagged(a@, b@, tn, td) {
                    assert(rj == r0.push(make_pair(sas[i as int], sbs[j as int])));
                } else {
                    assert(rj == r0);
                }
            }
            let flag = at_least_exec(jn, jd, threshold_num, threshold_den) || at_least_exec(
                ln,
                ld,
                threshold_num,
                threshold_den,
            );
            assert(flag == flagged(a@, b@, tn, td));
            if flag {
                let p = SuspiciousPair {
                    sentence_a: string_of(a),
                    sentence_b: string_of(b),
                    jaccard_percent: percent_of(jn, jd),
                    levenshtein_percent: percent_of(ln, ld),
                    pos_a: (sa[i].1, sa[i].2),
                    pos_b: (sb[j].1, sb[j].2),
                };
                proof {
                    assert(p@ == make_pair(sas[i as int], sbs[j as int]));
                }
                cands.push(p);
                assert(pair_views(cands@) =~= before.push(make_pair(sas[i as int], sbs[j as int])));
            }
            assert(pair_views(cands@) =~= all_pairs(sas.take(i as int), sbs, tn, td) + row_pairs(
                sas[i as int],
                sbs.take(j + 1),
                tn,
                td,
            ));
            j = j + 1;
        }
        proof {
            assert(sbs.take(sb@.len() as int) =~= sbs);
            assert(sas.take(i + 1).drop_last() =~= sas.take(i as int));
            assert(sas.take(i + 1).last() == sas[i as int]);
        }
        i = i + 1;
    }
    assert(sas.take(sa@.len() as int) =~= sas);
    let ghost cv = pair_views(cands@);
    let mut out: Vec<SuspiciousPair> = Vec::new();
    let mut next: u64 = 101;
    assert(pair_views(out@) + by_key_desc(cv, 100) =~= by_key_desc(cv, 100));
    while next > 0
        invariant
            cv == pair_views(cands@),
            next <= 101,
            pair_views(out@) + by_key_desc(cv, next - 1) == by_key_desc(cv, 100),
        decreases next,
    {
        let key = next - 1;
        let ghost before = pair_views(out@);
        push_with_key(&cands, key, &mut out);
        proof {
            assert(by_key_desc(cv, key as int) == with_key(cv, key as int) + by_key_desc(
                cv,
                key - 1,
            ));
            assert(pair_views(out@) + by_key_desc(cv, key - 1) =~= before + by_key_desc(
                cv,
                key as int,
            ));
        }
        next = key;
    }
    assert(pair_views(out@) =~= pair_views(out@) + by_key_desc(cv, -1));
    out
}

/// A sentence matches a template sentence when their Jaccard similarity
/// exceeds 0.9.
pub open spec fn matches_template(s: Seq<char>, t: Seq<char>) -> bool {
    10 * jaccard_inter(s, t) > 9 * jaccard_union(s, t)
}

/// A sentence matches one of the template sentences.
pub open spec fn is_template_sentence(s: Seq<char>, tmpl: Seq<(Seq<char>, nat, nat)>) -> bool {
    exists|j: int| 0 <= j < tmpl.len() && matches_template(s, #[trigger] tmpl[j].0)
}

/// What is left of `cs` from sentence `k` on, once the sentences that match
/// the template are cut out; `last_end` is where the last cut ended.
pub open spec fn kept_text(
    cs: Seq<char>,
    spans: Seq<(int, int)>,
    tmpl: Seq<(Seq<char>, nat, nat)>,
    k: int,
    last_end: int,
) -> Seq<char>
    decreases spans.len() - k,
{
    if k < 0 || k >= spans.len() {
        if last_end < cs.len() {
            cs.subrange(last_end, cs.len() as int)
        } else {
            seq![]
        }
    } else {
        let a = spans[k].0;
        let b = spans[k].1;
        if is_template_sentence(trim(cs.subrange(a, b)), tmpl) {
            (if a > last_end {
                cs.subrange(last_end, a)
            } else {
                seq![]
            }) + kept_text(cs, spans, tmpl, k + 1, b)
        } else {
            kept_text(cs, spans, tmpl, k + 1, last_end)
        }
    }
}

/// `text` without the sentences that match a sentence of `template`, trimmed.
pub open spec fn stripped(text: Seq<char>, template: Seq<char>) -> Seq<char> {
    trim(kept_text(text, sentence_spans(text), sentences(template), 0, 0))
}

proof fn lemma_kept_text_all(
    cs: Seq<char>,
    spans: Seq<(int, int)>,
    tmpl: Seq<(Seq<char>, nat, nat)>,
    k: int,
    last_end: int,
)
    requires
        0 <= k,
        forall|j: int|
            k <= j < spans.len() ==> !is_template_sentence(
                trim(cs.subrange(#[trigger] spans[j].0, spans[j].1)),
                tmpl,
            ),
    ensures
        kept_text(cs, spans, tmpl, k, last_end) == if last_end < cs.len() {
            cs.subrange(last_end, cs.len() as int)
        } else {
            seq![]
        },
    decreases spans.len() - k,
{
    if k < spans.len() {
        lemma_kept_text_all(cs, spans, tmpl, k + 1, last_end);
    }
}

/// Where no sentence of the text matches a sentence of the template (as
/// when the template has no sentence), stripping only trims the text.
pub proof fn lemma_strip_nothing(text: Seq<char>, template: Seq<char>)
    requires
        forall|j: int|
            0 <= j < sentences(text).len() ==> !is_template_sentence(
                (#[trigger] sentences(text)[j]).0,
                sentences(template),
            ),
    ensures
        stripped(text, template) == trim(text),
{
    let sp = sentence_spans(text);
    assert forall|j: int| 0 <= j < sp.len() implies !is_template_sentence(
        trim(text.subrange(#[trigger] sp[j].0, sp[j].1)),
        sentences(template),
    ) by {
        assert(sentences(text)[j].0 == trim(text.subrange(sp[j].0, sp[j].1)));
    }
    lemma_kept_text_all(text, sp, sentences(template), 0, 0);
    if text.len() > 0 {
        assert(text.subrange(0, text.len() as int) =~= text);
    } else {
        assert(text =~= Seq::<char>::empty());
    }
}

/// Only a Jaccard similarity above 0.9 makes a sentence part of the
/// template: where every sentence of the text has, against every sentence
/// of the template, an intersection of lower-cased word sets of at most
/// nine tenths of their union, nothing is cut and stripping only trims the
/// text.
pub proof fn lemma_strip_keeps_dissimilar(text: Seq<char>, template: Seq<char>)
    requires
        forall|j: int, m: int|
            0 <= j < sentences(text).len() && 0 <= m < sentences(template).len() ==> 10 * word_set(
                (#[trigger] sentences(text)[j]).0,
            ).intersect(word_set((#[trigger] sentences(template)[m]).0)).len() <= 9 * word_set(
                sentences(text)[j].0,
            ).union(word_set(sentences(template)[m].0)).len(),
    ensures
        stripped(text, template) == trim(text),
{
    let st = sentences(text);
    let tt = sentences(template);
    assert forall|j: int| 0 <= j < st.len() implies !is_template_sentence(
        (#[trigger] st[j]).0,
        tt,
    ) by {
        if is_template_sentence(st[j].0, tt) {
            let m = choose|m: int| 0 <= m < tt.len() && matches_template(st[j].0, #[trigger] tt[m].0);
            assert(10 * word_set(st[j].0).intersect(word_set(tt[m].0)).len() <= 9 * word_set(
                st[j].0,
            ).union(word_set(tt[m].0)).len());
        }
    }
    lemma_strip_nothing(text, template);
}

proof fn lemma_kept_text_prefix(
    cs: Seq<char>,
    spans: Seq<(int, int)>,
    tmpl: Seq<(Seq<char>, nat, nat)>,
    k0: int,
    le: int,
    e: int,
)
    requires
        0 <= k0,
        0 <= le < e <= cs.len(),
        forall|j: int|
            k0 <= j < spans.len() ==> e <= (#[trigger] spans[j]).0 <= spans[j].1 <= cs.len(),
    ensures
        kept_text(cs, spans, tmpl, k0, le).len() >= e - le,
        kept_text(cs, spans, tmpl, k0, le).take(e - le) == cs.subrange(le, e),
    decreases spans.len() - k0,
{
    let r = kept_text(cs, spans, tmpl, k0, le);
    if k0 >= spans.len() {
        assert(r.take(e - le) =~= cs.subrange(le, e));
    } else {
        let a = spans[k0].0;
        let b = spans[k0].1;
        if is_template_sentence(trim(cs.subrange(a, b)), tmpl) {
            let g = cs.subrange(le, a);
            let rest = kept_text(cs, spans, tmpl, k0 + 1, b);
            assert(r == g + rest);
            assert(r.take(e - le) =~= cs.subrange(le, e));
        } else {
            lemma_kept_text_prefix(cs, spans, tmpl, k0 + 1, le, e);
        }
    }
}

proof fn lemma_kept_text_has(
    cs: Seq<char>,
    spans: Seq<(int, int)>,
    tmpl: Seq<(Seq<char>, nat, nat)>,
    k0: int,
    le: int,
    k: int,
)
    requires
        0 <= k0 <= k < spans.len(),
        0 <= le <= spans[k].0,
        forall|j: int| 0 <= j < spans.len() ==> 0 <= (#[trigger] spans[j]).0 < spans[j].1 <= cs.len(),
        forall|j: int, l: int|
            0 <= j < l < spans.len() ==> (#[trigger] spans[j]).1 <= (#[trigger] spans[l]).0,
        !is_template_sentence(trim(cs.subrange(spans[k].0, spans[k].1)), tmpl),
    ensures
        occurs_in(cs.subrange(spans[k].0, spans[k].1), kept_text(cs, spans, tmpl, k0, le)),
    decreases k - k0,
{
    let r = kept_text(cs, spans, tmpl, k0, le);
    let x = cs.subrange(spans[k].0, spans[k].1);
    let n = x.len() as int;
    if k0 == k {
        let e = spans[k].1;
        assert forall|j: int| k + 1 <= j < spans.len() implies e <= (#[trigger] spans[j]).0
            <= spans[j].1 <= cs.len() by {
            assert(spans[k].1 <= spans[j].0);
        }
        lemma_kept_text_prefix(cs, spans, tmpl, k + 1, le, e);
        assert(r == kept_text(cs, spans, tmpl, k + 1, le));
        let o = spans[k].0 - le;
        assert forall|j: int| 0 <= j < n implies #[trigger] r.skip(o).take(n)[j] == x[j] by {
            assert(r.skip(o).take(n)[j] == r[o + j]);
            assert(r[o + j] == r.take(e - le)[o + j]);
        }
        assert(r.skip(o).take(n) =~= x);
    } else {
        let a = spans[k0].0;
        let b = spans[k0].1;
        assert(b <= spans[k].0);
        if is_template_sentence(trim(cs.subrange(a, b)), tmpl) {
            let g = if a > le {
                cs.subrange(le, a)
            } else {
                seq![]
            };
            let rest = kept_text(cs, spans, tmpl, k0 + 1, b);
            assert(r == g + rest);
            lemma_kept_text_has(cs, spans, tmpl, k0 + 1, b, k);
            let o = choose|o: int| 0 <= o <= rest.len() - n && #[trigger] rest.skip(o).take(n) == x;
            assert(r.skip(o + g.len()).take(n) =~= rest.skip(o).take(n));
        } else {
            lemma_kept_text_has(cs, spans, tmpl, k0 + 1, le, k);
        }
    }
}

/// A sentence of the text is cut only where it matches a sentence of the
/// template (Jaccard similarity above 0.9): a sentence whose lower-cased
/// word set has, against every sentence of the template, an intersection of
/// at most nine tenths of the union keeps its text, whole, in the result.
pub proof fn lemma_strip_keeps_sentence(text: Seq<char>, template: Seq<char>, k: int)
    requires
        0 <= k < sentences(text).len(),
        forall|m: int|
            0 <= m < sentences(template).len() ==> 10 * word_set(sentences(text)[k].0).intersect(
                word_set((#[trigger] sentences(template)[m]).0),
            ).len() <= 9 * word_set(sentences(text)[k].0).union(word_set(sentences(template)[m].0)).len(),
    ensures
        occurs_in(sentences(text)[k].0, stripped(text, template)),
{
    let st = sentences(text);
    let tt = sentences(template);
    let sp = sentence_spans(text);
    lemma_scan_spans(text, 0, 0);
    let t = st[k].0;
    let sub = text.subrange(sp[k].0, sp[k].1);
    assert(t == trim(sub));
    assert(!is_template_sentence(t, tt)) by {
        if is_template_sentence(t, tt) {
            let m = choose|m: int| 0 <= m < tt.len() && matches_template(t, #[trigger] tt[m].0);
            assert(10 * word_set(t).intersect(word_set(tt[m].0)).len() <= 9 * word_set(t).union(
                word_set(tt[m].0),
            ).len());
        }
    }
    lemma_kept_text_has(text, sp, tt, 0, 0, k);
    let kt = kept_text(text, sp, tt, 0, 0);
    lemma_trim_occurs(sub);
    assert(keeps(text, sp[k].0, sp[k].1));
    lemma_occurs_in_trans(t, sub, kt);
    lemma_occurs_in_trim(t, kt);
}

fn is_template_exec(s: &Vec<char>, tmpl: &Vec<(Vec<char>, usize, usize)>, bound: usize) -> (b: bool)
    requires
        s@.len() <= isize::MAX,
        bound <= isize::MAX,
        forall|k: int| 0 <= k < tmpl@.len() ==> (#[trigger] tmpl@[k]).0@.len() <= bound,
    ensures
        b == is_template_sentence(s@, record_views(tmpl@)),
{
    let ghost tv = record_views(tmpl@);
    let mut j: usize = 0;
    while j < tmpl.len()
        invariant
            tv == record_views(tmpl@),
            s@.len() <= isize::MAX,
            bound <= isize::MAX,
            forall|k: int| 0 <= k < tmpl@.len() ==> (#[trigger] tmpl@[k]).0@.len() <= bound,
            j <= tmpl@.len(),
            forall|k: int| 0 <= k < j ==> !matches_template(s@, #[trigger] tv[k].0),
        decreases tmpl@.len() - j,
    {
        let t = &tmpl[j].0;
        proof {
            assert(tmpl@[j as int].0@.len() <= bound);
            assert(tv[j as int].0 == t@);
        }
        let (inter, uni) = jaccard_counts(s, t);
        if 10 * (inter as u128) > 9 * (uni as u128) {
            return true;
        }
        j = j + 1;
    }
    false
}

/// Remove the sentences of `text` that match a sentence of `template`
/// (Jaccard similarity above 0.9), keeping the text between them, and trim
/// the result.
pub fn strip_template(text: &str, template: &str) -> (r: String)
    ensures
        r@ == stripped(text@, template@),
{
    let cs = chars_of(text);
    let ct = chars_of(template);
    proof {
        lemma_len_le_byte_len(cs@);
        lemma_len_le_byte_len(ct@);
    }
    let spans = scan_sentences(&cs);
    let tmpl = sentence_records(&ct);
    let ghost sp = span_ranges(spans@);
    let ghost tv = record_views(tmpl@);
    let mut acc: Vec<char> = Vec::new();
    let mut last_end: usize = 0;
    let mut k: usize = 0;
    assert(acc@ + kept_text(cs@, sp, tv, 0, 0) =~= kept_text(cs@, sp, tv, 0, 0));
    while k < spans.len()
        invariant
            sp == span_ranges(spans@),
            sp == sentence_spans(cs@),
            spans_of(cs@, spans@),
            tv == record_views(tmpl@),
            tv == sentences(ct@),
            cs@.len() <= isize::MAX,
            ct@.len() <= isize::MAX,
            forall|j: int| 0 <= j < tmpl@.len() ==> (#[trigger] tmpl@[j]).0@.len() <= ct@.len(),
            k <= spans@.len(),
            last_end <= cs@.len(),
            acc@ + kept_text(cs@, sp, tv, k as int, last_end as int) == kept_text(
                cs@,
                sp,
                tv,
                0,
                0,
            ),
        decreases spans@.len() - k,
    {
        let s = &spans[k];
        proof {
            assert(sp[k as int] == (s.start as int, s.end as int));
            assert(spans_of(cs@, spans@) ==> spans@[k as int].start <= spans@[k as int].end
                <= cs@.len());
            crate::text::lemma_trim_len(cs@.subrange(s.start as int, s.end as int));
        }
        let ghost before = acc@;
        if is_template_exec(&s.text, &tmpl, ct.len()) {
            if s.start > last_end {
                let piece = copy_range(&cs, last_end, s.start);
                push_all(&mut acc, &piece);
            }
            proof {
                assert(acc@ + kept_text(cs@, sp, tv, k + 1, s.end as int) =~= before + kept_text(
                    cs@,
                    sp,
                    tv,
                    k as int,
                    last_end as int,
                ));
            }
            last_end = s.end;
        }
        k = k + 1;
    }
    let ghost before = acc@;
    if last_end < cs.len() {
        let piece = copy_range(&cs, last_end, cs.len());
        push_all(&mut acc, &piece);
    }
    assert(acc@ =~= before + kept_text(cs@, sp, tv, k as int, last_end as int));
    let t = trim_range(&acc, 0, acc.len());
    assert(acc@.subrange(0, acc@.len() as int) =~= acc@);
    string_of(&t)
}

} // verus!
