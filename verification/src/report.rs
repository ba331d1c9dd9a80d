//! What the exported reports show: score bands and score text, the
//! highlighted ranges of a compared document, how they cut the document
//! into plain and highlighted pieces, and the HTML rendering of a report.

use vstd::prelude::*;
use crate::analysis::{DetailResult, SimilarityPair};
use crate::sentence::SuspiciousPair;
use crate::text::{
    byte_len, byte_offsets, char_pos, chars_of, copy_range, decimal, digit, digit_char, is_boundary,
    lemma_byte_len_take_mono, lemma_char_pos, lemma_char_pos_mono, push_decimal, push_text,
    string_of,
};

verus! {

/// The kind of a highlighted range: an exact n-gram match or a
/// paraphrased sentence.
#[derive(Clone, Copy, PartialEq, Eq, Structural, Debug)]
pub enum Mark {
    Exact,
    Para,
}

/// A highlighted byte range of a document.
#[derive(Clone, Copy, Debug)]
pub struct Marked {
    pub start: usize,
    pub end: usize,
    pub mark: Mark,
}

/// The byte range of a suspicious pair in the first or in the second document.
pub open spec fn side(p: SuspiciousPair, is_a: bool) -> (usize, usize) {
    if is_a {
        p.pos_a
    } else {
        p.pos_b
    }
}

/// Some n-gram range contains the range `r`.
pub open spec fn covered(h: Seq<(usize, usize)>, r: (usize, usize)) -> bool {
    exists|i: int| #![trigger h[i]] 0 <= i < h.len() && h[i].0 <= r.0 && h[i].1 >= r.1
}

/// The n-gram ranges, marked as exact matches.
pub open spec fn exact_ranges(h: Seq<(usize, usize)>) -> Seq<Marked> {
    h.map_values(|r: (usize, usize)| Marked { start: r.0, end: r.1, mark: Mark::Exact })
}

/// The ranges of the suspicious sentences that no n-gram range contains,
/// marked as paraphrased, in order.
pub open spec fn para_ranges(h: Seq<(usize, usize)>, sus: Seq<SuspiciousPair>, is_a: bool) -> Seq<
    Marked,
>
    decreases sus.len(),
{
    if sus.len() == 0 {
        seq![]
    } else {
        let rest = para_ranges(h, sus.drop_last(), is_a);
        let r = side(sus.last(), is_a);
        if covered(h, r) {
            rest
        } else {
            rest.push(Marked { start: r.0, end: r.1, mark: Mark::Para })
        }
    }
}

/// `s` with `x` put after every element that does not start after it.
pub open spec fn insert_by_start(s: Seq<Marked>, x: Marked) -> Seq<Marked>
    decreases s.len(),
{
    if s.len() == 0 || s.last().start <= x.start {
        s.push(x)
    } else {
        insert_by_start(s.drop_last(), x).push(s.last())
    }
}

/// `s` sorted by start; ranges with the same start keep their order.
pub open spec fn sort_by_start(s: Seq<Marked>) -> Seq<Marked>
    decreases s.len(),
{
    if s.len() == 0 {
        s
    } else {
        insert_by_start(sort_by_start(s.drop_last()), s.last())
    }
}

/// All highlighted ranges of one document of a compared pair: the n-gram
/// ranges, then the uncovered suspicious sentences, sorted by start.
pub open spec fn marked_ranges(h: Seq<(usize, usize)>, sus: Seq<SuspiciousPair>, is_a: bool) -> Seq<
    Marked,
> {
    sort_by_start(exact_ranges(h) + para_ranges(h, sus, is_a))
}

/// The ranges come by start.
pub open spec fn starts_sorted(s: Seq<Marked>) -> bool {
    forall|i: int, j: int| 0 <= i < j < s.len() ==> s[i].start <= s[j].start
}

proof fn lemma_insert_by_start(s: Seq<Marked>, x: Marked)
    requires
        starts_sorted(s),
    ensures
        starts_sorted(insert_by_start(s, x)),
        insert_by_start(s, x).to_multiset() == s.to_multiset().insert(x),
        forall|i: int|
            0 <= i < insert_by_start(s, x).len() ==> #[trigger] insert_by_start(s, x)[i] == x
                || s.contains(insert_by_start(s, x)[i]),
    decreases s.len(),
{
    broadcast use vstd::seq_lib::to_multiset_build;

    if s.len() == 0 || s.last().start <= x.start {
        let r = s.push(x);
        assert forall|i: int| 0 <= i < r.len() implies #[trigger] r[i] == x || s.contains(r[i]) by {
            if i < s.len() {
                assert(r[i] == s[i]);
            }
        }
    } else {
        let d = s.drop_last();
        let r = insert_by_start(d, x);
        lemma_insert_by_start(d, x);
        let t = r.push(s.last());
        assert(s =~= d.push(s.last()));
        assert forall|i: int, j: int| 0 <= i < j < t.len() implies t[i].start <= t[j].start by {
            if j == t.len() - 1 {
                assert(t[i] == r[i]);
                if r[i] != x {
                    let k = choose|k: int| 0 <= k < d.len() && d[k] == r[i];
                    assert(s[k] == d[k]);
                }
            } else {
                assert(t[i] == r[i] && t[j] == r[j]);
            }
        }
        assert forall|i: int| 0 <= i < t.len() implies #[trigger] t[i] == x || s.contains(t[i]) by {
            if i < r.len() {
                assert(t[i] == r[i]);
                if r[i] != x {
                    let k = choose|k: int| 0 <= k < d.len() && d[k] == r[i];
                    assert(s[k] == d[k]);
                }
            } else {
                assert(s[s.len() - 1] == s.last());
            }
        }
        assert(t.to_multiset() =~= s.to_multiset().insert(x));
    }
}

/// Sorting by start orders the ranges by start, and keeps each of them as
/// often as it comes.
pub proof fn lemma_sort_by_start(s: Seq<Marked>)
    ensures
        starts_sorted(sort_by_start(s)),
        sort_by_start(s).to_multiset() == s.to_multiset(),
    decreases s.len(),
{
    broadcast use vstd::seq_lib::to_multiset_build;

    if s.len() > 0 {
        lemma_sort_by_start(s.drop_last());
        lemma_insert_by_start(sort_by_start(s.drop_last()), s.last());
        assert(s =~= s.drop_last().push(s.last()));
    }
}

/// The highlighted ranges of a document come by start, and are exactly the
/// n-gram ranges and the uncovered suspicious sentences.
pub proof fn lemma_marked_ranges_sorted(h: Seq<(usize, usize)>, sus: Seq<SuspiciousPair>, is_a: bool)
    ensures
        starts_sorted(marked_ranges(h, sus, is_a)),
        marked_ranges(h, sus, is_a).to_multiset() == (exact_ranges(h) + para_ranges(
            h,
            sus,
            is_a,
        )).to_multiset(),
{
    lemma_sort_by_start(exact_ranges(h) + para_ranges(h, sus, is_a));
}

fn is_covered(h: &Vec<(usize, usize)>, r: (usize, usize)) -> (b: bool)
    ensures
        b == covered(h@, r),
{
    let mut i: usize = 0;
    while i < h.len()
        invariant
            i <= h@.len(),
            forall|j: int| 0 <= j < i ==> !(h@[j].0 <= r.0 && h@[j].1 >= r.1),
        decreases h@.len() - i,
    {
        if h[i].0 <= r.0 && h[i].1 >= r.1 {
            return true;
        }
        i = i + 1;
    }
    false
}

fn insert_sorted(v: &mut Vec<Marked>, x: Marked)
    ensures
        final(v)@ == insert_by_start(old(v)@, x),
{
    let ghost s = v@;
    let mut j: usize = v.len();
    assert(s.take(s.len() as int) =~= s);
    assert(s.skip(s.len() as int) =~= Seq::<Marked>::empty());
    assert(insert_by_start(s, x) =~= insert_by_start(s.take(j as int), x) + s.skip(j as int));
    while j > 0 && v[j - 1].start > x.start
        invariant
            v@ == s,
            j <= s.len(),
            insert_by_start(s, x) == insert_by_start(s.take(j as int), x) + s.skip(j as int),
        decreases j,
    {
        proof {
            let t = s.take(j as int);
            assert(t.drop_last() =~= s.take(j - 1));
            assert(t.last() == s[j - 1]);
            assert(insert_by_start(t, x) == insert_by_start(s.take(j - 1), x).push(s[j - 1]));
            assert(s.skip(j - 1) =~= seq![s[j - 1]] + s.skip(j as int));
            assert(insert_by_start(s.take(j - 1), x).push(s[j - 1]) + s.skip(j as int)
                =~= insert_by_start(s.take(j - 1), x) + s.skip(j - 1));
        }
        j = j - 1;
    }
    proof {
        let t = s.take(j as int);
        if j > 0 {
            assert(t.last() == s[j - 1]);
        }
        assert(insert_by_start(t, x) == t.push(x));
    }
    v.insert(j, x);
    assert(v@ =~= s.take(j as int).push(x) + s.skip(j as int));
}

/// All highlighted ranges of one document of a compared pair (see
/// `marked_ranges`).
pub fn marked_ranges_of(
    highlights: &Vec<(usize, usize)>,
    suspicious: &Vec<SuspiciousPair>,
    is_a: bool,
) -> (r: Vec<Marked>)
    ensures
        r@ == marked_ranges(highlights@, suspicious@, is_a),
{
    let mut all: Vec<Marked> = Vec::new();
    let mut i: usize = 0;
    while i < highlights.len()
        invariant
            i <= highlights@.len(),
            all@ == exact_ranges(highlights@.take(i as int)),
        decreases highlights@.len() - i,
    {
        let h = highlights[i];
        all.push(Marked { start: h.0, end: h.1, mark: Mark::Exact });
        assert(all@ =~= exact_ranges(highlights@.take(i + 1)));
        i = i + 1;
    }
    assert(highlights@.take(highlights@.len() as int) =~= highlights@);
    let ghost ex = all@;
    let mut k: usize = 0;
    assert(suspicious@.take(0) =~= Seq::<SuspiciousPair>::empty());
    assert(all@ =~= ex + para_ranges(highlights@, suspicious@.take(0), is_a));
    while k < suspicious.len()
        invariant
            k <= suspicious@.len(),
            ex == exact_ranges(highlights@),
            all@ == ex + para_ranges(highlights@, suspicious@.take(k as int), is_a),
        decreases suspicious@.len() - k,
    {
        let r = if is_a {
            suspicious[k].pos_a
        } else {
            suspicious[k].pos_b
        };
        proof {
            let t = suspicious@.take(k + 1);
            assert(t.drop_last() =~= suspicious@.take(k as int));
            assert(t.last() == suspicious@[k as int]);
        }
        if !is_covered(highlights, r) {
            all.push(Marked { start: r.0, end: r.1, mark: Mark::Para });
            assert(all@ =~= ex + para_ranges(highlights@, suspicious@.take(k + 1), is_a));
        }
        k = k + 1;
    }
    assert(suspicious@.take(suspicious@.len() as int) =~= suspicious@);
    let mut sorted: Vec<Marked> = Vec::new();
    let mut j: usize = 0;
    assert(all@.take(0) =~= Seq::<Marked>::empty());
    while j < all.len()
        invariant
            j <= all@.len(),
            sorted@ == sort_by_start(all@.take(j as int)),
        decreases all@.len() - j,
    {
        proof {
            let t = all@.take(j + 1);
            assert(t.drop_last() =~= all@.take(j as int));
            assert(t.last() == all@[j as int]);
        }
        insert_sorted(&mut sorted, all[j]);
        j = j + 1;
    }
    assert(all@.take(all@.len() as int) =~= all@);
    sorted
}


/// How a piece of a rendered document is shown.
#[derive(Clone, Copy, PartialEq, Eq, Structural, Debug)]
pub enum Style {
    Plain,
    Exact,
    Para,
    Note,
}

/// The style that shows a highlighted range.
pub open spec fn style_of(m: Mark) -> Style {
    match m {
        Mark::Exact => Style::Exact,
        Mark::Para => Style::Para,
    }
}

fn style_of_mark(m: Mark) -> (s: Style)
    ensures
        s == style_of(m),
{
    match m {
        Mark::Exact => Style::Exact,
        Mark::Para => Style::Para,
    }
}

/// A piece of a rendered document: its text and how it is shown.
pub struct Piece {
    pub text: String,
    pub style: Style,
}

pub open spec fn piece_views(v: Seq<Piece>) -> Seq<(Seq<char>, Style)> {
    v.map_values(|p: Piece| (p.text@, p.style))
}

pub open spec fn min_nat(a: nat, b: nat) -> nat {
    if a <= b {
        a
    } else {
        b
    }
}

/// The ranges `rs`, taken in order, cut the first `max` bytes of `c`:
/// a range that starts before the end of the last highlight is passed
/// over, and, where `bounded`, so is one that starts at or after `max`;
/// every other range ends at `max` at the latest and is preceded by the
/// plain text since the last highlight. The result is the end of the last
/// highlight, the cuts as byte ranges with their styles, and whether each
/// cut is a range of whole characters.
pub open spec fn fold_cuts(c: Seq<char>, rs: Seq<Marked>, max: nat, bounded: bool) -> (
    nat,
    Seq<(nat, nat, Style)>,
    bool,
)
    decreases rs.len(),
{
    if rs.len() == 0 {
        (0, seq![], true)
    } else {
        let prev = fold_cuts(c, rs.drop_last(), max, bounded);
        let r = rs.last();
        let s = r.start as nat;
        let e = min_nat(r.end as nat, max);
        if (bounded && s >= max) || s < prev.0 {
            prev
        } else {
            let gap: Seq<(nat, nat, Style)> = if s > prev.0 {
                seq![(prev.0, s, Style::Plain)]
            } else {
                seq![]
            };
            (
                e,
                prev.1 + gap + seq![(s, e, style_of(r.mark))],
                prev.2 && s <= e && is_boundary(c, s) && is_boundary(c, e),
            )
        }
    }
}

/// The cuts of `fold_cuts`, followed by the plain text from the end of the
/// last highlight to `max`, and whether they are all ranges of whole
/// characters.
pub open spec fn layout_cuts(c: Seq<char>, rs: Seq<Marked>, max: nat, bounded: bool) -> (
    Seq<(nat, nat, Style)>,
    bool,
) {
    let f = fold_cuts(c, rs, max, bounded);
    if f.0 < max {
        (f.1.push((f.0, max, Style::Plain)), f.2 && is_boundary(c, max))
    } else {
        (f.1, f.2)
    }
}

/// The text of a cut and its style.
pub open spec fn cut_text(c: Seq<char>, x: (nat, nat, Style)) -> (Seq<char>, Style) {
    (c.subrange(char_pos(c, x.0), char_pos(c, x.1)), x.2)
}

pub open spec fn cut_texts(c: Seq<char>, cuts: Seq<(nat, nat, Style)>) -> Seq<(Seq<char>, Style)> {
    cuts.map_values(|x: (nat, nat, Style)| cut_text(c, x))
}

/// Once a cut is not a range of whole characters, the layout is not either.
proof fn lemma_fold_fails(c: Seq<char>, rs: Seq<Marked>, i: int, max: nat, bounded: bool)
    requires
        0 <= i <= rs.len(),
        !fold_cuts(c, rs.take(i), max, bounded).2,
    ensures
        !fold_cuts(c, rs, max, bounded).2,
        !layout_cuts(c, rs, max, bounded).1,
    decreases rs.len() - i,
{
    if i == rs.len() {
        assert(rs.take(i) =~= rs);
    } else {
        let t = rs.take(i + 1);
        assert(t.drop_last() =~= rs.take(i));
        lemma_fold_fails(c, rs, i + 1, max, bounded);
    }
}

/// The texts of the pieces, one after the other.
pub open spec fn concat_texts(ps: Seq<(Seq<char>, Style)>) -> Seq<char>
    decreases ps.len(),
{
    if ps.len() == 0 {
        seq![]
    } else {
        concat_texts(ps.drop_last()) + ps.last().0
    }
}

proof fn lemma_concat_texts_one(x: (Seq<char>, Style))
    ensures
        concat_texts(seq![x]) == x.0,
{
    let e = Seq::<(Seq<char>, Style)>::empty();
    assert(seq![x].drop_last() =~= e);
    assert(seq![x].last() == x);
    assert(concat_texts(e) == Seq::<char>::empty());
    assert(concat_texts(seq![x]) == concat_texts(e) + x.0);
    assert(concat_texts(e) + x.0 =~= x.0);
}

proof fn lemma_concat_texts_append(a: Seq<(Seq<char>, Style)>, b: Seq<(Seq<char>, Style)>)
    ensures
        concat_texts(a + b) == concat_texts(a) + concat_texts(b),
    decreases b.len(),
{
    if b.len() == 0 {
        assert(a + b =~= a);
        assert(concat_texts(a) + concat_texts(b) =~= concat_texts(a));
    } else {
        assert((a + b).drop_last() =~= a + b.drop_last());
        lemma_concat_texts_append(a, b.drop_last());
        assert(concat_texts(a + b) =~= concat_texts(a) + concat_texts(b));
    }
}

/// The cuts of the ranges, put back together, are the document up to the
/// end of the last highlight.
proof fn lemma_fold_tiles(c: Seq<char>, rs: Seq<Marked>, max: nat, bounded: bool)
    requires
        max <= byte_len(c),
        fold_cuts(c, rs, max, bounded).2,
    ensures
        fold_cuts(c, rs, max, bounded).0 <= max,
        is_boundary(c, fold_cuts(c, rs, max, bounded).0),
        concat_texts(cut_texts(c, fold_cuts(c, rs, max, bounded).1)) == c.take(
            char_pos(c, fold_cuts(c, rs, max, bounded).0),
        ),
    decreases rs.len(),
{
    if rs.len() == 0 {
        lemma_char_pos(c, 0);
        assert(c.take(0) =~= Seq::<char>::empty());
        assert(cut_texts(c, seq![]) =~= Seq::<(Seq<char>, Style)>::empty());
    } else {
        let prev = fold_cuts(c, rs.drop_last(), max, bounded);
        assert(prev.2);
        lemma_fold_tiles(c, rs.drop_last(), max, bounded);
        let r = rs.last();
        let s = r.start as nat;
        let e = min_nat(r.end as nat, max);
        if !((bounded && s >= max) || s < prev.0) {
            lemma_char_pos_mono(c, prev.0, s);
            lemma_char_pos_mono(c, s, e);
            let kl = char_pos(c, prev.0);
            let ks = char_pos(c, s);
            let ke = char_pos(c, e);
            let gap: Seq<(nat, nat, Style)> = if s > prev.0 {
                seq![(prev.0, s, Style::Plain)]
            } else {
                seq![]
            };
            let cut = (s, e, style_of(r.mark));
            assert(cut_texts(c, prev.1 + gap + seq![cut]) =~= cut_texts(c, prev.1) + cut_texts(c, gap)
                + cut_texts(c, seq![cut]));
            lemma_concat_texts_append(cut_texts(c, prev.1) + cut_texts(c, gap), cut_texts(c, seq![cut]));
            lemma_concat_texts_append(cut_texts(c, prev.1), cut_texts(c, gap));
            assert(cut_texts(c, seq![cut]) =~= seq![cut_text(c, cut)]);
            lemma_concat_texts_one(cut_text(c, cut));
            assert(concat_texts(cut_texts(c, seq![cut])) =~= c.subrange(ks, ke));
            if s > prev.0 {
                assert(cut_texts(c, gap) =~= seq![cut_text(c, (prev.0, s, Style::Plain))]);
                lemma_concat_texts_one(cut_text(c, (prev.0, s, Style::Plain)));
                assert(concat_texts(cut_texts(c, gap)) =~= c.subrange(kl, ks));
            } else {
                assert(concat_texts(cut_texts(c, gap)) =~= Seq::<char>::empty());
                assert(kl == ks);
            }
            assert(c.take(kl) + c.subrange(kl, ks) + c.subrange(ks, ke) =~= c.take(ke));
        }
    }
}

/// The pieces that the ranges cut a document into, put back together, are
/// the document up to byte `max`: nothing is lost, doubled or reordered.
pub proof fn lemma_layout_tiles(c: Seq<char>, rs: Seq<Marked>, max: nat, bounded: bool)
    requires
        max <= byte_len(c),
        layout_cuts(c, rs, max, bounded).1,
    ensures
        is_boundary(c, max),
        concat_texts(cut_texts(c, layout_cuts(c, rs, max, bounded).0)) == c.take(char_pos(c, max)),
{
    let f = fold_cuts(c, rs, max, bounded);
    lemma_fold_tiles(c, rs, max, bounded);
    if f.0 < max {
        lemma_char_pos_mono(c, f.0, max);
        let x = (f.0, max, Style::Plain);
        assert(cut_texts(c, f.1.push(x)) =~= cut_texts(c, f.1).push(cut_text(c, x)));
        assert(cut_texts(c, f.1).push(cut_text(c, x)).drop_last() =~= cut_texts(c, f.1));
        assert(c.take(char_pos(c, f.0)) + c.subrange(char_pos(c, f.0), char_pos(c, max)) =~= c.take(
            char_pos(c, max),
        ));
    }
}

/// The highlighted HTML of a document holds all of it: its pieces, put
/// back together, are the whole document.
pub proof fn lemma_html_pieces_whole(c: Seq<char>, rs: Seq<Marked>)
    requires
        layout_cuts(c, rs, byte_len(c), false).1,
    ensures
        concat_texts(cut_texts(c, layout_cuts(c, rs, byte_len(c), false).0)) == c,
{
    lemma_layout_tiles(c, rs, byte_len(c), false);
    lemma_char_pos(c, c.len() as int);
    assert(c.take(c.len() as int) =~= c);
}

/// The position in `offs` of the byte offset `p`, if it is there.
fn offset_index(offs: &Vec<usize>, p: usize) -> (r: Option<usize>)
    requires
        forall|i: int, j: int| 0 <= i < j < offs@.len() ==> offs@[i] < offs@[j],
    ensures
        r matches Some(k) ==> k < offs@.len() && offs@[k as int] == p,
        r is None ==> forall|k: int| 0 <= k < offs@.len() ==> offs@[k] != p,
{
    let mut lo: usize = 0;
    let mut hi: usize = offs.len();
    while lo < hi
        invariant
            lo <= hi <= offs@.len(),
            forall|i: int, j: int| 0 <= i < j < offs@.len() ==> offs@[i] < offs@[j],
            forall|k: int| 0 <= k < lo ==> offs@[k] < p,
            forall|k: int| hi <= k < offs@.len() ==> offs@[k] > p,
        decreases hi - lo,
    {
        let mid = lo + (hi - lo) / 2;
        if offs[mid] == p {
            return Some(mid);
        } else if offs[mid] < p {
            lo = mid + 1;
        } else {
            hi = mid;
        }
    }
    None
}

/// The character position of byte offset `p` of `c`, if `p` falls between
/// two characters.
fn boundary_index(c: &Vec<char>, offs: &Vec<usize>, p: usize) -> (r: Option<usize>)
    requires
        offs@.len() == c@.len() + 1,
        forall|k: int| 0 <= k <= c@.len() ==> offs@[k] == byte_len(#[trigger] c@.take(k)),
        forall|i: int, j: int| 0 <= i < j < offs@.len() ==> offs@[i] < offs@[j],
    ensures
        r is Some <==> is_boundary(c@, p as nat),
        r matches Some(k) ==> k <= c@.len() && k == char_pos(c@, p as nat) && offs@[k as int] == p,
{
    match offset_index(offs, p) {
        Some(k) => {
            proof {
                lemma_char_pos(c@, k as int);
            }
            Some(k)
        },
        None => {
            assert(!is_boundary(c@, p as nat)) by {
                if is_boundary(c@, p as nat) {
                    let k = choose|k: int| 0 <= k <= c@.len() && byte_len(#[trigger] c@.take(k)) == p;
                    assert(offs@[k] == p);
                }
            }
            None
        },
    }
}

/// The offsets of `c` grow strictly.
proof fn lemma_offsets_increase(c: Seq<char>, offs: Seq<usize>)
    requires
        offs.len() == c.len() + 1,
        forall|k: int| 0 <= k <= c.len() ==> offs[k] == byte_len(#[trigger] c.take(k)),
    ensures
        forall|i: int, j: int| 0 <= i < j < offs.len() ==> offs[i] < offs[j],
{
    assert forall|i: int, j: int| 0 <= i < j < offs.len() implies offs[i] < offs[j] by {
        lemma_byte_len_take_mono(c, i, j);
        assert(offs[i] == byte_len(c.take(i)));
        assert(offs[j] == byte_len(c.take(j)));
    }
}

/// The pieces that the ranges cut the first `max` bytes of `c` into (see
/// `layout_cuts`), or `None` where a cut is not a range of whole characters.
fn layout(c: &Vec<char>, offs: &Vec<usize>, rs: &Vec<Marked>, max: usize, bounded: bool) -> (r:
    Option<Vec<Piece>>)
    requires
        offs@.len() == c@.len() + 1,
        forall|k: int| 0 <= k <= c@.len() ==> offs@[k] == byte_len(#[trigger] c@.take(k)),
        max <= byte_len(c@),
    ensures
        r is Some <==> layout_cuts(c@, rs@, max as nat, bounded).1,
        r matches Some(v) ==> piece_views(v@) == cut_texts(
            c@,
            layout_cuts(c@, rs@, max as nat, bounded).0,
        ),
{
    proof {
        lemma_offsets_increase(c@, offs@);
        lemma_char_pos(c@, 0);
        assert(c@.take(0) =~= Seq::<char>::empty());
    }
    let mut last: usize = 0;
    let mut last_k: usize = 0;
    let mut out: Vec<Piece> = Vec::new();
    let mut i: usize = 0;
    assert(rs@.take(0) =~= Seq::<Marked>::empty());
    while i < rs.len()
        invariant
            offs@.len() == c@.len() + 1,
            forall|k: int| 0 <= k <= c@.len() ==> offs@[k] == byte_len(#[trigger] c@.take(k)),
            forall|a: int, b: int| 0 <= a < b < offs@.len() ==> offs@[a] < offs@[b],
            max <= byte_len(c@),
            i <= rs@.len(),
            fold_cuts(c@, rs@.take(i as int), max as nat, bounded).0 == last,
            fold_cuts(c@, rs@.take(i as int), max as nat, bounded).2,
            piece_views(out@) == cut_texts(c@, fold_cuts(c@, rs@.take(i as int), max as nat, bounded).1),
            last <= max,
            last_k <= c@.len(),
            offs@[last_k as int] == last,
            char_pos(c@, last as nat) == last_k,
        decreases rs@.len() - i,
    {
        let ghost prev = fold_cuts(c@, rs@.take(i as int), max as nat, bounded);
        proof {
            let t = rs@.take(i + 1);
            assert(t.drop_last() =~= rs@.take(i as int));
            assert(t.last() == rs@[i as int]);
        }
        let r = rs[i];
        let e = if r.end < max {
            r.end
        } else {
            max
        };
        if !((bounded && r.start >= max) || r.start < last) {
            if r.start > e {
                proof {
                    lemma_fold_fails(c@, rs@, i + 1, max as nat, bounded);
                }
                return None;
            }
            let ks = match boundary_index(c, offs, r.start) {
                Some(k) => k,
                None => {
                    proof {
                        lemma_fold_fails(c@, rs@, i + 1, max as nat, bounded);
                    }
                    return None;
                },
            };
            let ke = match boundary_index(c, offs, e) {
                Some(k) => k,
                None => {
                    proof {
                        lemma_fold_fails(c@, rs@, i + 1, max as nat, bounded);
                    }
                    return None;
                },
            };
            if ks > ke {
                assert(offs@[ke as int] < offs@[ks as int]);
            }
            if last_k > ks {
                assert(offs@[ks as int] < offs@[last_k as int]);
            }
            let ghost before = piece_views(out@);
            if r.start > last {
                let gap = copy_range(c, last_k, ks);
                out.push(Piece { text: string_of(&gap), style: Style::Plain });
            }
            let hl = copy_range(c, ks, ke);
            out.push(Piece { text: string_of(&hl), style: style_of_mark(r.mark) });
            proof {
                let gap: Seq<(nat, nat, Style)> = if r.start > last {
                    seq![(last as nat, r.start as nat, Style::Plain)]
                } else {
                    seq![]
                };
                let cut = (r.start as nat, e as nat, style_of(r.mark));
                assert(cut_texts(c@, prev.1 + gap + seq![cut]) =~= cut_texts(c@, prev.1) + cut_texts(
                    c@,
                    gap,
                ) + cut_texts(c@, seq![cut]));
                assert(piece_views(out@) =~= cut_texts(c@, prev.1 + gap + seq![cut]));
            }
            last = e;
            last_k = ke;
        }
        i = i + 1;
    }
    assert(rs@.take(rs@.len() as int) =~= rs@);
    let ghost f = fold_cuts(c@, rs@, max as nat, bounded);
    if last < max {
        let km = match boundary_index(c, offs, max) {
            Some(k) => k,
            None => {
                return None;
            },
        };
        if last_k > km {
            assert(offs@[km as int] < offs@[last_k as int]);
        }
        let ghost before = piece_views(out@);
        let tail = copy_range(c, last_k, km);
        out.push(Piece { text: string_of(&tail), style: Style::Plain });
        proof {
            let x = (last as nat, max as nat, Style::Plain);
            assert(cut_texts(c@, f.1.push(x)) =~= cut_texts(c@, f.1).push(cut_text(c@, x)));
            assert(piece_views(out@) =~= before.push(cut_text(c@, x)));
        }
    }
    Some(out)
}


/// The note that ends a document cut short: its length in bytes.
pub open spec fn truncation_note(len: nat) -> Seq<char> {
    "\n[... truncated, "@ + decimal(len) + " chars total]"@
}

fn truncation_note_text(len: usize) -> (r: String)
    ensures
        r@ == truncation_note(len as nat),
{
    let mut out: Vec<char> = Vec::new();
    push_text(&mut out, "\n[... truncated, ");
    push_decimal(&mut out, len as u64);
    push_text(&mut out, " chars total]");
    string_of(&out)
}

/// The pieces of the first `limit` bytes of a document, cut by the ranges,
/// and the truncation note where the document is longer.
pub open spec fn limited_pieces(c: Seq<char>, rs: Seq<Marked>, limit: nat) -> Seq<(Seq<char>, Style)> {
    let max = min_nat(byte_len(c), limit);
    let body = cut_texts(c, layout_cuts(c, rs, max, true).0);
    if byte_len(c) > limit {
        body.push((truncation_note(byte_len(c)), Style::Note))
    } else {
        body
    }
}

/// A document as a report shows it: whether it is a run of styled pieces,
/// or one plain text (then `pieces` holds just that text).
pub struct Shown {
    pub rich: bool,
    pub pieces: Vec<Piece>,
}

/// What a spreadsheet cell or a word-processor paragraph shows of a
/// document cut at `limit` bytes: without highlights, the cut text alone;
/// with them, the styled pieces and the truncation note.
pub open spec fn cell_pieces(c: Seq<char>, rs: Seq<Marked>, limit: nat) -> (bool, Seq<(Seq<char>, Style)>) {
    if rs.len() == 0 {
        (false, seq![(c.take(char_pos(c, min_nat(byte_len(c), limit))), Style::Plain)])
    } else {
        (true, limited_pieces(c, rs, limit))
    }
}

/// The cut at `limit` bytes, and every cut of the highlights, fall between
/// characters.
pub open spec fn cell_ok(c: Seq<char>, rs: Seq<Marked>, limit: nat) -> bool {
    let max = min_nat(byte_len(c), limit);
    is_boundary(c, max) && (rs.len() > 0 ==> layout_cuts(c, rs, max, true).1)
}

fn limited_cell(content: &str, rs: &Vec<Marked>, limit: usize) -> (r: Option<Shown>)
    ensures
        r is Some <==> cell_ok(content@, rs@, limit as nat),
        r matches Some(s) ==> (s.rich, piece_views(s.pieces@)) == cell_pieces(
            content@,
            rs@,
            limit as nat,
        ),
{
    let c = chars_of(content);
    let offs = byte_offsets(&c);
    proof {
        lemma_offsets_increase(c@, offs@);
    }
    assert(c@.take(c@.len() as int) =~= c@);
    let len = offs[c.len()];
    let max = if len < limit {
        len
    } else {
        limit
    };
    let km = match boundary_index(&c, &offs, max) {
        Some(k) => k,
        None => {
            return None;
        },
    };
    if rs.len() == 0 {
        let t = copy_range(&c, 0, km);
        let mut pieces: Vec<Piece> = Vec::new();
        pieces.push(Piece { text: string_of(&t), style: Style::Plain });
        assert(c@.subrange(0, km as int) =~= c@.take(km as int));
        assert(piece_views(pieces@) =~= seq![(c@.take(km as int), Style::Plain)]);
        return Some(Shown { rich: false, pieces });
    }
    let mut pieces = match layout(&c, &offs, rs, max, true) {
        Some(v) => v,
        None => {
            return None;
        },
    };
    if len > limit {
        let ghost before = piece_views(pieces@);
        pieces.push(Piece { text: truncation_note_text(len), style: Style::Note });
        assert(piece_views(pieces@) =~= before.push((truncation_note(len as nat), Style::Note)));
    }
    Some(Shown { rich: true, pieces })
}

/// Longest part of a document that a spreadsheet cell shows, in bytes.
pub const EXCEL_CELL_LIMIT: usize = 30000;

/// Longest part of a document that a word-processor report shows, in bytes.
pub const DOCX_LIMIT: usize = 50000;

/// Longest part of a highlighted document that a PDF report shows, in bytes.
pub const PDF_LIMIT: usize = 5000;

/// Longest part of a document without highlights that a PDF report shows,
/// in bytes.
pub const PDF_PLAIN_LIMIT: usize = 3000;

/// What a spreadsheet cell shows of one document of a compared pair, or
/// `None` where a cut falls inside a character.
pub fn excel_cell(
    content: &str,
    highlights: &Vec<(usize, usize)>,
    suspicious: &Vec<SuspiciousPair>,
    is_a: bool,
) -> (r: Option<Shown>)
    ensures
        r is Some <==> cell_ok(
            content@,
            marked_ranges(highlights@, suspicious@, is_a),
            EXCEL_CELL_LIMIT as nat,
        ),
        r matches Some(s) ==> (s.rich, piece_views(s.pieces@)) == cell_pieces(
            content@,
            marked_ranges(highlights@, suspicious@, is_a),
            EXCEL_CELL_LIMIT as nat,
        ),
{
    let rs = marked_ranges_of(highlights, suspicious, is_a);
    limited_cell(content, &rs, EXCEL_CELL_LIMIT)
}

/// What a word-processor paragraph shows of one document of a compared
/// pair, or `None` where a cut falls inside a character.
pub fn docx_paragraph(
    content: &str,
    highlights: &Vec<(usize, usize)>,
    suspicious: &Vec<SuspiciousPair>,
    is_a: bool,
) -> (r: Option<Shown>)
    ensures
        r is Some <==> cell_ok(content@, marked_ranges(highlights@, suspicious@, is_a), DOCX_LIMIT as nat),
        r matches Some(s) ==> (s.rich, piece_views(s.pieces@)) == cell_pieces(
            content@,
            marked_ranges(highlights@, suspicious@, is_a),
            DOCX_LIMIT as nat,
        ),
{
    let rs = marked_ranges_of(highlights, suspicious, is_a);
    limited_cell(content, &rs, DOCX_LIMIT)
}

/// What a PDF paragraph shows of a document: without highlights, the
/// document, or its first `PDF_PLAIN_LIMIT` bytes and a note where it is
/// longer; with them, the styled pieces of its first `PDF_LIMIT` bytes.
pub open spec fn pdf_pieces(c: Seq<char>, rs: Seq<Marked>) -> Seq<(Seq<char>, Style)> {
    if rs.len() == 0 {
        if byte_len(c) > PDF_PLAIN_LIMIT {
            seq![
                (c.take(char_pos(c, PDF_PLAIN_LIMIT as nat)) + "...\n[Content truncated for PDF - "@
                    + decimal(byte_len(c)) + " chars total]"@, Style::Plain),
            ]
        } else {
            seq![(c, Style::Plain)]
        }
    } else {
        limited_pieces(c, rs, PDF_LIMIT as nat)
    }
}

/// Every cut of a PDF paragraph falls between characters.
pub open spec fn pdf_ok(c: Seq<char>, rs: Seq<Marked>) -> bool {
    if rs.len() == 0 {
        byte_len(c) > PDF_PLAIN_LIMIT ==> is_boundary(c, PDF_PLAIN_LIMIT as nat)
    } else {
        layout_cuts(c, rs, min_nat(byte_len(c), PDF_LIMIT as nat), true).1
    }
}

/// What a PDF paragraph shows of one document of a compared pair, or
/// `None` where a cut falls inside a character.
pub fn pdf_paragraph(
    content: &str,
    highlights: &Vec<(usize, usize)>,
    suspicious: &Vec<SuspiciousPair>,
    is_a: bool,
) -> (r: Option<Vec<Piece>>)
    ensures
        r is Some <==> pdf_ok(content@, marked_ranges(highlights@, suspicious@, is_a)),
        r matches Some(v) ==> piece_views(v@) == pdf_pieces(
            content@,
            marked_ranges(highlights@, suspicious@, is_a),
        ),
{
    let rs = marked_ranges_of(highlights, suspicious, is_a);
    let c = chars_of(content);
    let offs = byte_offsets(&c);
    proof {
        lemma_offsets_increase(c@, offs@);
    }
    assert(c@.take(c@.len() as int) =~= c@);
    let len = offs[c.len()];
    if rs.len() == 0 {
        let mut pieces: Vec<Piece> = Vec::new();
        if len > PDF_PLAIN_LIMIT {
            let k = match boundary_index(&c, &offs, PDF_PLAIN_LIMIT) {
                Some(k) => k,
                None => {
                    return None;
                },
            };
            let mut t = copy_range(&c, 0, k);
            assert(c@.subrange(0, k as int) =~= c@.take(k as int));
            push_text(&mut t, "...\n[Content truncated for PDF - ");
            push_decimal(&mut t, len as u64);
            push_text(&mut t, " chars total]");
            pieces.push(Piece { text: string_of(&t), style: Style::Plain });
        } else {
            let t = copy_range(&c, 0, c.len());
            assert(c@.subrange(0, c@.len() as int) =~= c@);
            pieces.push(Piece { text: string_of(&t), style: Style::Plain });
        }
        assert(piece_views(pieces@) =~= pdf_pieces(content@, rs@));
        return Some(pieces);
    }
    let max = if len < PDF_LIMIT {
        len
    } else {
        PDF_LIMIT
    };
    let mut pieces = match layout(&c, &offs, &rs, max, true) {
        Some(v) => v,
        None => {
            return None;
        },
    };
    if len > PDF_LIMIT {
        let ghost before = piece_views(pieces@);
        pieces.push(Piece { text: truncation_note_text(len), style: Style::Note });
        assert(piece_views(pieces@) =~= before.push((truncation_note(len as nat), Style::Note)));
    }
    Some(pieces)
}


/// The HTML text of one character: `&`, `<`, `>` and `"` as entities.
pub open spec fn escape_char(c: char) -> Seq<char> {
    if c == '&' {
        "&amp;"@
    } else if c == '<' {
        "&lt;"@
    } else if c == '>' {
        "&gt;"@
    } else if c == '"' {
        "&quot;"@
    } else {
        seq![c]
    }
}

/// The HTML text of a text.
pub open spec fn escape(s: Seq<char>) -> Seq<char>
    decreases s.len(),
{
    if s.len() == 0 {
        seq![]
    } else {
        escape(s.drop_last()) + escape_char(s.last())
    }
}

/// No character of the HTML text of a text is `<`, `>` or `"`.
pub proof fn lemma_escape_safe(s: Seq<char>)
    ensures
        forall|i: int|
            0 <= i < escape(s).len() ==> #[trigger] escape(s)[i] != '<' && escape(s)[i] != '>'
                && escape(s)[i] != '"',
    decreases s.len(),
{
    if s.len() > 0 {
        lemma_escape_safe(s.drop_last());
        reveal_strlit("&amp;");
        reveal_strlit("&lt;");
        reveal_strlit("&gt;");
        reveal_strlit("&quot;");
        let a = escape(s.drop_last());
        let b = escape_char(s.last());
        assert forall|i: int| 0 <= i < (a + b).len() implies #[trigger] (a + b)[i] != '<' && (a + b)[i]
            != '>' && (a + b)[i] != '"' by {
            if i < a.len() {
                assert((a + b)[i] == a[i]);
            } else {
                assert((a + b)[i] == b[i - a.len()]);
            }
        }
    }
}

fn push_escaped(out: &mut Vec<char>, s: &[char])
    ensures
        final(out)@ == old(out)@ + escape(s@),
{
    let mut k: usize = 0;
    assert(s@.take(0) =~= Seq::<char>::empty());
    assert(old(out)@ + escape(s@.take(0)) =~= old(out)@);
    while k < s.len()
        invariant
            k <= s@.len(),
            out@ == old(out)@ + escape(s@.take(k as int)),
        decreases s@.len() - k,
    {
        let c = s[k];
        let ghost before = out@;
        if c == '&' {
            push_text(out, "&amp;");
        } else if c == '<' {
            push_text(out, "&lt;");
        } else if c == '>' {
            push_text(out, "&gt;");
        } else if c == '"' {
            push_text(out, "&quot;");
        } else {
            out.push(c);
        }
        proof {
            let t = s@.take(k + 1);
            assert(t.drop_last() =~= s@.take(k as int));
            assert(t.last() == c);
            assert(out@ =~= before + escape_char(c));
        }
        k = k + 1;
    }
    assert(s@.take(s@.len() as int) =~= s@);
}

/// Replace the characters that HTML gives a meaning to by entities.
pub fn escape_html(s: &str) -> (r: String)
    ensures
        r@ == escape(s@),
{
    let cs = chars_of(s);
    let mut out: Vec<char> = Vec::new();
    push_escaped(&mut out, &cs);
    string_of(&out)
}

/// The HTML of a piece: its escaped text, in a span of its class where it
/// is highlighted.
pub open spec fn render_piece(p: (Seq<char>, Style)) -> Seq<char> {
    match p.1 {
        Style::Exact => "<span class=\"hl-exact\">"@ + escape(p.0) + "</span>"@,
        Style::Para => "<span class=\"hl-para\">"@ + escape(p.0) + "</span>"@,
        _ => escape(p.0),
    }
}

/// The HTML of the pieces, one after the other.
pub open spec fn render(ps: Seq<(Seq<char>, Style)>) -> Seq<char>
    decreases ps.len(),
{
    if ps.len() == 0 {
        seq![]
    } else {
        render(ps.drop_last()) + render_piece(ps.last())
    }
}

/// The HTML of a document with its ranges highlighted: the whole document
/// is cut, with no limit.
pub open spec fn highlighted_html(c: Seq<char>, rs: Seq<Marked>) -> Seq<char> {
    if rs.len() == 0 {
        escape(c)
    } else {
        render(cut_texts(c, layout_cuts(c, rs, byte_len(c), false).0))
    }
}

/// Every cut of the highlighted HTML falls between characters.
pub open spec fn html_ok(c: Seq<char>, rs: Seq<Marked>) -> bool {
    rs.len() == 0 || layout_cuts(c, rs, byte_len(c), false).1
}

/// `s` with each occurrence of `pat`, found from left to right without
/// overlapping, replaced by `rep` (what `str::replace` does for a non-empty
/// pattern).
pub open spec fn replace_all(s: Seq<char>, pat: Seq<char>, rep: Seq<char>) -> Seq<char>
    decreases s.len(),
{
    if pat.len() == 0 || s.len() < pat.len() {
        s
    } else if s.take(pat.len() as int) == pat {
        rep + replace_all(s.skip(pat.len() as int), pat, rep)
    } else {
        seq![s[0]] + replace_all(s.skip(1), pat, rep)
    }
}

/// The HTML of a highlighted document with its span tags deleted.
pub open spec fn strip_spans(h: Seq<char>) -> Seq<char> {
    replace_all(
        replace_all(
            replace_all(h, "<span class=\"hl-exact\">"@, seq![]),
            "<span class=\"hl-para\">"@,
            seq![],
        ),
        "</span>"@,
        seq![],
    )
}

/// The entities of HTML text replaced by their characters, `&amp;` last.
pub open spec fn unescape(h: Seq<char>) -> Seq<char> {
    replace_all(
        replace_all(replace_all(replace_all(h, "&quot;"@, "\""@), "&gt;"@, ">"@), "&lt;"@, "<"@),
        "&amp;"@,
        "&"@,
    )
}

/// No character of `x` is `c`.
pub open spec fn clear_of(x: Seq<char>, c: char) -> bool {
    forall|i: int| 0 <= i < x.len() ==> x[i] != c
}

/// A block that replacing `pat` changes only if it is `pat` itself: it
/// holds no first character of `pat`, or holds it only at its start and
/// then differs from `pat`.
pub open spec fn block_ok(x: Seq<char>, pat: Seq<char>) -> bool {
    ||| x == pat
    ||| clear_of(x, pat[0])
    ||| (x.len() > 0 && x[0] == pat[0] && clear_of(x.drop_first(), pat[0]) && exists|j: int|
        0 < j < x.len() && j < pat.len() && #[trigger] x[j] != pat[j])
}

pub open spec fn block_result(x: Seq<char>, pat: Seq<char>, rep: Seq<char>) -> Seq<char> {
    if x == pat {
        rep
    } else {
        x
    }
}

proof fn lemma_replace_clear(x: Seq<char>, rest: Seq<char>, pat: Seq<char>, rep: Seq<char>)
    requires
        pat.len() > 0,
        clear_of(x, pat[0]),
    ensures
        replace_all(x + rest, pat, rep) == x + replace_all(rest, pat, rep),
    decreases x.len(),
{
    let s = x + rest;
    if x.len() == 0 {
        assert(s =~= rest);
        assert(x + replace_all(rest, pat, rep) =~= replace_all(rest, pat, rep));
    } else if s.len() < pat.len() {
        assert(replace_all(rest, pat, rep) == rest);
    } else {
        assert(s.take(pat.len() as int)[0] == x[0]);
        assert(s.take(pat.len() as int) != pat);
        assert(s.skip(1) =~= x.skip(1) + rest);
        lemma_replace_clear(x.skip(1), rest, pat, rep);
        assert(seq![x[0]] + (x.skip(1) + replace_all(rest, pat, rep)) =~= x + replace_all(
            rest,
            pat,
            rep,
        ));
    }
}

proof fn lemma_replace_block(x: Seq<char>, rest: Seq<char>, pat: Seq<char>, rep: Seq<char>)
    requires
        pat.len() > 0,
        block_ok(x, pat),
    ensures
        replace_all(x + rest, pat, rep) == block_result(x, pat, rep) + replace_all(rest, pat, rep),
{
    let s = x + rest;
    if x == pat {
        assert(s.take(pat.len() as int) =~= pat);
        assert(s.skip(pat.len() as int) =~= rest);
    } else if clear_of(x, pat[0]) {
        lemma_replace_clear(x, rest, pat, rep);
    } else {
        let j = choose|j: int| 0 < j < x.len() && j < pat.len() && #[trigger] x[j] != pat[j];
        if s.len() < pat.len() {
            assert(replace_all(rest, pat, rep) == rest);
        } else {
            assert(s.take(pat.len() as int)[j] == x[j]);
            assert(s.take(pat.len() as int) != pat);
            assert(s.skip(1) =~= x.drop_first() + rest);
            lemma_replace_clear(x.drop_first(), rest, pat, rep);
            assert(seq![x[0]] + (x.drop_first() + replace_all(rest, pat, rep)) =~= x + replace_all(
                rest,
                pat,
                rep,
            ));
        }
    }
}

proof fn lemma_replace_flatten(bs: Seq<Seq<char>>, pat: Seq<char>, rep: Seq<char>)
    requires
        pat.len() > 0,
        forall|i: int| 0 <= i < bs.len() ==> block_ok(#[trigger] bs[i], pat),
    ensures
        replace_all(bs.flatten(), pat, rep) == bs.map_values(
            |x: Seq<char>| block_result(x, pat, rep),
        ).flatten(),
    decreases bs.len(),
{
    let m = bs.map_values(|x: Seq<char>| block_result(x, pat, rep));
    if bs.len() == 0 {
        assert(m =~= Seq::<Seq<char>>::empty());
    } else {
        let d = bs.drop_first();
        assert forall|i: int| 0 <= i < d.len() implies block_ok(#[trigger] d[i], pat) by {
            assert(d[i] == bs[i + 1]);
        }
        lemma_replace_flatten(d, pat, rep);
        assert(block_ok(bs[0], pat));
        lemma_replace_block(bs[0], d.flatten(), pat, rep);
        assert(m.drop_first() =~= d.map_values(|x: Seq<char>| block_result(x, pat, rep)));
        assert(m.first() == block_result(bs[0], pat, rep));
    }
}

/// A part of the HTML of a highlighted document, as a kind and a
/// character: kind 0 opens an exact-match span, kind 1 opens a paraphrase
/// span, kind 2 closes a span, and kind 3 is the character of the document
/// that it holds (the character of a tag is unused).
pub open spec fn text_part(c: char) -> (u8, char) {
    (3u8, c)
}

pub open spec fn open_exact() -> (u8, char) {
    (0u8, ' ')
}

pub open spec fn open_para() -> (u8, char) {
    (1u8, ' ')
}

pub open spec fn close_span() -> (u8, char) {
    (2u8, ' ')
}

/// The parts of a text: one per character.
pub open spec fn text_parts(t: Seq<char>) -> Seq<(u8, char)>
    decreases t.len(),
{
    if t.len() == 0 {
        seq![]
    } else {
        text_parts(t.drop_last()).push(text_part(t.last()))
    }
}

/// The parts of the HTML of a piece.
pub open spec fn piece_parts(p: (Seq<char>, Style)) -> Seq<(u8, char)> {
    match p.1 {
        Style::Exact => seq![open_exact()] + text_parts(p.0) + seq![close_span()],
        Style::Para => seq![open_para()] + text_parts(p.0) + seq![close_span()],
        _ => text_parts(p.0),
    }
}

/// The parts of the HTML of the pieces, one after the other.
pub open spec fn render_parts(ps: Seq<(Seq<char>, Style)>) -> Seq<(u8, char)>
    decreases ps.len(),
{
    if ps.len() == 0 {
        seq![]
    } else {
        render_parts(ps.drop_last()) + piece_parts(ps.last())
    }
}

/// What a part reads as after the first `k` of the seven replacements that
/// take the span tags out and the entities back (tags go, in the order
/// exact, para, closing; then `&quot;`, `&gt;`, `&lt;` and `&amp;`).
pub open spec fn part_text(k: int, x: (u8, char)) -> Seq<char> {
    if x.0 == 0 {
        if k <= 0 {
            "<span class=\"hl-exact\">"@
        } else {
            seq![]
        }
    } else if x.0 == 1 {
        if k <= 1 {
            "<span class=\"hl-para\">"@
        } else {
            seq![]
        }
    } else if x.0 == 2 {
        if k <= 2 {
            "</span>"@
        } else {
            seq![]
        }
    } else {
        let c = x.1;
        if c == '"' && k <= 3 {
            "&quot;"@
        } else if c == '>' && k <= 4 {
            "&gt;"@
        } else if c == '<' && k <= 5 {
            "&lt;"@
        } else if c == '&' && k <= 6 {
            "&amp;"@
        } else {
            seq![c]
        }
    }
}

/// The text of the parts after `k` replacements.
pub open spec fn stage_text(k: int, parts: Seq<(u8, char)>) -> Seq<char> {
    parts.map_values(|x: (u8, char)| part_text(k, x)).flatten()
}

/// The pattern of replacement `k`.
pub open spec fn stage_pat(k: int) -> Seq<char> {
    if k == 0 {
        "<span class=\"hl-exact\">"@
    } else if k == 1 {
        "<span class=\"hl-para\">"@
    } else if k == 2 {
        "</span>"@
    } else if k == 3 {
        "&quot;"@
    } else if k == 4 {
        "&gt;"@
    } else if k == 5 {
        "&lt;"@
    } else {
        "&amp;"@
    }
}

/// The replacement text of replacement `k`.
pub open spec fn stage_rep(k: int) -> Seq<char> {
    if k <= 2 {
        seq![]
    } else if k == 3 {
        "\""@
    } else if k == 4 {
        ">"@
    } else if k == 5 {
        "<"@
    } else {
        "&"@
    }
}

proof fn lemma_literals()
    ensures
        "<span class=\"hl-exact\">"@ =~= seq![
            '<', 's', 'p', 'a', 'n', ' ', 'c', 'l', 'a', 's', 's', '=', '"', 'h', 'l', '-', 'e', 'x',
            'a', 'c', 't', '"', '>',
        ],
        "<span class=\"hl-para\">"@ =~= seq![
            '<', 's', 'p', 'a', 'n', ' ', 'c', 'l', 'a', 's', 's', '=', '"', 'h', 'l', '-', 'p', 'a',
            'r', 'a', '"', '>',
        ],
        "</span>"@ =~= seq!['<', '/', 's', 'p', 'a', 'n', '>'],
        "&quot;"@ =~= seq!['&', 'q', 'u', 'o', 't', ';'],
        "&gt;"@ =~= seq!['&', 'g', 't', ';'],
        "&lt;"@ =~= seq!['&', 'l', 't', ';'],
        "&amp;"@ =~= seq!['&', 'a', 'm', 'p', ';'],
        "\""@ =~= seq!['"'],
        ">"@ =~= seq!['>'],
        "<"@ =~= seq!['<'],
        "&"@ =~= seq!['&'],
{
    reveal_strlit("<span class=\"hl-exact\">");
    reveal_strlit("<span class=\"hl-para\">");
    reveal_strlit("</span>");
    reveal_strlit("&quot;");
    reveal_strlit("&gt;");
    reveal_strlit("&lt;");
    reveal_strlit("&amp;");
    reveal_strlit("\"");
    reveal_strlit(">");
    reveal_strlit("<");
    reveal_strlit("&");
}

/// One replacement takes each part from its text before to its text after.
proof fn lemma_stage_part(k: int, x: (u8, char))
    requires
        0 <= k < 7,
    ensures
        block_ok(part_text(k, x), stage_pat(k)),
        block_result(part_text(k, x), stage_pat(k), stage_rep(k)) == part_text(k + 1, x),
{
    lemma_literals();
    let b = part_text(k, x);
    let p = stage_pat(k);
    if b != p {
        if b.len() > 0 && b[0] == p[0] {
            assert(b[1] != p[1] || b[2] != p[2] || b[16] != p[16]);
        }
    }
}

proof fn lemma_stage(k: int, parts: Seq<(u8, char)>)
    requires
        0 <= k < 7,
    ensures
        replace_all(stage_text(k, parts), stage_pat(k), stage_rep(k)) == stage_text(k + 1, parts),
{
    lemma_literals();
    let bs = parts.map_values(|x: (u8, char)| part_text(k, x));
    assert forall|i: int| 0 <= i < bs.len() implies block_ok(#[trigger] bs[i], stage_pat(k)) by {
        lemma_stage_part(k, parts[i]);
    }
    lemma_replace_flatten(bs, stage_pat(k), stage_rep(k));
    let m = bs.map_values(|x: Seq<char>| block_result(x, stage_pat(k), stage_rep(k)));
    assert forall|i: int| 0 <= i < m.len() implies m[i] == part_text(k + 1, parts[i]) by {
        lemma_stage_part(k, parts[i]);
    }
    assert(m =~= parts.map_values(|x: (u8, char)| part_text(k + 1, x)));
}

proof fn lemma_stage_append(k: int, a: Seq<(u8, char)>, b: Seq<(u8, char)>)
    ensures
        stage_text(k, a + b) == stage_text(k, a) + stage_text(k, b),
{
    let f = |x: (u8, char)| part_text(k, x);
    assert((a + b).map_values(f) =~= a.map_values(f) + b.map_values(f));
    vstd::seq_lib::lemma_flatten_concat(a.map_values(f), b.map_values(f));
}

proof fn lemma_text_parts(t: Seq<char>)
    ensures
        stage_text(0, text_parts(t)) == escape(t),
        stage_text(7, text_parts(t)) == t,
    decreases t.len(),
{
    if t.len() == 0 {
        assert(stage_text(0, text_parts(t)) =~= Seq::<char>::empty());
        assert(stage_text(7, text_parts(t)) =~= Seq::<char>::empty());
    } else {
        let d = t.drop_last();
        let c = t.last();
        lemma_text_parts(d);
        let one = seq![text_part(c)];
        assert(text_parts(t) =~= text_parts(d) + one);
        lemma_stage_append(0, text_parts(d), one);
        lemma_stage_append(7, text_parts(d), one);
        lemma_one_part(0, text_part(c));
        lemma_one_part(7, text_part(c));
        assert(part_text(0, text_part(c)) == escape_char(c));
        assert(t =~= d + seq![c]);
    }
}

proof fn lemma_one_part(k: int, x: (u8, char))
    ensures
        stage_text(k, seq![x]) == part_text(k, x),
{
    assert(seq![x].map_values(|y: (u8, char)| part_text(k, y)) =~= seq![part_text(k, x)]);
    Seq::<Seq<char>>::empty().lemma_flatten_push(part_text(k, x));
    assert(Seq::<Seq<char>>::empty().push(part_text(k, x)) =~= seq![part_text(k, x)]);
}

proof fn lemma_render_parts(ps: Seq<(Seq<char>, Style)>)
    ensures
        stage_text(0, render_parts(ps)) == render(ps),
        stage_text(7, render_parts(ps)) == concat_texts(ps),
    decreases ps.len(),
{
    lemma_literals();
    if ps.len() == 0 {
        assert(stage_text(0, render_parts(ps)) =~= Seq::<char>::empty());
        assert(stage_text(7, render_parts(ps)) =~= Seq::<char>::empty());
    } else {
        let d = ps.drop_last();
        let p = ps.last();
        lemma_render_parts(d);
        lemma_stage_append(0, render_parts(d), piece_parts(p));
        lemma_stage_append(7, render_parts(d), piece_parts(p));
        lemma_text_parts(p.0);
        match p.1 {
            Style::Exact => {
                let a = seq![open_exact()];
                let z = seq![close_span()];
                lemma_stage_append(0, a + text_parts(p.0), z);
                lemma_stage_append(0, a, text_parts(p.0));
                lemma_stage_append(7, a + text_parts(p.0), z);
                lemma_stage_append(7, a, text_parts(p.0));
                lemma_one_part(0, open_exact());
                lemma_one_part(0, close_span());
                lemma_one_part(7, open_exact());
                lemma_one_part(7, close_span());
                assert(stage_text(7, piece_parts(p)) =~= p.0);
            },
            Style::Para => {
                let a = seq![open_para()];
                let z = seq![close_span()];
                lemma_stage_append(0, a + text_parts(p.0), z);
                lemma_stage_append(0, a, text_parts(p.0));
                lemma_stage_append(7, a + text_parts(p.0), z);
                lemma_stage_append(7, a, text_parts(p.0));
                lemma_one_part(0, open_para());
                lemma_one_part(0, close_span());
                lemma_one_part(7, open_para());
                lemma_one_part(7, close_span());
                assert(stage_text(7, piece_parts(p)) =~= p.0);
            },
            _ => {},
        }
    }
}

/// The seven replacements undo the rendering of the parts.
proof fn lemma_unrender(parts: Seq<(u8, char)>)
    ensures
        unescape(strip_spans(stage_text(0, parts))) == stage_text(7, parts),
{
    lemma_literals();
    lemma_stage(0, parts);
    lemma_stage(1, parts);
    lemma_stage(2, parts);
    lemma_stage(3, parts);
    lemma_stage(4, parts);
    lemma_stage(5, parts);
    lemma_stage(6, parts);
}

/// Deleting the span tags from the highlighted HTML of a document and then
/// replacing `&quot;`, `&gt;`, `&lt;` and `&amp;` (in that order) by their
/// characters gives the document back.
pub proof fn lemma_highlighted_html_unescapes(c: Seq<char>, rs: Seq<Marked>)
    requires
        html_ok(c, rs),
    ensures
        unescape(strip_spans(highlighted_html(c, rs))) == c,
{
    if rs.len() == 0 {
        lemma_text_parts(c);
        lemma_unrender(text_parts(c));
    } else {
        let ps = cut_texts(c, layout_cuts(c, rs, byte_len(c), false).0);
        lemma_render_parts(ps);
        lemma_unrender(render_parts(ps));
        lemma_html_pieces_whole(c, rs);
    }
}

fn push_rendered(out: &mut Vec<char>, ps: &Vec<Piece>)
    ensures
        final(out)@ == old(out)@ + render(piece_views(ps@)),
{
    let ghost pv = piece_views(ps@);
    let mut k: usize = 0;
    assert(pv.take(0) =~= Seq::<(Seq<char>, Style)>::empty());
    assert(old(out)@ + render(pv.take(0)) =~= old(out)@);
    while k < ps.len()
        invariant
            pv == piece_views(ps@),
            k <= ps@.len(),
            out@ == old(out)@ + render(pv.take(k as int)),
        decreases ps@.len() - k,
    {
        let p = &ps[k];
        let cs = chars_of(p.text.as_str());
        let ghost before = out@;
        match p.style {
            Style::Exact => {
                push_text(out, "<span class=\"hl-exact\">");
                push_escaped(out, &cs);
                push_text(out, "</span>");
            },
            Style::Para => {
                push_text(out, "<span class=\"hl-para\">");
                push_escaped(out, &cs);
                push_text(out, "</span>");
            },
            _ => {
                push_escaped(out, &cs);
            },
        }
        proof {
            let t = pv.take(k + 1);
            assert(t.drop_last() =~= pv.take(k as int));
            assert(t.last() == pv[k as int]);
            assert(pv[k as int] == (p.text@, p.style));
            assert(out@ =~= before + render_piece(pv[k as int]));
        }
        k = k + 1;
    }
    assert(pv.take(ps@.len() as int) =~= pv);
}

fn push_highlighted(out: &mut Vec<char>, content: &str, rs: &Vec<Marked>) -> (ok: bool)
    ensures
        ok == html_ok(content@, rs@),
        ok ==> final(out)@ == old(out)@ + highlighted_html(content@, rs@),
{
    let c = chars_of(content);
    if rs.len() == 0 {
        push_escaped(out, &c);
        return true;
    }
    let offs = byte_offsets(&c);
    assert(c@.take(c@.len() as int) =~= c@);
    let len = offs[c.len()];
    match layout(&c, &offs, rs, len, false) {
        Some(ps) => {
            push_rendered(out, &ps);
            true
        },
        None => false,
    }
}

/// The HTML of one document of a compared pair, with exact matches and
/// paraphrased sentences in spans of their classes, or `None` where a cut
/// falls inside a character.
pub fn apply_highlights(
    content: &str,
    highlights: &Vec<(usize, usize)>,
    suspicious: &Vec<SuspiciousPair>,
    is_a: bool,
) -> (r: Option<String>)
    ensures
        r is Some <==> html_ok(content@, marked_ranges(highlights@, suspicious@, is_a)),
        r matches Some(h) ==> h@ == highlighted_html(
            content@,
            marked_ranges(highlights@, suspicious@, is_a),
        ),
{
    let rs = marked_ranges_of(highlights, suspicious, is_a);
    let mut out: Vec<char> = Vec::new();
    if push_highlighted(&mut out, content, &rs) {
        Some(string_of(&out))
    } else {
        None
    }
}


/// The band of a cosine score given in tenths of a percent: high from
/// 80 %, medium from 60 %.
#[derive(Clone, Copy, PartialEq, Eq, Structural, Debug)]
pub enum ScoreBand {
    High,
    Medium,
    Low,
}

pub open spec fn band(t: nat) -> ScoreBand {
    if t >= 800 {
        ScoreBand::High
    } else if t >= 600 {
        ScoreBand::Medium
    } else {
        ScoreBand::Low
    }
}

/// The band of a cosine score given in tenths of a percent.
pub fn score_band(score_tenths: u64) -> (b: ScoreBand)
    ensures
        b == band(score_tenths as nat),
{
    if score_tenths >= 800 {
        ScoreBand::High
    } else if score_tenths >= 600 {
        ScoreBand::Medium
    } else {
        ScoreBand::Low
    }
}

/// A score in tenths of a percent, written with one decimal.
pub open spec fn score_text(t: nat) -> Seq<char> {
    decimal(t / 10) + seq!['.', digit(t % 10)]
}

fn push_score(out: &mut Vec<char>, t: u64)
    ensures
        final(out)@ == old(out)@ + score_text(t as nat),
{
    push_decimal(out, t / 10);
    out.push('.');
    out.push(digit_char(t % 10));
    assert(out@ =~= old(out)@ + score_text(t as nat));
}

/// A score in tenths of a percent, as a percentage with one decimal.
pub fn format_score(score_tenths: u64) -> (r: String)
    ensures
        r@ == score_text(score_tenths as nat) + "%"@,
{
    let mut out: Vec<char> = Vec::new();
    push_score(&mut out, score_tenths);
    push_text(&mut out, "%");
    string_of(&out)
}

/// The score of the pair at `i`, or 0 where there is none.
pub open spec fn pair_score(results: Seq<SimilarityPair>, i: int) -> nat {
    if 0 <= i < results.len() {
        results[i].score_tenths as nat
    } else {
        0
    }
}

fn pair_score_of(results: &Vec<SimilarityPair>, i: usize) -> (t: u64)
    ensures
        t == pair_score(results@, i as int),
{
    if i < results.len() {
        results[i].score_tenths
    } else {
        0
    }
}

/// The heading of the pair at `i` (counted from 0) in a spreadsheet or a
/// word-processor report.
pub open spec fn pair_heading(i: nat, a: Seq<char>, b: Seq<char>, t: nat) -> Seq<char> {
    "━━━ Pair "@ + decimal(i + 1) + " ━━━  "@ + a + " ↔ "@ + b + "  ━━━  Cosine: "@ + score_text(t)
        + "%"@
}

/// The heading of the pair at `index` in a spreadsheet or a word-processor
/// report.
#[verifier::spinoff_prover]
#[verifier::rlimit(50)]
pub fn pair_heading_text(index: usize, file_a: &str, file_b: &str, score_tenths: u64) -> (r: String)
    requires
        index < usize::MAX,
    ensures
        r@ == pair_heading(index as nat, file_a@, file_b@, score_tenths as nat),
{
    let mut out: Vec<char> = Vec::new();
    push_text(&mut out, "━━━ Pair ");
    push_decimal(&mut out, (index + 1) as u64);
    push_text(&mut out, " ━━━  ");
    push_text(&mut out, file_a);
    push_text(&mut out, " ↔ ");
    push_text(&mut out, file_b);
    push_text(&mut out, "  ━━━  Cosine: ");
    push_score(&mut out, score_tenths);
    push_text(&mut out, "%");
    string_of(&out)
}

/// The heading of the pair at `i` (counted from 0) in a PDF report.
pub open spec fn pdf_pair_heading(i: nat, a: Seq<char>, b: Seq<char>, t: nat) -> Seq<char> {
    "Pair "@ + decimal(i + 1) + " - "@ + a + " <-> "@ + b + " (Cosine: "@ + score_text(t) + "%)"@
}

/// The heading of the pair at `index` in a PDF report.
#[verifier::spinoff_prover]
#[verifier::rlimit(50)]
pub fn pdf_pair_heading_text(index: usize, file_a: &str, file_b: &str, score_tenths: u64) -> (r:
    String)
    requires
        index < usize::MAX,
    ensures
        r@ == pdf_pair_heading(index as nat, file_a@, file_b@, score_tenths as nat),
{
    let mut out: Vec<char> = Vec::new();
    push_text(&mut out, "Pair ");
    push_decimal(&mut out, (index + 1) as u64);
    push_text(&mut out, " - ");
    push_text(&mut out, file_a);
    push_text(&mut out, " <-> ");
    push_text(&mut out, file_b);
    push_text(&mut out, " (Cosine: ");
    push_score(&mut out, score_tenths);
    push_text(&mut out, "%)");
    string_of(&out)
}

/// The label above a document in a spreadsheet or a word-processor report.
pub fn file_label(name: &str) -> (r: String)
    ensures
        r@ == "📄 "@ + name@,
{
    let mut out: Vec<char> = Vec::new();
    push_text(&mut out, "📄 ");
    push_text(&mut out, name);
    string_of(&out)
}

/// The label above a document in a PDF report.
pub fn pdf_file_label(name: &str) -> (r: String)
    ensures
        r@ == "--- "@ + name@ + " ---"@,
{
    let mut out: Vec<char> = Vec::new();
    push_text(&mut out, "--- ");
    push_text(&mut out, name);
    push_text(&mut out, " ---");
    string_of(&out)
}

/// The line under a compared pair: its numbers of common phrases and of
/// suspicious sentence pairs.
#[verifier::spinoff_prover]
#[verifier::rlimit(50)]
pub fn match_info(common_phrase_count: usize, suspicious_count: usize) -> (r: String)
    ensures
        r@ == "N-gram matches: "@ + decimal(common_phrase_count as nat) + " | Suspicious sentences: "@
            + decimal(suspicious_count as nat),
{
    let mut out: Vec<char> = Vec::new();
    push_text(&mut out, "N-gram matches: ");
    push_decimal(&mut out, common_phrase_count as u64);
    push_text(&mut out, " | Suspicious sentences: ");
    push_decimal(&mut out, suspicious_count as u64);
    string_of(&out)
}

/// A file name shortened to `max_len` bytes: its first `max_len - 3` bytes
/// and `...`.
pub open spec fn shortened_name(name: Seq<char>, max_len: nat) -> Seq<char> {
    if byte_len(name) <= max_len {
        name
    } else {
        name.take(char_pos(name, (max_len - 3) as nat)) + "..."@
    }
}

/// Shorten a file name for a table cell, or `None` where a name longer than
/// `max_len` cannot be cut: `max_len` is below 3, or the cut falls inside a
/// character.
pub fn truncate_filename(name: &str, max_len: usize) -> (r: Option<String>)
    ensures
        r is Some <==> (byte_len(name@) <= max_len || (max_len >= 3 && is_boundary(
            name@,
            (max_len - 3) as nat,
        ))),
        r matches Some(s) ==> s@ == shortened_name(name@, max_len as nat),
{
    let c = chars_of(name);
    let offs = byte_offsets(&c);
    proof {
        lemma_offsets_increase(c@, offs@);
    }
    assert(c@.take(c@.len() as int) =~= c@);
    let len = offs[c.len()];
    if len <= max_len {
        let t = copy_range(&c, 0, c.len());
        assert(c@.subrange(0, c@.len() as int) =~= c@);
        return Some(string_of(&t));
    }
    if max_len < 3 {
        return None;
    }
    let k = match boundary_index(&c, &offs, max_len - 3) {
        Some(k) => k,
        None => {
            return None;
        },
    };
    let mut t = copy_range(&c, 0, k);
    assert(c@.subrange(0, k as int) =~= c@.take(k as int));
    push_text(&mut t, "...");
    Some(string_of(&t))
}


/// The start of an HTML report, up to the generation time.
pub const REPORT_HEAD: &'static str = r#"<!DOCTYPE html>
<html lang="en">
<head>
<meta charset="UTF-8">
<title>SoText — Similarity Report</title>
<style>
  body { font-family: 'Segoe UI', Arial, sans-serif; background: #f5f5f5; color: #333; margin: 0; padding: 20px; }
  h1 { color: #2F5496; border-bottom: 2px solid #2F5496; padding-bottom: 8px; }
  h2 { color: #444; margin-top: 30px; border-bottom: 1px solid #ccc; padding-bottom: 4px; }
  .summary-table { width: 100%; border-collapse: collapse; margin-bottom: 30px; }
  .summary-table th { background: #2F5496; color: white; padding: 10px; text-align: left; }
  .summary-table td { padding: 8px 10px; border-bottom: 1px solid #ddd; }
  .summary-table tr:nth-child(even) { background: #f0f0f0; }
  .score-high { background: #FFC7CE !important; }
  .score-med { background: #FFEB9C !important; }
  .pair-section { background: white; border-radius: 8px; padding: 20px; margin-bottom: 24px; box-shadow: 0 1px 4px rgba(0,0,0,0.1); }
  .compare-container { display: flex; gap: 16px; }
  .compare-panel { flex: 1; background: #fafafa; border: 1px solid #e0e0e0; border-radius: 4px; padding: 12px; overflow-x: auto; }
  .compare-panel h3 { margin: 0 0 8px 0; font-size: 14px; color: #555; }
  .compare-panel pre { white-space: pre-wrap; word-break: break-word; font-size: 12px; line-height: 1.6; font-family: 'Consolas', monospace; }
  .hl-exact { background: #feca57; padding: 0 2px; border-radius: 2px; }
  .hl-para { background: #ff9f43; padding: 0 2px; border-radius: 2px; }
  .legend { margin: 8px 0 12px; font-size: 12px; color: #666; }
  .legend span { display: inline-block; width: 14px; height: 14px; vertical-align: middle; margin-right: 4px; border-radius: 2px; }
  .legend .l-exact { background: #feca57; }
  .legend .l-para { background: #ff9f43; }
  @media print { body { background: white; } .pair-section { box-shadow: none; page-break-inside: avoid; } }
</style>
</head>
<body>
<h1>📝 SoText — Similarity Report</h1>
<p>Generated: "#;

/// The start of the summary table of an HTML report.
pub const SUMMARY_HEAD: &'static str = "<h2>Summary</h2>\n<table class=\"summary-table\">\n<tr><th>#</th><th>File A</th><th>File B</th><th>Cosine Score</th></tr>\n";

/// The legend of the highlight colours of an HTML report.
pub const LEGEND: &'static str = "<div class=\"legend\"><span class=\"l-exact\"></span> Exact N-gram match &nbsp; <span class=\"l-para\"></span> Paraphrased (Jaccard/Levenshtein)</div>\n";

/// The class attribute of a summary row: by score band.
pub open spec fn score_class(t: nat) -> Seq<char> {
    if t >= 800 {
        " class=\"score-high\""@
    } else if t >= 600 {
        " class=\"score-med\""@
    } else {
        seq![]
    }
}

/// The summary row of the pair at `i` (counted from 0).
pub open spec fn summary_row(i: nat, p: SimilarityPair) -> Seq<char> {
    "<tr"@ + score_class(p.score_tenths as nat) + "><td>"@ + decimal(i + 1) + "</td><td>"@ + escape(
        p.file_a@,
    ) + "</td><td>"@ + escape(p.file_b@) + "</td><td>"@ + score_text(p.score_tenths as nat)
        + "%</td></tr>\n"@
}

/// The summary rows of the pairs, in order.
pub open spec fn summary_rows(rs: Seq<SimilarityPair>) -> Seq<char>
    decreases rs.len(),
{
    if rs.len() == 0 {
        seq![]
    } else {
        summary_rows(rs.drop_last()) + summary_row((rs.len() - 1) as nat, rs.last())
    }
}

/// The ranges highlighted in the first or the second document of a
/// compared pair.
pub open spec fn detail_ranges(d: DetailResult, is_a: bool) -> Seq<Marked> {
    if is_a {
        marked_ranges(d.highlights_a@, d.suspicious_sentences@, true)
    } else {
        marked_ranges(d.highlights_b@, d.suspicious_sentences@, false)
    }
}

/// Both documents of a compared pair can be shown highlighted.
pub open spec fn detail_ok(d: DetailResult) -> bool {
    html_ok(d.content_a@, detail_ranges(d, true)) && html_ok(d.content_b@, detail_ranges(d, false))
}

/// The panel of one document of a compared pair.
pub open spec fn panel(name: Seq<char>, body: Seq<char>) -> Seq<char> {
    "<div class=\"compare-panel\"><h3>"@ + escape(name) + "</h3><pre>"@ + body + "</pre></div>\n"@
}

/// The section of the compared pair at `i` (counted from 0), with score `t`.
pub open spec fn detail_section(i: nat, d: DetailResult, t: nat) -> Seq<char> {
    "<div class=\"pair-section\">\n<h2>Pair "@ + decimal(i + 1) + " — "@ + escape(d.file_a@) + " ↔ "@
        + escape(d.file_b@) + " (Cosine: "@ + score_text(t) + "%)</h2>\n"@
        + "<div class=\"compare-container\">\n"@ + panel(
        d.file_a@,
        highlighted_html(d.content_a@, detail_ranges(d, true)),
    ) + panel(d.file_b@, highlighted_html(d.content_b@, detail_ranges(d, false)))
        + "</div>\n</div>\n"@
}

/// The sections of the compared pairs, in order, each with the score of
/// the pair at its position.
pub open spec fn detail_sections(results: Seq<SimilarityPair>, details: Seq<DetailResult>) -> Seq<
    char,
>
    decreases details.len(),
{
    if details.len() == 0 {
        seq![]
    } else {
        let i = details.len() - 1;
        detail_sections(results, details.drop_last()) + detail_section(
            i as nat,
            details.last(),
            pair_score(results, i),
        )
    }
}

/// An HTML report: the summary table of the pairs, the legend, and a
/// section for each compared pair.
pub open spec fn html_report(
    results: Seq<SimilarityPair>,
    details: Seq<DetailResult>,
    generated: Seq<char>,
) -> Seq<char> {
    REPORT_HEAD@ + generated + "</p>\n"@ + SUMMARY_HEAD@ + summary_rows(results) + "</table>\n"@
        + LEGEND@ + detail_sections(results, details) + "</body></html>"@
}

#[verifier::spinoff_prover]
#[verifier::rlimit(50)]
fn push_summary_row(out: &mut Vec<char>, i: usize, p: &SimilarityPair)
    requires
        i < usize::MAX,
    ensures
        final(out)@ == old(out)@ + summary_row(i as nat, *p),
{
    push_text(out, "<tr");
    if p.score_tenths >= 800 {
        push_text(out, " class=\"score-high\"");
    } else if p.score_tenths >= 600 {
        push_text(out, " class=\"score-med\"");
    }
    push_text(out, "><td>");
    push_decimal(out, (i + 1) as u64);
    push_text(out, "</td><td>");
    let a = chars_of(p.file_a.as_str());
    push_escaped(out, &a);
    push_text(out, "</td><td>");
    let b = chars_of(p.file_b.as_str());
    push_escaped(out, &b);
    push_text(out, "</td><td>");
    push_score(out, p.score_tenths);
    push_text(out, "%</td></tr>\n");
    assert(out@ =~= old(out)@ + summary_row(i as nat, *p));
}

#[verifier::spinoff_prover]
#[verifier::rlimit(50)]
fn push_panel(out: &mut Vec<char>, name: &str, content: &str, rs: &Vec<Marked>) -> (ok: bool)
    ensures
        ok == html_ok(content@, rs@),
        ok ==> final(out)@ == old(out)@ + panel(name@, highlighted_html(content@, rs@)),
{
    push_text(out, "<div class=\"compare-panel\"><h3>");
    let n = chars_of(name);
    push_escaped(out, &n);
    push_text(out, "</h3><pre>");
    if !push_highlighted(out, content, rs) {
        return false;
    }
    push_text(out, "</pre></div>\n");
    assert(out@ =~= old(out)@ + panel(name@, highlighted_html(content@, rs@)));
    true
}

#[verifier::spinoff_prover]
#[verifier::rlimit(50)]
fn push_detail_section(out: &mut Vec<char>, i: usize, d: &DetailResult, t: u64) -> (ok: bool)
    requires
        i < usize::MAX,
    ensures
        ok == detail_ok(*d),
        ok ==> final(out)@ == old(out)@ + detail_section(i as nat, *d, t as nat),
{
    push_text(out, "<div class=\"pair-section\">\n<h2>Pair ");
    push_decimal(out, (i + 1) as u64);
    push_text(out, " — ");
    let a = chars_of(d.file_a.as_str());
    push_escaped(out, &a);
    push_text(out, " ↔ ");
    let b = chars_of(d.file_b.as_str());
    push_escaped(out, &b);
    push_text(out, " (Cosine: ");
    push_score(out, t);
    push_text(out, "%)</h2>\n");
    push_text(out, "<div class=\"compare-container\">\n");
    let ra = marked_ranges_of(&d.highlights_a, &d.suspicious_sentences, true);
    let rb = marked_ranges_of(&d.highlights_b, &d.suspicious_sentences, false);
    if !push_panel(out, d.file_a.as_str(), d.content_a.as_str(), &ra) {
        return false;
    }
    if !push_panel(out, d.file_b.as_str(), d.content_b.as_str(), &rb) {
        return false;
    }
    push_text(out, "</div>\n</div>\n");
    assert(out@ =~= old(out)@ + detail_section(i as nat, *d, t as nat));
    true
}

/// The HTML report of the pairs and of their comparisons, generated at the
/// time given; `None` where a document of a comparison cannot be shown
/// highlighted (a cut falls inside a character).
#[verifier::spinoff_prover]
#[verifier::rlimit(50)]
pub fn html_report_text(
    results: &Vec<SimilarityPair>,
    details: &Vec<DetailResult>,
    generated: &str,
) -> (r: Option<String>)
    ensures
        r is Some <==> forall|i: int| 0 <= i < details@.len() ==> detail_ok(#[trigger] details@[i]),
        r matches Some(h) ==> h@ == html_report(results@, details@, generated@),
{
    let mut out: Vec<char> = Vec::new();
    push_text(&mut out, REPORT_HEAD);
    push_text(&mut out, generated);
    push_text(&mut out, "</p>\n");
    push_text(&mut out, SUMMARY_HEAD);
    let ghost start = out@;
    let mut i: usize = 0;
    assert(results@.take(0) =~= Seq::<SimilarityPair>::empty());
    assert(out@ =~= start + summary_rows(results@.take(0)));
    while i < results.len()
        invariant
            i <= results@.len(),
            out@ == start + summary_rows(results@.take(i as int)),
        decreases results@.len() - i,
    {
        proof {
            let t = results@.take(i + 1);
            assert(t.drop_last() =~= results@.take(i as int));
            assert(t.last() == results@[i as int]);
        }
        push_summary_row(&mut out, i, &results[i]);
        assert(out@ =~= start + summary_rows(results@.take(i + 1)));
        i = i + 1;
    }
    assert(results@.take(results@.len() as int) =~= results@);
    push_text(&mut out, "</table>\n");
    push_text(&mut out, LEGEND);
    let ghost body = out@;
    let mut j: usize = 0;
    assert(details@.take(0) =~= Seq::<DetailResult>::empty());
    assert(out@ =~= body + detail_sections(results@, details@.take(0)));
    while j < details.len()
        invariant
            j <= details@.len(),
            out@ == body + detail_sections(results@, details@.take(j as int)),
            forall|k: int| 0 <= k < j ==> detail_ok(#[trigger] details@[k]),
        decreases details@.len() - j,
    {
        proof {
            let t = details@.take(j + 1);
            assert(t.drop_last() =~= details@.take(j as int));
            assert(t.last() == details@[j as int]);
        }
        let t = pair_score_of(results, j);
        if !push_detail_section(&mut out, j, &details[j], t) {
            return None;
        }
        assert(out@ =~= body + detail_sections(results@, details@.take(j + 1)));
        j = j + 1;
    }
    assert(details@.take(details@.len() as int) =~= details@);
    push_text(&mut out, "</body></html>");
    assert(out@ =~= html_report(results@, details@, generated@));
    Some(string_of(&out))
}

} // verus!
