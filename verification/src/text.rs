//! Character-level text primitives shared by the analysis modules:
//! white space, words, trimming, UTF-8 byte offsets and lower-casing.

use vstd::prelude::*;
use vstd::utf8::*;

verus! {

/// The Unicode `White_Space` property, which `char::is_whitespace`,
/// `str::trim` and `str::split_whitespace` use.
pub open spec fn is_space(c: char) -> bool {
    let u = c as u32;
    ||| 0x09 <= u <= 0x0D
    ||| u == 0x20
    ||| u == 0x85
    ||| u == 0xA0
    ||| u == 0x1680
    ||| 0x2000 <= u <= 0x200A
    ||| u == 0x2028
    ||| u == 0x2029
    ||| u == 0x202F
    ||| u == 0x205F
    ||| u == 0x3000
}

/// Whether `c` is white space.
pub fn is_space_char(c: char) -> (r: bool)
    ensures
        r == is_space(c),
{
    let u = c as u32;
    (0x09 <= u && u <= 0x0D) || u == 0x20 || u == 0x85 || u == 0xA0 || u == 0x1680 || (0x2000
        <= u && u <= 0x200A) || u == 0x2028 || u == 0x2029 || u == 0x202F || u == 0x205F || u
        == 0x3000
}

/// What `char::is_alphanumeric` answers for a character (the Unicode
/// `Alphabetic` or `Numeric` property).
pub uninterp spec fn alphanumeric(c: char) -> bool;

/// What `char::is_alphabetic` answers for a character (the Unicode
/// `Alphabetic` property).
pub uninterp spec fn alphabetic(c: char) -> bool;

/// What `str::to_lowercase` returns for a string, as characters.
pub uninterp spec fn lowercase(s: Seq<char>) -> Seq<char>;

/// `char::is_alphanumeric`; the result is the named property of `c`.
#[verifier::external_body]
pub(crate) fn is_alphanumeric_char(c: char) -> (r: bool)
    ensures
        r == alphanumeric(c),
{
    c.is_alphanumeric()
}

/// `char::is_alphabetic`; the result is the named property of `c`.
#[verifier::external_body]
pub(crate) fn is_alphabetic_char(c: char) -> (r: bool)
    ensures
        r == alphabetic(c),
{
    c.is_alphabetic()
}

/// `str::to_lowercase` on the string made of `s`; the result is the named
/// lower-case form of `s`. The result is a `String` in one allocation, so its
/// UTF-8 length is at most `isize::MAX`.
#[verifier::external_body]
pub(crate) fn to_lowercase_chars(s: &[char]) -> (r: Vec<char>)
    ensures
        r@ == lowercase(s@),
        byte_len(r@) <= isize::MAX,
{
    let text: String = s.iter().collect();
    text.to_lowercase().chars().collect()
}

/// The characters of a string slice (`str::chars` collected). A `str` lives
/// in one allocation, so its UTF-8 length is at most `isize::MAX`.
#[verifier::external_body]
pub(crate) fn chars_of(s: &str) -> (r: Vec<char>)
    ensures
        r@ == s@,
        byte_len(r@) <= isize::MAX,
{
    s.chars().collect()
}

/// The string made of the given characters (`FromIterator<&char>` for `String`).
#[verifier::external_body]
pub(crate) fn string_of(cs: &[char]) -> (r: String)
    ensures
        r@ == cs@,
{
    cs.iter().collect()
}

/// Number of UTF-8 bytes of a character sequence.
pub open spec fn byte_len(cs: Seq<char>) -> nat {
    encode_utf8(cs).len()
}

/// Number of UTF-8 bytes of one character.
pub open spec fn char_width(c: char) -> nat {
    encode_scalar(c as u32).len()
}

pub proof fn lemma_encode_concat(a: Seq<char>, b: Seq<char>)
    ensures
        encode_utf8(a + b) == encode_utf8(a) + encode_utf8(b),
    decreases a.len(),
{
    if a.len() == 0 {
        assert(a + b =~= b);
    } else {
        assert((a + b).drop_first() =~= a.drop_first() + b);
        lemma_encode_concat(a.drop_first(), b);
    }
}

pub proof fn lemma_byte_len_push(a: Seq<char>, c: char)
    ensures
        byte_len(a.push(c)) == byte_len(a) + char_width(c),
{
    lemma_encode_concat(a, seq![c]);
    assert(a.push(c) =~= a + seq![c]);
    assert(seq![c].drop_first() =~= Seq::<char>::empty());
    assert(encode_utf8(Seq::<char>::empty()) =~= Seq::<u8>::empty());
    assert(encode_utf8(seq![c]) =~= encode_scalar(c as u32) + encode_utf8(seq![c].drop_first()));
    assert(encode_utf8(seq![c]) =~= encode_scalar(c as u32));
}

/// Byte length grows with the prefix, by at least one byte per character.
pub proof fn lemma_byte_len_take_mono(cs: Seq<char>, i: int, j: int)
    requires
        0 <= i <= j <= cs.len(),
    ensures
        byte_len(cs.take(i)) + (j - i) <= byte_len(cs.take(j)),
    decreases j - i,
{
    if i < j {
        lemma_byte_len_take_mono(cs, i, j - 1);
        assert(cs.take(j) =~= cs.take(j - 1).push(cs[j - 1]));
        lemma_byte_len_push(cs.take(j - 1), cs[j - 1]);
    }
}

/// A text has at most as many characters as UTF-8 bytes.
pub proof fn lemma_len_le_byte_len(cs: Seq<char>)
    ensures
        cs.len() <= byte_len(cs),
{
    lemma_byte_len_take_mono(cs, 0, cs.len() as int);
    assert(cs.take(cs.len() as int) =~= cs);
}

/// UTF-8 width of a character (`char::len_utf8`).
pub fn utf8_width(c: char) -> (w: usize)
    ensures
        w == char_width(c),
{
    proof {
        broadcast use vstd::utf8::char_is_scalar;
    }
    let u = c as u32;
    if u <= 0x7F {
        1
    } else if u <= 0x7FF {
        2
    } else if u <= 0xFFFF {
        3
    } else {
        4
    }
}

/// The byte offset of every character position: `r[k]` is the number of
/// UTF-8 bytes of the first `k` characters, for `k` from 0 to the length.
pub fn byte_offsets(cs: &[char]) -> (r: Vec<usize>)
    requires
        byte_len(cs@) <= usize::MAX,
    ensures
        r@.len() == cs@.len() + 1,
        forall|k: int| 0 <= k <= cs@.len() ==> r@[k] == byte_len(#[trigger] cs@.take(k)),
{
    let mut r: Vec<usize> = Vec::new();
    let mut acc: usize = 0;
    r.push(0);
    assert(cs@.take(0) =~= Seq::<char>::empty());
    let mut i: usize = 0;
    while i < cs.len()
        invariant
            i <= cs@.len(),
            byte_len(cs@) <= usize::MAX,
            r@.len() == i + 1,
            acc == byte_len(cs@.take(i as int)),
            forall|k: int| 0 <= k <= i ==> r@[k] == byte_len(#[trigger] cs@.take(k)),
        decreases cs@.len() - i,
    {
        let w = utf8_width(cs[i]);
        proof {
            assert(cs@.take(i + 1) =~= cs@.take(i as int).push(cs@[i as int]));
            lemma_byte_len_push(cs@.take(i as int), cs@[i as int]);
            lemma_byte_len_take_mono(cs@, i + 1, cs@.len() as int);
            assert(cs@.take(cs@.len() as int) =~= cs@);
        }
        acc = acc + w;
        r.push(acc);
        i = i + 1;
    }
    r
}

/// Byte offset `p` falls between two characters of `c` (or at one of its ends).
pub open spec fn is_boundary(c: Seq<char>, p: nat) -> bool {
    exists|k: int| 0 <= k <= c.len() && byte_len(#[trigger] c.take(k)) == p
}

/// The number of characters of `c` that come before byte offset `p`.
pub open spec fn char_pos(c: Seq<char>, p: nat) -> int {
    choose|k: int| 0 <= k <= c.len() && byte_len(#[trigger] c.take(k)) == p
}

/// Each character boundary has a single character position.
pub proof fn lemma_char_pos(c: Seq<char>, k: int)
    requires
        0 <= k <= c.len(),
    ensures
        is_boundary(c, byte_len(c.take(k))),
        char_pos(c, byte_len(c.take(k))) == k,
{
    let p = byte_len(c.take(k));
    assert(is_boundary(c, p));
    let j = char_pos(c, p);
    if j < k {
        lemma_byte_len_take_mono(c, j, k);
    } else if j > k {
        lemma_byte_len_take_mono(c, k, j);
    }
}

/// Character positions follow byte offsets.
pub proof fn lemma_char_pos_mono(c: Seq<char>, p: nat, q: nat)
    requires
        is_boundary(c, p),
        is_boundary(c, q),
        p <= q,
    ensures
        0 <= char_pos(c, p) <= char_pos(c, q) <= c.len(),
        byte_len(c.take(char_pos(c, p))) == p,
        byte_len(c.take(char_pos(c, q))) == q,
{
    let kp = char_pos(c, p);
    let kq = char_pos(c, q);
    if kp > kq {
        lemma_byte_len_take_mono(c, kq, kp);
    }
}

/// The words of a text: the maximal runs of characters that are not white
/// space, in order (what `str::split_whitespace` yields). Defined by adding
/// one character at a time at the end.
pub open spec fn words(cs: Seq<char>) -> Seq<Seq<char>>
    decreases cs.len(),
{
    if cs.len() == 0 {
        seq![]
    } else {
        let prev = words(cs.drop_last());
        let c = cs.last();
        if is_space(c) {
            prev
        } else if cs.len() >= 2 && !is_space(cs[cs.len() - 2]) {
            prev.drop_last().push(prev.last().push(c))
        } else {
            prev.push(seq![c])
        }
    }
}

/// A text has at most as many words as characters.
pub proof fn lemma_words_len(cs: Seq<char>)
    ensures
        words(cs).len() <= cs.len(),
    decreases cs.len(),
{
    if cs.len() > 0 {
        lemma_words_len(cs.drop_last());
    }
}

/// Each word is non-empty, holds no white space, and is made of characters
/// of the text.
pub proof fn lemma_words_shape(cs: Seq<char>)
    ensures
        forall|k: int|
            0 <= k < words(cs).len() ==> (#[trigger] words(cs)[k]).len() > 0 && forall|j: int|
                0 <= j < words(cs)[k].len() ==> !is_space(#[trigger] words(cs)[k][j]) && cs.contains(
                    words(cs)[k][j],
                ),
    decreases cs.len(),
{
    if cs.len() > 0 {
        let d = cs.drop_last();
        lemma_words_shape(d);
        let p = words(d);
        let c = cs.last();
        let r = words(cs);
        assert(cs[cs.len() - 1] == c);
        assert forall|x: char| d.contains(x) implies cs.contains(x) by {
            let i = choose|i: int| 0 <= i < d.len() && d[i] == x;
            assert(cs[i] == d[i]);
        }
        if is_space(c) {
        } else if cs.len() >= 2 && !is_space(cs[cs.len() - 2]) {
            assert(p.len() > 0) by {
                lemma_words_last(d);
                assert(d.last() == cs[cs.len() - 2]);
            }
            assert forall|k: int| 0 <= k < r.len() implies (#[trigger] r[k]).len() > 0 && forall|j: int|
                0 <= j < r[k].len() ==> !is_space(#[trigger] r[k][j]) && cs.contains(r[k][j]) by {
                if k < r.len() - 1 {
                    assert(r[k] == p[k]);
                } else {
                    assert(r[k] == p.last().push(c));
                    assert(p.last() == p[p.len() - 1]);
                    assert forall|j: int| 0 <= j < r[k].len() implies !is_space(#[trigger] r[k][j])
                        && cs.contains(r[k][j]) by {
                        if j < p.last().len() {
                            assert(r[k][j] == p[p.len() - 1][j]);
                        }
                    }
                }
            }
        } else {
            assert forall|k: int| 0 <= k < r.len() implies (#[trigger] r[k]).len() > 0 && forall|j: int|
                0 <= j < r[k].len() ==> !is_space(#[trigger] r[k][j]) && cs.contains(r[k][j]) by {
                if k < p.len() {
                    assert(r[k] == p[k]);
                } else {
                    assert(r[k] == seq![c]);
                }
            }
        }
    }
}

/// A text that ends with a character that is not white space has a word.
proof fn lemma_words_last(cs: Seq<char>)
    requires
        cs.len() > 0,
        !is_space(cs.last()),
    ensures
        words(cs).len() > 0,
    decreases cs.len(),
{
    if cs.len() >= 2 && !is_space(cs[cs.len() - 2]) {
        assert(cs.drop_last().last() == cs[cs.len() - 2]);
        lemma_words_last(cs.drop_last());
    }
}

/// White space in the text is single spaces between other characters.
pub open spec fn single_spaced(s: Seq<char>) -> bool {
    forall|i: int|
        0 <= i < s.len() && #[trigger] is_space(s[i]) ==> s[i] == ' ' && 0 < i < s.len() - 1
            && !is_space(s[i + 1])
}

/// Non-empty parts without white space, joined with single spaces, give a
/// single-spaced text.
pub proof fn lemma_joined_single_spaced(parts: Seq<Seq<char>>)
    requires
        forall|k: int|
            0 <= k < parts.len() ==> (#[trigger] parts[k]).len() > 0 && forall|j: int|
                0 <= j < parts[k].len() ==> !is_space(#[trigger] parts[k][j]),
    ensures
        single_spaced(joined(parts, seq![' '])),
    decreases parts.len(),
{
    if parts.len() == 1 {
        let s = joined(parts, seq![' ']);
        assert(s == parts[0]);
        assert forall|i: int| 0 <= i < s.len() && #[trigger] is_space(s[i]) implies s[i] == ' ' && 0 < i
            < s.len() - 1 && !is_space(s[i + 1]) by {
            assert(!is_space(parts[0][i]));
        }
    } else if parts.len() > 1 {
        let d = parts.drop_last();
        assert forall|k: int| 0 <= k < d.len() implies (#[trigger] d[k]).len() > 0 && forall|j: int|
            0 <= j < d[k].len() ==> !is_space(#[trigger] d[k][j]) by {
            assert(d[k] == parts[k]);
        }
        lemma_joined_single_spaced(d);
        let pre = joined(d, seq![' ']);
        let last = parts.last();
        assert(last == parts[parts.len() - 1]);
        assert(pre.len() > 0) by {
            lemma_joined_nonempty(d);
        }
        let s = pre + seq![' '] + last;
        assert(s == joined(parts, seq![' ']));
        assert forall|i: int| 0 <= i < s.len() && #[trigger] is_space(s[i]) implies s[i] == ' ' && 0 < i
            < s.len() - 1 && !is_space(s[i + 1]) by {
            if i < pre.len() {
                assert(s[i] == pre[i]);
                assert(is_space(pre[i]));
                assert(s[i + 1] == pre[i + 1]);
            } else if i == pre.len() {
                assert(s[i + 1] == last[0]);
            } else {
                assert(s[i] == last[i - pre.len() - 1]);
            }
        }
    }
}

proof fn lemma_joined_nonempty(parts: Seq<Seq<char>>)
    requires
        parts.len() > 0,
        forall|k: int| 0 <= k < parts.len() ==> (#[trigger] parts[k]).len() > 0,
    ensures
        joined(parts, seq![' ']).len() > 0,
    decreases parts.len(),
{
    if parts.len() == 1 {
        assert(parts[0].len() > 0);
    }
}

/// The characters of `cs` that are not white space, in order.
pub open spec fn non_space(cs: Seq<char>) -> Seq<char>
    decreases cs.len(),
{
    if cs.len() == 0 {
        seq![]
    } else if is_space(cs.last()) {
        non_space(cs.drop_last())
    } else {
        non_space(cs.drop_last()).push(cs.last())
    }
}

/// The parts written one after the other.
pub open spec fn concat(parts: Seq<Seq<char>>) -> Seq<char>
    decreases parts.len(),
{
    if parts.len() == 0 {
        seq![]
    } else {
        concat(parts.drop_last()) + parts.last()
    }
}

pub proof fn lemma_non_space_append(a: Seq<char>, b: Seq<char>)
    ensures
        non_space(a + b) == non_space(a) + non_space(b),
    decreases b.len(),
{
    if b.len() == 0 {
        assert(a + b =~= a);
        assert(non_space(a) + non_space(b) =~= non_space(a));
    } else {
        lemma_non_space_append(a, b.drop_last());
        assert((a + b).drop_last() =~= a + b.drop_last());
        assert((a + b).last() == b.last());
        if !is_space(b.last()) {
            assert((non_space(a) + non_space(b.drop_last())).push(b.last()) =~= non_space(a)
                + non_space(b.drop_last()).push(b.last()));
        }
    }
}

proof fn lemma_non_space_plain(w: Seq<char>)
    requires
        forall|j: int| 0 <= j < w.len() ==> !is_space(#[trigger] w[j]),
    ensures
        non_space(w) == w,
    decreases w.len(),
{
    if w.len() > 0 {
        let d = w.drop_last();
        assert forall|j: int| 0 <= j < d.len() implies !is_space(#[trigger] d[j]) by {
            assert(d[j] == w[j]);
        }
        lemma_non_space_plain(d);
        assert(!is_space(w[w.len() - 1]));
        assert(d.push(w.last()) =~= w);
    }
}

/// Parts without white space, joined with single spaces: what is not white
/// space is the parts one after the other.
pub proof fn lemma_non_space_joined(parts: Seq<Seq<char>>)
    requires
        forall|k: int, j: int|
            0 <= k < parts.len() && 0 <= j < parts[k].len() ==> !is_space(#[trigger] parts[k][j]),
    ensures
        non_space(joined(parts, seq![' '])) == concat(parts),
    decreases parts.len(),
{
    if parts.len() > 0 {
        let d = parts.drop_last();
        assert forall|k: int, j: int| 0 <= k < d.len() && 0 <= j < d[k].len() implies !is_space(
            #[trigger] d[k][j],
        ) by {
            assert(d[k] == parts[k]);
        }
        let last = parts.last();
        assert forall|j: int| 0 <= j < last.len() implies !is_space(#[trigger] last[j]) by {
            assert(last == parts[parts.len() - 1]);
        }
        lemma_non_space_plain(last);
        if parts.len() == 1 {
            assert(concat(d) =~= Seq::<char>::empty());
            assert(concat(parts) =~= last);
            assert(last == parts[0]);
        } else {
            lemma_non_space_joined(d);
            let pre = joined(d, seq![' ']);
            lemma_non_space_append(pre, seq![' ']);
            lemma_non_space_append(pre + seq![' '], last);
            let sp: Seq<char> = seq![' '];
            assert(sp.drop_last() =~= Seq::<char>::empty());
            assert(sp.last() == ' ');
            assert(is_space(' '));
            assert(non_space(sp.drop_last()) =~= Seq::<char>::empty());
            assert(non_space(sp) =~= Seq::<char>::empty());
            assert(non_space(pre) + non_space(sp) =~= non_space(pre));
        }
    }
}

/// The words of a text, written one after the other, are the characters of
/// the text that are not white space.
pub proof fn lemma_concat_words(cs: Seq<char>)
    ensures
        concat(words(cs)) == non_space(cs),
    decreases cs.len(),
{
    if cs.len() > 0 {
        let d = cs.drop_last();
        lemma_concat_words(d);
        let prev = words(d);
        let c = cs.last();
        if is_space(c) {
        } else if cs.len() >= 2 && !is_space(cs[cs.len() - 2]) {
            assert(d.last() == cs[cs.len() - 2]);
            lemma_words_last(d);
            let r = prev.drop_last().push(prev.last().push(c));
            assert(r.drop_last() =~= prev.drop_last());
            assert(concat(prev) == concat(prev.drop_last()) + prev.last());
            assert(concat(r) == concat(prev.drop_last()) + prev.last().push(c));
            assert(concat(prev.drop_last()) + prev.last().push(c) =~= (concat(prev.drop_last())
                + prev.last()).push(c));
        } else {
            let r = prev.push(seq![c]);
            assert(r.drop_last() =~= prev);
            assert(concat(prev) + seq![c] =~= concat(prev).push(c));
        }
    }
}

/// Collapsing white space gives a single-spaced text.
pub proof fn lemma_collapse_single_spaced(cs: Seq<char>)
    ensures
        single_spaced(joined(words(cs), seq![' '])),
{
    lemma_words_shape(cs);
    lemma_joined_single_spaced(words(cs));
}

/// The character sequences held by a vector of character vectors.
pub open spec fn views(v: Seq<Vec<char>>) -> Seq<Seq<char>> {
    v.map_values(|w: Vec<char>| w@)
}

pub proof fn lemma_views_push(v: Seq<Vec<char>>, w: Vec<char>)
    ensures
        views(v.push(w)) == views(v).push(w@),
{
    assert(views(v.push(w)) =~= views(v).push(w@));
}

/// The words of `cs`, as `str::split_whitespace` gives them.
pub fn split_words(cs: &[char]) -> (r: Vec<Vec<char>>)
    ensures
        views(r@) == words(cs@),
{
    let mut out: Vec<Vec<char>> = Vec::new();
    let mut cur: Vec<char> = Vec::new();
    let mut in_word = false;
    let mut i: usize = 0;
    assert(cs@.take(0) =~= Seq::<char>::empty());
    while i < cs.len()
        invariant
            i <= cs@.len(),
            in_word ==> i > 0 && !is_space(cs@[i - 1]) && views(out@).push(cur@) == words(
                cs@.take(i as int),
            ),
            !in_word ==> (i == 0 || is_space(cs@[i - 1])) && views(out@) == words(
                cs@.take(i as int),
            ),
        decreases cs@.len() - i,
    {
        let c = cs[i];
        let ghost pre = cs@.take(i as int);
        proof {
            assert(cs@.take(i + 1).drop_last() =~= pre);
            assert(cs@.take(i + 1).last() == c);
            if i >= 1 {
                assert(cs@.take(i + 1)[i - 1] == cs@[i - 1]);
            }
        }
        if is_space_char(c) {
            if in_word {
                proof {
                    lemma_views_push(out@, cur);
                }
                out.push(cur);
                cur = Vec::new();
                in_word = false;
            }
        } else {
            if in_word {
                let ghost old_out = views(out@);
                let ghost old_cur = cur@;
                cur.push(c);
                proof {
                    let w = words(cs@.take(i + 1));
                    let p = words(pre);
                    assert(p == old_out.push(old_cur));
                    assert(p.drop_last() =~= old_out);
                    assert(w == p.drop_last().push(p.last().push(c)));
                    assert(views(out@).push(cur@) =~= w);
                }
            } else {
                cur = Vec::new();
                cur.push(c);
                in_word = true;
                proof {
                    assert(cur@ =~= seq![c]);
                }
            }
        }
        i = i + 1;
    }
    if in_word {
        proof {
            lemma_views_push(out@, cur);
        }
        out.push(cur);
    }
    assert(cs@.take(cs@.len() as int) =~= cs@);
    out
}

/// The number of words of `cs`.
pub fn count_words(cs: &[char]) -> (n: usize)
    ensures
        n == words(cs@).len(),
{
    let mut n: usize = 0;
    let mut i: usize = 0;
    assert(cs@.take(0) =~= Seq::<char>::empty());
    while i < cs.len()
        invariant
            i <= cs@.len(),
            n == words(cs@.take(i as int)).len(),
            n <= i,
        decreases cs@.len() - i,
    {
        let c = cs[i];
        proof {
            let pre = cs@.take(i as int);
            assert(cs@.take(i + 1).drop_last() =~= pre);
            assert(cs@.take(i + 1).last() == c);
            if i >= 1 {
                assert(cs@.take(i + 1)[i - 1] == cs@[i - 1]);
            }
        }
        if !is_space_char(c) {
            if i == 0 || is_space_char(cs[i - 1]) {
                n = n + 1;
            }
        }
        i = i + 1;
    }
    assert(cs@.take(cs@.len() as int) =~= cs@);
    n
}

/// `cs` without its leading white space.
pub open spec fn trim_start(cs: Seq<char>) -> Seq<char>
    decreases cs.len(),
{
    if cs.len() > 0 && is_space(cs[0]) {
        trim_start(cs.drop_first())
    } else {
        cs
    }
}

/// `cs` without its trailing white space.
pub open spec fn trim_end(cs: Seq<char>) -> Seq<char>
    decreases cs.len(),
{
    if cs.len() > 0 && is_space(cs.last()) {
        trim_end(cs.drop_last())
    } else {
        cs
    }
}

/// `cs` without leading and trailing white space (`str::trim`).
pub open spec fn trim(cs: Seq<char>) -> Seq<char> {
    trim_end(trim_start(cs))
}

proof fn lemma_trim_start_at(cs: Seq<char>, a: int)
    requires
        0 <= a <= cs.len(),
        forall|k: int| 0 <= k < a ==> is_space(cs[k]),
        a == cs.len() || !is_space(cs[a]),
    ensures
        trim_start(cs) == cs.subrange(a, cs.len() as int),
    decreases a,
{
    if a == 0 {
        assert(cs.subrange(0, cs.len() as int) =~= cs);
    } else {
        assert(cs.drop_first().subrange(a - 1, cs.len() - 1) =~= cs.subrange(a, cs.len() as int));
        lemma_trim_start_at(cs.drop_first(), a - 1);
    }
}

proof fn lemma_trim_end_at(cs: Seq<char>, b: int)
    requires
        0 <= b <= cs.len(),
        forall|k: int| b <= k < cs.len() ==> is_space(cs[k]),
        b == 0 || !is_space(cs[b - 1]),
    ensures
        trim_end(cs) == cs.subrange(0, b),
    decreases cs.len() - b,
{
    if b == cs.len() {
        assert(cs.subrange(0, b) =~= cs);
    } else {
        assert(cs.drop_last().subrange(0, b) =~= cs.subrange(0, b));
        lemma_trim_end_at(cs.drop_last(), b);
    }
}

/// A copy of `cs[a..b]`.
pub fn copy_range(cs: &[char], a: usize, b: usize) -> (r: Vec<char>)
    requires
        a <= b <= cs@.len(),
    ensures
        r@ == cs@.subrange(a as int, b as int),
{
    let mut r: Vec<char> = Vec::new();
    let mut k = a;
    while k < b
        invariant
            a <= k <= b <= cs@.len(),
            r@ == cs@.subrange(a as int, k as int),
        decreases b - k,
    {
        r.push(cs[k]);
        k = k + 1;
        assert(r@ =~= cs@.subrange(a as int, k as int));
    }
    r
}

/// `cs[a..b]` without leading and trailing white space.
pub fn trim_range(cs: &[char], a: usize, b: usize) -> (r: Vec<char>)
    requires
        a <= b <= cs@.len(),
    ensures
        r@ == trim(cs@.subrange(a as int, b as int)),
{
    let ghost sub = cs@.subrange(a as int, b as int);
    let mut lo = a;
    while lo < b && is_space_char(cs[lo])
        invariant
            a <= lo <= b <= cs@.len(),
            forall|k: int| a <= k < lo ==> is_space(cs@[k]),
        decreases b - lo,
    {
        lo = lo + 1;
    }
    proof {
        lemma_trim_start_at(sub, lo - a);
        assert(sub.subrange(lo - a, sub.len() as int) =~= cs@.subrange(lo as int, b as int));
    }
    let mut hi = b;
    while hi > lo && is_space_char(cs[hi - 1])
        invariant
            a <= lo <= hi <= b <= cs@.len(),
            forall|k: int| hi <= k < b ==> is_space(cs@[k]),
        decreases hi - lo,
    {
        hi = hi - 1;
    }
    proof {
        let mid = cs@.subrange(lo as int, b as int);
        lemma_trim_end_at(mid, hi - lo);
        assert(mid.subrange(0, hi - lo) =~= cs@.subrange(lo as int, hi as int));
    }
    copy_range(cs, lo, hi)
}

/// Appends `s` to `v`.
pub fn push_all(v: &mut Vec<char>, s: &[char])
    ensures
        final(v)@ == old(v)@ + s@,
{
    let mut k: usize = 0;
    while k < s.len()
        invariant
            k <= s@.len(),
            v@ == old(v)@ + s@.take(k as int),
        decreases s@.len() - k,
    {
        v.push(s[k]);
        k = k + 1;
        assert(v@ =~= old(v)@ + s@.take(k as int));
    }
    assert(s@.take(s@.len() as int) =~= s@);
}

/// Whether two character sequences are equal.
pub fn chars_eq(a: &[char], b: &[char]) -> (r: bool)
    ensures
        r == (a@ == b@),
{
    if a.len() != b.len() {
        return false;
    }
    let mut k: usize = 0;
    while k < a.len()
        invariant
            a@.len() == b@.len(),
            k <= a@.len(),
            forall|j: int| 0 <= j < k ==> a@[j] == b@[j],
        decreases a@.len() - k,
    {
        if a[k] != b[k] {
            return false;
        }
        k = k + 1;
    }
    assert(a@ =~= b@);
    true
}

/// The number of UTF-8 bytes of `cs` (`str::len` of the string they make).
pub fn utf8_len(cs: &[char]) -> (n: usize)
    requires
        byte_len(cs@) <= usize::MAX,
    ensures
        n == byte_len(cs@),
{
    let offs = byte_offsets(cs);
    assert(cs@.take(cs@.len() as int) =~= cs@);
    offs[cs.len()]
}

pub proof fn lemma_trim_start_len(cs: Seq<char>)
    ensures
        trim_start(cs).len() <= cs.len(),
    decreases cs.len(),
{
    if cs.len() > 0 && is_space(cs[0]) {
        lemma_trim_start_len(cs.drop_first());
    }
}

pub proof fn lemma_trim_end_len(cs: Seq<char>)
    ensures
        trim_end(cs).len() <= cs.len(),
    decreases cs.len(),
{
    if cs.len() > 0 && is_space(cs.last()) {
        lemma_trim_end_len(cs.drop_last());
    }
}

/// Trimming never lengthens a text.
pub proof fn lemma_trim_len(cs: Seq<char>)
    ensures
        trim(cs).len() <= cs.len(),
{
    lemma_trim_start_len(cs);
    lemma_trim_end_len(trim_start(cs));
}

/// `x` occurs in `y` as a run of consecutive characters.
pub open spec fn occurs_in(x: Seq<char>, y: Seq<char>) -> bool {
    exists|o: int| 0 <= o <= y.len() - x.len() && #[trigger] y.skip(o).take(x.len() as int) == x
}

/// Trimming the start drops leading white space only: what is left is a
/// suffix of the text that is empty or starts with a character that is not
/// white space.
pub proof fn lemma_trim_start_shape(cs: Seq<char>)
    ensures
        exists|p: int|
            0 <= p <= cs.len() && trim_start(cs) == cs.subrange(p, cs.len() as int) && (p == cs.len()
                || !is_space(cs[p])) && forall|i: int| 0 <= i < p ==> is_space(#[trigger] cs[i]),
    decreases cs.len(),
{
    if cs.len() > 0 && is_space(cs[0]) {
        let d = cs.drop_first();
        lemma_trim_start_shape(d);
        let p = choose|p: int|
            0 <= p <= d.len() && trim_start(d) == d.subrange(p, d.len() as int) && (p == d.len()
                || !is_space(d[p])) && forall|i: int| 0 <= i < p ==> is_space(#[trigger] d[i]);
        assert(d.subrange(p, d.len() as int) =~= cs.subrange(p + 1, cs.len() as int));
        assert forall|i: int| 0 <= i < p + 1 implies is_space(#[trigger] cs[i]) by {
            if i > 0 {
                assert(cs[i] == d[i - 1]);
            }
        }
        assert(p + 1 == cs.len() || cs[p + 1] == d[p]);
    } else {
        assert(cs.subrange(0, cs.len() as int) =~= cs);
    }
}

/// Trimming the end drops trailing white space only: what is left is a
/// prefix of the text that is empty or ends with a character that is not
/// white space.
pub proof fn lemma_trim_end_shape(cs: Seq<char>)
    ensures
        exists|q: int|
            0 <= q <= cs.len() && trim_end(cs) == cs.subrange(0, q) && (q == 0 || !is_space(cs[q - 1]))
                && forall|i: int| q <= i < cs.len() ==> is_space(#[trigger] cs[i]),
    decreases cs.len(),
{
    if cs.len() > 0 && is_space(cs.last()) {
        let d = cs.drop_last();
        lemma_trim_end_shape(d);
        let q = choose|q: int|
            0 <= q <= d.len() && trim_end(d) == d.subrange(0, q) && (q == 0 || !is_space(d[q - 1]))
                && forall|i: int| q <= i < d.len() ==> is_space(#[trigger] d[i]);
        assert(d.subrange(0, q) =~= cs.subrange(0, q));
        assert forall|i: int| q <= i < cs.len() implies is_space(#[trigger] cs[i]) by {
            if i < d.len() {
                assert(cs[i] == d[i]);
            }
        }
        assert(q == 0 || cs[q - 1] == d[q - 1]);
    } else {
        assert(cs.subrange(0, cs.len() as int) =~= cs);
    }
}

/// A trimmed text occurs in the text, and starts and ends with characters
/// that are not white space.
pub proof fn lemma_trim_occurs(cs: Seq<char>)
    ensures
        occurs_in(trim(cs), cs),
        trim(cs).len() > 0 ==> !is_space(trim(cs)[0]) && !is_space(trim(cs).last()),
{
    lemma_trim_start_shape(cs);
    let p = choose|p: int|
        0 <= p <= cs.len() && trim_start(cs) == cs.subrange(p, cs.len() as int) && (p == cs.len()
            || !is_space(cs[p])) && forall|i: int| 0 <= i < p ==> is_space(#[trigger] cs[i]);
    let y = trim_start(cs);
    lemma_trim_end_shape(y);
    let q = choose|q: int|
        0 <= q <= y.len() && trim_end(y) == y.subrange(0, q) && (q == 0 || !is_space(y[q - 1]))
            && forall|i: int| q <= i < y.len() ==> is_space(#[trigger] y[i]);
    let t = trim(cs);
    assert(cs.skip(p).take(t.len() as int) =~= t);
    if t.len() > 0 {
        assert(t[0] == cs[p]);
        assert(t.last() == y[q - 1]);
    }
}

/// A text that starts and ends with characters that are not white space,
/// and occurs in another, still occurs in it once that one is trimmed.
pub proof fn lemma_occurs_in_trim(x: Seq<char>, cs: Seq<char>)
    requires
        occurs_in(x, cs),
        x.len() > 0,
        !is_space(x[0]),
        !is_space(x.last()),
    ensures
        occurs_in(x, trim(cs)),
{
    let n = x.len() as int;
    let o = choose|o: int| 0 <= o <= cs.len() - n && #[trigger] cs.skip(o).take(n) == x;
    assert(cs[o] == x[0]);
    assert(cs[o + n - 1] == x[n - 1]);
    lemma_trim_start_shape(cs);
    let p = choose|p: int|
        0 <= p <= cs.len() && trim_start(cs) == cs.subrange(p, cs.len() as int) && (p == cs.len()
            || !is_space(cs[p])) && forall|i: int| 0 <= i < p ==> is_space(#[trigger] cs[i]);
    assert(p <= o);
    let y = trim_start(cs);
    lemma_trim_end_shape(y);
    let q = choose|q: int|
        0 <= q <= y.len() && trim_end(y) == y.subrange(0, q) && (q == 0 || !is_space(y[q - 1]))
            && forall|i: int| q <= i < y.len() ==> is_space(#[trigger] y[i]);
    assert(y[o - p + n - 1] == cs[o + n - 1]);
    assert(o - p + n <= q);
    let t = trim(cs);
    assert(t.skip(o - p).take(n) =~= x);
}

/// Occurring in is transitive.
pub proof fn lemma_occurs_in_trans(x: Seq<char>, y: Seq<char>, z: Seq<char>)
    requires
        occurs_in(x, y),
        occurs_in(y, z),
    ensures
        occurs_in(x, z),
{
    let o1 = choose|o: int| 0 <= o <= y.len() - x.len() && #[trigger] y.skip(o).take(x.len() as int) == x;
    let o2 = choose|o: int| 0 <= o <= z.len() - y.len() && #[trigger] z.skip(o).take(y.len() as int) == y;
    assert(z.skip(o1 + o2).take(x.len() as int) =~= x) by {
        assert forall|j: int| 0 <= j < x.len() implies z.skip(o1 + o2).take(x.len() as int)[j] == x[j] by {
            assert(x[j] == y.skip(o1).take(x.len() as int)[j]);
            assert(y[o1 + j] == z.skip(o2).take(y.len() as int)[o1 + j]);
        }
    }
}

/// The parts joined with `sep` between consecutive parts.
pub open spec fn joined(parts: Seq<Seq<char>>, sep: Seq<char>) -> Seq<char>
    decreases parts.len(),
{
    if parts.len() == 0 {
        seq![]
    } else if parts.len() == 1 {
        parts[0]
    } else {
        joined(parts.drop_last(), sep) + sep + parts.last()
    }
}

/// The parts joined with the character `sep` between consecutive parts.
pub fn join_chars(parts: &Vec<Vec<char>>, sep: char) -> (r: Vec<char>)
    ensures
        r@ == joined(views(parts@), seq![sep]),
{
    let ghost pv = views(parts@);
    let mut out: Vec<char> = Vec::new();
    let mut k: usize = 0;
    assert(pv.take(0) =~= Seq::<Seq<char>>::empty());
    while k < parts.len()
        invariant
            pv == views(parts@),
            k <= parts@.len(),
            out@ == joined(pv.take(k as int), seq![sep]),
        decreases parts@.len() - k,
    {
        proof {
            assert(pv[k as int] == parts@[k as int]@);
            assert(pv.take(k + 1).drop_last() =~= pv.take(k as int));
            assert(pv.take(k + 1).last() == pv[k as int]);
        }
        if k > 0 {
            out.push(sep);
        }
        push_all(&mut out, &parts[k]);
        proof {
            if k == 0 {
                assert(out@ =~= pv.take(1)[0]);
            } else {
                assert(out@ =~= joined(pv.take(k as int), seq![sep]) + seq![sep] + pv[k as int]);
            }
        }
        k = k + 1;
    }
    assert(pv.take(parts@.len() as int) =~= pv);
    out
}

/// The sequences of `s` without repetitions, in order of first appearance.
pub open spec fn distinct_in_order(s: Seq<Seq<char>>) -> Seq<Seq<char>>
    decreases s.len(),
{
    if s.len() == 0 {
        seq![]
    } else {
        let r = distinct_in_order(s.drop_last());
        if r.contains(s.last()) {
            r
        } else {
            r.push(s.last())
        }
    }
}

/// Nothing occurs twice in the sequences without repetitions, and they are
/// exactly the sequences of `s`.
pub proof fn lemma_distinct_in_order(s: Seq<Seq<char>>)
    ensures
        distinct_in_order(s).no_duplicates(),
        forall|x: Seq<char>| #[trigger] distinct_in_order(s).contains(x) <==> s.contains(x),
    decreases s.len(),
{
    if s.len() > 0 {
        let d = s.drop_last();
        lemma_distinct_in_order(d);
        let r = distinct_in_order(d);
        assert(s =~= d.push(s.last()));
        assert forall|x: Seq<char>| #[trigger] distinct_in_order(s).contains(x) <==> s.contains(x) by {
            if s.contains(x) {
                let i = choose|i: int| 0 <= i < s.len() && s[i] == x;
                if i < d.len() {
                    assert(d[i] == x);
                    assert(d.contains(x));
                }
            }
            if r.contains(x) {
                assert(d.contains(x));
                let i = choose|i: int| 0 <= i < d.len() && d[i] == x;
                assert(s[i] == d[i]);
            }
            if !r.contains(s.last()) {
                let t = r.push(s.last());
                if t.contains(x) {
                    let i = choose|i: int| 0 <= i < t.len() && t[i] == x;
                    if i < r.len() {
                        assert(r[i] == t[i]);
                        assert(r.contains(x));
                    } else {
                        assert(s[s.len() - 1] == x);
                    }
                }
                if r.contains(x) {
                    let i = choose|i: int| 0 <= i < r.len() && r[i] == x;
                    assert(t[i] == r[i]);
                }
                if x == s.last() {
                    assert(t[t.len() - 1] == x);
                }
            }
        }
    }
}

/// Whether `v` holds the character sequence `w`.
pub fn holds_chars(v: &Vec<Vec<char>>, w: &[char]) -> (b: bool)
    ensures
        b == views(v@).contains(w@),
{
    let mut k: usize = 0;
    while k < v.len()
        invariant
            k <= v@.len(),
            forall|j: int| 0 <= j < k ==> v@[j]@ != w@,
        decreases v@.len() - k,
    {
        if chars_eq(&v[k], w) {
            assert(views(v@)[k as int] == w@);
            return true;
        }
        k = k + 1;
    }
    assert forall|j: int| 0 <= j < views(v@).len() implies views(v@)[j] != w@ by {
        assert(views(v@)[j] == v@[j]@);
    }
    false
}

/// The sequences of `v` without repetitions, in order of first appearance.
pub fn distinct_chars(v: &Vec<Vec<char>>) -> (r: Vec<Vec<char>>)
    ensures
        views(r@) == distinct_in_order(views(v@)),
{
    let ghost vv = views(v@);
    let mut out: Vec<Vec<char>> = Vec::new();
    let mut k: usize = 0;
    assert(vv.take(0) =~= Seq::<Seq<char>>::empty());
    assert(views(out@) =~= Seq::<Seq<char>>::empty());
    while k < v.len()
        invariant
            vv == views(v@),
            k <= v@.len(),
            views(out@) == distinct_in_order(vv.take(k as int)),
        decreases v@.len() - k,
    {
        proof {
            assert(vv[k as int] == v@[k as int]@);
            assert(vv.take(k + 1).drop_last() =~= vv.take(k as int));
            assert(vv.take(k + 1).last() == vv[k as int]);
        }
        if !holds_chars(&out, &v[k]) {
            let w = copy_range(&v[k], 0, v[k].len());
            let ghost before = views(out@);
            out.push(w);
            proof {
                assert(v@[k as int]@.subrange(0, v@[k as int]@.len() as int) =~= v@[k as int]@);
                assert(views(out@) =~= before.push(vv[k as int]));
            }
        }
        k = k + 1;
    }
    assert(vv.take(v@.len() as int) =~= vv);
    out
}

/// The decimal digit `d`.
pub open spec fn digit(d: nat) -> char {
    if d == 0 {
        '0'
    } else if d == 1 {
        '1'
    } else if d == 2 {
        '2'
    } else if d == 3 {
        '3'
    } else if d == 4 {
        '4'
    } else if d == 5 {
        '5'
    } else if d == 6 {
        '6'
    } else if d == 7 {
        '7'
    } else if d == 8 {
        '8'
    } else {
        '9'
    }
}

/// The decimal notation of `n`, without leading zeros.
pub open spec fn decimal(n: nat) -> Seq<char>
    decreases n,
{
    if n < 10 {
        seq![digit(n)]
    } else {
        decimal(n / 10).push(digit(n % 10))
    }
}

pub fn digit_char(d: u64) -> (c: char)
    requires
        d < 10,
    ensures
        c == digit(d as nat),
{
    match d {
        0 => '0',
        1 => '1',
        2 => '2',
        3 => '3',
        4 => '4',
        5 => '5',
        6 => '6',
        7 => '7',
        8 => '8',
        _ => '9',
    }
}

/// Appends the decimal notation of `n`.
pub fn push_decimal(out: &mut Vec<char>, n: u64)
    ensures
        final(out)@ == old(out)@ + decimal(n as nat),
    decreases n,
{
    if n >= 10 {
        push_decimal(out, n / 10);
    }
    let d = digit_char(n % 10);
    out.push(d);
    assert(out@ =~= old(out)@ + decimal(n as nat));
}

/// Appends the characters of `s`.
pub fn push_text(out: &mut Vec<char>, s: &str)
    ensures
        final(out)@ == old(out)@ + s@,
{
    let cs = chars_of(s);
    push_all(out, &cs);
}

} // verus!
