//! Document-level analysis: supported file kinds, text of HTML pages,
//! normalized MD5 duplicate detection and N-gram phrase matching.

use vstd::prelude::*;
use crate::lexicon::{lemma_lex_total, lemma_lex_transitive, lex_less, lex_lt};
use crate::sentence::{
    contains_chars, find_suspicious_sentences, max_nat, pair_views, strip_template, stripped,
    suspicious_pairs, SuspiciousPair,
};
use crate::text::{
    alphanumeric, byte_len, byte_offsets, chars_eq, chars_of, copy_range, decimal, distinct_chars,
    distinct_in_order, holds_chars, is_alphanumeric_char, is_space, join_chars, joined,
    lemma_collapse_single_spaced, lemma_concat_words, lemma_non_space_joined, lemma_words_shape,
    lowercase, non_space, push_decimal, push_text,
    single_spaced, split_words, string_of, to_lowercase_chars, views, words,
};
use crate::tfidf::string_views;
use md5::{Digest, Md5};

verus! {

/// `s` ends with `suffix`.
pub open spec fn ends_with(s: Seq<char>, suffix: Seq<char>) -> bool {
    s.len() >= suffix.len() && s.subrange(s.len() - suffix.len(), s.len() as int) == suffix
}

fn ends_with_exec(s: &[char], suffix: &[char]) -> (r: bool)
    ensures
        r == ends_with(s@, suffix@),
{
    if s.len() < suffix.len() {
        return false;
    }
    let off = s.len() - suffix.len();
    let mut k: usize = 0;
    while k < suffix.len()
        invariant
            off + suffix@.len() == s@.len(),
            s@.len() <= usize::MAX,
            k <= suffix@.len(),
            forall|j: int| 0 <= j < k ==> s@[off + j] == suffix@[j],
        decreases suffix@.len() - k,
    {
        if s[off + k] != suffix[k] {
            assert(s@.subrange(off as int, s@.len() as int)[k as int] != suffix@[k as int]);
            return false;
        }
        k = k + 1;
    }
    assert(s@.subrange(off as int, s@.len() as int) =~= suffix@);
    true
}

/// A file name is supported when, lower-cased, it ends with `.txt`,
/// `.docx`, `.html` or `.htm`.
pub open spec fn supported_name(fname: Seq<char>) -> bool {
    let l = lowercase(fname);
    ends_with(l, ".txt"@) || ends_with(l, ".docx"@) || ends_with(l, ".html"@) || ends_with(
        l,
        ".htm"@,
    )
}

/// Check if a file has a supported extension.
pub fn is_supported_file(fname: &str) -> (r: bool)
    ensures
        r == supported_name(fname@),
{
    let name = chars_of(fname);
    let lower = to_lowercase_chars(&name);
    ends_with_exec(&lower, &chars_of(".txt")) || ends_with_exec(&lower, &chars_of(".docx"))
        || ends_with_exec(&lower, &chars_of(".html")) || ends_with_exec(&lower, &chars_of(".htm"))
}

/// How the text of a file is read.
#[derive(Clone, Copy, Debug, PartialEq, Eq, Structural)]
pub enum FileKind {
    Text,
    Docx,
    Html,
}

/// The kind of a file by its extension, compared lower-cased.
pub open spec fn kind_of_extension(ext: Seq<char>) -> Option<FileKind> {
    let l = lowercase(ext);
    if l == "txt"@ {
        Some(FileKind::Text)
    } else if l == "docx"@ {
        Some(FileKind::Docx)
    } else if l == "html"@ || l == "htm"@ {
        Some(FileKind::Html)
    } else {
        None
    }
}

/// The kind of a file by its extension (None when unsupported).
pub fn classify_extension(ext: &str) -> (r: Option<FileKind>)
    ensures
        r == kind_of_extension(ext@),
{
    let e = chars_of(ext);
    let l = to_lowercase_chars(&e);
    if crate::text::chars_eq(&l, &chars_of("txt")) {
        Some(FileKind::Text)
    } else if crate::text::chars_eq(&l, &chars_of("docx")) {
        Some(FileKind::Docx)
    } else if crate::text::chars_eq(&l, &chars_of("html")) || crate::text::chars_eq(
        &l,
        &chars_of("htm"),
    ) {
        Some(FileKind::Html)
    } else {
        None
    }
}

/// The text nodes of an HTML document as `scraper` parses it
/// (`Html::parse_document`, then the text of the root element).
pub uninterp spec fn html_text_nodes(html: Seq<char>) -> Seq<Seq<char>>;

/// `scraper::Html::parse_document`, then the text nodes under the root
/// element, in document order; the result is named `html_text_nodes`.
#[verifier::external_body]
fn html_text(html: &str) -> (r: Vec<Vec<char>>)
    ensures
        views(r@) == html_text_nodes(html@),
{
    let document = scraper::Html::parse_document(html);
    document.root_element().text().map(|t| t.chars().collect()).collect()
}

/// The words of a text joined with single spaces.
pub open spec fn collapse_ws(cs: Seq<char>) -> Seq<char> {
    joined(words(cs), seq![' '])
}

/// The text of an HTML page: its text nodes joined with spaces, white space
/// collapsed; None when nothing is left.
pub open spec fn html_page_text(html: Seq<char>) -> Option<Seq<char>> {
    let c = collapse_ws(joined(html_text_nodes(html), seq![' ']));
    if c.len() == 0 {
        None
    } else {
        Some(c)
    }
}

/// Extract the text of an HTML page (tags stripped, white space collapsed).
pub fn html_to_text(html: &str) -> (r: Option<String>)
    ensures
        match r {
            Some(s) => html_page_text(html@) == Some(s@),
            None => html_page_text(html@).is_none(),
        },
{
    let nodes = html_text(html);
    let all = join_chars(&nodes, ' ');
    let ws = split_words(&all);
    let cleaned = join_chars(&ws, ' ');
    if cleaned.len() == 0 {
        None
    } else {
        Some(string_of(&cleaned))
    }
}

/// Lower-cased text with every character that is not alphanumeric turned
/// into a space, then its words joined by single spaces.
pub open spec fn normalized(text: Seq<char>) -> Seq<char> {
    collapse_ws(lowercase(text).map_values(|c: char| if alphanumeric(c) { c } else { ' ' }))
}

fn normalize_chars(text: &[char]) -> (r: Vec<char>)
    ensures
        r@ == normalized(text@),
{
    let lower = to_lowercase_chars(text);
    let ghost mapped = lower@.map_values(|c: char| if alphanumeric(c) { c } else { ' ' });
    let mut m: Vec<char> = Vec::new();
    let mut k: usize = 0;
    while k < lower.len()
        invariant
            mapped == lower@.map_values(|c: char| if alphanumeric(c) { c } else { ' ' }),
            k <= lower@.len(),
            m@ == mapped.take(k as int),
        decreases lower@.len() - k,
    {
        let c = lower[k];
        if is_alphanumeric_char(c) {
            m.push(c);
        } else {
            m.push(' ');
        }
        assert(m@ =~= mapped.take(k + 1));
        k = k + 1;
    }
    assert(mapped.take(lower@.len() as int) =~= mapped);
    let ws = split_words(&m);
    join_chars(&ws, ' ')
}

proof fn lemma_joined_alphanumeric(parts: Seq<Seq<char>>)
    requires
        forall|k: int, j: int|
            0 <= k < parts.len() && 0 <= j < parts[k].len() ==> alphanumeric(#[trigger] parts[k][j]),
    ensures
        forall|i: int|
            0 <= i < joined(parts, seq![' ']).len() ==> #[trigger] joined(parts, seq![' '])[i] == ' '
                || alphanumeric(joined(parts, seq![' '])[i]),
    decreases parts.len(),
{
    if parts.len() == 1 {
        let s = joined(parts, seq![' ']);
        assert forall|i: int| 0 <= i < s.len() implies #[trigger] s[i] == ' ' || alphanumeric(s[i]) by {
            assert(s[i] == parts[0][i]);
        }
    } else if parts.len() > 1 {
        let d = parts.drop_last();
        assert forall|k: int, j: int| 0 <= k < d.len() && 0 <= j < d[k].len() implies alphanumeric(
            #[trigger] d[k][j],
        ) by {
            assert(d[k] == parts[k]);
        }
        lemma_joined_alphanumeric(d);
        let pre = joined(d, seq![' ']);
        let last = parts.last();
        let s = pre + seq![' '] + last;
        assert(s == joined(parts, seq![' ']));
        assert forall|i: int| 0 <= i < s.len() implies #[trigger] s[i] == ' ' || alphanumeric(s[i]) by {
            if i < pre.len() {
                assert(s[i] == pre[i]);
            } else if i > pre.len() {
                assert(s[i] == last[i - pre.len() - 1]);
                assert(last == parts[parts.len() - 1]);
            }
        }
    }
}

/// The normalized text is single-spaced, and each of its other characters
/// is alphanumeric.
pub proof fn lemma_normalized_shape(text: Seq<char>)
    ensures
        single_spaced(normalized(text)),
        forall|i: int|
            0 <= i < normalized(text).len() ==> #[trigger] normalized(text)[i] == ' ' || alphanumeric(
                normalized(text)[i],
            ),
{
    let m = lowercase(text).map_values(|c: char| if alphanumeric(c) { c } else { ' ' });
    lemma_collapse_single_spaced(m);
    lemma_words_shape(m);
    let ws = words(m);
    assert forall|k: int, j: int| 0 <= k < ws.len() && 0 <= j < ws[k].len() implies alphanumeric(
        #[trigger] ws[k][j],
    ) by {
        let x = ws[k][j];
        assert(!is_space(x) && m.contains(x));
        let i = choose|i: int| 0 <= i < m.len() && m[i] == x;
        assert(is_space(' '));
    }
    lemma_joined_alphanumeric(ws);
}

/// The alphanumeric characters of `cs` (white space aside), in order.
pub open spec fn alphanumerics(cs: Seq<char>) -> Seq<char>
    decreases cs.len(),
{
    if cs.len() == 0 {
        seq![]
    } else if alphanumeric(cs.last()) && !is_space(cs.last()) {
        alphanumerics(cs.drop_last()).push(cs.last())
    } else {
        alphanumerics(cs.drop_last())
    }
}

proof fn lemma_non_space_masked(s: Seq<char>)
    ensures
        non_space(s.map_values(|c: char| if alphanumeric(c) { c } else { ' ' })) == alphanumerics(s),
    decreases s.len(),
{
    let m = s.map_values(|c: char| if alphanumeric(c) { c } else { ' ' });
    if s.len() > 0 {
        let d = s.drop_last();
        lemma_non_space_masked(d);
        assert(m.drop_last() =~= d.map_values(|c: char| if alphanumeric(c) { c } else { ' ' }));
        assert(m.last() == (if alphanumeric(s.last()) { s.last() } else { ' ' }));
        assert(is_space(' '));
    } else {
        assert(m =~= Seq::<char>::empty());
    }
}

proof fn lemma_alphanumerics_has(s: Seq<char>, i: int)
    requires
        0 <= i < s.len(),
        alphanumeric(s[i]),
        !is_space(s[i]),
    ensures
        alphanumerics(s).contains(s[i]),
    decreases s.len(),
{
    let d = s.drop_last();
    if i == s.len() - 1 {
        assert(alphanumerics(s).last() == s[i]);
    } else {
        assert(d[i] == s[i]);
        lemma_alphanumerics_has(d, i);
        let j = choose|j: int| 0 <= j < alphanumerics(d).len() && alphanumerics(d)[j] == s[i];
        if alphanumeric(s.last()) && !is_space(s.last()) {
            assert(alphanumerics(s)[j] == s[i]);
        }
    }
}

proof fn lemma_non_space_from(s: Seq<char>, c: char)
    requires
        non_space(s).contains(c),
    ensures
        s.contains(c),
    decreases s.len(),
{
    let d = s.drop_last();
    let j = choose|j: int| 0 <= j < non_space(s).len() && non_space(s)[j] == c;
    if !is_space(s.last()) && j == non_space(s).len() - 1 {
        assert(s[s.len() - 1] == c);
    } else {
        assert(non_space(d)[j] == c);
        lemma_non_space_from(d, c);
        let k = choose|k: int| 0 <= k < d.len() && d[k] == c;
        assert(s[k] == c);
    }
}

/// Normalizing keeps every alphanumeric character: leaving its spaces
/// aside, the normalized text is exactly the alphanumeric characters of the
/// lower-cased text, in their order (digits among them): texts that differ
/// in a number do not normalize alike. In particular each alphanumeric character of the lower-cased text occurs
/// in the normalized text.
pub proof fn lemma_normalized_keeps_alphanumerics(text: Seq<char>)
    ensures
        non_space(normalized(text)) == alphanumerics(lowercase(text)),
        forall|i: int|
            0 <= i < lowercase(text).len() && alphanumeric(#[trigger] lowercase(text)[i]) && !is_space(
                lowercase(text)[i],
            ) ==> normalized(text).contains(lowercase(text)[i]),
{
    let m = lowercase(text).map_values(|c: char| if alphanumeric(c) { c } else { ' ' });
    lemma_words_shape(m);
    let ws = words(m);
    assert forall|k: int, j: int| 0 <= k < ws.len() && 0 <= j < ws[k].len() implies !is_space(
        #[trigger] ws[k][j],
    ) by {}
    lemma_non_space_joined(ws);
    lemma_concat_words(m);
    lemma_non_space_masked(lowercase(text));
    assert forall|i: int|
        0 <= i < lowercase(text).len() && alphanumeric(#[trigger] lowercase(text)[i]) && !is_space(
            lowercase(text)[i],
        ) implies normalized(text).contains(lowercase(text)[i]) by {
        lemma_alphanumerics_has(lowercase(text), i);
        lemma_non_space_from(normalized(text), lowercase(text)[i]);
    }
}

/// Normalize text for MD5 comparison (lowercase, punctuation to spaces,
/// white space collapsed).
pub fn normalize_for_hash(text: &str) -> (r: String)
    ensures
        r@ == normalized(text@),
{
    let cs = chars_of(text);
    let n = normalize_chars(&cs);
    string_of(&n)
}

/// The lower-case hexadecimal MD5 digest of the UTF-8 bytes of a text.
pub uninterp spec fn md5_hex(text: Seq<char>) -> Seq<char>;

/// `md5::Md5::digest` of the UTF-8 bytes of `text`, written in lower-case
/// hexadecimal (`{:x}`); the result is named `md5_hex`.
#[verifier::external_body]
fn md5_hex_of(text: &[char]) -> (r: Vec<char>)
    ensures
        r@ == md5_hex(text@),
{
    let s: String = text.iter().collect();
    format!("{:x}", Md5::digest(s.as_bytes())).chars().collect()
}

/// The digest by which duplicates are found: MD5 of the normalized text.
pub open spec fn file_digest(content: Seq<char>) -> Seq<char> {
    md5_hex(normalized(content))
}

/// The digest by which duplicates are found: the lower-case hexadecimal
/// MD5 of the normalized text.
pub fn content_digest(content: &str) -> (r: String)
    ensures
        r@ == file_digest(content@),
{
    let cs = chars_of(content);
    let n = normalize_chars(&cs);
    let h = md5_hex_of(&n);
    string_of(&h)
}

/// The (name, content) pairs of a file list.
pub open spec fn file_views(v: Seq<(String, String)>) -> Seq<(Seq<char>, Seq<char>)> {
    v.map_values(|f: (String, String)| (f.0@, f.1@))
}

/// The names of the files whose digest is `k`, in order.
pub open spec fn names_with_digest(files: Seq<(Seq<char>, Seq<char>)>, k: Seq<char>) -> Seq<Seq<char>>
    decreases files.len(),
{
    if files.len() == 0 {
        seq![]
    } else {
        let r = names_with_digest(files.drop_last(), k);
        if file_digest(files.last().1) == k {
            r.push(files.last().0)
        } else {
            r
        }
    }
}

/// For each digest of `keys` in order, the names that share it, when there
/// are at least two.
pub open spec fn groups_for(files: Seq<(Seq<char>, Seq<char>)>, keys: Seq<Seq<char>>) -> Seq<Seq<Seq<char>>>
    decreases keys.len(),
{
    if keys.len() == 0 {
        seq![]
    } else {
        let r = groups_for(files, keys.drop_last());
        let g = names_with_digest(files, keys.last());
        if g.len() >= 2 {
            r.push(g)
        } else {
            r
        }
    }
}

/// The groups of files with identical normalized digests, by first
/// appearance of the digest, names in file order.
pub open spec fn duplicate_groups(files: Seq<(Seq<char>, Seq<char>)>) -> Seq<Seq<Seq<char>>> {
    groups_for(
        files,
        distinct_in_order(files.map_values(|f: (Seq<char>, Seq<char>)| file_digest(f.1))),
    )
}

/// Some file is named `x` and has digest `d`.
pub open spec fn has_file(files: Seq<(Seq<char>, Seq<char>)>, x: Seq<char>, d: Seq<char>) -> bool {
    exists|m: int| 0 <= m < files.len() && files[m].0 == x && file_digest(#[trigger] files[m].1) == d
}

/// Each name of `g` is that of a file whose digest is `d`.
pub open spec fn all_with_digest(files: Seq<(Seq<char>, Seq<char>)>, g: Seq<Seq<char>>, d: Seq<char>) -> bool {
    forall|j: int| 0 <= j < g.len() ==> has_file(files, #[trigger] g[j], d)
}

proof fn lemma_names_with_digest(files: Seq<(Seq<char>, Seq<char>)>, k: Seq<char>)
    ensures
        all_with_digest(files, names_with_digest(files, k), k),
    decreases files.len(),
{
    if files.len() > 0 {
        let d = files.drop_last();
        lemma_names_with_digest(d, k);
        let r = names_with_digest(d, k);
        let g = names_with_digest(files, k);
        assert forall|j: int| 0 <= j < g.len() implies has_file(files, #[trigger] g[j], k) by {
            if j < r.len() {
                assert(g[j] == r[j]);
                assert(has_file(d, r[j], k));
                let m = choose|m: int|
                    0 <= m < d.len() && d[m].0 == r[j] && file_digest(#[trigger] d[m].1) == k;
                assert(files[m] == d[m]);
            } else {
                let m = files.len() - 1;
                assert(files[m] == files.last());
                assert(file_digest(files.last().1) == k);
                assert(g == r.push(files.last().0));
                assert(g[j] == files.last().0);
                assert(files[m].0 == g[j] && file_digest(files[m].1) == k);
            }
        }
        assert(all_with_digest(files, g, k));
    } else {
        assert(names_with_digest(files, k) =~= Seq::<Seq<char>>::empty());
    }
}

proof fn lemma_groups_for(files: Seq<(Seq<char>, Seq<char>)>, keys: Seq<Seq<char>>)
    ensures
        forall|i: int|
            0 <= i < groups_for(files, keys).len() ==> (#[trigger] groups_for(files, keys)[i]).len() >= 2
                && exists|d: Seq<char>| all_with_digest(files, groups_for(files, keys)[i], d),
    decreases keys.len(),
{
    if keys.len() > 0 {
        lemma_groups_for(files, keys.drop_last());
        let r = groups_for(files, keys.drop_last());
        let g = names_with_digest(files, keys.last());
        lemma_names_with_digest(files, keys.last());
        let w = groups_for(files, keys);
        assert forall|i: int| 0 <= i < w.len() implies (#[trigger] w[i]).len() >= 2 && exists|
            d: Seq<char>,
        | all_with_digest(files, w[i], d) by {
            if i < r.len() {
                assert(w[i] == r[i]);
            } else {
                assert(w[i] == g);
                assert(all_with_digest(files, w[i], keys.last()));
            }
        }
    }
}

/// Each group of duplicates has at least two files, and its files share
/// one normalized digest.
pub proof fn lemma_duplicate_groups(files: Seq<(Seq<char>, Seq<char>)>)
    ensures
        forall|i: int|
            0 <= i < duplicate_groups(files).len() ==> (#[trigger] duplicate_groups(files)[i]).len() >= 2
                && exists|d: Seq<char>| all_with_digest(files, duplicate_groups(files)[i], d),
{
    lemma_groups_for(
        files,
        distinct_in_order(files.map_values(|f: (Seq<char>, Seq<char>)| file_digest(f.1))),
    );
}

proof fn lemma_names_with_digest_has(files: Seq<(Seq<char>, Seq<char>)>, d: Seq<char>, i: int)
    requires
        0 <= i < files.len(),
        file_digest(files[i].1) == d,
    ensures
        names_with_digest(files, d).contains(files[i].0),
    decreases files.len(),
{
    let p = files.drop_last();
    let r = names_with_digest(p, d);
    if i < files.len() - 1 {
        assert(p[i] == files[i]);
        lemma_names_with_digest_has(p, d, i);
        let k = choose|k: int| 0 <= k < r.len() && r[k] == files[i].0;
        let w = names_with_digest(files, d);
        assert(w[k] == r[k]);
    } else {
        let w = names_with_digest(files, d);
        assert(files.last() == files[i]);
        assert(w[w.len() - 1] == files[i].0);
    }
}

proof fn lemma_names_with_digest_two(files: Seq<(Seq<char>, Seq<char>)>, d: Seq<char>, i: int, j: int)
    requires
        0 <= i < j < files.len(),
        file_digest(files[i].1) == d,
        file_digest(files[j].1) == d,
    ensures
        names_with_digest(files, d).len() >= 2,
    decreases files.len(),
{
    let p = files.drop_last();
    assert(p[i] == files[i]);
    if j < files.len() - 1 {
        assert(p[j] == files[j]);
        lemma_names_with_digest_two(p, d, i, j);
    } else {
        lemma_names_with_digest_has(p, d, i);
        assert(files.last() == files[j]);
    }
}

proof fn lemma_groups_for_has(files: Seq<(Seq<char>, Seq<char>)>, keys: Seq<Seq<char>>, d: Seq<char>)
    requires
        keys.contains(d),
        names_with_digest(files, d).len() >= 2,
    ensures
        groups_for(files, keys).contains(names_with_digest(files, d)),
    decreases keys.len(),
{
    let r = groups_for(files, keys.drop_last());
    let w = groups_for(files, keys);
    if keys.last() == d {
        assert(w[w.len() - 1] == names_with_digest(files, d));
    } else {
        let k = choose|k: int| 0 <= k < keys.len() && keys[k] == d;
        assert(keys.drop_last()[k] == d);
        lemma_groups_for_has(files, keys.drop_last(), d);
        let m = choose|m: int| 0 <= m < r.len() && r[m] == names_with_digest(files, d);
        assert(w[m] == r[m]);
    }
}

/// Two files whose normalized texts have the same digest (as when they
/// differ only in case, punctuation or white space) are found in one group
/// of duplicates.
pub proof fn lemma_duplicates_found(files: Seq<(Seq<char>, Seq<char>)>, i: int, j: int)
    requires
        0 <= i < j < files.len(),
        file_digest(files[i].1) == file_digest(files[j].1),
    ensures
        exists|g: int|
            0 <= g < duplicate_groups(files).len() && (#[trigger] duplicate_groups(files)[g]).contains(
                files[i].0,
            ) && duplicate_groups(files)[g].contains(files[j].0),
{
    let d = file_digest(files[i].1);
    let ds = files.map_values(|f: (Seq<char>, Seq<char>)| file_digest(f.1));
    assert(ds[i] == d);
    assert(ds.contains(d));
    crate::text::lemma_distinct_in_order(ds);
    lemma_names_with_digest_two(files, d, i, j);
    lemma_names_with_digest_has(files, d, i);
    lemma_names_with_digest_has(files, d, j);
    lemma_groups_for_has(files, distinct_in_order(ds), d);
    let gs = duplicate_groups(files);
    let g = choose|g: int| 0 <= g < gs.len() && gs[g] == names_with_digest(files, d);
    assert(gs[g].contains(files[i].0) && gs[g].contains(files[j].0));
}

pub open spec fn group_views(v: Seq<Vec<String>>) -> Seq<Seq<Seq<char>>> {
    v.map_values(|g: Vec<String>| g@.map_values(|s: String| s@))
}

/// Find groups of files (name, content) with identical normalized MD5
/// hashes; only groups of two or more files are returned.
pub fn find_exact_duplicates(files: &Vec<(String, String)>) -> (r: Vec<Vec<String>>)
    ensures
        group_views(r@) == duplicate_groups(file_views(files@)),
{
    let ghost fv = file_views(files@);
    let ghost dg = fv.map_values(|f: (Seq<char>, Seq<char>)| file_digest(f.1));
    let mut digests: Vec<Vec<char>> = Vec::new();
    let mut k: usize = 0;
    while k < files.len()
        invariant
            fv == file_views(files@),
            dg == fv.map_values(|f: (Seq<char>, Seq<char>)| file_digest(f.1)),
            k <= files@.len(),
            views(digests@) == dg.take(k as int),
        decreases files@.len() - k,
    {
        let h = chars_of(content_digest(files[k].1.as_str()).as_str());
        let ghost before = views(digests@);
        digests.push(h);
        proof {
            assert(fv[k as int] == (files@[k as int].0@, files@[k as int].1@));
            assert(views(digests@) =~= before.push(dg[k as int]));
            assert(views(digests@) =~= dg.take(k + 1));
        }
        k = k + 1;
    }
    assert(dg.take(files@.len() as int) =~= dg);
    let keys = distinct_chars(&digests);
    let ghost kv = views(keys@);
    let mut groups: Vec<Vec<String>> = Vec::new();
    let mut g: usize = 0;
    assert(kv.take(0) =~= Seq::<Seq<char>>::empty());
    assert(group_views(groups@) =~= groups_for(fv, kv.take(0)));
    while g < keys.len()
        invariant
            fv == file_views(files@),
            views(digests@) == dg,
            digests@.len() == files@.len(),
            dg == fv.map_values(|f: (Seq<char>, Seq<char>)| file_digest(f.1)),
            kv == views(keys@),
            g <= keys@.len(),
            group_views(groups@) == groups_for(fv, kv.take(g as int)),
        decreases keys@.len() - g,
    {
        let key = &keys[g];
        let mut names: Vec<String> = Vec::new();
        let mut m: usize = 0;
        assert(fv.take(0) =~= Seq::<(Seq<char>, Seq<char>)>::empty());
        assert(names@.map_values(|s: String| s@) =~= names_with_digest(fv.take(0), key@));
        while m < files.len()
            invariant
                fv == file_views(files@),
                views(digests@) == dg,
                digests@.len() == files@.len(),
                dg == fv.map_values(|f: (Seq<char>, Seq<char>)| file_digest(f.1)),
                m <= files@.len(),
                names@.map_values(|s: String| s@) == names_with_digest(fv.take(m as int), key@),
            decreases files@.len() - m,
        {
            proof {
                assert(fv.take(m + 1).drop_last() =~= fv.take(m as int));
                assert(fv.take(m + 1).last() == fv[m as int]);
                assert(views(digests@)[m as int] == digests@[m as int]@);
                assert(fv[m as int] == (files@[m as int].0@, files@[m as int].1@));
            }
            if chars_eq(&digests[m], key) {
                let ghost before = names@.map_values(|s: String| s@);
                names.push(files[m].0.clone());
                assert(names@.map_values(|s: String| s@) =~= before.push(files@[m as int].0@));
            }
            m = m + 1;
        }
        assert(fv.take(files@.len() as int) =~= fv);
        proof {
            assert(kv[g as int] == keys@[g as int]@);
            assert(kv.take(g + 1).drop_last() =~= kv.take(g as int));
            assert(kv.take(g + 1).last() == kv[g as int]);
        }
        if names.len() >= 2 {
            let ghost before = group_views(groups@);
            groups.push(names);
            assert(group_views(groups@) =~= before.push(names_with_digest(fv, kv[g as int])));
        }
        g = g + 1;
    }
    assert(kv.take(keys@.len() as int) =~= kv);
    groups
}

/// The n-gram of the words `ws` starting at word `i`: the `n` words,
/// lower-cased, joined by spaces.
pub open spec fn ngram_at(ws: Seq<Seq<char>>, i: int, n: int) -> Seq<char> {
    joined(ws.subrange(i, i + n).map_values(|w: Seq<char>| lowercase(w)), seq![' '])
}

/// Every word-level n-gram of a text, in order (none when the text has fewer
/// than `n` words).
pub open spec fn ngram_list(text: Seq<char>, n: int) -> Seq<Seq<char>> {
    let ws = words(text);
    if ws.len() < n {
        seq![]
    } else {
        Seq::new((ws.len() - n + 1) as nat, |i: int| ngram_at(ws, i, n))
    }
}

/// The distinct n-grams of a text, in order of first appearance.
pub open spec fn ngrams(text: Seq<char>, n: int) -> Seq<Seq<char>> {
    distinct_in_order(ngram_list(text, n))
}

fn ngrams_chars(cs: &[char], n: usize) -> (r: Vec<Vec<char>>)
    requires
        n >= 1,
    ensures
        views(r@) == ngrams(cs@, n as int),
{
    let ws = split_words(cs);
    let ghost wv = views(ws@);
    let mut lw: Vec<Vec<char>> = Vec::new();
    let mut k: usize = 0;
    while k < ws.len()
        invariant
            wv == views(ws@),
            k <= ws@.len(),
            views(lw@) == wv.take(k as int).map_values(|w: Seq<char>| lowercase(w)),
        decreases ws@.len() - k,
    {
        let l = to_lowercase_chars(&ws[k]);
        let ghost before = views(lw@);
        lw.push(l);
        proof {
            assert(wv[k as int] == ws@[k as int]@);
            assert(views(lw@) =~= before.push(l@));
            assert(views(lw@) =~= wv.take(k + 1).map_values(|w: Seq<char>| lowercase(w)));
        }
        k = k + 1;
    }
    assert(wv.take(ws@.len() as int) =~= wv);
    let ghost lv = wv.map_values(|w: Seq<char>| lowercase(w));
    let nl = lw.len();
    let mut grams: Vec<Vec<char>> = Vec::new();
    if ws.len() >= n {
        let count = ws.len() - n + 1;
        let mut i: usize = 0;
        while i < count
            invariant
                wv == words(cs@),
                lv == wv.map_values(|w: Seq<char>| lowercase(w)),
                views(lw@) == lv,
                lw@.len() == lv.len(),
                nl == lv.len(),
                n >= 1,
                count == wv.len() - n + 1,
                i <= count,
                views(grams@) == ngram_list(cs@, n as int).take(i as int),
            decreases count - i,
        {
            let mut window: Vec<Vec<char>> = Vec::new();
            let mut j: usize = 0;
            while j < n
                invariant
                    views(lw@) == lv,
                    lw@.len() == lv.len(),
                    nl == lv.len(),
                    i + n <= lv.len(),
                    j <= n,
                    views(window@) == lv.subrange(i as int, i + j),
                decreases n - j,
            {
                let w = copy_range(&lw[i + j], 0, lw[i + j].len());
                let ghost before = views(window@);
                window.push(w);
                proof {
                    assert(views(lw@)[i + j] == lw@[i + j]@);
                    assert(lw@[i + j]@.subrange(0, lw@[i + j]@.len() as int) =~= lw@[i + j]@);
                    assert(views(window@) =~= before.push(w@));
                    assert(views(window@) =~= lv.subrange(i as int, i + j + 1));
                }
                j = j + 1;
            }
            let gram = join_chars(&window, ' ');
            let ghost before = views(grams@);
            grams.push(gram);
            proof {
                assert(lv.subrange(i as int, i + n) =~= wv.subrange(i as int, i + n).map_values(
                    |w: Seq<char>| lowercase(w),
                ));
                assert(ngram_list(cs@, n as int)[i as int] == ngram_at(wv, i as int, n as int));
                assert(views(grams@) =~= before.push(ngram_list(cs@, n as int)[i as int]));
                assert(views(grams@) =~= ngram_list(cs@, n as int).take(i + 1));
            }
            i = i + 1;
        }
        assert(ngram_list(cs@, n as int).take(count as int) =~= ngram_list(cs@, n as int));
    } else {
        assert(views(grams@) =~= ngram_list(cs@, n as int));
    }
    distinct_chars(&grams)
}

/// Extract the distinct word-level N-grams of a text (lower-cased words
/// joined by spaces), in order of first appearance.
pub fn get_ngrams(text: &str, n: usize) -> (r: Vec<String>)
    requires
        n >= 1,
    ensures
        string_views(r@) == ngrams(text@, n as int),
{
    let cs = chars_of(text);
    let g = ngrams_chars(&cs, n);
    to_strings(&g)
}

fn to_strings(v: &Vec<Vec<char>>) -> (r: Vec<String>)
    ensures
        string_views(r@) == views(v@),
{
    let mut out: Vec<String> = Vec::new();
    let mut k: usize = 0;
    while k < v.len()
        invariant
            k <= v@.len(),
            string_views(out@) == views(v@).take(k as int),
        decreases v@.len() - k,
    {
        let s = string_of(&v[k]);
        let ghost before = string_views(out@);
        out.push(s);
        proof {
            assert(views(v@)[k as int] == v@[k as int]@);
            assert(string_views(out@) =~= before.push(s@));
            assert(string_views(out@) =~= views(v@).take(k + 1));
        }
        k = k + 1;
    }
    assert(views(v@).take(v@.len() as int) =~= views(v@));
    out
}

/// The entries of `s` that `other` holds, in order.
pub open spec fn kept_in(s: Seq<Seq<char>>, other: Seq<Seq<char>>) -> Seq<Seq<char>>
    decreases s.len(),
{
    if s.len() == 0 {
        seq![]
    } else {
        let r = kept_in(s.drop_last(), other);
        if other.contains(s.last()) {
            r.push(s.last())
        } else {
            r
        }
    }
}

/// The n-grams that two texts share, in order of first appearance in the first.
pub open spec fn common_phrases(a: Seq<char>, b: Seq<char>, n: int) -> Seq<Seq<char>> {
    kept_in(ngrams(a, n), ngrams(b, n))
}

proof fn lemma_kept_in(s: Seq<Seq<char>>, other: Seq<Seq<char>>)
    ensures
        forall|x: Seq<char>| #[trigger] kept_in(s, other).contains(x) <==> s.contains(x) && other.contains(x),
    decreases s.len(),
{
    if s.len() > 0 {
        let d = s.drop_last();
        lemma_kept_in(d, other);
        let r = kept_in(d, other);
        let k = kept_in(s, other);
        assert(s =~= d.push(s.last()));
        assert forall|x: Seq<char>| #[trigger] k.contains(x) <==> s.contains(x) && other.contains(x) by {
            if k.contains(x) {
                let i = choose|i: int| 0 <= i < k.len() && k[i] == x;
                if i < r.len() {
                    assert(k[i] == r[i]);
                    assert(r.contains(x));
                    let j = choose|j: int| 0 <= j < d.len() && d[j] == x;
                    assert(s[j] == d[j]);
                } else {
                    assert(s[s.len() - 1] == x);
                }
            }
            if s.contains(x) && other.contains(x) {
                let j = choose|j: int| 0 <= j < s.len() && s[j] == x;
                if j < d.len() {
                    assert(d[j] == x);
                    assert(d.contains(x));
                    assert(r.contains(x));
                    let i = choose|i: int| 0 <= i < r.len() && r[i] == x;
                    assert(k[i] == r[i]);
                } else {
                    assert(k[k.len() - 1] == x);
                }
            }
        }
    }
}

/// The common phrases of two texts are exactly the n-grams that both have,
/// each of them once.
pub proof fn lemma_common_phrases_shared(a: Seq<char>, b: Seq<char>, n: int)
    ensures
        forall|p: Seq<char>|
            #[trigger] common_phrases(a, b, n).contains(p) <==> ngrams(a, n).contains(p) && ngrams(
                b,
                n,
            ).contains(p),
        common_phrases(a, b, n).no_duplicates(),
{
    lemma_kept_in(ngrams(a, n), ngrams(b, n));
    crate::text::lemma_distinct_in_order(ngram_list(a, n));
    lemma_kept_in_distinct(ngrams(a, n), ngrams(b, n));
}

proof fn lemma_kept_in_distinct(s: Seq<Seq<char>>, other: Seq<Seq<char>>)
    requires
        s.no_duplicates(),
    ensures
        kept_in(s, other).no_duplicates(),
    decreases s.len(),
{
    if s.len() > 0 {
        let d = s.drop_last();
        assert(d.no_duplicates()) by {
            assert forall|i: int, j: int| 0 <= i < d.len() && 0 <= j < d.len() && i != j implies d[i]
                != d[j] by {
                assert(d[i] == s[i] && d[j] == s[j]);
            }
        }
        lemma_kept_in_distinct(d, other);
        lemma_kept_in(d, other);
        let r = kept_in(d, other);
        if other.contains(s.last()) {
            assert(!r.contains(s.last())) by {
                if r.contains(s.last()) {
                    assert(d.contains(s.last()));
                    let i = choose|i: int| 0 <= i < d.len() && d[i] == s.last();
                    assert(s[i] == s[s.len() - 1]);
                }
            }
            let t = r.push(s.last());
            assert forall|i: int, j: int| 0 <= i < t.len() && 0 <= j < t.len() && i != j implies t[i]
                != t[j] by {
                if i < r.len() && j < r.len() {
                    assert(t[i] == r[i] && t[j] == r[j]);
                } else if i < r.len() {
                    assert(t[i] == r[i]);
                } else {
                    assert(t[j] == r[j]);
                }
            }
        }
    }
}

/// A phrase is an n-gram of a text exactly when it is `n` consecutive words
/// of the text, lower-cased and joined with single spaces; every such run of
/// words counts, the last one included.
pub proof fn lemma_ngrams_windows(text: Seq<char>, n: int)
    requires
        n >= 1,
    ensures
        forall|p: Seq<char>|
            #[trigger] ngrams(text, n).contains(p) <==> exists|i: int|
                0 <= i && i + n <= words(text).len() && p == joined(
                    (#[trigger] words(text).skip(i)).take(n).map_values(|w: Seq<char>| lowercase(w)),
                    seq![' '],
                ),
{
    let ws = words(text);
    let l = ngram_list(text, n);
    crate::text::lemma_distinct_in_order(l);
    assert forall|p: Seq<char>| #[trigger] ngrams(text, n).contains(p) <==> exists|i: int|
        0 <= i && i + n <= ws.len() && p == joined(
            (#[trigger] ws.skip(i)).take(n).map_values(|w: Seq<char>| lowercase(w)),
            seq![' '],
        ) by {
        if l.contains(p) {
            let i = choose|i: int| 0 <= i < l.len() && l[i] == p;
            assert(l[i] == ngram_at(ws, i, n));
            assert(ws.subrange(i, i + n) =~= ws.skip(i).take(n));
            assert(p == joined(ws.skip(i).take(n).map_values(|w: Seq<char>| lowercase(w)), seq![' ']));
        }
        if exists|i: int|
            0 <= i && i + n <= ws.len() && p == joined(
                (#[trigger] ws.skip(i)).take(n).map_values(|w: Seq<char>| lowercase(w)),
                seq![' '],
            ) {
            let i = choose|i: int|
                0 <= i && i + n <= ws.len() && p == joined(
                    (#[trigger] ws.skip(i)).take(n).map_values(|w: Seq<char>| lowercase(w)),
                    seq![' '],
                );
            assert(ws.subrange(i, i + n) =~= ws.skip(i).take(n));
            assert(l[i] == p);
        }
    }
}

/// The n-grams of a text are each listed once.
pub proof fn lemma_ngrams_distinct(text: Seq<char>, n: int)
    ensures
        ngrams(text, n).no_duplicates(),
{
    crate::text::lemma_distinct_in_order(ngram_list(text, n));
}

/// Find the N-gram phrases that two texts have in common.
pub fn find_common_phrases(text_a: &str, text_b: &str, n: usize) -> (r: Vec<String>)
    requires
        n >= 1,
    ensures
        string_views(r@) == common_phrases(text_a@, text_b@, n as int),
{
    let ca = chars_of(text_a);
    let cb = chars_of(text_b);
    let ga = ngrams_chars(&ca, n);
    let gb = ngrams_chars(&cb, n);
    let ghost av = views(ga@);
    let mut out: Vec<Vec<char>> = Vec::new();
    let mut k: usize = 0;
    assert(av.take(0) =~= Seq::<Seq<char>>::empty());
    assert(views(out@) =~= Seq::<Seq<char>>::empty());
    while k < ga.len()
        invariant
            av == views(ga@),
            k <= ga@.len(),
            views(out@) == kept_in(av.take(k as int), views(gb@)),
        decreases ga@.len() - k,
    {
        proof {
            assert(av[k as int] == ga@[k as int]@);
            assert(av.take(k + 1).drop_last() =~= av.take(k as int));
            assert(av.take(k + 1).last() == av[k as int]);
        }
        if holds_chars(&gb, &ga[k]) {
            let w = copy_range(&ga[k], 0, ga[k].len());
            let ghost before = views(out@);
            out.push(w);
            proof {
                assert(ga@[k as int]@.subrange(0, ga@[k as int]@.len() as int) =~= ga@[k as int]@);
                assert(views(out@) =~= before.push(av[k as int]));
            }
        }
        k = k + 1;
    }
    assert(av.take(ga@.len() as int) =~= av);
    to_strings(&out)
}

/// Phrase `p` occurs in `t` at character position `k`.
pub open spec fn occurs_at(t: Seq<char>, p: Seq<char>, k: int) -> bool {
    0 <= k && k + p.len() <= t.len() && t.subrange(k, k + p.len()) == p
}

/// The byte ranges of the phrases of `ps` that occur at position `k` of `t`,
/// in phrase order.
pub open spec fn ranges_at(t: Seq<char>, ps: Seq<Seq<char>>, k: int) -> Seq<(nat, nat)>
    decreases ps.len(),
{
    if ps.len() == 0 {
        seq![]
    } else {
        let r = ranges_at(t, ps.drop_last(), k);
        if occurs_at(t, ps.last(), k) {
            r.push((byte_len(t.take(k)), byte_len(t.take(k + ps.last().len()))))
        } else {
            r
        }
    }
}

/// The byte ranges of every occurrence of the phrases at positions below
/// `k`, by position, then in phrase order.
pub open spec fn occurrences(t: Seq<char>, ps: Seq<Seq<char>>, k: int) -> Seq<(nat, nat)>
    decreases k,
{
    if k <= 0 {
        seq![]
    } else {
        occurrences(t, ps, k - 1) + ranges_at(t, ps, k - 1)
    }
}

/// Ranges sorted by start, merged from left to right: a range that starts
/// at or before the end of the last merged range extends it.
pub open spec fn merge_ranges(s: Seq<(nat, nat)>) -> Seq<(nat, nat)>
    decreases s.len(),
{
    if s.len() == 0 {
        seq![]
    } else {
        let m = merge_ranges(s.drop_last());
        let x = s.last();
        if m.len() > 0 && x.0 <= m.last().1 {
            m.drop_last().push((m.last().0, max_nat(m.last().1, x.1)))
        } else {
            m.push(x)
        }
    }
}

/// The ranges are non-empty, and each ends before the next one starts.
pub open spec fn separated(s: Seq<(nat, nat)>) -> bool {
    &&& forall|i: int| 0 <= i < s.len() ==> #[trigger] s[i].0 < s[i].1
    &&& forall|i: int, j: int| 0 <= i < j < s.len() ==> #[trigger] s[i].1 < #[trigger] s[j].0
}

/// Merging non-empty ranges gives separated ranges.
pub proof fn lemma_merge_separated(s: Seq<(nat, nat)>)
    requires
        forall|i: int| 0 <= i < s.len() ==> #[trigger] s[i].0 < s[i].1,
    ensures
        separated(merge_ranges(s)),
    decreases s.len(),
{
    if s.len() > 0 {
        let d = s.drop_last();
        assert forall|i: int| 0 <= i < d.len() implies #[trigger] d[i].0 < d[i].1 by {
            assert(d[i] == s[i]);
        }
        lemma_merge_separated(d);
        let m = merge_ranges(d);
        let x = s.last();
        assert(x == s[s.len() - 1]);
        if m.len() > 0 && x.0 <= m.last().1 {
            let r = m.drop_last().push((m.last().0, max_nat(m.last().1, x.1)));
            assert(m.last() == m[m.len() - 1]);
            assert forall|i: int| 0 <= i < r.len() implies #[trigger] r[i].0 < r[i].1 by {
                if i < r.len() - 1 {
                    assert(r[i] == m[i]);
                }
            }
            assert forall|i: int, j: int| 0 <= i < j < r.len() implies #[trigger] r[i].1 < #[trigger] r[j].0 by {
                assert(r[i] == m[i]);
                if j < r.len() - 1 {
                    assert(r[j] == m[j]);
                }
            }
        } else {
            let r = m.push(x);
            assert forall|i: int| 0 <= i < r.len() implies #[trigger] r[i].0 < r[i].1 by {
                if i < m.len() {
                    assert(r[i] == m[i]);
                }
            }
            assert forall|i: int, j: int| 0 <= i < j < r.len() implies #[trigger] r[i].1 < #[trigger] r[j].0 by {
                assert(r[i] == m[i]);
                if j < m.len() {
                    assert(r[j] == m[j]);
                } else {
                    if i < m.len() - 1 {
                        assert(m[i].1 < m[m.len() - 1].0);
                    }
                    assert(m.last() == m[m.len() - 1]);
                }
            }
        }
    }
}

proof fn lemma_ranges_at_nonempty(t: Seq<char>, ps: Seq<Seq<char>>, k: int)
    requires
        forall|i: int| 0 <= i < ps.len() ==> (#[trigger] ps[i]).len() > 0,
    ensures
        forall|i: int|
            0 <= i < ranges_at(t, ps, k).len() ==> #[trigger] ranges_at(t, ps, k)[i].0 < ranges_at(
                t,
                ps,
                k,
            )[i].1,
    decreases ps.len(),
{
    if ps.len() > 0 {
        let d = ps.drop_last();
        assert forall|i: int| 0 <= i < d.len() implies (#[trigger] d[i]).len() > 0 by {
            assert(d[i] == ps[i]);
        }
        lemma_ranges_at_nonempty(t, d, k);
        let p = ps.last();
        assert(p == ps[ps.len() - 1]);
        let r = ranges_at(t, d, k);
        if occurs_at(t, p, k) {
            crate::text::lemma_byte_len_take_mono(t, k, k + p.len());
            let q = r.push((byte_len(t.take(k)), byte_len(t.take(k + p.len()))));
            assert forall|i: int| 0 <= i < q.len() implies #[trigger] q[i].0 < q[i].1 by {
                if i < r.len() {
                    assert(q[i] == r[i]);
                }
            }
        }
    }
}

proof fn lemma_occurrences_nonempty(t: Seq<char>, ps: Seq<Seq<char>>, k: int)
    requires
        forall|i: int| 0 <= i < ps.len() ==> (#[trigger] ps[i]).len() > 0,
    ensures
        forall|i: int|
            0 <= i < occurrences(t, ps, k).len() ==> #[trigger] occurrences(t, ps, k)[i].0
                < occurrences(t, ps, k)[i].1,
    decreases k,
{
    if k > 0 {
        lemma_occurrences_nonempty(t, ps, k - 1);
        lemma_ranges_at_nonempty(t, ps, k - 1);
        let a = occurrences(t, ps, k - 1);
        let b = ranges_at(t, ps, k - 1);
        assert forall|i: int| 0 <= i < (a + b).len() implies #[trigger] (a + b)[i].0 < (a + b)[i].1 by {
            if i < a.len() {
                assert((a + b)[i] == a[i]);
            } else {
                assert((a + b)[i] == b[i - a.len()]);
            }
        }
    }
}

/// The highlighted ranges of non-empty phrases are non-empty and apart:
/// each ends before the next one starts.
pub proof fn lemma_highlight_ranges_separated(text: Seq<char>, ps: Seq<Seq<char>>)
    requires
        forall|i: int| 0 <= i < ps.len() ==> (#[trigger] ps[i]).len() > 0,
    ensures
        separated(highlight_ranges(text, ps)),
{
    let t = lowercase(text);
    lemma_occurrences_nonempty(t, ps, t.len() as int);
    lemma_merge_separated(occurrences(t, ps, t.len() as int));
}

/// Range `x` lies within range `r`.
pub open spec fn within(x: (nat, nat), r: (nat, nat)) -> bool {
    r.0 <= x.0 && x.1 <= r.1
}

/// Some range of `m` holds `x`.
pub open spec fn held(m: Seq<(nat, nat)>, x: (nat, nat)) -> bool {
    exists|k: int| 0 <= k < m.len() && within(x, #[trigger] m[k])
}

/// Merging ranges sorted by start keeps each of them within a merged range,
/// and each merged range starts no later than the ranges merged into it.
proof fn lemma_merge_covers(s: Seq<(nat, nat)>)
    requires
        forall|i: int, j: int| 0 <= i < j < s.len() ==> (#[trigger] s[i]).0 <= (#[trigger] s[j]).0,
    ensures
        forall|i: int| 0 <= i < s.len() ==> held(merge_ranges(s), #[trigger] s[i]),
        merge_ranges(s).len() > 0 ==> s.len() > 0 && merge_ranges(s).last().0 <= s.last().0,
        s.len() > 0 ==> merge_ranges(s).len() > 0,
    decreases s.len(),
{
    if s.len() > 0 {
        let d = s.drop_last();
        assert forall|i: int, j: int| 0 <= i < j < d.len() implies (#[trigger] d[i]).0 <= (
        #[trigger] d[j]).0 by {
            assert(d[i] == s[i] && d[j] == s[j]);
        }
        lemma_merge_covers(d);
        let m = merge_ranges(d);
        let x = s.last();
        assert(x == s[s.len() - 1]);
        let r = merge_ranges(s);
        if m.len() > 0 && x.0 <= m.last().1 {
            assert(d.last() == s[s.len() - 2]);
            assert(m.last().0 <= x.0);
            let nl = (m.last().0, max_nat(m.last().1, x.1));
            assert(r == m.drop_last().push(nl));
            assert forall|i: int| 0 <= i < s.len() implies held(r, #[trigger] s[i]) by {
                if i < d.len() {
                    assert(s[i] == d[i]);
                    assert(held(m, d[i]));
                    let k = choose|k: int| 0 <= k < m.len() && within(d[i], #[trigger] m[k]);
                    if k < m.len() - 1 {
                        assert(r[k] == m[k]);
                    } else {
                        assert(m[k] == m.last());
                        assert(within(s[i], r[r.len() - 1]));
                    }
                } else {
                    assert(within(s[i], r[r.len() - 1]));
                }
            }
        } else {
            assert(r == m.push(x));
            assert forall|i: int| 0 <= i < s.len() implies held(r, #[trigger] s[i]) by {
                if i < d.len() {
                    assert(s[i] == d[i]);
                    assert(held(m, d[i]));
                    let k = choose|k: int| 0 <= k < m.len() && within(d[i], #[trigger] m[k]);
                    assert(r[k] == m[k]);
                } else {
                    assert(within(s[i], r[r.len() - 1]));
                }
            }
        }
    }
}

proof fn lemma_ranges_at_start(t: Seq<char>, ps: Seq<Seq<char>>, k: int)
    ensures
        forall|i: int|
            0 <= i < ranges_at(t, ps, k).len() ==> (#[trigger] ranges_at(t, ps, k)[i]).0 == byte_len(
                t.take(k),
            ),
    decreases ps.len(),
{
    if ps.len() > 0 {
        lemma_ranges_at_start(t, ps.drop_last(), k);
        let r = ranges_at(t, ps.drop_last(), k);
        let w = ranges_at(t, ps, k);
        assert forall|i: int| 0 <= i < w.len() implies (#[trigger] w[i]).0 == byte_len(t.take(k)) by {
            if i < r.len() {
                assert(w[i] == r[i]);
            }
        }
    }
}

/// The occurrences before position `k` come by start, each starting before
/// byte offset of `k`.
proof fn lemma_occurrences_sorted(t: Seq<char>, ps: Seq<Seq<char>>, k: int)
    requires
        k <= t.len(),
    ensures
        forall|i: int, j: int|
            0 <= i < j < occurrences(t, ps, k).len() ==> (#[trigger] occurrences(t, ps, k)[i]).0 <= (
            #[trigger] occurrences(t, ps, k)[j]).0,
        forall|i: int|
            0 <= i < occurrences(t, ps, k).len() ==> (#[trigger] occurrences(t, ps, k)[i]).0
                < byte_len(t.take(k)),
    decreases k,
{
    if k > 0 {
        lemma_occurrences_sorted(t, ps, k - 1);
        lemma_ranges_at_start(t, ps, k - 1);
        crate::text::lemma_byte_len_take_mono(t, k - 1, k);
        let a = occurrences(t, ps, k - 1);
        let b = ranges_at(t, ps, k - 1);
        let o = a + b;
        assert(o == occurrences(t, ps, k));
        assert forall|i: int, j: int| 0 <= i < j < o.len() implies (#[trigger] o[i]).0 <= (
        #[trigger] o[j]).0 by {
            if j < a.len() {
                assert(o[i] == a[i] && o[j] == a[j]);
            } else if i < a.len() {
                assert(o[i] == a[i] && o[j] == b[j - a.len()]);
            } else {
                assert(o[i] == b[i - a.len()] && o[j] == b[j - a.len()]);
            }
        }
        assert forall|i: int| 0 <= i < o.len() implies (#[trigger] o[i]).0 < byte_len(t.take(k)) by {
            if i < a.len() {
                assert(o[i] == a[i]);
            } else {
                assert(o[i] == b[i - a.len()]);
            }
        }
    }
}

proof fn lemma_ranges_at_has(t: Seq<char>, ps: Seq<Seq<char>>, k: int, i: int)
    requires
        0 <= i < ps.len(),
        occurs_at(t, ps[i], k),
    ensures
        ranges_at(t, ps, k).contains((byte_len(t.take(k)), byte_len(t.take(k + ps[i].len())))),
    decreases ps.len(),
{
    let x = (byte_len(t.take(k)), byte_len(t.take(k + ps[i].len())));
    let r = ranges_at(t, ps.drop_last(), k);
    if i < ps.len() - 1 {
        assert(ps.drop_last()[i] == ps[i]);
        lemma_ranges_at_has(t, ps.drop_last(), k, i);
        let j = choose|j: int| 0 <= j < r.len() && r[j] == x;
        let w = ranges_at(t, ps, k);
        assert(w[j] == r[j]);
    } else {
        assert(ps.last() == ps[i]);
        let w = ranges_at(t, ps, k);
        assert(w[w.len() - 1] == x);
    }
}

proof fn lemma_occurrences_has(t: Seq<char>, ps: Seq<Seq<char>>, kmax: int, k: int, i: int)
    requires
        0 <= k < kmax,
        0 <= i < ps.len(),
        occurs_at(t, ps[i], k),
    ensures
        occurrences(t, ps, kmax).contains((byte_len(t.take(k)), byte_len(t.take(k + ps[i].len())))),
    decreases kmax,
{
    let x = (byte_len(t.take(k)), byte_len(t.take(k + ps[i].len())));
    let a = occurrences(t, ps, kmax - 1);
    let b = ranges_at(t, ps, kmax - 1);
    assert(occurrences(t, ps, kmax) == a + b);
    if k < kmax - 1 {
        lemma_occurrences_has(t, ps, kmax - 1, k, i);
        let j = choose|j: int| 0 <= j < a.len() && a[j] == x;
        assert((a + b)[j] == a[j]);
    } else {
        lemma_ranges_at_has(t, ps, k, i);
        let j = choose|j: int| 0 <= j < b.len() && b[j] == x;
        assert((a + b)[j + a.len()] == b[j]);
    }
}

/// Every occurrence of a phrase in the lower-cased text lies within a
/// highlighted range: the byte range of the `p.len()` characters from
/// position `k`.
pub proof fn lemma_highlight_ranges_cover(text: Seq<char>, ps: Seq<Seq<char>>, i: int, k: int)
    requires
        0 <= i < ps.len(),
        ps[i].len() > 0,
        occurs_at(lowercase(text), ps[i], k),
    ensures
        held(
            highlight_ranges(text, ps),
            (
                byte_len(lowercase(text).take(k)),
                byte_len(lowercase(text).take(k + ps[i].len())),
            ),
        ),
{
    let t = lowercase(text);
    let occ = occurrences(t, ps, t.len() as int);
    lemma_occurrences_has(t, ps, t.len() as int, k, i);
    lemma_occurrences_sorted(t, ps, t.len() as int);
    lemma_merge_covers(occ);
    let x = (byte_len(t.take(k)), byte_len(t.take(k + ps[i].len())));
    let j = choose|j: int| 0 <= j < occ.len() && occ[j] == x;
    assert(held(merge_ranges(occ), occ[j]));
}

/// Some range of `s` holds byte offset `q`.
pub open spec fn covers_point(s: Seq<(nat, nat)>, q: nat) -> bool {
    exists|i: int| 0 <= i < s.len() && (#[trigger] s[i]).0 <= q < s[i].1
}

/// Every byte of a merged range lies in one of the ranges merged.
proof fn lemma_merge_exact(s: Seq<(nat, nat)>)
    ensures
        forall|k: int, q: nat|
            #![trigger merge_ranges(s)[k], covers_point(s, q)]
            0 <= k < merge_ranges(s).len() && merge_ranges(s)[k].0 <= q < merge_ranges(s)[k].1
                ==> covers_point(s, q),
    decreases s.len(),
{
    if s.len() > 0 {
        let d = s.drop_last();
        lemma_merge_exact(d);
        let m = merge_ranges(d);
        let x = s.last();
        assert(x == s[s.len() - 1]);
        let r = merge_ranges(s);
        assert forall|q: nat| covers_point(d, q) implies covers_point(s, q) by {
            let i = choose|i: int| 0 <= i < d.len() && (#[trigger] d[i]).0 <= q < d[i].1;
            assert(s[i] == d[i]);
        }
        assert forall|k: int, q: nat|
            #![trigger r[k], covers_point(s, q)]
            0 <= k < r.len() && r[k].0 <= q < r[k].1 implies covers_point(s, q) by {
            if m.len() > 0 && x.0 <= m.last().1 {
                if k < r.len() - 1 {
                    assert(r[k] == m[k]);
                    assert(covers_point(d, q));
                } else {
                    assert(m.last() == m[m.len() - 1]);
                    if q < m.last().1 {
                        assert(covers_point(d, q));
                    } else {
                        assert(s[s.len() - 1].0 <= q < s[s.len() - 1].1);
                    }
                }
            } else {
                if k < m.len() {
                    assert(r[k] == m[k]);
                    assert(covers_point(d, q));
                } else {
                    assert(s[s.len() - 1].0 <= q < s[s.len() - 1].1);
                }
            }
        }
    }
}

/// `x` is the byte range of an occurrence of one of the phrases in `t`.
pub open spec fn is_occurrence(t: Seq<char>, ps: Seq<Seq<char>>, x: (nat, nat)) -> bool {
    exists|i: int, k: int|
        0 <= i < ps.len() && occurs_at(t, #[trigger] ps[i], k) && x == (
            byte_len(t.take(k)),
            byte_len(#[trigger] t.take(k + ps[i].len())),
        )
}

proof fn lemma_ranges_at_occurrences(t: Seq<char>, ps: Seq<Seq<char>>, k: int)
    ensures
        forall|j: int|
            0 <= j < ranges_at(t, ps, k).len() ==> is_occurrence(t, ps, #[trigger] ranges_at(t, ps, k)[j]),
    decreases ps.len(),
{
    if ps.len() > 0 {
        let d = ps.drop_last();
        lemma_ranges_at_occurrences(t, d, k);
        let r = ranges_at(t, d, k);
        let w = ranges_at(t, ps, k);
        assert forall|j: int| 0 <= j < w.len() implies is_occurrence(t, ps, #[trigger] w[j]) by {
            if j < r.len() {
                assert(w[j] == r[j]);
                assert(is_occurrence(t, d, r[j]));
                let (i, kk) = choose|i: int, kk: int|
                    0 <= i < d.len() && occurs_at(t, #[trigger] d[i], kk) && r[j] == (
                        byte_len(t.take(kk)),
                        byte_len(#[trigger] t.take(kk + d[i].len())),
                    );
                assert(ps[i] == d[i]);
            } else {
                let i = ps.len() - 1;
                assert(ps[i] == ps.last());
                assert(w[j] == (byte_len(t.take(k)), byte_len(t.take(k + ps[i].len()))));
            }
        }
    }
}

proof fn lemma_occurrences_are_occurrences(t: Seq<char>, ps: Seq<Seq<char>>, kmax: int)
    ensures
        forall|j: int|
            0 <= j < occurrences(t, ps, kmax).len() ==> is_occurrence(
                t,
                ps,
                #[trigger] occurrences(t, ps, kmax)[j],
            ),
    decreases kmax,
{
    if kmax > 0 {
        lemma_occurrences_are_occurrences(t, ps, kmax - 1);
        lemma_ranges_at_occurrences(t, ps, kmax - 1);
        let a = occurrences(t, ps, kmax - 1);
        let b = ranges_at(t, ps, kmax - 1);
        assert forall|j: int| 0 <= j < (a + b).len() implies is_occurrence(t, ps, #[trigger] (a + b)[j]) by {
            if j < a.len() {
                assert((a + b)[j] == a[j]);
            } else {
                assert((a + b)[j] == b[j - a.len()]);
            }
        }
    }
}

/// Byte offset `q` of `t` lies in an occurrence of one of the phrases.
pub open spec fn in_occurrence(t: Seq<char>, ps: Seq<Seq<char>>, q: nat) -> bool {
    exists|x: (nat, nat)| is_occurrence(t, ps, x) && x.0 <= q < x.1
}

/// Every byte of a highlighted range lies in an occurrence of one of the
/// phrases in the lower-cased text: nothing else is highlighted.
pub proof fn lemma_highlight_ranges_exact(text: Seq<char>, ps: Seq<Seq<char>>)
    ensures
        forall|k: int, q: nat|
            #![trigger highlight_ranges(text, ps)[k], in_occurrence(lowercase(text), ps, q)]
            0 <= k < highlight_ranges(text, ps).len() && highlight_ranges(text, ps)[k].0 <= q
                < highlight_ranges(text, ps)[k].1 ==> in_occurrence(lowercase(text), ps, q),
{
    let t = lowercase(text);
    let occ = occurrences(t, ps, t.len() as int);
    lemma_merge_exact(occ);
    lemma_occurrences_are_occurrences(t, ps, t.len() as int);
    let h = highlight_ranges(text, ps);
    assert forall|k: int, q: nat|
        #![trigger h[k], in_occurrence(t, ps, q)]
        0 <= k < h.len() && h[k].0 <= q < h[k].1 implies in_occurrence(t, ps, q) by {
        assert(covers_point(occ, q));
        let i = choose|i: int| 0 <= i < occ.len() && (#[trigger] occ[i]).0 <= q < occ[i].1;
        assert(is_occurrence(t, ps, occ[i]));
    }
}

/// The merged byte ranges, in the lower-cased text, of all occurrences of
/// the phrases.
pub open spec fn highlight_ranges(text: Seq<char>, ps: Seq<Seq<char>>) -> Seq<(nat, nat)> {
    let t = lowercase(text);
    merge_ranges(occurrences(t, ps, t.len() as int))
}

/// The phrases can be searched in the lower-cased text `t`: each is
/// non-empty, and each that occurs starts with a one-byte character.
pub open spec fn searchable(t: Seq<char>, ps: Seq<Seq<char>>) -> bool {
    forall|i: int|
        0 <= i < ps.len() ==> (#[trigger] ps[i]).len() > 0 && (forall|k: int|
            occurs_at(t, ps[i], k) ==> (ps[i][0] as u32) < 0x80)
}

pub open spec fn range_views(v: Seq<(usize, usize)>) -> Seq<(nat, nat)> {
    v.map_values(|r: (usize, usize)| (r.0 as nat, r.1 as nat))
}

fn occurs_at_exec(t: &[char], p: &[char], k: usize) -> (b: bool)
    ensures
        b == occurs_at(t@, p@, k as int),
{
    if k > t.len() || p.len() > t.len() - k {
        return false;
    }
    let mut j: usize = 0;
    while j < p.len()
        invariant
            k + p@.len() <= t@.len(),
            t@.len() == t.len(),
            j <= p@.len(),
            forall|q: int| 0 <= q < j ==> t@[k + q] == p@[q],
        decreases p@.len() - j,
    {
        if t[k + j] != p[j] {
            assert(t@.subrange(k as int, k + p@.len())[j as int] != p@[j as int]);
            return false;
        }
        j = j + 1;
    }
    assert(t@.subrange(k as int, k + p@.len()) =~= p@);
    true
}

/// Merges a range, sorted after the ones merged so far, into them.
fn merge_push(m: &mut Vec<(usize, usize)>, x: (usize, usize))
    ensures
        range_views(final(m)@) == ({
            let mv = range_views(old(m)@);
            let xv = (x.0 as nat, x.1 as nat);
            if mv.len() > 0 && xv.0 <= mv.last().1 {
                mv.drop_last().push((mv.last().0, max_nat(mv.last().1, xv.1)))
            } else {
                mv.push(xv)
            }
        }),
{
    let n = m.len();
    if n > 0 && x.0 <= m[n - 1].1 {
        let last = m[n - 1];
        let end = if last.1 >= x.1 {
            last.1
        } else {
            x.1
        };
        m.set(n - 1, (last.0, end));
        assert(range_views(m@) =~= range_views(old(m)@).drop_last().push((last.0 as nat, end as nat)));
    } else {
        m.push(x);
        assert(range_views(m@) =~= range_views(old(m)@).push((x.0 as nat, x.1 as nat)));
    }
}

/// Find byte ranges in the lower-cased text that match any common phrase,
/// merged to avoid overlaps.
pub fn get_highlight_ranges(text: &str, common_phrases: &Vec<String>) -> (r: Vec<(usize, usize)>)
    requires
        searchable(lowercase(text@), string_views(common_phrases@)),
    ensures
        range_views(r@) == highlight_ranges(text@, string_views(common_phrases@)),
{
    let cs = chars_of(text);
    let t = to_lowercase_chars(&cs);
    let offs = byte_offsets(&t);
    let ghost ps = string_views(common_phrases@);
    let mut phrases: Vec<Vec<char>> = Vec::new();
    let mut q: usize = 0;
    while q < common_phrases.len()
        invariant
            ps == string_views(common_phrases@),
            q <= common_phrases@.len(),
            views(phrases@) == ps.take(q as int),
        decreases common_phrases@.len() - q,
    {
        let p = chars_of(common_phrases[q].as_str());
        let ghost before = views(phrases@);
        phrases.push(p);
        proof {
            assert(ps[q as int] == common_phrases@[q as int]@);
            assert(views(phrases@) =~= before.push(p@));
            assert(views(phrases@) =~= ps.take(q + 1));
        }
        q = q + 1;
    }
    assert(ps.take(common_phrases@.len() as int) =~= ps);
    let mut merged: Vec<(usize, usize)> = Vec::new();
    let ghost tv = t@;
    let tn: usize = t.len();
    let mut k: usize = 0;
    assert(range_views(merged@) =~= merge_ranges(occurrences(tv, ps, 0)));
    while k < t.len()
        invariant
            tv == t@,
            views(phrases@) == ps,
            offs@.len() == tv.len() + 1,
            forall|j: int| 0 <= j <= tv.len() ==> offs@[j] == byte_len(#[trigger] tv.take(j)),
            k <= tv.len(),
            tv.len() == tn,
            range_views(merged@) == merge_ranges(occurrences(tv, ps, k as int)),
        decreases tv.len() - k,
    {
        let ghost base = occurrences(tv, ps, k as int);
        let mut i: usize = 0;
        assert(ps.take(0) =~= Seq::<Seq<char>>::empty());
        assert(base + ranges_at(tv, ps.take(0), k as int) =~= base);
        while i < phrases.len()
            invariant
                tv == t@,
                views(phrases@) == ps,
                offs@.len() == tv.len() + 1,
                forall|j: int| 0 <= j <= tv.len() ==> offs@[j] == byte_len(#[trigger] tv.take(j)),
                k < tv.len(),
                tv.len() == tn,
                i <= ps.len(),
                base == occurrences(tv, ps, k as int),
                range_views(merged@) == merge_ranges(base + ranges_at(tv, ps.take(i as int), k as int)),
            decreases ps.len() - i,
        {
            let ghost cur = base + ranges_at(tv, ps.take(i as int), k as int);
            proof {
                assert(ps[i as int] == phrases@[i as int]@);
                assert(ps.take(i + 1).drop_last() =~= ps.take(i as int));
                assert(ps.take(i + 1).last() == ps[i as int]);
            }
            if occurs_at_exec(&t, &phrases[i], k) {
                let plen = phrases[i].len();
                let x = (offs[k], offs[k + plen]);
                merge_push(&mut merged, x);
                proof {
                    let xv = (byte_len(tv.take(k as int)), byte_len(tv.take(k + plen)));
                    assert(base + ranges_at(tv, ps.take(i + 1), k as int) =~= cur.push(xv));
                    assert(cur.push(xv).drop_last() =~= cur);
                }
            } else {
                assert(base + ranges_at(tv, ps.take(i + 1), k as int) =~= cur);
            }
            i = i + 1;
        }
        assert(ps.take(phrases@.len() as int) =~= ps);
        k = k + 1;
    }
    merged
}


/// Whether the phrases can be searched in the lower-cased text `t`
/// (see `searchable`).
fn phrases_searchable(t: &Vec<char>, phrases: &Vec<Vec<char>>) -> (b: bool)
    ensures
        b == searchable(t@, views(phrases@)),
{
    let ghost ps = views(phrases@);
    let mut i: usize = 0;
    while i < phrases.len()
        invariant
            ps == views(phrases@),
            i <= ps.len(),
            forall|j: int|
                0 <= j < i ==> (#[trigger] ps[j]).len() > 0 && (forall|k: int|
                    occurs_at(t@, ps[j], k) ==> (ps[j][0] as u32) < 0x80),
        decreases ps.len() - i,
    {
        let p = &phrases[i];
        assert(ps[i as int] == p@);
        if p.len() == 0 {
            return false;
        }
        let mut k: usize = 0;
        while k < t.len()
            invariant
                ps == views(phrases@),
                i < ps.len(),
                ps[i as int] == p@,
                p@.len() > 0,
                k <= t@.len(),
                forall|q: int| 0 <= q < k ==> occurs_at(t@, p@, q) ==> (p@[0] as u32) < 0x80,
            decreases t@.len() - k,
        {
            if occurs_at_exec(t, p, k) && (p[0] as u32) >= 0x80 {
                assert(occurs_at(t@, ps[i as int], k as int));
                return false;
            }
            k = k + 1;
        }
        assert forall|q: int| occurs_at(t@, p@, q) implies (p@[0] as u32) < 0x80 by {
            assert(0 <= q < k);
        }
        i = i + 1;
    }
    true
}

/// `get_highlight_ranges` where the phrases can be searched, and `None`
/// where they cannot (an empty phrase, or one that occurs and starts with
/// a character of more than one byte).
pub fn checked_highlight_ranges(text: &str, common_phrases: &Vec<String>) -> (r: Option<
    Vec<(usize, usize)>,
>)
    ensures
        searchable(lowercase(text@), string_views(common_phrases@)) <==> r is Some,
        r matches Some(v) ==> range_views(v@) == highlight_ranges(
            text@,
            string_views(common_phrases@),
        ),
{
    let cs = chars_of(text);
    let t = to_lowercase_chars(&cs);
    let ghost ps = string_views(common_phrases@);
    let mut phrases: Vec<Vec<char>> = Vec::new();
    let mut q: usize = 0;
    while q < common_phrases.len()
        invariant
            ps == string_views(common_phrases@),
            q <= common_phrases@.len(),
            views(phrases@) == ps.take(q as int),
        decreases common_phrases@.len() - q,
    {
        let p = chars_of(common_phrases[q].as_str());
        let ghost before = views(phrases@);
        phrases.push(p);
        proof {
            assert(ps[q as int] == common_phrases@[q as int]@);
            assert(views(phrases@) =~= before.push(p@));
            assert(views(phrases@) =~= ps.take(q + 1));
        }
        q = q + 1;
    }
    assert(ps.take(common_phrases@.len() as int) =~= ps);
    if phrases_searchable(&t, &phrases) {
        Some(get_highlight_ranges(text, common_phrases))
    } else {
        None
    }
}


/// A pair of files and their cosine score, in tenths of a percent.
pub struct SimilarityPair {
    pub file_a: String,
    pub file_b: String,
    pub score_tenths: u64,
}

/// Side-by-side comparison of two files: their contents, the byte ranges
/// of their common phrases (in each lower-cased content), the number of
/// common phrases and the suspicious sentence pairs.
pub struct DetailResult {
    pub file_a: String,
    pub file_b: String,
    pub content_a: String,
    pub content_b: String,
    pub highlights_a: Vec<(usize, usize)>,
    pub highlights_b: Vec<(usize, usize)>,
    pub common_phrase_count: usize,
    pub suspicious_sentences: Vec<SuspiciousPair>,
}

/// The content of the first file named `name`, or the empty text.
pub open spec fn content_of(files: Seq<(Seq<char>, Seq<char>)>, name: Seq<char>) -> Seq<char>
    decreases files.len(),
{
    if files.len() == 0 {
        seq![]
    } else if files[0].0 == name {
        files[0].1
    } else {
        content_of(files.drop_first(), name)
    }
}

fn content_lookup(files: &Vec<(String, String)>, name: &str) -> (r: String)
    ensures
        r@ == content_of(file_views(files@), name@),
{
    let ghost fv = file_views(files@);
    let nc = chars_of(name);
    let mut i: usize = 0;
    assert(fv.skip(0) =~= fv);
    while i < files.len()
        invariant
            fv == file_views(files@),
            nc@ == name@,
            i <= files@.len(),
            content_of(fv, name@) == content_of(fv.skip(i as int), name@),
        decreases files@.len() - i,
    {
        let fc = chars_of(files[i].0.as_str());
        proof {
            assert(fv.skip(i as int)[0] == fv[i as int]);
            assert(fv.skip(i as int).drop_first() =~= fv.skip(i + 1));
        }
        if chars_eq(&fc, &nc) {
            return files[i].1.clone();
        }
        i = i + 1;
    }
    assert(fv.skip(i as int) =~= Seq::<(Seq<char>, Seq<char>)>::empty());
    String::new()
}

/// The comparison of two named files of `files`, a missing file counting
/// as empty: the common phrases of `n` words, their merged ranges in each
/// lower-cased content, and the sentence pairs whose similarity reaches
/// `threshold_num / threshold_den`. `None` where a common phrase occurs in a
/// lower-cased content and starts with a character of more than one byte.
pub fn get_detail(
    files: &Vec<(String, String)>,
    file_a: &str,
    file_b: &str,
    ngram_size: usize,
    threshold_num: u64,
    threshold_den: u64,
) -> (r: Option<DetailResult>)
    requires
        ngram_size >= 1,
    ensures
        ({
            let ca = content_of(file_views(files@), file_a@);
            let cb = content_of(file_views(files@), file_b@);
            let ps = common_phrases(ca, cb, ngram_size as int);
            &&& r is Some <==> searchable(lowercase(ca), ps) && searchable(lowercase(cb), ps)
            &&& r matches Some(d) ==> {
                &&& d.file_a@ == file_a@
                &&& d.file_b@ == file_b@
                &&& d.content_a@ == ca
                &&& d.content_b@ == cb
                &&& range_views(d.highlights_a@) == highlight_ranges(ca, ps)
                &&& range_views(d.highlights_b@) == highlight_ranges(cb, ps)
                &&& d.common_phrase_count == ps.len()
                &&& pair_views(d.suspicious_sentences@) == suspicious_pairs(
                    ca,
                    cb,
                    threshold_num as nat,
                    threshold_den as nat,
                )
            }
        }),
{
    let content_a = content_lookup(files, file_a);
    let content_b = content_lookup(files, file_b);
    let common = find_common_phrases(content_a.as_str(), content_b.as_str(), ngram_size);
    let highlights_a = match checked_highlight_ranges(content_a.as_str(), &common) {
        Some(h) => h,
        None => {
            return None;
        },
    };
    let highlights_b = match checked_highlight_ranges(content_b.as_str(), &common) {
        Some(h) => h,
        None => {
            return None;
        },
    };
    let suspicious_sentences = find_suspicious_sentences(
        content_a.as_str(),
        content_b.as_str(),
        threshold_num,
        threshold_den,
    );
    let fa: Vec<char> = chars_of(file_a);
    let fb: Vec<char> = chars_of(file_b);
    Some(
        DetailResult {
            file_a: string_of(&fa),
            file_b: string_of(&fb),
            content_a,
            content_b,
            highlights_a,
            highlights_b,
            common_phrase_count: common.len(),
            suspicious_sentences,
        },
    )
}


/// The view of an optional text.
pub open spec fn opt_view(o: Option<&str>) -> Option<Seq<char>> {
    match o {
        Some(t) => Some(t@),
        None => None,
    }
}

/// The files with the template's sentences removed from each content.
pub open spec fn strip_each(files: Seq<(Seq<char>, Seq<char>)>, template: Option<Seq<char>>) -> Seq<
    (Seq<char>, Seq<char>),
> {
    files.map_values(
        |f: (Seq<char>, Seq<char>)|
            (
                f.0,
                match template {
                    Some(t) => stripped(f.1, t),
                    None => f.1,
                },
            ),
    )
}

/// `s` with `x` put after every file whose name does not come after its own.
pub open spec fn insert_by_name(s: Seq<(Seq<char>, Seq<char>)>, x: (Seq<char>, Seq<char>)) -> Seq<
    (Seq<char>, Seq<char>),
>
    decreases s.len(),
{
    if s.len() == 0 || !lex_lt(x.0, s.last().0) {
        s.push(x)
    } else {
        insert_by_name(s.drop_last(), x).push(s.last())
    }
}

/// The files sorted by name; files of equal names keep their order.
pub open spec fn sort_by_name(s: Seq<(Seq<char>, Seq<char>)>) -> Seq<(Seq<char>, Seq<char>)>
    decreases s.len(),
{
    if s.len() == 0 {
        s
    } else {
        insert_by_name(sort_by_name(s.drop_last()), s.last())
    }
}

/// The files come by name: no file's name comes before that of an earlier one.
pub open spec fn names_sorted(s: Seq<(Seq<char>, Seq<char>)>) -> bool {
    forall|i: int, j: int| 0 <= i < j < s.len() ==> !lex_lt((#[trigger] s[j]).0, (#[trigger] s[i]).0)
}

/// Not coming before is transitive.
proof fn lemma_not_before_transitive(a: Seq<char>, b: Seq<char>, c: Seq<char>)
    requires
        !lex_lt(b, a),
        !lex_lt(c, b),
    ensures
        !lex_lt(c, a),
{
    lemma_lex_total(a, b);
    if lex_lt(c, a) && lex_lt(a, b) {
        lemma_lex_transitive(c, a, b);
    }
}

proof fn lemma_insert_by_name(s: Seq<(Seq<char>, Seq<char>)>, x: (Seq<char>, Seq<char>))
    requires
        names_sorted(s),
    ensures
        names_sorted(insert_by_name(s, x)),
        insert_by_name(s, x).to_multiset() == s.to_multiset().insert(x),
        forall|i: int|
            0 <= i < insert_by_name(s, x).len() ==> #[trigger] insert_by_name(s, x)[i] == x
                || s.contains(insert_by_name(s, x)[i]),
    decreases s.len(),
{
    broadcast use vstd::seq_lib::to_multiset_build;

    if s.len() == 0 || !lex_lt(x.0, s.last().0) {
        let r = s.push(x);
        assert forall|i: int, j: int| 0 <= i < j < r.len() implies !lex_lt(
            (#[trigger] r[j]).0,
            (#[trigger] r[i]).0,
        ) by {
            if j == r.len() - 1 {
                assert(r[i] == s[i]);
                if i < s.len() - 1 {
                    assert(s.last() == s[s.len() - 1]);
                    lemma_not_before_transitive(s[i].0, s.last().0, x.0);
                }
            } else {
                assert(r[i] == s[i] && r[j] == s[j]);
            }
        }
        assert forall|i: int| 0 <= i < r.len() implies #[trigger] r[i] == x || s.contains(r[i]) by {
            if i < s.len() {
                assert(r[i] == s[i]);
            }
        }
    } else {
        let d = s.drop_last();
        assert(names_sorted(d)) by {
            assert forall|i: int, j: int| 0 <= i < j < d.len() implies !lex_lt(
                (#[trigger] d[j]).0,
                (#[trigger] d[i]).0,
            ) by {
                assert(d[i] == s[i] && d[j] == s[j]);
            }
        }
        lemma_insert_by_name(d, x);
        let r = insert_by_name(d, x);
        let t = r.push(s.last());
        assert(s =~= d.push(s.last()));
        assert forall|i: int, j: int| 0 <= i < j < t.len() implies !lex_lt(
            (#[trigger] t[j]).0,
            (#[trigger] t[i]).0,
        ) by {
            if j == t.len() - 1 {
                assert(t[i] == r[i]);
                assert(t[j] == s.last());
                if r[i] == x {
                    crate::lexicon::lemma_lex_asymmetric(x.0, s.last().0);
                } else {
                    let k = choose|k: int| 0 <= k < d.len() && d[k] == r[i];
                    assert(s[k] == d[k]);
                    assert(s[s.len() - 1] == s.last());
                }
            } else {
                assert(t[i] == r[i] && t[j] == r[j]);
            }
        }
        assert forall|i: int| 0 <= i < t.len() implies #[trigger] t[i] == x || s.contains(t[i]) by {
            if i < r.len() {
                assert(t[i] == r[i]);
                if r[i] != x {
                    let k = choose|k: int| 0 <= k < d.len() && d[k] == r[i];
                    assert(s[k] == d[k]);
                }
            } else {
                assert(s[s.len() - 1] == s.last());
            }
        }
        assert(t.to_multiset() =~= s.to_multiset().insert(x));
    }
}

/// Sorting by name orders the files by name and keeps each of them.
pub proof fn lemma_sort_by_name(s: Seq<(Seq<char>, Seq<char>)>)
    ensures
        names_sorted(sort_by_name(s)),
        sort_by_name(s).to_multiset() == s.to_multiset(),
    decreases s.len(),
{
    broadcast use vstd::seq_lib::to_multiset_build;

    if s.len() > 0 {
        lemma_sort_by_name(s.drop_last());
        lemma_insert_by_name(sort_by_name(s.drop_last()), s.last());
        assert(s =~= s.drop_last().push(s.last()));
    }
}

/// The texts of a list of strings.
pub open spec fn texts(v: Seq<String>) -> Seq<Seq<char>> {
    v.map_values(|s: String| s@)
}

/// The files to compare: their names in order, their contents in the same
/// order, and the groups of exact duplicates.
pub struct Corpus {
    pub names: Vec<String>,
    pub contents: Vec<String>,
    pub duplicate_groups: Vec<Vec<String>>,
}

fn name_before(a: &String, b: &String) -> (r: bool)
    ensures
        r == lex_lt(a@, b@),
{
    let ca = chars_of(a.as_str());
    let cb = chars_of(b.as_str());
    lex_less(&ca, &cb)
}

fn insert_file(v: &mut Vec<(String, String)>, x: (String, String))
    ensures
        file_views(final(v)@) == insert_by_name(file_views(old(v)@), (x.0@, x.1@)),
{
    let ghost s = file_views(v@);
    let ghost xv = (x.0@, x.1@);
    let mut j: usize = v.len();
    assert(s.take(s.len() as int) =~= s);
    assert(s.skip(s.len() as int) =~= Seq::<(Seq<char>, Seq<char>)>::empty());
    assert(insert_by_name(s, xv) =~= insert_by_name(s.take(j as int), xv) + s.skip(j as int));
    while j > 0 && name_before(&x.0, &v[j - 1].0)
        invariant
            file_views(v@) == s,
            v@.len() == s.len(),
            xv == (x.0@, x.1@),
            j <= s.len(),
            insert_by_name(s, xv) == insert_by_name(s.take(j as int), xv) + s.skip(j as int),
        decreases j,
    {
        proof {
            let t = s.take(j as int);
            assert(t.drop_last() =~= s.take(j - 1));
            assert(t.last() == s[j - 1]);
            assert(s[j - 1] == (v@[j - 1].0@, v@[j - 1].1@));
            assert(insert_by_name(t, xv) == insert_by_name(s.take(j - 1), xv).push(s[j - 1]));
            assert(s.skip(j - 1) =~= seq![s[j - 1]] + s.skip(j as int));
            assert(insert_by_name(s.take(j - 1), xv).push(s[j - 1]) + s.skip(j as int)
                =~= insert_by_name(s.take(j - 1), xv) + s.skip(j - 1));
        }
        j = j - 1;
    }
    proof {
        let t = s.take(j as int);
        if j > 0 {
            assert(t.last() == s[j - 1]);
            assert(s[j - 1] == (v@[j - 1].0@, v@[j - 1].1@));
        }
        assert(insert_by_name(t, xv) == t.push(xv));
    }
    v.insert(j, x);
    assert(file_views(v@) =~= s.take(j as int).push(xv) + s.skip(j as int));
}

/// `c` holds the files ready to compare: the groups of exact duplicates
/// among the stripped files, and their names and contents sorted by name.
pub open spec fn corpus_of(files: Seq<(String, String)>, template: Option<&str>, c: Corpus) -> bool {
    let fs = strip_each(file_views(files), opt_view(template));
    &&& group_views(c.duplicate_groups@) == duplicate_groups(fs)
    &&& texts(c.names@) == sort_by_name(fs).map_values(|f: (Seq<char>, Seq<char>)| f.0)
    &&& texts(c.contents@) == sort_by_name(fs).map_values(|f: (Seq<char>, Seq<char>)| f.1)
}

/// The files of a scan, ready to compare: each content with the template's
/// sentences removed (where there is a template), the groups of exact
/// duplicates among them, and the names and contents sorted by name.
pub fn prepare_corpus(files: &Vec<(String, String)>, template: Option<&str>) -> (r: Corpus)
    ensures
        corpus_of(files@, template, r),
{
    let ghost fs = strip_each(file_views(files@), opt_view(template));
    let mut prepared: Vec<(String, String)> = Vec::new();
    let mut i: usize = 0;
    while i < files.len()
        invariant
            fs == strip_each(file_views(files@), opt_view(template)),
            i <= files@.len(),
            file_views(prepared@) == fs.take(i as int),
        decreases files@.len() - i,
    {
        let name = files[i].0.clone();
        let content = match template {
            Some(t) => strip_template(files[i].1.as_str(), t),
            None => files[i].1.clone(),
        };
        let ghost before = file_views(prepared@);
        prepared.push((name, content));
        assert(file_views(prepared@) =~= before.push(fs[i as int]));
        assert(fs.take(i + 1) =~= fs.take(i as int).push(fs[i as int]));
        i = i + 1;
    }
    assert(fs.take(files@.len() as int) =~= fs);
    let duplicate_groups = find_exact_duplicates(&prepared);
    let mut sorted: Vec<(String, String)> = Vec::new();
    let mut j: usize = 0;
    assert(fs.take(0) =~= Seq::<(Seq<char>, Seq<char>)>::empty());
    while j < prepared.len()
        invariant
            file_views(prepared@) == fs,
            j <= fs.len(),
            file_views(sorted@) == sort_by_name(fs.take(j as int)),
        decreases fs.len() - j,
    {
        proof {
            let t = fs.take(j + 1);
            assert(t.drop_last() =~= fs.take(j as int));
            assert(t.last() == fs[j as int]);
        }
        let x = (prepared[j].0.clone(), prepared[j].1.clone());
        insert_file(&mut sorted, x);
        j = j + 1;
    }
    let ghost sv = sort_by_name(fs);
    let mut names: Vec<String> = Vec::new();
    let mut contents: Vec<String> = Vec::new();
    let mut k: usize = 0;
    while k < sorted.len()
        invariant
            file_views(sorted@) == sv,
            k <= sv.len(),
            texts(names@) == sv.take(k as int).map_values(|f: (Seq<char>, Seq<char>)| f.0),
            texts(contents@) == sv.take(k as int).map_values(|f: (Seq<char>, Seq<char>)| f.1),
        decreases sv.len() - k,
    {
        let ghost bn = texts(names@);
        let ghost bc = texts(contents@);
        names.push(sorted[k].0.clone());
        contents.push(sorted[k].1.clone());
        proof {
            assert(sv[k as int] == (sorted@[k as int].0@, sorted@[k as int].1@));
            assert(sv.take(k + 1) =~= sv.take(k as int).push(sv[k as int]));
            assert(texts(names@) =~= bn.push(sv[k as int].0));
            assert(texts(contents@) =~= bc.push(sv[k as int].1));
        }
        k = k + 1;
    }
    assert(sv.take(sv.len() as int) =~= sv);
    Corpus { names, contents, duplicate_groups }
}

/// The message of a scan of fewer than two files.
pub fn too_few_files_message(n: usize) -> (r: String)
    ensures
        r@ == "Need at least 2 supported files to compare. Found "@ + decimal(n as nat) + "."@,
{
    let mut out: Vec<char> = Vec::new();
    push_text(&mut out, "Need at least 2 supported files to compare. Found ");
    push_decimal(&mut out, n as u64);
    push_text(&mut out, ".");
    string_of(&out)
}

/// The start of a scan: with fewer than two files, the message that says
/// so; otherwise the files ready to compare (see `prepare_corpus`).
pub fn start_scan(files: &Vec<(String, String)>, template: Option<&str>) -> (r: Result<
    Corpus,
    String,
>)
    ensures
        files@.len() < 2 <==> r is Err,
        r matches Err(m) ==> m@ == "Need at least 2 supported files to compare. Found "@ + decimal(
            files@.len() as nat,
        ) + "."@,
        r matches Ok(c) ==> corpus_of(files@, template, c),
{
    if files.len() < 2 {
        Err(too_few_files_message(files.len()))
    } else {
        Ok(prepare_corpus(files, template))
    }
}

/// The number of files in the groups.
pub open spec fn group_total(groups: Seq<Vec<String>>) -> nat
    decreases groups.len(),
{
    if groups.len() == 0 {
        0
    } else {
        group_total(groups.drop_last()) + groups.last()@.len()
    }
}

/// The message of a scan: the number of pairs found at the threshold (as
/// written, in percent) among the files and, where there are duplicates,
/// how many files are duplicates in how many groups.
pub open spec fn scan_message_text(
    pair_count: nat,
    threshold: Seq<char>,
    file_count: nat,
    groups: Seq<Vec<String>>,
) -> Seq<char> {
    "Found "@ + decimal(pair_count) + " pairs with cosine score ≥ "@ + threshold
        + " among "@ + decimal(file_count) + " files."@ + if groups.len() == 0 {
        seq![]
    } else {
        " ("@ + decimal(group_total(groups)) + " files are exact duplicates in "@ + decimal(
            groups.len() as nat,
        ) + " groups)"@
    }
}

/// The message of a scan (see `scan_message_text`).
#[verifier::spinoff_prover]
#[verifier::rlimit(50)]
pub fn scan_message(
    pair_count: usize,
    threshold: &str,
    file_count: usize,
    groups: &Vec<Vec<String>>,
) -> (r: String)
    requires
        group_total(groups@) <= u64::MAX,
    ensures
        r@ == scan_message_text(pair_count as nat, threshold@, file_count as nat, groups@),
{
    let mut out: Vec<char> = Vec::new();
    push_text(&mut out, "Found ");
    push_decimal(&mut out, pair_count as u64);
    push_text(&mut out, " pairs with cosine score ≥ ");
    push_text(&mut out, threshold);
    push_text(&mut out, " among ");
    push_decimal(&mut out, file_count as u64);
    push_text(&mut out, " files.");
    if groups.len() > 0 {
        let mut total: u64 = 0;
        let mut i: usize = 0;
        assert(groups@.take(0) =~= Seq::<Vec<String>>::empty());
        while i < groups.len()
            invariant
                i <= groups@.len(),
                total == group_total(groups@.take(i as int)),
                group_total(groups@) <= u64::MAX,
            decreases groups@.len() - i,
        {
            proof {
                let t = groups@.take(i + 1);
                assert(t.drop_last() =~= groups@.take(i as int));
                lemma_group_total_take(groups@, i + 1);
            }
            total = total + groups[i].len() as u64;
            i = i + 1;
        }
        assert(groups@.take(groups@.len() as int) =~= groups@);
        push_text(&mut out, " (");
        push_decimal(&mut out, total);
        push_text(&mut out, " files are exact duplicates in ");
        push_decimal(&mut out, groups.len() as u64);
        push_text(&mut out, " groups)");
    }
    assert(out@ =~= scan_message_text(pair_count as nat, threshold@, file_count as nat, groups@));
    string_of(&out)
}

/// The files of a prefix of the groups are at most those of all groups.
proof fn lemma_group_total_take(groups: Seq<Vec<String>>, i: int)
    requires
        0 <= i <= groups.len(),
    ensures
        group_total(groups.take(i)) <= group_total(groups),
    decreases groups.len() - i,
{
    if i < groups.len() {
        lemma_group_total_take(groups, i + 1);
        assert(groups.take(i + 1).drop_last() =~= groups.take(i));
    } else {
        assert(groups.take(i) =~= groups);
    }
}

} // verus!
