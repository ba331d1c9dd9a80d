//! Term extraction for TF-IDF: language detection, stop words, stemming,
//! tokenization and unigram + bigram terms.

use vstd::prelude::*;
use crate::sentence::contains_chars;
use crate::stats::{corpus_counts, counts_of, nested_views, CorpusCounts};
use crate::text::{
    alphabetic, alphanumeric, chars_of, concat, is_alphabetic_char, is_alphanumeric_char, joined,
    lowercase, push_all, string_of, to_lowercase_chars, views,
};
use rust_stemmers::{Algorithm, Stemmer};

verus! {

/// The languages that detection can report.
#[derive(Clone, Copy, Debug, PartialEq, Eq, Structural)]
pub enum Language {
    Epo,
    Eng,
    Rus,
    Cmn,
    Spa,
    Por,
    Ita,
    Ben,
    Fra,
    Deu,
    Ukr,
    Kat,
    Ara,
    Hin,
    Jpn,
    Heb,
    Yid,
    Pol,
    Amh,
    Jav,
    Kor,
    Nob,
    Dan,
    Swe,
    Fin,
    Tur,
    Nld,
    Hun,
    Ces,
    Ell,
    Bul,
    Bel,
    Mar,
    Kan,
    Ron,
    Slv,
    Hrv,
    Srp,
    Mkd,
    Lit,
    Lav,
    Est,
    Tam,
    Vie,
    Urd,
    Tha,
    Guj,
    Uzb,
    Pan,
    Aze,
    Ind,
    Tel,
    Pes,
    Mal,
    Ori,
    Mya,
    Nep,
    Sin,
    Khm,
    Tuk,
    Aka,
    Zul,
    Sna,
    Afr,
    Lat,
    Slk,
    Cat,
    Tgl,
    Hye,
    Cym,
}

/// The language with the given position in the detector's list of languages.
pub open spec fn language_at(i: u8) -> Option<Language> {
    match i {
        0 => Some(Language::Epo),
        1 => Some(Language::Eng),
        2 => Some(Language::Rus),
        3 => Some(Language::Cmn),
        4 => Some(Language::Spa),
        5 => Some(Language::Por),
        6 => Some(Language::Ita),
        7 => Some(Language::Ben),
        8 => Some(Language::Fra),
        9 => Some(Language::Deu),
        10 => Some(Language::Ukr),
        11 => Some(Language::Kat),
        12 => Some(Language::Ara),
        13 => Some(Language::Hin),
        14 => Some(Language::Jpn),
        15 => Some(Language::Heb),
        16 => Some(Language::Yid),
        17 => Some(Language::Pol),
        18 => Some(Language::Amh),
        19 => Some(Language::Jav),
        20 => Some(Language::Kor),
        21 => Some(Language::Nob),
        22 => Some(Language::Dan),
        23 => Some(Language::Swe),
        24 => Some(Language::Fin),
        25 => Some(Language::Tur),
        26 => Some(Language::Nld),
        27 => Some(Language::Hun),
        28 => Some(Language::Ces),
        29 => Some(Language::Ell),
        30 => Some(Language::Bul),
        31 => Some(Language::Bel),
        32 => Some(Language::Mar),
        33 => Some(Language::Kan),
        34 => Some(Language::Ron),
        35 => Some(Language::Slv),
        36 => Some(Language::Hrv),
        37 => Some(Language::Srp),
        38 => Some(Language::Mkd),
        39 => Some(Language::Lit),
        40 => Some(Language::Lav),
        41 => Some(Language::Est),
        42 => Some(Language::Tam),
        43 => Some(Language::Vie),
        44 => Some(Language::Urd),
        45 => Some(Language::Tha),
        46 => Some(Language::Guj),
        47 => Some(Language::Uzb),
        48 => Some(Language::Pan),
        49 => Some(Language::Aze),
        50 => Some(Language::Ind),
        51 => Some(Language::Tel),
        52 => Some(Language::Pes),
        53 => Some(Language::Mal),
        54 => Some(Language::Ori),
        55 => Some(Language::Mya),
        56 => Some(Language::Nep),
        57 => Some(Language::Sin),
        58 => Some(Language::Khm),
        59 => Some(Language::Tuk),
        60 => Some(Language::Aka),
        61 => Some(Language::Zul),
        62 => Some(Language::Sna),
        63 => Some(Language::Afr),
        64 => Some(Language::Lat),
        65 => Some(Language::Slk),
        66 => Some(Language::Cat),
        67 => Some(Language::Tgl),
        68 => Some(Language::Hye),
        69 => Some(Language::Cym),
        _ => None,
    }
}

/// The language with the given position in the detector's list of languages.
pub fn language_from_index(i: u8) -> (r: Option<Language>)
    ensures
        r == language_at(i),
{
    match i {
        0 => Some(Language::Epo),
        1 => Some(Language::Eng),
        2 => Some(Language::Rus),
        3 => Some(Language::Cmn),
        4 => Some(Language::Spa),
        5 => Some(Language::Por),
        6 => Some(Language::Ita),
        7 => Some(Language::Ben),
        8 => Some(Language::Fra),
        9 => Some(Language::Deu),
        10 => Some(Language::Ukr),
        11 => Some(Language::Kat),
        12 => Some(Language::Ara),
        13 => Some(Language::Hin),
        14 => Some(Language::Jpn),
        15 => Some(Language::Heb),
        16 => Some(Language::Yid),
        17 => Some(Language::Pol),
        18 => Some(Language::Amh),
        19 => Some(Language::Jav),
        20 => Some(Language::Kor),
        21 => Some(Language::Nob),
        22 => Some(Language::Dan),
        23 => Some(Language::Swe),
        24 => Some(Language::Fin),
        25 => Some(Language::Tur),
        26 => Some(Language::Nld),
        27 => Some(Language::Hun),
        28 => Some(Language::Ces),
        29 => Some(Language::Ell),
        30 => Some(Language::Bul),
        31 => Some(Language::Bel),
        32 => Some(Language::Mar),
        33 => Some(Language::Kan),
        34 => Some(Language::Ron),
        35 => Some(Language::Slv),
        36 => Some(Language::Hrv),
        37 => Some(Language::Srp),
        38 => Some(Language::Mkd),
        39 => Some(Language::Lit),
        40 => Some(Language::Lav),
        41 => Some(Language::Est),
        42 => Some(Language::Tam),
        43 => Some(Language::Vie),
        44 => Some(Language::Urd),
        45 => Some(Language::Tha),
        46 => Some(Language::Guj),
        47 => Some(Language::Uzb),
        48 => Some(Language::Pan),
        49 => Some(Language::Aze),
        50 => Some(Language::Ind),
        51 => Some(Language::Tel),
        52 => Some(Language::Pes),
        53 => Some(Language::Mal),
        54 => Some(Language::Ori),
        55 => Some(Language::Mya),
        56 => Some(Language::Nep),
        57 => Some(Language::Sin),
        58 => Some(Language::Khm),
        59 => Some(Language::Tuk),
        60 => Some(Language::Aka),
        61 => Some(Language::Zul),
        62 => Some(Language::Sna),
        63 => Some(Language::Afr),
        64 => Some(Language::Lat),
        65 => Some(Language::Slk),
        66 => Some(Language::Cat),
        67 => Some(Language::Tgl),
        68 => Some(Language::Hye),
        69 => Some(Language::Cym),
        _ => None,
    }
}

/// The Snowball stemming algorithms.
#[derive(Clone, Copy, Debug, PartialEq, Eq, Structural)]
pub enum StemAlgorithm {
    Arabic,
    Danish,
    Dutch,
    English,
    Finnish,
    French,
    German,
    Greek,
    Hungarian,
    Italian,
    Norwegian,
    Portuguese,
    Romanian,
    Russian,
    Spanish,
    Swedish,
    Tamil,
    Turkish,
}

/// The stemming algorithm for a language (none for Vietnamese, CJK, etc.).
pub open spec fn stem_algorithm(lang: Language) -> Option<StemAlgorithm> {
    match lang {
        Language::Eng => Some(StemAlgorithm::English),
        Language::Fra => Some(StemAlgorithm::French),
        Language::Deu => Some(StemAlgorithm::German),
        Language::Spa => Some(StemAlgorithm::Spanish),
        Language::Por => Some(StemAlgorithm::Portuguese),
        Language::Ita => Some(StemAlgorithm::Italian),
        Language::Nld => Some(StemAlgorithm::Dutch),
        Language::Swe => Some(StemAlgorithm::Swedish),
        Language::Nob => Some(StemAlgorithm::Norwegian),
        Language::Dan => Some(StemAlgorithm::Danish),
        Language::Fin => Some(StemAlgorithm::Finnish),
        Language::Hun => Some(StemAlgorithm::Hungarian),
        Language::Ron => Some(StemAlgorithm::Romanian),
        Language::Rus => Some(StemAlgorithm::Russian),
        Language::Tur => Some(StemAlgorithm::Turkish),
        Language::Ara => Some(StemAlgorithm::Arabic),
        Language::Tam => Some(StemAlgorithm::Tamil),
        Language::Ell => Some(StemAlgorithm::Greek),
        _ => None,
    }
}

/// Map a language to its stemming algorithm (None for unsupported languages).
pub fn lang_to_stemmer_algorithm(lang: Language) -> (r: Option<StemAlgorithm>)
    ensures
        r == stem_algorithm(lang),
{
    match lang {
        Language::Eng => Some(StemAlgorithm::English),
        Language::Fra => Some(StemAlgorithm::French),
        Language::Deu => Some(StemAlgorithm::German),
        Language::Spa => Some(StemAlgorithm::Spanish),
        Language::Por => Some(StemAlgorithm::Portuguese),
        Language::Ita => Some(StemAlgorithm::Italian),
        Language::Nld => Some(StemAlgorithm::Dutch),
        Language::Swe => Some(StemAlgorithm::Swedish),
        Language::Nob => Some(StemAlgorithm::Norwegian),
        Language::Dan => Some(StemAlgorithm::Danish),
        Language::Fin => Some(StemAlgorithm::Finnish),
        Language::Hun => Some(StemAlgorithm::Hungarian),
        Language::Ron => Some(StemAlgorithm::Romanian),
        Language::Rus => Some(StemAlgorithm::Russian),
        Language::Tur => Some(StemAlgorithm::Turkish),
        Language::Ara => Some(StemAlgorithm::Arabic),
        Language::Tam => Some(StemAlgorithm::Tamil),
        Language::Ell => Some(StemAlgorithm::Greek),
        _ => None,
    }
}

/// The ISO 639-1 code under which the stop words of a language are listed.
pub open spec fn stop_words_code(lang: Language) -> Option<Seq<char>> {
    match lang {
        Language::Eng => Some("en"@),
        Language::Fra => Some("fr"@),
        Language::Deu => Some("de"@),
        Language::Spa => Some("es"@),
        Language::Por => Some("pt"@),
        Language::Ita => Some("it"@),
        Language::Nld => Some("nl"@),
        Language::Swe => Some("sv"@),
        Language::Nob => Some("no"@),
        Language::Dan => Some("da"@),
        Language::Fin => Some("fi"@),
        Language::Hun => Some("hu"@),
        Language::Ron => Some("ro"@),
        Language::Rus => Some("ru"@),
        Language::Tur => Some("tr"@),
        Language::Ara => Some("ar"@),
        Language::Ell => Some("el"@),
        Language::Vie => Some("vi"@),
        Language::Cmn => Some("zh"@),
        Language::Jpn => Some("ja"@),
        Language::Kor => Some("ko"@),
        Language::Tha => Some("th"@),
        Language::Ind => Some("id"@),
        Language::Hin => Some("hi"@),
        Language::Pol => Some("pl"@),
        Language::Ukr => Some("uk"@),
        Language::Ces => Some("cs"@),
        Language::Heb => Some("he"@),
        _ => None,
    }
}

/// Map a language to its stop-words language code (ISO 639-1).
pub fn lang_to_stop_words_code(lang: Language) -> (r: Option<&'static str>)
    ensures
        r.is_some() == stop_words_code(lang).is_some(),
        r matches Some(c) ==> stop_words_code(lang) == Some(c@),
{
    match lang {
        Language::Eng => Some("en"),
        Language::Fra => Some("fr"),
        Language::Deu => Some("de"),
        Language::Spa => Some("es"),
        Language::Por => Some("pt"),
        Language::Ita => Some("it"),
        Language::Nld => Some("nl"),
        Language::Swe => Some("sv"),
        Language::Nob => Some("no"),
        Language::Dan => Some("da"),
        Language::Fin => Some("fi"),
        Language::Hun => Some("hu"),
        Language::Ron => Some("ro"),
        Language::Rus => Some("ru"),
        Language::Tur => Some("tr"),
        Language::Ara => Some("ar"),
        Language::Ell => Some("el"),
        Language::Vie => Some("vi"),
        Language::Cmn => Some("zh"),
        Language::Jpn => Some("ja"),
        Language::Kor => Some("ko"),
        Language::Tha => Some("th"),
        Language::Ind => Some("id"),
        Language::Hin => Some("hi"),
        Language::Pol => Some("pl"),
        Language::Ukr => Some("uk"),
        Language::Ces => Some("cs"),
        Language::Heb => Some("he"),
        _ => None,
    }
}

/// The display name of a language.
pub open spec fn display_name(lang: Language) -> Seq<char> {
    match lang {
        Language::Eng => "English"@,
        Language::Fra => "French"@,
        Language::Deu => "German"@,
        Language::Spa => "Spanish"@,
        Language::Por => "Portuguese"@,
        Language::Ita => "Italian"@,
        Language::Nld => "Dutch"@,
        Language::Swe => "Swedish"@,
        Language::Nob => "Norwegian"@,
        Language::Dan => "Danish"@,
        Language::Fin => "Finnish"@,
        Language::Hun => "Hungarian"@,
        Language::Ron => "Romanian"@,
        Language::Rus => "Russian"@,
        Language::Tur => "Turkish"@,
        Language::Ara => "Arabic"@,
        Language::Ell => "Greek"@,
        Language::Vie => "Vietnamese"@,
        Language::Cmn => "Chinese"@,
        Language::Jpn => "Japanese"@,
        Language::Kor => "Korean"@,
        Language::Tha => "Thai"@,
        Language::Ind => "Indonesian"@,
        Language::Hin => "Hindi"@,
        Language::Pol => "Polish"@,
        Language::Ukr => "Ukrainian"@,
        Language::Ces => "Czech"@,
        Language::Heb => "Hebrew"@,
        _ => "Unknown"@,
    }
}

/// Get the display name of a detected language.
pub fn lang_display_name(lang: Language) -> (r: &'static str)
    ensures
        r@ == display_name(lang),
{
    match lang {
        Language::Eng => "English",
        Language::Fra => "French",
        Language::Deu => "German",
        Language::Spa => "Spanish",
        Language::Por => "Portuguese",
        Language::Ita => "Italian",
        Language::Nld => "Dutch",
        Language::Swe => "Swedish",
        Language::Nob => "Norwegian",
        Language::Dan => "Danish",
        Language::Fin => "Finnish",
        Language::Hun => "Hungarian",
        Language::Ron => "Romanian",
        Language::Rus => "Russian",
        Language::Tur => "Turkish",
        Language::Ara => "Arabic",
        Language::Ell => "Greek",
        Language::Vie => "Vietnamese",
        Language::Cmn => "Chinese",
        Language::Jpn => "Japanese",
        Language::Kor => "Korean",
        Language::Tha => "Thai",
        Language::Ind => "Indonesian",
        Language::Hin => "Hindi",
        Language::Pol => "Polish",
        Language::Ukr => "Ukrainian",
        Language::Ces => "Czech",
        Language::Heb => "Hebrew",
        _ => "Unknown",
    }
}

/// The first 500 characters of a document (all of it when shorter).
pub open spec fn head500(d: Seq<char>) -> Seq<char> {
    if d.len() <= 500 {
        d
    } else {
        d.take(500)
    }
}

pub open spec fn string_views(v: Seq<String>) -> Seq<Seq<char>> {
    v.map_values(|s: String| s@)
}

/// The text that language detection reads: the first 500 characters of
/// every document, joined with single spaces.
pub open spec fn language_sample(docs: Seq<Seq<char>>) -> Seq<char> {
    joined(docs.map_values(|d: Seq<char>| head500(d)), seq![' '])
}

/// The position, in the detector's list of languages, of the language that
/// `whatlang::detect` finds in a text (None when it finds none).
pub uninterp spec fn detected_index(sample: Seq<char>) -> Option<u8>;

/// `whatlang::detect` on the text made of `sample`; the result is the
/// position of the detected language in `whatlang::Lang` (which has 70
/// languages), named `detected_index`. Detection finds nothing in an empty
/// text (no character of any script is counted).
#[verifier::external_body]
fn detect_index(sample: &[char]) -> (r: Option<u8>)
    ensures
        r == detected_index(sample@),
        r matches Some(i) ==> i < 70,
        sample@.len() == 0 ==> r is None,
{
    let text: String = sample.iter().collect();
    whatlang::detect(&text).map(|info| info.lang() as u8)
}

/// The language of a collection of documents: the detected language of
/// their sample, English when detection finds none.
pub open spec fn detected_language(docs: Seq<Seq<char>>) -> Language {
    match detected_index(language_sample(docs)) {
        Some(i) => match language_at(i) {
            Some(l) => l,
            None => Language::Eng,
        },
        None => Language::Eng,
    }
}

/// Detect the dominant language from a collection of documents: a sample
/// made of the first 500 characters of each document, joined with spaces,
/// is handed to the detector; English when it finds no language.
pub fn detect_language(documents: &[String]) -> (r: Language)
    ensures
        r == detected_language(string_views(documents@)),
        language_sample(string_views(documents@)).len() == 0 ==> r == Language::Eng,
{
    let ghost dv = string_views(documents@);
    let ghost heads = dv.map_values(|d: Seq<char>| head500(d));
    let mut sample: Vec<char> = Vec::new();
    let mut k: usize = 0;
    assert(heads.take(0) =~= Seq::<Seq<char>>::empty());
    while k < documents.len()
        invariant
            dv == string_views(documents@),
            heads == dv.map_values(|d: Seq<char>| head500(d)),
            k <= documents@.len(),
            sample@ == joined(heads.take(k as int), seq![' ']),
        decreases documents@.len() - k,
    {
        let cs = chars_of(documents[k].as_str());
        let n = if cs.len() <= 500 {
            cs.len()
        } else {
            500
        };
        let head = crate::text::copy_range(&cs, 0, n);
        proof {
            assert(dv[k as int] == documents@[k as int]@);
            assert(head@ == heads[k as int]) by {
                if cs@.len() > 500 {
                    assert(cs@.subrange(0, 500) =~= cs@.take(500));
                } else {
                    assert(cs@.subrange(0, cs@.len() as int) =~= cs@);
                }
            }
            assert(heads.take(k + 1).drop_last() =~= heads.take(k as int));
            assert(heads.take(k + 1).last() == heads[k as int]);
        }
        if k > 0 {
            sample.push(' ');
        }
        push_all(&mut sample, &head);
        proof {
            if k == 0 {
                assert(sample@ =~= heads.take(1)[0]);
            } else {
                assert(sample@ =~= joined(heads.take(k as int), seq![' ']) + seq![' '] + heads[k as int]);
            }
        }
        k = k + 1;
    }
    assert(heads.take(documents@.len() as int) =~= heads);
    match detect_index(&sample) {
        Some(i) => match language_from_index(i) {
            Some(l) => l,
            None => Language::Eng,
        },
        None => Language::Eng,
    }
}

/// The stop-word list that `stop_words::lookup` holds under a language code.
pub uninterp spec fn stop_word_list(code: Seq<char>) -> Option<Seq<Seq<char>>>;

/// `stop_words::lookup`: the stop words listed under a language code (None
/// for a code it does not know), as character sequences.
#[verifier::external_body]
fn lookup_stop_words(code: &str) -> (r: Option<Vec<Vec<char>>>)
    ensures
        r.is_some() == stop_word_list(code@).is_some(),
        r matches Some(v) ==> stop_word_list(code@) == Some(views(v@)),
{
    stop_words::lookup(code).map(|ws| ws.iter().map(|w| w.chars().collect()).collect())
}

/// The lower-cased stop words of a language (empty when the language has no
/// code or no list).
pub open spec fn stop_set(lang: Language) -> Set<Seq<char>> {
    match stop_words_code(lang) {
        Some(code) => match stop_word_list(code) {
            Some(ws) => ws.map_values(|w: Seq<char>| lowercase(w)).to_set(),
            None => Set::empty(),
        },
        None => Set::empty(),
    }
}

/// Load stop words for a given language, lower-cased; empty if the language
/// is not supported.
pub fn get_stop_words(lang: Language) -> (r: Vec<Vec<char>>)
    ensures
        views(r@).to_set() == stop_set(lang),
{
    let mut out: Vec<Vec<char>> = Vec::new();
    if let Some(code) = lang_to_stop_words_code(lang) {
        if let Some(ws) = lookup_stop_words(code) {
            let ghost lw = views(ws@).map_values(|w: Seq<char>| lowercase(w));
            let mut k: usize = 0;
            assert(views(out@) =~= lw.take(0));
            while k < ws.len()
                invariant
                    lw == views(ws@).map_values(|w: Seq<char>| lowercase(w)),
                    k <= ws@.len(),
                    views(out@) == lw.take(k as int),
                decreases ws@.len() - k,
            {
                let w = to_lowercase_chars(&ws[k]);
                let ghost before = views(out@);
                out.push(w);
                proof {
                    assert(views(ws@)[k as int] == ws@[k as int]@);
                    assert(views(out@) =~= before.push(lw[k as int]));
                    assert(views(out@) =~= lw.take(k + 1));
                }
                k = k + 1;
            }
            assert(lw.take(ws@.len() as int) =~= lw);
            return out;
        }
    }
    assert(views(out@).to_set() =~= Set::<Seq<char>>::empty());
    out
}

/// What the Snowball stemmer of `rust_stemmers` makes of a word.
pub uninterp spec fn stem(alg: StemAlgorithm, word: Seq<char>) -> Seq<char>;

/// `rust_stemmers::Stemmer::stem` with the stemmer of `alg`; the result is the
/// named stem of the word.
#[verifier::external_body]
fn stem_word(alg: StemAlgorithm, word: &[char]) -> (r: Vec<char>)
    ensures
        r@ == stem(alg, word@),
{
    let table = [
        Algorithm::Arabic, Algorithm::Danish, Algorithm::Dutch, Algorithm::English,
        Algorithm::Finnish, Algorithm::French, Algorithm::German, Algorithm::Greek,
        Algorithm::Hungarian, Algorithm::Italian, Algorithm::Norwegian, Algorithm::Portuguese,
        Algorithm::Romanian, Algorithm::Russian, Algorithm::Spanish, Algorithm::Swedish,
        Algorithm::Tamil, Algorithm::Turkish
    ];
    let algorithm = table[alg as usize];
    let w: String = word.iter().collect();
    Stemmer::create(algorithm).stem(&w).chars().collect()
}

/// Characters that belong to tokens: alphanumeric ones and the apostrophe.
pub open spec fn is_token_char(c: char) -> bool {
    alphanumeric(c) || c == '\''
}

/// The maximal runs of token characters of a text, in order.
pub open spec fn token_runs(cs: Seq<char>) -> Seq<Seq<char>>
    decreases cs.len(),
{
    if cs.len() == 0 {
        seq![]
    } else {
        let prev = token_runs(cs.drop_last());
        let c = cs.last();
        if !is_token_char(c) {
            prev
        } else if cs.len() >= 2 && is_token_char(cs[cs.len() - 2]) {
            prev.drop_last().push(prev.last().push(c))
        } else {
            prev.push(seq![c])
        }
    }
}

/// The sequence holds a letter.
pub open spec fn has_letter(t: Seq<char>) -> bool {
    exists|j: int| 0 <= j < t.len() && alphabetic(#[trigger] t[j])
}

/// The characters of `cs` that tokens are made of (alphanumeric ones and
/// the apostrophe), in order.
pub open spec fn token_chars(cs: Seq<char>) -> Seq<char>
    decreases cs.len(),
{
    if cs.len() == 0 {
        seq![]
    } else if alphanumeric(cs.last()) || cs.last() == '\'' {
        token_chars(cs.drop_last()).push(cs.last())
    } else {
        token_chars(cs.drop_last())
    }
}

/// Splitting a text into runs loses and adds no token character: the runs,
/// written one after the other, are the alphanumeric characters and
/// apostrophes of the text, in order (so "don't" stays one run).
pub proof fn lemma_token_runs_keep_chars(cs: Seq<char>)
    ensures
        concat(token_runs(cs)) == token_chars(cs),
    decreases cs.len(),
{
    if cs.len() > 0 {
        let d = cs.drop_last();
        lemma_token_runs_keep_chars(d);
        let prev = token_runs(d);
        let c = cs.last();
        if !is_token_char(c) {
        } else if cs.len() >= 2 && is_token_char(cs[cs.len() - 2]) {
            assert(d.last() == cs[cs.len() - 2]);
            lemma_token_runs_last(d);
            let r = prev.drop_last().push(prev.last().push(c));
            assert(r.drop_last() =~= prev.drop_last());
            assert(concat(prev) == concat(prev.drop_last()) + prev.last());
            assert(concat(r) == concat(prev.drop_last()) + prev.last().push(c));
            assert(concat(prev.drop_last()) + prev.last().push(c) =~= (concat(prev.drop_last())
                + prev.last()).push(c));
        } else {
            let r = prev.push(seq![c]);
            assert(r.drop_last() =~= prev);
            assert(concat(prev) + seq![c] =~= concat(prev).push(c));
        }
    }
}

/// The runs that hold a letter, in order.
pub open spec fn lettered(rs: Seq<Seq<char>>) -> Seq<Seq<char>>
    decreases rs.len(),
{
    if rs.len() == 0 {
        seq![]
    } else {
        let r = lettered(rs.drop_last());
        if has_letter(rs.last()) {
            r.push(rs.last())
        } else {
            r
        }
    }
}

/// The tokens of a text: its runs of token characters that hold a letter
/// (runs of digits and apostrophes only are left out), lower-cased.
pub open spec fn tokens(cs: Seq<char>) -> Seq<Seq<char>> {
    lettered(token_runs(cs)).map_values(|t: Seq<char>| lowercase(t))
}

fn has_letter_exec(t: &Vec<char>) -> (b: bool)
    ensures
        b == has_letter(t@),
{
    let mut j: usize = 0;
    while j < t.len()
        invariant
            j <= t@.len(),
            forall|q: int| 0 <= q < j ==> !alphabetic(#[trigger] t@[q]),
        decreases t@.len() - j,
    {
        if is_alphabetic_char(t[j]) {
            return true;
        }
        j = j + 1;
    }
    false
}

/// Each run of token characters is non-empty and holds token characters only.
pub proof fn lemma_token_runs(cs: Seq<char>)
    ensures
        forall|i: int|
            0 <= i < token_runs(cs).len() ==> (#[trigger] token_runs(cs)[i]).len() > 0 && forall|j: int|
                0 <= j < token_runs(cs)[i].len() ==> is_token_char(#[trigger] token_runs(cs)[i][j]),
    decreases cs.len(),
{
    if cs.len() > 0 {
        let d = cs.drop_last();
        lemma_token_runs(d);
        let p = token_runs(d);
        let c = cs.last();
        let r = token_runs(cs);
        if !is_token_char(c) {
        } else if cs.len() >= 2 && is_token_char(cs[cs.len() - 2]) {
            assert(d.len() > 0);
            assert(p.len() > 0) by {
                assert(d.last() == cs[cs.len() - 2]);
                lemma_token_runs_last(d);
            }
            assert forall|i: int| 0 <= i < r.len() implies (#[trigger] r[i]).len() > 0 && forall|j: int|
                0 <= j < r[i].len() ==> is_token_char(#[trigger] r[i][j]) by {
                if i < r.len() - 1 {
                    assert(r[i] == p[i]);
                } else {
                    assert(r[i] == p.last().push(c));
                    assert(p.last() == p[p.len() - 1]);
                    assert forall|j: int| 0 <= j < r[i].len() implies is_token_char(#[trigger] r[i][j]) by {
                        if j < p.last().len() {
                            assert(r[i][j] == p[p.len() - 1][j]);
                        }
                    }
                }
            }
        } else {
            assert forall|i: int| 0 <= i < r.len() implies (#[trigger] r[i]).len() > 0 && forall|j: int|
                0 <= j < r[i].len() ==> is_token_char(#[trigger] r[i][j]) by {
                if i < p.len() {
                    assert(r[i] == p[i]);
                } else {
                    assert(r[i] == seq![c]);
                }
            }
        }
    }
}

/// A text that ends with a token character has a run.
proof fn lemma_token_runs_last(cs: Seq<char>)
    requires
        cs.len() > 0,
        is_token_char(cs.last()),
    ensures
        token_runs(cs).len() > 0,
    decreases cs.len(),
{
    let p = token_runs(cs.drop_last());
    if cs.len() >= 2 && is_token_char(cs[cs.len() - 2]) {
        assert(cs.drop_last().last() == cs[cs.len() - 2]);
        lemma_token_runs_last(cs.drop_last());
    }
}

/// Without a stemmer, no unigram is a stop word.
pub proof fn lemma_unigrams_skip_stop_words(toks: Seq<Seq<char>>, stops: Set<Seq<char>>)
    ensures
        forall|i: int|
            0 <= i < unigrams(toks, stops, None).len() ==> !stops.contains(
                #[trigger] unigrams(toks, stops, None)[i],
            ),
    decreases toks.len(),
{
    if toks.len() > 0 {
        lemma_unigrams_skip_stop_words(toks.drop_last(), stops);
        let r = unigrams(toks.drop_last(), stops, None);
        let u = unigrams(toks, stops, None);
        assert forall|i: int| 0 <= i < u.len() implies !stops.contains(#[trigger] u[i]) by {
            if i < r.len() {
                assert(u[i] == r[i]);
            }
        }
    }
}

/// Stop words are tested on the tokens as they come, before stemming: the
/// unigrams are the stemmed forms of exactly the tokens that are not stop
/// words, in order, whatever the stemmer; the bigrams follow them.
pub proof fn lemma_terms_skip_stop_tokens(
    toks: Seq<Seq<char>>,
    stops: Set<Seq<char>>,
    alg: Option<StemAlgorithm>,
)
    ensures
        terms_of(toks, stops, alg) == toks.filter(|t: Seq<char>| !stops.contains(t)).map_values(
            |t: Seq<char>| stem_or_keep(alg, t),
        ) + bigrams(toks, alg),
    decreases toks.len(),
{
    let kept = |t: Seq<char>| !stops.contains(t);
    let stem_of = |t: Seq<char>| stem_or_keep(alg, t);
    reveal(Seq::filter);
    if toks.len() == 0 {
        assert(toks.filter(kept) =~= Seq::<Seq<char>>::empty());
        assert(unigrams(toks, stops, alg) =~= toks.filter(kept).map_values(stem_of));
    } else {
        lemma_terms_skip_stop_tokens(toks.drop_last(), stops, alg);
        let d = toks.drop_last();
        let u = unigrams(d, stops, alg);
        assert(u =~= d.filter(kept).map_values(stem_of)) by {
            assert(terms_of(d, stops, alg) == u + bigrams(d, alg));
            assert(u =~= terms_of(d, stops, alg).subrange(0, u.len() as int));
            assert((d.filter(kept).map_values(stem_of) + bigrams(d, alg)).subrange(
                0,
                d.filter(kept).map_values(stem_of).len() as int,
            ) =~= d.filter(kept).map_values(stem_of));
        }
        assert(toks.filter(kept) == if kept(toks.last()) {
            d.filter(kept).push(toks.last())
        } else {
            d.filter(kept)
        });
        if !stops.contains(toks.last()) {
            assert(d.filter(kept).push(toks.last()).map_values(stem_of) =~= d.filter(kept).map_values(
                stem_of,
            ).push(stem_or_keep(alg, toks.last())));
        }
        assert(unigrams(toks, stops, alg) =~= toks.filter(kept).map_values(stem_of));
    }
}

fn is_token_char_exec(c: char) -> (r: bool)
    ensures
        r == is_token_char(c),
{
    c == '\'' || is_alphanumeric_char(c)
}

/// The tokens of a text, as character sequences.
pub fn tokenize_chars(cs: &[char]) -> (r: Vec<Vec<char>>)
    ensures
        views(r@) == tokens(cs@),
{
    let mut runs: Vec<Vec<char>> = Vec::new();
    let mut cur: Vec<char> = Vec::new();
    let mut in_run = false;
    let mut i: usize = 0;
    assert(cs@.take(0) =~= Seq::<char>::empty());
    while i < cs.len()
        invariant
            i <= cs@.len(),
            in_run ==> i > 0 && is_token_char(cs@[i - 1]) && views(runs@).push(cur@) == token_runs(
                cs@.take(i as int),
            ),
            !in_run ==> (i == 0 || !is_token_char(cs@[i - 1])) && views(runs@) == token_runs(
                cs@.take(i as int),
            ),
        decreases cs@.len() - i,
    {
        let c = cs[i];
        let ghost pre = cs@.take(i as int);
        proof {
            assert(cs@.take(i + 1).drop_last() =~= pre);
            assert(cs@.take(i + 1).last() == c);
            if i >= 1 {
                assert(cs@.take(i + 1)[i - 1] == cs@[i - 1]);
            }
        }
        if !is_token_char_exec(c) {
            if in_run {
                proof {
                    crate::text::lemma_views_push(runs@, cur);
                }
                runs.push(cur);
                cur = Vec::new();
                in_run = false;
            }
        } else {
            if in_run {
                let ghost old_runs = views(runs@);
                let ghost old_cur = cur@;
                cur.push(c);
                proof {
                    let w = token_runs(cs@.take(i + 1));
                    let p = token_runs(pre);
                    assert(p == old_runs.push(old_cur));
                    assert(p.drop_last() =~= old_runs);
                    assert(w == p.drop_last().push(p.last().push(c)));
                    assert(views(runs@).push(cur@) =~= w);
                }
            } else {
                cur = Vec::new();
                cur.push(c);
                in_run = true;
                proof {
                    assert(cur@ =~= seq![c]);
                }
            }
        }
        i = i + 1;
    }
    if in_run {
        proof {
            crate::text::lemma_views_push(runs@, cur);
        }
        runs.push(cur);
    }
    assert(cs@.take(cs@.len() as int) =~= cs@);
    let ghost rv = views(runs@);
    let mut out: Vec<Vec<char>> = Vec::new();
    let mut k: usize = 0;
    assert(rv.take(0) =~= Seq::<Seq<char>>::empty());
    assert(views(out@) =~= lettered(rv.take(0)).map_values(|t: Seq<char>| lowercase(t)));
    while k < runs.len()
        invariant
            rv == views(runs@),
            rv == token_runs(cs@),
            k <= runs@.len(),
            views(out@) == lettered(rv.take(k as int)).map_values(|t: Seq<char>| lowercase(t)),
        decreases runs@.len() - k,
    {
        let ghost before = views(out@);
        proof {
            assert(rv[k as int] == runs@[k as int]@);
            assert(rv.take(k + 1).drop_last() =~= rv.take(k as int));
            assert(rv.take(k + 1).last() == rv[k as int]);
        }
        if has_letter_exec(&runs[k]) {
            let t = to_lowercase_chars(&runs[k]);
            out.push(t);
            assert(views(out@) =~= before.push(lowercase(rv[k as int])));
            assert(views(out@) =~= lettered(rv.take(k + 1)).map_values(|t: Seq<char>| lowercase(t)));
        }
        k = k + 1;
    }
    assert(rv.take(runs@.len() as int) =~= rv);
    out
}

/// Tokenize text into lowercase words: the runs of alphanumeric characters
/// and apostrophes, leaving out the runs without a letter.
pub fn tokenize(text: &str) -> (r: Vec<String>)
    ensures
        string_views(r@) == tokens(text@),
{
    let cs = chars_of(text);
    let ts = tokenize_chars(&cs);
    let mut out: Vec<String> = Vec::new();
    let mut k: usize = 0;
    assert(string_views(out@) =~= views(ts@).take(0));
    while k < ts.len()
        invariant
            views(ts@) == tokens(text@),
            k <= ts@.len(),
            string_views(out@) == views(ts@).take(k as int),
        decreases ts@.len() - k,
    {
        let s = string_of(&ts[k]);
        let ghost before = string_views(out@);
        out.push(s);
        proof {
            assert(views(ts@)[k as int] == ts@[k as int]@);
            assert(string_views(out@) =~= before.push(s@));
            assert(string_views(out@) =~= views(ts@).take(k + 1));
        }
        k = k + 1;
    }
    assert(views(ts@).take(ts@.len() as int) =~= views(ts@));
    out
}

/// A token stemmed with the algorithm, or kept as it is without one.
pub open spec fn stem_or_keep(alg: Option<StemAlgorithm>, t: Seq<char>) -> Seq<char> {
    match alg {
        Some(a) => stem(a, t),
        None => t,
    }
}

/// The stemmed tokens that are not stop words, in order.
pub open spec fn unigrams(toks: Seq<Seq<char>>, stops: Set<Seq<char>>, alg: Option<StemAlgorithm>) -> Seq<Seq<char>>
    decreases toks.len(),
{
    if toks.len() == 0 {
        seq![]
    } else {
        let r = unigrams(toks.drop_last(), stops, alg);
        if stops.contains(toks.last()) {
            r
        } else {
            r.push(stem_or_keep(alg, toks.last()))
        }
    }
}

/// Every two consecutive stemmed tokens joined by a space, in order.
pub open spec fn bigrams(toks: Seq<Seq<char>>, alg: Option<StemAlgorithm>) -> Seq<Seq<char>>
    decreases toks.len(),
{
    if toks.len() < 2 {
        seq![]
    } else {
        bigrams(toks.drop_last(), alg).push(
            stem_or_keep(alg, toks[toks.len() - 2]) + seq![' '] + stem_or_keep(alg, toks.last()),
        )
    }
}

/// The terms of a token list: unigrams, then bigrams.
pub open spec fn terms_of(toks: Seq<Seq<char>>, stops: Set<Seq<char>>, alg: Option<StemAlgorithm>) -> Seq<Seq<char>> {
    unigrams(toks, stops, alg) + bigrams(toks, alg)
}

fn stem_or_keep_exec(alg: Option<StemAlgorithm>, t: &Vec<char>) -> (r: Vec<char>)
    ensures
        r@ == stem_or_keep(alg, t@),
{
    match alg {
        Some(a) => stem_word(a, t),
        None => crate::text::copy_range(t, 0, t.len()),
    }
}

/// Generate unigrams + bigrams from tokens: unigrams skip stop words, and
/// both use the stemmed forms (the tokens as they are without a stemmer).
pub fn generate_terms(tokens: &Vec<Vec<char>>, stop_words: &Vec<Vec<char>>, stemmer: Option<StemAlgorithm>) -> (r: Vec<Vec<char>>)
    ensures
        views(r@) == terms_of(views(tokens@), views(stop_words@).to_set(), stemmer),
{
    let ghost tv = views(tokens@);
    let ghost stops = views(stop_words@).to_set();
    let mut stemmed: Vec<Vec<char>> = Vec::new();
    let mut i: usize = 0;
    while i < tokens.len()
        invariant
            tv == views(tokens@),
            i <= tokens@.len(),
            stemmed@.len() == i,
            forall|j: int| 0 <= j < i ==> (#[trigger] stemmed@[j])@ == stem_or_keep(stemmer, tv[j]),
        decreases tokens@.len() - i,
    {
        let st = stem_or_keep_exec(stemmer, &tokens[i]);
        proof {
            assert(tv[i as int] == tokens@[i as int]@);
        }
        stemmed.push(st);
        i = i + 1;
    }
    let mut out: Vec<Vec<char>> = Vec::new();
    let mut k: usize = 0;
    assert(tv.take(0) =~= Seq::<Seq<char>>::empty());
    assert(views(out@) =~= Seq::<Seq<char>>::empty());
    while k < tokens.len()
        invariant
            tv == views(tokens@),
            stops == views(stop_words@).to_set(),
            k <= tokens@.len(),
            stemmed@.len() == tokens@.len(),
            forall|j: int| 0 <= j < tokens@.len() ==> (#[trigger] stemmed@[j])@ == stem_or_keep(stemmer, tv[j]),
            views(out@) == unigrams(tv.take(k as int), stops, stemmer),
        decreases tokens@.len() - k,
    {
        proof {
            assert(tv[k as int] == tokens@[k as int]@);
            assert(tv.take(k + 1).drop_last() =~= tv.take(k as int));
            assert(tv.take(k + 1).last() == tv[k as int]);
        }
        if !contains_chars(stop_words, &tokens[k]) {
            let w = crate::text::copy_range(&stemmed[k], 0, stemmed[k].len());
            let ghost before = views(out@);
            out.push(w);
            proof {
                assert(stemmed@[k as int]@.subrange(0, stemmed@[k as int]@.len() as int) =~= stemmed@[k as int]@);
                assert(views(out@) =~= before.push(stem_or_keep(stemmer, tv[k as int])));
            }
        }
        k = k + 1;
    }
    assert(tv.take(tokens@.len() as int) =~= tv);
    let ghost uni = views(out@);
    let mut m: usize = if tokens.len() == 0 {
        0
    } else {
        1
    };
    assert(views(out@) =~= uni + bigrams(tv.take(m as int), stemmer));
    while m < tokens.len()
        invariant
            tv == views(tokens@),
            m <= tokens@.len(),
            tokens@.len() > 0 ==> 1 <= m,
            stemmed@.len() == tokens@.len(),
            forall|j: int| 0 <= j < tokens@.len() ==> (#[trigger] stemmed@[j])@ == stem_or_keep(stemmer, tv[j]),
            views(out@) == uni + bigrams(tv.take(m as int), stemmer),
        decreases tokens@.len() - m,
    {
        let mut b = crate::text::copy_range(&stemmed[m - 1], 0, stemmed[m - 1].len());
        b.push(' ');
        push_all(&mut b, &stemmed[m]);
        let ghost before = views(out@);
        out.push(b);
        proof {
            let t = tv.take(m + 1);
            assert(t.drop_last() =~= tv.take(m as int));
            assert(t[t.len() - 2] == tv[m - 1]);
            assert(t.last() == tv[m as int]);
            assert(stemmed@[m - 1]@.subrange(0, stemmed@[m - 1]@.len() as int) =~= stemmed@[m - 1]@);
            assert(b@ =~= stem_or_keep(stemmer, tv[m - 1]) + seq![' '] + stem_or_keep(stemmer, tv[m as int]));
            assert(bigrams(t, stemmer) == bigrams(tv.take(m as int), stemmer).push(b@));
            assert(views(out@) =~= before.push(b@));
            assert(views(out@) =~= uni + bigrams(tv.take(m + 1), stemmer));
        }
        m = m + 1;
    }
    assert(tv.take(m as int) =~= tv);
    out
}

/// The terms of every document, with the language detected for the collection.
pub open spec fn document_terms(docs: Seq<Seq<char>>) -> Seq<Seq<Seq<char>>> {
    let lang = detected_language(docs);
    docs.map_values(
        |d: Seq<char>| terms_of(tokens(d), stop_set(lang), stem_algorithm(lang)),
    )
}

/// The language of a collection and the term statistics from which its
/// TF-IDF vectors are computed.
pub struct TermStats {
    pub language: Language,
    pub counts: CorpusCounts,
}

/// Term statistics of a collection with automatic language detection: the
/// detected language, the ranked vocabulary, document frequencies and the
/// term counts of every document (unigrams without stop words, and bigrams,
/// stemmed for languages that have a stemmer).
pub fn compute_term_stats(documents: &[String]) -> (r: TermStats)
    ensures
        r.language == detected_language(string_views(documents@)),
        counts_of(document_terms(string_views(documents@)), r.counts),
{
    let ghost dv = string_views(documents@);
    let lang = detect_language(documents);
    let stops = get_stop_words(lang);
    let alg = lang_to_stemmer_algorithm(lang);
    let mut dts: Vec<Vec<Vec<char>>> = Vec::new();
    let mut k: usize = 0;
    while k < documents.len()
        invariant
            dv == string_views(documents@),
            lang == detected_language(dv),
            views(stops@).to_set() == stop_set(lang),
            alg == stem_algorithm(lang),
            k <= documents@.len(),
            nested_views(dts@) == document_terms(dv).take(k as int),
        decreases documents@.len() - k,
    {
        let cs = chars_of(documents[k].as_str());
        let toks = tokenize_chars(&cs);
        let terms = generate_terms(&toks, &stops, alg);
        let ghost before = nested_views(dts@);
        dts.push(terms);
        proof {
            assert(dv[k as int] == documents@[k as int]@);
            assert(nested_views(dts@) =~= before.push(views(terms@)));
            assert(nested_views(dts@) =~= document_terms(dv).take(k + 1));
        }
        k = k + 1;
    }
    assert(document_terms(dv).take(documents@.len() as int) =~= document_terms(dv));
    let counts = corpus_counts(&dts);
    TermStats { language: lang, counts }
}

} // verus!
