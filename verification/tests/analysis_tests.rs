use sotext::analysis::{
    checked_highlight_ranges, classify_extension, content_digest, find_common_phrases,
    find_exact_duplicates, get_detail, get_highlight_ranges, get_ngrams, html_to_text,
    is_supported_file, normalize_for_hash, prepare_corpus, scan_message, start_scan,
    too_few_files_message,
    FileKind,
};

fn files(list: &[(&str, &str)]) -> Vec<(String, String)> {
    list.iter().map(|(n, c)| (n.to_string(), c.to_string())).collect()
}

fn strings(list: &[&str]) -> Vec<String> {
    list.iter().map(|s| s.to_string()).collect()
}

#[test]
fn test_is_supported() {
    assert!(is_supported_file("test.txt"));
    assert!(is_supported_file("essay.docx"));
    assert!(is_supported_file("page.html"));
    assert!(!is_supported_file("image.png"));
    assert!(!is_supported_file("paper.pdf"));
}

#[test]
fn test_ngrams() {
    let ngrams = get_ngrams("the quick brown fox jumps", 3);
    assert!(ngrams.iter().any(|g| g == "the quick brown"));
    assert!(ngrams.iter().any(|g| g == "quick brown fox"));
    assert!(ngrams.iter().any(|g| g == "brown fox jumps"));
    assert_eq!(ngrams.len(), 3);
}

#[test]
fn test_common_phrases() {
    let a = "smoking should be completely banned at all restaurants";
    let b = "smoking should be completely banned in every restaurant";
    let common = find_common_phrases(a, b, 5);
    assert!(common.iter().any(|p| p == "smoking should be completely banned"));
}

#[test]
fn test_highlight_ranges_merge() {
    let text = "hello world hello world";
    let phrases = strings(&["hello world"]);
    let ranges = get_highlight_ranges(text, &phrases);
    assert_eq!(ranges.len(), 2);
    assert_eq!(ranges[0], (0, 11));
    assert_eq!(ranges[1], (12, 23));
}

#[test]
fn test_md5_duplicates_normalized() {
    let fs = files(&[
        ("a.txt", "Same Content!"),
        ("b.txt", "same  content"),
        ("c.txt", "different content"),
    ]);
    let dupes = find_exact_duplicates(&fs);
    assert_eq!(dupes.len(), 1, "Normalized MD5 should catch formatting-only diffs");
    assert_eq!(dupes[0].len(), 2);
}

#[test]
fn test_normalize_for_hash() {
    assert_eq!(normalize_for_hash("Hello, World!"), "hello world");
    assert_eq!(normalize_for_hash("  spaces   everywhere  "), "spaces everywhere");
}

#[test]
fn supported_names_ignore_case_and_need_a_dot() {
    assert!(is_supported_file("REPORT.TXT"));
    assert!(is_supported_file("index.htm"));
    assert!(!is_supported_file("txt"));
    assert!(!is_supported_file("notes.text"));
}

#[test]
fn extensions_are_classified() {
    assert_eq!(classify_extension("txt"), Some(FileKind::Text));
    assert_eq!(classify_extension("DOCX"), Some(FileKind::Docx));
    assert_eq!(classify_extension("htm"), Some(FileKind::Html));
    assert_eq!(classify_extension("pdf"), None);
}

#[test]
fn html_text_is_extracted_and_collapsed() {
    let t = html_to_text("<html><body><p>Hello <b>world</b></p>\n<p>  again </p></body></html>");
    assert_eq!(t, Some("Hello world again".to_string()));
    assert_eq!(html_to_text("<html><body>   </body></html>"), None);
}

#[test]
fn digest_is_md5_of_normalized_text() {
    assert_eq!(content_digest("Hello, World!"), "5eb63bbbe01eeed093cb22bb8f5acdc3");
    assert_eq!(content_digest("hello world"), content_digest("HELLO   world!!"));
}

#[test]
fn duplicate_groups_have_two_files_or_more() {
    let fs = files(&[
        ("a.txt", "one two"),
        ("b.txt", "three"),
        ("c.txt", "One, two."),
        ("d.txt", "THREE"),
        ("e.txt", "alone here"),
    ]);
    let groups = find_exact_duplicates(&fs);
    assert_eq!(groups, vec![strings(&["a.txt", "c.txt"]), strings(&["b.txt", "d.txt"])]);
    for g in &groups {
        assert!(g.len() >= 2);
        let d = content_digest(&fs.iter().find(|f| f.0 == g[0]).unwrap().1);
        for name in g {
            assert_eq!(content_digest(&fs.iter().find(|f| &f.0 == name).unwrap().1), d);
        }
    }
}

#[test]
fn ngrams_are_distinct_and_lowercased() {
    let g = get_ngrams("A b a B a b", 2);
    assert_eq!(g, strings(&["a b", "b a"]));
    assert!(get_ngrams("only two", 3).is_empty());
}

#[test]
fn common_phrases_are_the_shared_ngrams() {
    let a = "the cat sat on the mat";
    let b = "on the mat the cat sat";
    let common = find_common_phrases(a, b, 2);
    assert_eq!(common, strings(&["the cat", "cat sat", "on the", "the mat"]));
    let ga = get_ngrams(a, 2);
    let gb = get_ngrams(b, 2);
    for p in &ga {
        assert_eq!(common.contains(p), gb.contains(p));
    }
}

#[test]
fn overlapping_occurrences_are_merged() {
    let ranges = get_highlight_ranges("aaaa b aa", &strings(&["aa"]));
    assert_eq!(ranges, vec![(0, 4), (7, 9)]);
    for w in ranges.windows(2) {
        assert!(w[0].0 < w[0].1 && w[0].1 < w[1].0);
    }
}

#[test]
fn highlight_ranges_are_in_the_lowercased_text() {
    let ranges = get_highlight_ranges("Say HELLO World", &strings(&["hello world"]));
    assert_eq!(ranges, vec![(4, 15)]);
    assert!(get_highlight_ranges("nothing here", &strings(&["hello world"])).is_empty());
}

#[test]
fn unsearchable_phrases_are_refused() {
    assert_eq!(checked_highlight_ranges("abc", &strings(&[""])), None);
    assert_eq!(checked_highlight_ranges("xx éa yy", &strings(&["éa"])), None);
    assert_eq!(checked_highlight_ranges("xx ab yy", &strings(&["éa"])), Some(vec![]));
    assert_eq!(checked_highlight_ranges("xx ab yy", &strings(&["ab"])), Some(vec![(3, 5)]));
}

#[test]
fn detail_of_two_files() {
    let fs = files(&[
        ("a.txt", "The cat sat on the mat. Birds fly over hills."),
        ("b.txt", "The cat sat on the mat. Fish swim in water."),
    ]);
    let d = get_detail(&fs, "a.txt", "b.txt", 3, 7, 10).unwrap();
    assert_eq!(d.file_a, "a.txt");
    assert_eq!(d.file_b, "b.txt");
    assert_eq!(d.content_b, fs[1].1);
    assert_eq!(d.common_phrase_count, 4);
    assert_eq!(d.highlights_a, vec![(0, 23)]);
    assert_eq!(d.highlights_b, vec![(0, 23)]);
    assert_eq!(d.suspicious_sentences.len(), 1);
    assert_eq!(d.suspicious_sentences[0].pos_a, (0, 23));
    assert_eq!(d.suspicious_sentences[0].pos_b, (0, 23));
    assert_eq!(d.suspicious_sentences[0].jaccard_percent, 100);
}

#[test]
fn detail_of_a_missing_file_is_empty() {
    let fs = files(&[("a.txt", "some words in here")]);
    let d = get_detail(&fs, "a.txt", "gone.txt", 3, 7, 10).unwrap();
    assert_eq!(d.content_b, "");
    assert_eq!(d.common_phrase_count, 0);
    assert!(d.highlights_a.is_empty());
}

#[test]
fn detail_refused_where_a_phrase_starts_with_a_wide_character() {
    let fs = files(&[("a.txt", "đi học về nhà"), ("b.txt", "đi học về nhà")]);
    assert!(get_detail(&fs, "a.txt", "b.txt", 2, 7, 10).is_none());
}

#[test]
fn corpus_is_stripped_sorted_and_grouped() {
    let fs = files(&[
        ("b.txt", "Answer the question below now. Cats are nice animals indeed."),
        ("a.txt", "Answer the question below now. Cats are nice animals indeed!"),
        ("c.txt", "Dogs bark at night loudly."),
    ]);
    let c = prepare_corpus(&fs, Some("Answer the question below now."));
    assert_eq!(c.names, strings(&["a.txt", "b.txt", "c.txt"]));
    assert_eq!(c.contents[0], "Cats are nice animals indeed!");
    assert_eq!(c.contents[1], "Cats are nice animals indeed.");
    assert_eq!(c.duplicate_groups, vec![strings(&["b.txt", "a.txt"])]);
    let plain = prepare_corpus(&fs, None);
    assert_eq!(plain.contents[2], "Dogs bark at night loudly.");
    assert_eq!(plain.contents[0], fs[1].1);
}

#[test]
fn scan_messages() {
    assert_eq!(too_few_files_message(1), "Need at least 2 supported files to compare. Found 1.");
    let groups = vec![strings(&["a", "b"]), strings(&["c", "d", "e"])];
    assert_eq!(
        scan_message(4, "50", 12, &groups),
        "Found 4 pairs with cosine score ≥ 50 among 12 files. (5 files are exact duplicates in 2 groups)"
    );
    assert_eq!(scan_message(0, "70", 3, &vec![]), "Found 0 pairs with cosine score ≥ 70 among 3 files.");
}

#[test]
fn scans_need_two_files() {
    let one = files(&[("a.txt", "some text here")]);
    match start_scan(&one, None) {
        Err(m) => assert_eq!(m, "Need at least 2 supported files to compare. Found 1."),
        Ok(_) => panic!("one file is not enough"),
    }
    let two = files(&[("b.txt", "one two"), ("a.txt", "three four")]);
    let c = start_scan(&two, None).ok().unwrap();
    assert_eq!(c.names, strings(&["a.txt", "b.txt"]));
}
