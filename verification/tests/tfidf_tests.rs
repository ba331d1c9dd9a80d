use sotext::tfidf::{
    compute_term_stats, detect_language, generate_terms, get_stop_words, lang_display_name,
    lang_to_stemmer_algorithm, lang_to_stop_words_code, tokenize, tokenize_chars, Language,
    StemAlgorithm,
};

fn chars(s: &str) -> Vec<char> {
    s.chars().collect()
}

fn words(list: &[&str]) -> Vec<Vec<char>> {
    list.iter().map(|w| chars(w)).collect()
}

fn text(cs: &[char]) -> String {
    cs.iter().collect()
}

#[test]
fn test_tokenize() {
    let tokens = tokenize("Hello, World! This is a TEST.");
    assert_eq!(tokens, vec!["hello", "world", "this", "is", "a", "test"]);
}

#[test]
fn test_detect_english() {
    let docs = vec![
        "The quick brown fox jumps over the lazy dog and runs away into the forest".to_string(),
    ];
    let lang = detect_language(&docs);
    assert_eq!(lang, Language::Eng);
}

#[test]
fn test_detect_vietnamese() {
    let docs = vec![
        "Hôm nay thời tiết rất đẹp, tôi muốn đi dạo trong công viên và ngắm cảnh thiên nhiên tuyệt vời"
            .to_string(),
    ];
    let lang = detect_language(&docs);
    assert_eq!(lang, Language::Vie);
}

#[test]
fn undetectable_text_counts_as_english() {
    assert_eq!(detect_language(&[]), Language::Eng);
    assert_eq!(detect_language(&["".to_string()]), Language::Eng);
    assert_eq!(detect_language(&["".to_string(), "".to_string()]), Language::Eng);
}

#[test]
fn tokens_need_a_letter() {
    assert_eq!(tokenize("Don't stop: 42 times!"), vec!["don't", "stop", "times"]);
    assert_eq!(tokenize("route 66 is open"), vec!["route", "is", "open"]);
    assert_eq!(tokenize("mp3 '' 2024 x2"), vec!["mp3", "x2"]);
    assert!(tokenize(" ... ,,, ").is_empty());
    for t in tokenize_chars(&chars("Ünïcode wörds, ÀND more")) {
        assert!(t.iter().any(|c| c.is_alphabetic()));
        assert!(t.iter().all(|c| c.is_alphanumeric() || *c == '\''));
    }
}

#[test]
fn languages_map_to_stemmers_and_stop_word_codes() {
    assert_eq!(lang_to_stemmer_algorithm(Language::Eng), Some(StemAlgorithm::English));
    assert_eq!(lang_to_stemmer_algorithm(Language::Vie), None);
    assert_eq!(lang_to_stop_words_code(Language::Vie), Some("vi"));
    assert_eq!(lang_to_stop_words_code(Language::Eng), Some("en"));
    assert_eq!(lang_display_name(Language::Vie), "Vietnamese");
    assert_eq!(lang_display_name(Language::Eng), "English");
}

#[test]
fn stop_words_are_loaded() {
    let en = get_stop_words(Language::Eng);
    assert!(en.contains(&chars("the")));
    assert!(en.contains(&chars("and")));
    assert!(!en.contains(&chars("fox")));
}

#[test]
fn terms_are_stemmed_unigrams_then_bigrams() {
    let toks = words(&["the", "cats", "running"]);
    let stops = words(&["the"]);
    let terms = generate_terms(&toks, &stops, Some(StemAlgorithm::English));
    let terms: Vec<String> = terms.iter().map(|t| text(t)).collect();
    assert_eq!(terms, vec!["cat", "run", "the cat", "cat run"]);
}

#[test]
fn unigrams_skip_stop_words_without_stemmer() {
    let toks = words(&["a", "b", "a", "c"]);
    let stops = words(&["a"]);
    let terms = generate_terms(&toks, &stops, None);
    let terms: Vec<String> = terms.iter().map(|t| text(t)).collect();
    assert_eq!(terms, vec!["b", "c", "a b", "b a", "a c"]);
}

#[test]
fn term_stats_rank_the_vocabulary() {
    let docs = vec![
        "The cat sat on the mat in the house".to_string(),
        "The cat sat on the mat in the garden".to_string(),
    ];
    let stats = compute_term_stats(&docs);
    assert_eq!(stats.language, Language::Eng);
    let voc: Vec<String> = stats.counts.vocabulary.iter().map(|t| text(t)).collect();
    assert_eq!(voc.len(), stats.counts.doc_freq.len());
    for w in stats.counts.doc_freq.windows(2) {
        assert!(w[0] >= w[1]);
    }
    assert!(voc.contains(&"cat".to_string()));
    assert!(voc.contains(&"cat sat".to_string()));
    assert!(!voc.contains(&"the".to_string()));
    let house = voc.iter().position(|t| t == "hous").unwrap();
    assert_eq!(stats.counts.doc_freq[house], 1);
    let cat = voc.iter().position(|t| t == "cat").unwrap();
    assert_eq!(stats.counts.doc_freq[cat], 2);
    assert_eq!(stats.counts.term_totals.len(), 2);
}
