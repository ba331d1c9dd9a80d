use sotext::sentence::{
    find_suspicious_sentences, jaccard_counts, levenshtein_counts, split_sentences, strip_template,
};

fn chars(s: &str) -> Vec<char> {
    s.chars().collect()
}

fn jaccard(a: &str, b: &str) -> f64 {
    let (inter, union) = jaccard_counts(&chars(a), &chars(b));
    if union == 0 {
        0.0
    } else {
        inter as f64 / union as f64
    }
}

fn levenshtein(a: &str, b: &str) -> f64 {
    let (dist, max_len) = levenshtein_counts(&chars(a), &chars(b));
    if max_len == 0 {
        1.0
    } else {
        1.0 - dist as f64 / max_len as f64
    }
}

#[test]
fn test_split_sentences() {
    let text = "Hello world this is test. Another sentence here. And a third one.";
    let sentences = split_sentences(text);
    assert_eq!(sentences.len(), 3);
    assert!(sentences[0].0.contains("Hello"));
    assert!(sentences[1].0.contains("Another"));
}

#[test]
fn test_jaccard_reordered_words() {
    let a = "the cat is sleeping on the mat";
    let b = "on the mat the cat is sleeping";
    let score = jaccard(a, b);
    assert!((score - 1.0).abs() < 0.001, "Reordered words should be ~1.0, got {score}");
}

#[test]
fn test_jaccard_partial_overlap() {
    let a = "the quick brown fox";
    let b = "the slow red fox";
    let score = jaccard(a, b);
    assert!((score - 2.0 / 6.0).abs() < 0.01);
}

#[test]
fn test_levenshtein_similar() {
    let a = "smoking should be completely banned";
    let b = "smoking should be completly banned";
    let score = levenshtein(a, b);
    assert!(score > 0.9, "One typo should give high similarity, got {score}");
}

#[test]
fn test_strip_template() {
    let template = "Answer the following question. What is your opinion on smoking?";
    let student =
        "Answer the following question. Smoking should be banned in all restaurants. It is harmful.";
    let stripped = strip_template(student, template);
    assert!(!stripped.contains("Answer the following question"));
    assert!(stripped.contains("Smoking should be banned"));
}

#[test]
fn test_find_suspicious_paraphrased() {
    let text_a = "The cat was sleeping on the soft mat in the big living room.";
    let text_b = "In the big living room on the soft mat the cat was sleeping.";
    let pairs = find_suspicious_sentences(text_a, text_b, 60, 100);
    assert!(!pairs.is_empty(), "Reordered sentence should be flagged");
}

#[test]
fn sentences_carry_their_byte_ranges() {
    let text = "Hello world this is test. Another sentence here. And a third one.";
    let s = split_sentences(text);
    assert_eq!(s[0], ("Hello world this is test.".to_string(), 0, 25));
    assert_eq!(s[1], ("Another sentence here.".to_string(), 26, 48));
    assert_eq!(s[2], ("And a third one.".to_string(), 49, 65));
    for w in s.windows(2) {
        assert!(w[0].1 < w[0].2 && w[0].2 <= w[1].1);
    }
    for (t, a, b) in &s {
        assert_eq!(text[*a..*b].trim(), t);
    }
}

#[test]
fn short_pieces_are_not_sentences() {
    let s = split_sentences("Yes. No way. This one has words!? Fine.");
    assert_eq!(s, vec![("This one has words!".to_string(), 13, 32)]);
    assert!(split_sentences("").is_empty());
    assert!(split_sentences("two words").is_empty());
}

#[test]
fn blank_lines_end_sentences() {
    let text = "first line has words\n\nsecond line has words too";
    let s = split_sentences(text);
    assert_eq!(
        s,
        vec![
            ("first line has words".to_string(), 0, 20),
            ("second line has words too".to_string(), 22, 47),
        ]
    );
}

#[test]
fn byte_ranges_count_utf8_bytes() {
    let text = "Tôi đi học hôm nay. Trời rất đẹp.";
    let s = split_sentences(text);
    assert_eq!(s.len(), 2);
    assert_eq!(&text[s[1].1..s[1].2], "Trời rất đẹp.");
}

#[test]
fn jaccard_is_symmetric_and_exact() {
    let a = "The quick brown fox";
    let b = "the lazy dog and the fox";
    assert_eq!(jaccard_counts(&chars(a), &chars(b)), (2, 7));
    assert_eq!(jaccard_counts(&chars(b), &chars(a)), (2, 7));
    assert_eq!(jaccard_counts(&chars(""), &chars("")), (0, 0));
}

#[test]
fn levenshtein_counts_are_exact() {
    assert_eq!(levenshtein_counts(&chars("kitten"), &chars("sitting")), (3, 7));
    assert_eq!(levenshtein_counts(&chars("sitting"), &chars("kitten")), (3, 7));
    assert_eq!(levenshtein_counts(&chars("Same Text"), &chars("same text")), (0, 9));
    assert_eq!(levenshtein_counts(&chars("é"), &chars("e")), (1, 2));
}

#[test]
fn suspicious_pairs_are_ranked_and_flagged() {
    let text_a = "The cat sat on the mat. Dogs run in the park today.";
    let text_b = "Dogs run in the park today. The cat sat on a mat.";
    let pairs = find_suspicious_sentences(text_a, text_b, 1, 2);
    assert_eq!(pairs.len(), 2);
    assert_eq!(pairs[0].sentence_a, "Dogs run in the park today.");
    assert_eq!(pairs[0].jaccard_percent, 100);
    assert_eq!(pairs[0].levenshtein_percent, 100);
    assert_eq!(pairs[0].pos_a, (24, 51));
    assert_eq!(pairs[0].pos_b, (0, 27));
    assert_eq!(pairs[1].sentence_b, "The cat sat on a mat.");
    assert_eq!(pairs[1].jaccard_percent, 83);
    assert_eq!(pairs[1].levenshtein_percent, 87);
    assert_eq!(pairs[1].pos_b, (28, 49));
    for w in pairs.windows(2) {
        let k0 = w[0].jaccard_percent.max(w[0].levenshtein_percent);
        let k1 = w[1].jaccard_percent.max(w[1].levenshtein_percent);
        assert!(k0 >= k1);
    }
    for p in &pairs {
        assert!(p.jaccard_percent >= 50 || p.levenshtein_percent >= 50);
    }
}

#[test]
fn nothing_is_suspicious_between_unrelated_texts() {
    let pairs = find_suspicious_sentences(
        "Quantum physics explains small particles well.",
        "My grandmother bakes delicious apple pies.",
        7,
        10,
    );
    assert!(pairs.is_empty());
}

#[test]
fn stripping_without_template_sentences_only_trims() {
    let text = "  Some text that stays here. And more of it follows.  ";
    assert_eq!(strip_template(text, ""), text.trim());
    assert_eq!(strip_template(text, "Nothing alike at all here."), text.trim());
}

#[test]
fn stripping_keeps_text_between_template_sentences() {
    let template = "Write your name below please. Then answer every question.";
    let text = "Write your name below please. Jane Doe is here. Then answer every question. The answer is four.";
    assert_eq!(strip_template(text, template), "Jane Doe is here.  The answer is four.");
}
