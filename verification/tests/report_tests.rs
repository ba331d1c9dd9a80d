use sotext::analysis::{DetailResult, SimilarityPair};
use sotext::report::{
    apply_highlights, docx_paragraph, escape_html, excel_cell, file_label, format_score,
    html_report_text, marked_ranges_of, match_info, pair_heading_text, pdf_file_label,
    pdf_pair_heading_text, pdf_paragraph, score_band, truncate_filename, Mark, Piece, ScoreBand,
    Style,
};
use sotext::sentence::SuspiciousPair;

fn para(pos_a: (usize, usize), pos_b: (usize, usize)) -> SuspiciousPair {
    SuspiciousPair {
        sentence_a: String::new(),
        sentence_b: String::new(),
        jaccard_percent: 80,
        levenshtein_percent: 70,
        pos_a,
        pos_b,
    }
}

fn shown(pieces: &[Piece]) -> Vec<(String, Style)> {
    pieces.iter().map(|p| (p.text.clone(), p.style)).collect()
}

fn piece(t: &str, s: Style) -> (String, Style) {
    (t.to_string(), s)
}

#[test]
fn scores_are_banded_and_written_with_one_decimal() {
    assert_eq!(score_band(923), ScoreBand::High);
    assert_eq!(score_band(800), ScoreBand::High);
    assert_eq!(score_band(799), ScoreBand::Medium);
    assert_eq!(score_band(600), ScoreBand::Medium);
    assert_eq!(score_band(599), ScoreBand::Low);
    assert_eq!(format_score(923), "92.3%");
    assert_eq!(format_score(650), "65.0%");
    assert_eq!(format_score(5), "0.5%");
    assert_eq!(format_score(1000), "100.0%");
}

#[test]
fn headings_and_labels() {
    assert_eq!(
        pair_heading_text(0, "high.txt", "score.txt", 923),
        "━━━ Pair 1 ━━━  high.txt ↔ score.txt  ━━━  Cosine: 92.3%"
    );
    assert_eq!(
        pdf_pair_heading_text(1, "med.txt", "score.txt", 650),
        "Pair 2 - med.txt <-> score.txt (Cosine: 65.0%)"
    );
    assert_eq!(file_label("a.txt"), "📄 a.txt");
    assert_eq!(pdf_file_label("a.txt"), "--- a.txt ---");
    assert_eq!(match_info(12, 3), "N-gram matches: 12 | Suspicious sentences: 3");
}

#[test]
fn file_names_are_shortened_for_tables() {
    assert_eq!(truncate_filename("short.txt", 40), Some("short.txt".to_string()));
    assert_eq!(truncate_filename("abcdefghij", 8), Some("abcde...".to_string()));
    assert_eq!(truncate_filename("abcd", 4), Some("abcd".to_string()));
    assert_eq!(truncate_filename("aaaaéééé", 8), None);
    assert_eq!(truncate_filename("aaaaaéééé", 8), Some("aaaaa...".to_string()));
    assert_eq!(truncate_filename("ab", 2), Some("ab".to_string()));
    assert_eq!(truncate_filename("abc", 2), None);
}

#[test]
fn html_is_escaped() {
    assert_eq!(
        escape_html("<a href=\"x\">Tom & Jerry</a>"),
        "&lt;a href=&quot;x&quot;&gt;Tom &amp; Jerry&lt;/a&gt;"
    );
    let e = escape_html("1 < 2 > 0 \"quoted\"");
    assert!(!e.contains('<') && !e.contains('>') && !e.contains('"'));
}

#[test]
fn ranges_are_marked_and_sorted_by_start() {
    let h = vec![(10, 20), (30, 40)];
    let sus = vec![para((12, 18), (0, 5)), para((0, 5), (50, 60)), para((25, 45), (7, 9))];
    let a = marked_ranges_of(&h, &sus, true);
    let got: Vec<(usize, usize, Mark)> = a.iter().map(|m| (m.start, m.end, m.mark)).collect();
    assert_eq!(
        got,
        vec![(0, 5, Mark::Para), (10, 20, Mark::Exact), (25, 45, Mark::Para), (30, 40, Mark::Exact)]
    );
    let b = marked_ranges_of(&h, &sus, false);
    let got: Vec<(usize, usize, Mark)> = b.iter().map(|m| (m.start, m.end, m.mark)).collect();
    assert_eq!(
        got,
        vec![
            (0, 5, Mark::Para),
            (7, 9, Mark::Para),
            (10, 20, Mark::Exact),
            (30, 40, Mark::Exact),
            (50, 60, Mark::Para),
        ]
    );
}

#[test]
fn cells_show_pieces_that_make_up_the_document() {
    let content = "This is the first document content for testing.";
    let s = excel_cell(content, &vec![(0, 7)], &vec![], true).unwrap();
    assert!(s.rich);
    assert_eq!(
        shown(&s.pieces),
        vec![
            piece("This is", Style::Exact),
            piece(" the first document content for testing.", Style::Plain),
        ]
    );
    let joined: String = s.pieces.iter().map(|p| p.text.as_str()).collect();
    assert_eq!(joined, content);
    let plain = excel_cell("Medium similarity content here.", &vec![], &vec![], true).unwrap();
    assert!(!plain.rich);
    assert_eq!(shown(&plain.pieces), vec![piece("Medium similarity content here.", Style::Plain)]);
}

#[test]
fn overlapping_ranges_are_skipped_and_paraphrases_follow_gaps() {
    let content = "aaaa bbbb cccc dddd";
    let sus = vec![para((2, 8), (0, 0)), para((10, 14), (0, 0))];
    let s = docx_paragraph(content, &vec![(0, 4)], &sus, true).unwrap();
    assert_eq!(
        shown(&s.pieces),
        vec![
            piece("aaaa", Style::Exact),
            piece(" bbbb ", Style::Plain),
            piece("cccc", Style::Para),
            piece(" dddd", Style::Plain),
        ]
    );
}

#[test]
fn long_documents_are_cut_with_a_note() {
    let content = "x".repeat(30010);
    let s = excel_cell(&content, &vec![(5, 10)], &vec![], true).unwrap();
    assert_eq!(s.pieces.len(), 4);
    assert_eq!(s.pieces[2].text.len(), 29990);
    assert_eq!(s.pieces[3].style, Style::Note);
    assert_eq!(s.pieces[3].text, "\n[... truncated, 30010 chars total]");
    let plain = excel_cell(&content, &vec![], &vec![], true).unwrap();
    assert_eq!(plain.pieces.len(), 1);
    assert_eq!(plain.pieces[0].text.len(), 30000);
    let far = excel_cell(&content, &vec![(30005, 30008)], &vec![], true).unwrap();
    assert_eq!(far.pieces.len(), 2);
    assert_eq!(far.pieces[0].text.len(), 30000);
}

#[test]
fn pdf_paragraphs() {
    let short = pdf_paragraph("Some short text.", &vec![], &vec![], true).unwrap();
    assert_eq!(shown(&short), vec![piece("Some short text.", Style::Plain)]);
    let long = "y".repeat(3005);
    let cut = pdf_paragraph(&long, &vec![], &vec![], true).unwrap();
    assert_eq!(cut.len(), 1);
    assert!(cut[0].text.starts_with(&"y".repeat(3000)));
    assert!(cut[0].text.ends_with("...\n[Content truncated for PDF - 3005 chars total]"));
    let hl = pdf_paragraph(&"z".repeat(5002), &vec![(0, 2)], &vec![], true).unwrap();
    assert_eq!(hl.len(), 3);
    assert_eq!(hl[1].text.len(), 4998);
    assert_eq!(hl[2].text, "\n[... truncated, 5002 chars total]");
}

#[test]
fn cuts_inside_a_character_are_refused() {
    let content = "héllo world";
    assert!(excel_cell(content, &vec![(0, 2)], &vec![], true).is_none());
    assert!(excel_cell(content, &vec![(0, 3)], &vec![], true).is_some());
    assert!(pdf_paragraph(content, &vec![(2, 5)], &vec![], true).is_none());
    assert!(apply_highlights(content, &vec![(20, 25)], &vec![], true).is_none());
    assert!(apply_highlights(content, &vec![(3, 1)], &vec![], true).is_none());
}

#[test]
fn html_highlights() {
    let content = "Tom & Jerry run <fast>";
    let h = apply_highlights(content, &vec![(0, 3)], &vec![para((16, 22), (0, 0))], true).unwrap();
    assert_eq!(
        h,
        "<span class=\"hl-exact\">Tom</span> &amp; Jerry run <span class=\"hl-para\">&lt;fast&gt;</span>"
    );
    assert_eq!(apply_highlights(content, &vec![], &vec![], true).unwrap(), escape_html(content));
}

#[test]
fn html_report_holds_summary_and_sections() {
    let results = vec![
        SimilarityPair { file_a: "high.txt".to_string(), file_b: "score.txt".to_string(), score_tenths: 923 },
        SimilarityPair { file_a: "med.txt".to_string(), file_b: "score.txt".to_string(), score_tenths: 650 },
    ];
    let details = vec![DetailResult {
        file_a: "high.txt".to_string(),
        file_b: "score.txt".to_string(),
        content_a: "This is the first document content for testing.".to_string(),
        content_b: "This is the second document content for testing.".to_string(),
        highlights_a: vec![(0, 7)],
        highlights_b: vec![(0, 7)],
        common_phrase_count: 1,
        suspicious_sentences: vec![],
    }];
    let html = html_report_text(&results, &details, "1700000000").unwrap();
    assert!(html.starts_with("<!DOCTYPE html>"));
    assert!(html.contains("<p>Generated: 1700000000</p>\n"));
    assert!(html.contains(
        "<tr class=\"score-high\"><td>1</td><td>high.txt</td><td>score.txt</td><td>92.3%</td></tr>\n"
    ));
    assert!(html.contains(
        "<tr class=\"score-med\"><td>2</td><td>med.txt</td><td>score.txt</td><td>65.0%</td></tr>\n"
    ));
    assert!(html.contains("<h2>Pair 1 — high.txt ↔ score.txt (Cosine: 92.3%)</h2>"));
    assert!(html.contains(
        "<pre><span class=\"hl-exact\">This is</span> the first document content for testing.</pre>"
    ));
    assert!(html.ends_with("</div>\n</div>\n</body></html>"));
}

#[test]
fn word_processor_paragraphs_refuse_cuts_inside_characters() {
    assert!(docx_paragraph("ééé", &vec![(1, 4)], &vec![], true).is_none());
    let s = docx_paragraph("ééé", &vec![(2, 4)], &vec![], true).unwrap();
    assert_eq!(
        shown(&s.pieces),
        vec![piece("é", Style::Plain), piece("é", Style::Exact), piece("é", Style::Plain)]
    );
}

#[test]
fn html_report_refuses_a_detail_it_cannot_show() {
    let details = vec![DetailResult {
        file_a: "a.txt".to_string(),
        file_b: "b.txt".to_string(),
        content_a: "ñandú".to_string(),
        content_b: "plain".to_string(),
        highlights_a: vec![(1, 2)],
        highlights_b: vec![],
        common_phrase_count: 0,
        suspicious_sentences: vec![],
    }];
    assert!(html_report_text(&vec![], &details, "0").is_none());
}

#[test]
fn pieces_put_back_together_are_the_shown_text() {
    let content = "Ünïcode text — with dashes, ünïcode again and more words.";
    let h = vec![(0, 9), (15, 23)];
    let sus = vec![para((29, 45), (0, 0)), para((3, 12), (0, 0))];
    let s = excel_cell(content, &h, &sus, true).unwrap();
    let joined: String = s.pieces.iter().map(|p| p.text.as_str()).collect();
    assert_eq!(joined, content);
    let html = apply_highlights(content, &h, &sus, true).unwrap();
    assert!(html.starts_with("<span class=\"hl-exact\">Ünïcode</span> text"));
}

#[test]
fn highlighted_html_gives_the_document_back() {
    let content = "a < b & \"c\" > d <span class=\"hl-exact\">";
    let h = vec![(0, 5), (8, 15)];
    let sus = vec![para((16, 22), (0, 0))];
    let html = apply_highlights(content, &h, &sus, true).unwrap();
    let back = html
        .replace("<span class=\"hl-exact\">", "")
        .replace("<span class=\"hl-para\">", "")
        .replace("</span>", "")
        .replace("&quot;", "\"")
        .replace("&gt;", ">")
        .replace("&lt;", "<")
        .replace("&amp;", "&");
    assert_eq!(back, content);
}
