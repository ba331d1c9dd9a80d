# sotext

Text similarity analysis for collections of student documents, with
specifications and proofs checked by Verus.

- `src/` — the verified library:
  - `text` — characters and UTF-8 byte offsets, words, trimming, decimal notation;
  - `sentence` — sentence splitting, word-set (Jaccard) and edit-distance
    (Levenshtein) comparison, suspicious sentence pairs, template stripping;
  - `tfidf` — language detection, stop words, tokens, stemmed terms and the
    term statistics behind TF-IDF;
  - `stats`, `lexicon` — document frequencies, ranked vocabulary, ordering of terms;
  - `analysis` — supported files, HTML text, normalized MD5 duplicate groups,
    n-gram phrases and their highlighted ranges, pair details, scan preparation;
  - `report` — highlighted ranges of a document, how reports cut and style it,
    score bands, headings and the HTML report.
- `app/` — the desktop side: reading files, floating-point TF-IDF and cosine
  scores, writing Excel, HTML, PDF and DOCX files, command handlers.
- `tests/` — tests of the library.
