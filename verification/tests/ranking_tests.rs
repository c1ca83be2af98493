use pfind::document::DocumentSet;
use pfind::index::build_document;
use pfind::lexer::Lexer;

// The floating-point half of TF-IDF scoring lives outside the verified
// library; these tests compute it the same way from the library's verified
// integer ingredients (per-document occurrence counts, word counts, document
// frequency).
fn tf_idf(docs: &DocumentSet, terms: &[String]) -> Vec<f64> {
    let n = docs.len();
    let mut scores = vec![0.0f64; n];
    for term in terms.iter() {
        let occs = docs.occurrence_counts(term);
        let wcs = docs.word_counts();
        let dfreq = docs.doc_frequency(term);
        let idf = if n == 0 {
            0.0
        } else {
            (n as f64 / (1.0 + dfreq as f64)).log10()
        };
        for i in 0..n {
            let tf = if wcs[i] != 0 {
                occs[i] as f64 / wcs[i] as f64
            } else {
                0.0
            };
            scores[i] += tf * idf;
        }
    }
    scores
}

fn two_doc_corpus() -> DocumentSet {
    let d0 = build_document(
        "doc0.pdf".to_string(),
        &vec![Some("cat dog cat".to_string())],
    )
    .unwrap();
    let d1 = build_document(
        "doc1.pdf".to_string(),
        &vec![Some("dog dog dog".to_string())],
    )
    .unwrap();
    DocumentSet::new(vec![d0, d1])
}

fn query(text: &str) -> Vec<String> {
    let mut lexer = Lexer::new(text);
    lexer.tokens()
}

#[test]
fn end_to_end_two_documents() {
    let docs = two_doc_corpus();
    assert_eq!(docs.len(), 2);
    assert_eq!(docs.word_counts(), vec![3, 3]);

    // Query "cat": df = 1, idf = log10(2/2) = 0, so both scores are zero.
    assert_eq!(docs.doc_frequency("cat"), 1);
    let cat_scores = tf_idf(&docs, &query("cat"));
    assert_eq!(cat_scores.len(), 2);
    assert!(cat_scores[0].abs() < 1e-12);
    assert!(cat_scores[1].abs() < 1e-12);

    // Query "dog": df = 2, idf = log10(2/3) (negative by design).
    assert_eq!(docs.doc_frequency("dog"), 2);
    let dog_scores = tf_idf(&docs, &query("dog"));
    let idf = (2.0f64 / 3.0).log10();
    assert!((dog_scores[0] - idf / 3.0).abs() < 1e-12);
    assert!((dog_scores[1] - idf).abs() < 1e-12);
    assert!((dog_scores[0] - (-0.0587)).abs() < 1e-3);
    assert!((dog_scores[1] - (-0.176)).abs() < 1e-3);

    // Ranking by descending score places doc0 above doc1.
    let mut ranked: Vec<(usize, f64)> = dog_scores.iter().cloned().enumerate().collect();
    ranked.sort_by(|(_, a), (_, b)| b.total_cmp(a));
    assert_eq!(ranked[0].0, 0);
    assert_eq!(ranked[1].0, 1);
    assert_eq!(docs.get_name(ranked[0].0), "doc0.pdf");
}

#[test]
fn ranking_is_deterministic() {
    let docs = two_doc_corpus();
    let q = query("cat dog dog mouse");
    let first = tf_idf(&docs, &q);
    let second = tf_idf(&docs, &q);
    assert_eq!(first.len(), second.len());
    for i in 0..first.len() {
        assert_eq!(first[i].to_bits(), second[i].to_bits());
    }
}

#[test]
fn empty_document_scores_zero() {
    let d0 = build_document("has-text.pdf".to_string(), &vec![Some("cat".to_string())]).unwrap();
    let d1 = build_document("no-text.pdf".to_string(), &vec![None]).unwrap();
    let docs = DocumentSet::new(vec![d0, d1]);
    assert_eq!(docs.word_counts(), vec![1, 0]);
    let scores = tf_idf(&docs, &query("cat"));
    // The empty document contributes tf = 0, never a division by zero.
    assert!(scores[1] == 0.0);
    assert!(scores[1].is_finite());
    assert!(scores[0].is_finite());
}

#[test]
fn unseen_term_gets_maximum_idf_weight() {
    let docs = two_doc_corpus();
    assert_eq!(docs.doc_frequency("mouse"), 0);
    assert_eq!(docs.occurrence_counts("mouse"), vec![0, 0]);
    // A term in no document yields idf = log10(N), but every tf is zero.
    let scores = tf_idf(&docs, &query("mouse"));
    assert!(scores[0] == 0.0 && scores[1] == 0.0);
}
