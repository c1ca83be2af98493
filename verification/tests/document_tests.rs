use pfind::document::Document;
use pfind::document::DocumentSet;
use pfind::freq::FrequencyTable;
use pfind::index::build_document;
use pfind::index::page_counts;
use pfind::index::within_threshold;

fn table_of(tokens: &[&str]) -> FrequencyTable {
    let mut t = FrequencyTable::new();
    for tok in tokens {
        t.record(tok.to_string());
    }
    t
}

#[test]
fn page_counts_exact() {
    let t = page_counts("cat dog cat");
    assert_eq!(t.count("cat"), 2);
    assert_eq!(t.count("dog"), 1);
    assert_eq!(t.count("fish"), 0);
    assert_eq!(t.total_count(), 3);
}

#[test]
fn frequency_table_merge_order_invariant() {
    let keys = ["a", "b", "c", "d"];
    let a = ["a", "b", "b"];
    let b = ["b", "c"];
    let c = ["a", "c", "c", "d"];

    let mut abc = table_of(&a);
    abc.merge_from(&table_of(&b));
    abc.merge_from(&table_of(&c));

    let mut cba = table_of(&c);
    cba.merge_from(&table_of(&b));
    cba.merge_from(&table_of(&a));

    let mut bca = table_of(&b);
    bca.merge_from(&table_of(&c));
    bca.merge_from(&table_of(&a));

    for k in keys.iter() {
        assert_eq!(abc.count(k), cba.count(k));
        assert_eq!(abc.count(k), bca.count(k));
    }
    assert_eq!(abc.count("a"), 2);
    assert_eq!(abc.count("b"), 3);
    assert_eq!(abc.count("c"), 3);
    assert_eq!(abc.count("d"), 1);
    assert_eq!(abc.total_count(), 9);
}

#[test]
fn document_occurrences_never_fails() {
    let empty = Document::new("empty.pdf".to_string());
    assert_eq!(empty.occurrences("nonexistent"), 0);
    assert_eq!(empty.occurrences(""), 0);
    assert_eq!(empty.total_token_count(), 0);

    let mut doc = Document::new("doc.pdf".to_string());
    doc.push_page(Some(page_counts("cat dog cat")));
    doc.push_page(None);
    doc.push_page(Some(page_counts("dog")));
    assert_eq!(doc.occurrences("nonexistent"), 0);
    assert_eq!(doc.occurrences(""), 0);
    assert_eq!(doc.occurrences("cat"), 2);
    assert_eq!(doc.occurrences("dog"), 2);
    assert_eq!(doc.total_token_count(), 4);
}

#[test]
fn empty_page_slot_changes_nothing() {
    let mut doc = Document::new("doc.pdf".to_string());
    doc.push_page(Some(page_counts("alpha beta")));
    let before = (doc.occurrences("alpha"), doc.total_token_count());
    doc.push_page(None);
    assert_eq!(doc.occurrences("alpha"), before.0);
    assert_eq!(doc.total_token_count(), before.1);
}

#[test]
fn build_document_matches_pages() {
    let pages = vec![
        Some("Cat dog cat".to_string()),
        None,
        Some("".to_string()),
        Some("dog!".to_string()),
    ];
    let doc = build_document("a.pdf".to_string(), &pages).unwrap();
    assert_eq!(doc.occurrences("cat"), 2);
    assert_eq!(doc.occurrences("dog"), 2);
    assert_eq!(doc.total_token_count(), 4);
}

#[test]
fn threshold_skips_large_files() {
    assert!(within_threshold(25, 25));
    assert!(within_threshold(0, 25));
    assert!(!within_threshold(26, 25));

    // The worker admits a file only within the threshold: an over-threshold
    // file contributes no document to the corpus.
    let thresh: usize = 2;
    let files: Vec<(usize, Vec<Option<String>>)> = vec![
        (1, vec![Some("cat".to_string())]),
        (3, vec![
            Some("too".to_string()),
            Some("long".to_string()),
            Some("file".to_string()),
        ]),
        (2, vec![Some("dog".to_string()), None]),
    ];
    let mut collected = Vec::new();
    for (i, (num_pages, pages)) in files.iter().enumerate() {
        if within_threshold(*num_pages, thresh) {
            if let Some(d) = build_document(format!("f{}.pdf", i), pages) {
                collected.push(d);
            }
        }
    }
    let corpus = DocumentSet::new(collected);
    assert_eq!(corpus.len(), 2);
    assert_eq!(corpus.get_name(0), "f0.pdf");
    assert_eq!(corpus.get_name(1), "f2.pdf");
}

#[test]
fn corpus_size_invariant_to_claim_order() {
    // The shared queue hands files to workers in a nondeterministic order;
    // whatever the order, the corpus holds one document per file that did not
    // fail extraction.
    let pages_per_file: Vec<Option<Vec<Option<String>>>> = vec![
        Some(vec![Some("cat dog".to_string())]),
        None, // extraction fails for this file
        Some(vec![Some("dog".to_string()), None]),
        None,
        Some(vec![None]),
    ];
    let orders: Vec<Vec<usize>> = vec![vec![0, 1, 2, 3, 4], vec![4, 2, 0, 3, 1], vec![3, 1, 4, 0, 2]];
    let mut lens = Vec::new();
    let mut name_sets = Vec::new();
    for order in orders.iter() {
        let mut collected = Vec::new();
        for i in order.iter() {
            if let Some(pages) = &pages_per_file[*i] {
                if let Some(d) = build_document(format!("f{}.pdf", i), pages) {
                    collected.push(d);
                }
            }
        }
        let corpus = DocumentSet::new(collected);
        lens.push(corpus.len());
        let mut names: Vec<String> = (0..corpus.len())
            .map(|i| corpus.get_name(i).to_string())
            .collect();
        names.sort();
        name_sets.push(names);
    }
    assert_eq!(lens, vec![3, 3, 3]);
    assert_eq!(name_sets[0], name_sets[1]);
    assert_eq!(name_sets[0], name_sets[2]);
}
