//! Documents and the corpus. A `Document` owns an ordered list of per-page
//! frequency tables (a page slot may be empty), an aggregate table merging
//! all pages, and a running total token count; a `DocumentSet` is the
//! ordered, immutable-after-construction corpus of finished documents and
//! exposes the integer ingredients of TF-IDF scoring.

use vstd::prelude::*;

use crate::freq::zero_table;
use crate::freq::table_add;
use crate::freq::FrequencyTable;

verus! {

/// The counts one page slot contributes to a document: its table's counts,
/// or all zero for an empty slot.
pub open spec fn page_table(p: Option<FrequencyTable>) -> Map<Seq<char>, nat> {
    match p {
        Some(t) => t@,
        None => zero_table(),
    }
}

/// The tokens one page slot contributes to a document's total.
pub open spec fn page_total(p: Option<FrequencyTable>) -> nat {
    match p {
        Some(t) => t.spec_total(),
        None => 0,
    }
}

/// The aggregate counts of a sequence of page slots.
pub open spec fn pages_counts(ps: Seq<Option<FrequencyTable>>) -> Map<Seq<char>, nat>
    decreases ps.len(),
{
    if ps.len() == 0 {
        zero_table()
    } else {
        table_add(pages_counts(ps.drop_last()), page_table(ps.last()))
    }
}

/// The total token count of a sequence of page slots.
pub open spec fn pages_total(ps: Seq<Option<FrequencyTable>>) -> nat
    decreases ps.len(),
{
    if ps.len() == 0 {
        0
    } else {
        pages_total(ps.drop_last()) + page_total(ps.last())
    }
}

proof fn lemma_pages_counts_dom(ps: Seq<Option<FrequencyTable>>)
    ensures
        forall|t: Seq<char>| pages_counts(ps).dom().contains(t),
    decreases ps.len(),
{
    if ps.len() > 0 {
        lemma_pages_counts_dom(ps.drop_last());
    }
}

/// Struct representing the occurrences of words in a document.
/// The document is built up page by page as the external extractor supplies
/// page texts.
///
/// * `page_occurrences`: occurrences of words per-page
/// * `document_occurrences`: occurrences of words in a document
pub struct Document {
    page_occurrences: Vec<Option<FrequencyTable>>,
    document_occurrences: FrequencyTable,
    word_count: usize,
    file: String,
}

impl Document {
    /// The per-page tables, in push order.
    pub closed spec fn pages(self) -> Seq<Option<FrequencyTable>> {
        self.page_occurrences@
    }

    /// The aggregate counts over all pages.
    pub closed spec fn counts(self) -> Map<Seq<char>, nat> {
        self.document_occurrences@
    }

    /// The total number of token occurrences merged so far.
    pub closed spec fn total_tokens(self) -> nat {
        self.word_count as nat
    }

    /// The identifying label (source path) of the document.
    pub closed spec fn name(self) -> Seq<char> {
        self.file@
    }

    /// Well-formedness: the aggregate table's count for any token equals the
    /// sum of that token's counts across all page slots, and the running
    /// total equals the sum of all counts ever merged.
    pub closed spec fn wf(self) -> bool {
        &&& self.document_occurrences.wf()
        &&& forall|i: int|
            0 <= i < self.page_occurrences@.len() ==> ((#[trigger] self.page_occurrences@[i])
                matches Some(t) ==> t.wf())
        &&& self.counts() == pages_counts(self.pages())
        &&& self.word_count == pages_total(self.pages())
        &&& self.document_occurrences.spec_total() == self.word_count
    }

    /// A fresh, empty document labeled with its source path.
    pub fn new(fname: String) -> (r: Self)
        ensures
            r.wf(),
            r.pages() == Seq::<Option<FrequencyTable>>::empty(),
            r.counts() == zero_table(),
            r.total_tokens() == 0,
            r.name() == fname@,
    {
        let r = Self {
            document_occurrences: FrequencyTable::new(),
            page_occurrences: Vec::new(),
            word_count: 0,
            file: fname,
        };
        r
    }

    /// Add term frequency mapping for a page in the document
    ///
    /// * `page_occurrences`: term frequency mapping for the page. None if page has no words
    pub fn push_page(&mut self, page_occurrences: Option<FrequencyTable>)
        requires
            old(self).wf(),
            (page_occurrences matches Some(t) ==> t.wf() && old(self).total_tokens()
                + t.spec_total() <= usize::MAX),
        ensures
            final(self).wf(),
            final(self).pages() == old(self).pages().push(page_occurrences),
            final(self).counts() == table_add(old(self).counts(), page_table(page_occurrences)),
            final(self).total_tokens() == old(self).total_tokens() + page_total(
                page_occurrences,
            ),
            final(self).name() == old(self).name(),
    {
        let ghost ps0 = self.page_occurrences@;
        match page_occurrences {
            Some(tbl) => {
                self.word_count = self.word_count + tbl.total_count();
                self.document_occurrences.merge_from(&tbl);
                self.page_occurrences.push(Some(tbl));
            },
            None => {
                self.page_occurrences.push(None);
                proof {
                    lemma_pages_counts_dom(ps0);
                    crate::freq::lemma_table_add_zero(old(self).counts());
                }
            },
        }
        proof {
            assert(self.page_occurrences@.drop_last() =~= ps0);
            assert(self.page_occurrences@.last() == page_occurrences);
        }
    }

    /// get term occurrences in document
    ///
    /// Never fails, whatever the term: an unseen term has count zero.
    ///
    /// * `term`: term to compute frequency for
    pub fn occurrences(&self, term: &str) -> (r: usize)
        ensures
            r == self.counts()[term@],
    {
        self.document_occurrences.count(term)
    }

    /// The total number of token occurrences over all pushed pages.
    pub fn total_token_count(&self) -> (r: usize)
        ensures
            r == self.total_tokens(),
    {
        self.word_count
    }

    /// A document's token total always fits the machine word that stores it.
    pub proof fn lemma_total_fits(self)
        ensures
            self.total_tokens() <= usize::MAX,
    {
    }

    /// A document that received zero pages holds zero tokens and gives every
    /// term count zero.
    pub proof fn lemma_empty_document(self)
        requires
            self.wf(),
            self.pages().len() == 0,
        ensures
            self.total_tokens() == 0,
            self.counts() == zero_table(),
    {
    }
}

/// The recursive count of documents whose aggregate count for `t` is
/// positive, over a prefix of the corpus.
pub open spec fn df(docs: Seq<Document>, t: Seq<char>) -> nat
    decreases docs.len(),
{
    if docs.len() == 0 {
        0
    } else {
        df(docs.drop_last(), t) + if docs.last().counts()[t] > 0 {
            1 as nat
        } else {
            0 as nat
        }
    }
}

/// The document frequency of a term never exceeds the number of documents.
proof fn lemma_df_le_len(docs: Seq<Document>, t: Seq<char>)
    ensures
        df(docs, t) <= docs.len(),
    decreases docs.len(),
{
    if docs.len() > 0 {
        lemma_df_le_len(docs.drop_last(), t);
    }
}

/// The finished corpus: an ordered collection of documents, fixed at
/// construction.
pub struct DocumentSet {
    docs: Vec<Document>,
}

impl DocumentSet {
    /// The documents, in their corpus order.
    pub closed spec fn spec_docs(self) -> Seq<Document> {
        self.docs@
    }

    /// Assemble the corpus from the collected documents, keeping their order.
    pub fn new(docs: Vec<Document>) -> (r: Self)
        ensures
            r.spec_docs() == docs@,
    {
        Self { docs }
    }

    /// The number of documents in the corpus.
    pub fn len(&self) -> (r: usize)
        ensures
            r == self.spec_docs().len(),
    {
        self.docs.len()
    }

    /// The label of the document at `idx`.
    pub fn get_name(&self, idx: usize) -> (r: &str)
        requires
            idx < self.spec_docs().len(),
        ensures
            r@ == self.spec_docs()[idx as int].name(),
    {
        self.docs[idx].file.as_str()
    }

    /// The aggregate count of `term` in each document, in corpus order.
    pub fn occurrence_counts(&self, term: &str) -> (r: Vec<usize>)
        ensures
            r@.len() == self.spec_docs().len(),
            forall|i: int|
                0 <= i < r@.len() ==> r@[i] == self.spec_docs()[i].counts()[term@],
    {
        let n = self.docs.len();
        let mut out: Vec<usize> = Vec::new();
        let mut i: usize = 0;
        while i < n
            invariant
                i <= n,
                n == self.docs@.len(),
                out@.len() == i,
                forall|k: int| 0 <= k < i ==> out@[k] == self.docs@[k].counts()[term@],
            decreases n - i,
        {
            out.push(self.docs[i].occurrences(term));
            i += 1;
        }
        out
    }

    /// The total token count of each document, in corpus order.
    pub fn word_counts(&self) -> (r: Vec<usize>)
        ensures
            r@.len() == self.spec_docs().len(),
            forall|i: int| 0 <= i < r@.len() ==> r@[i] == self.spec_docs()[i].total_tokens(),
    {
        let n = self.docs.len();
        let mut out: Vec<usize> = Vec::new();
        let mut i: usize = 0;
        while i < n
            invariant
                i <= n,
                n == self.docs@.len(),
                out@.len() == i,
                forall|k: int| 0 <= k < i ==> out@[k] == self.docs@[k].total_tokens(),
            decreases n - i,
        {
            out.push(self.docs[i].total_token_count());
            i += 1;
        }
        out
    }

    /// The number of documents that contain `term` at least once. The result
    /// never exceeds the corpus size, so a smoothed inverse-document-frequency
    /// weight computed from it always has a positive, finite argument.
    pub fn doc_frequency(&self, term: &str) -> (r: usize)
        ensures
            r == df(self.spec_docs(), term@),
            r <= self.spec_docs().len(),
    {
        let n = self.docs.len();
        let mut count: usize = 0;
        let mut i: usize = 0;
        proof {
            assert(self.docs@.take(0) =~= Seq::<Document>::empty());
        }
        while i < n
            invariant
                i <= n,
                n == self.docs@.len(),
                count == df(self.docs@.take(i as int), term@),
                count <= i,
            decreases n - i,
        {
            proof {
                lemma_df_le_len(self.docs@.take(i as int), term@);
                assert(self.docs@.take(i as int + 1).drop_last() =~= self.docs@.take(i as int));
                assert(self.docs@.take(i as int + 1).last() == self.docs@[i as int]);
            }
            if self.docs[i].occurrences(term) > 0 {
                count = count + 1;
            }
            i += 1;
        }
        proof {
            assert(self.docs@.take(n as int) =~= self.docs@);
        }
        count
    }
}

} // verus!
