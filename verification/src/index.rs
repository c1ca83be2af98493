//! The per-file indexing pipeline: tokenize each extracted page text into a
//! frequency table, fold the pages into one document, and decide which files
//! are admitted at all. The surrounding program discovers files, extracts
//! page texts and runs the worker pool; everything that decides or computes
//! stands here.

use vstd::prelude::*;

use crate::document::page_table;
use crate::document::page_total;
use crate::document::Document;
use crate::freq::table_add;
use crate::freq::zero_table;
use crate::freq::FrequencyTable;
use crate::lexer::lex;
use crate::lexer::Lexer;

verus! {

/// How many times token `t` occurs in the token stream `tokens`.
pub open spec fn occ_count(tokens: Seq<Seq<char>>, t: Seq<char>) -> nat
    decreases tokens.len(),
{
    if tokens.len() == 0 {
        0
    } else {
        occ_count(tokens.drop_last(), t) + if tokens.last() == t {
            1 as nat
        } else {
            0 as nat
        }
    }
}

/// The frequency table of a page text: each token of its stream counted.
pub open spec fn text_table(s: Seq<char>) -> Map<Seq<char>, nat> {
    Map::new(|t: Seq<char>| true, |t: Seq<char>| occ_count(lex(s), t))
}

/// Count the term frequencies of one page's text.
pub fn page_counts(text: &str) -> (r: FrequencyTable)
    ensures
        r.wf(),
        r@ == text_table(text@),
        r.spec_total() == lex(text@).len(),
{
    let mut lexer = Lexer::new(text);
    let tokens = lexer.tokens();
    let ghost toks = lex(text@);
    proof {
        assert(tokens@.map_values(|t: String| t@) == toks);
        assert(tokens@.len() == toks.len());
    }
    let mut ret = FrequencyTable::new();
    let n = tokens.len();
    let mut i: usize = 0;
    proof {
        assert(toks.take(0) =~= Seq::<Seq<char>>::empty());
        assert(ret@ =~= Map::new(
            |t: Seq<char>| true,
            |t: Seq<char>| occ_count(toks.take(0), t),
        ));
    }
    while i < n
        invariant
            i <= n,
            n == tokens@.len(),
            tokens@.map_values(|t: String| t@) == toks,
            n == toks.len(),
            ret.wf(),
            ret.spec_total() == i,
            ret@ == Map::new(|t: Seq<char>| true, |t: Seq<char>| occ_count(toks.take(i as int), t)),
        decreases n - i,
    {
        let ghost pre = ret@;
        let tok = tokens[i].clone();
        proof {
            assert(tok@ == toks[i as int]);
        }
        ret.record(tok);
        proof {
            assert(toks.take(i as int + 1).drop_last() =~= toks.take(i as int));
            assert(toks.take(i as int + 1).last() == toks[i as int]);
            assert forall|t: Seq<char>| #[trigger] occ_count(toks.take(i as int + 1), t)
                == occ_count(toks.take(i as int), t) + (if toks[i as int] == t {
                1 as nat
            } else {
                0 as nat
            }) by {}
            assert(ret@ =~= Map::new(
                |t: Seq<char>| true,
                |t: Seq<char>| occ_count(toks.take(i as int + 1), t),
            ));
        }
        i += 1;
    }
    proof {
        assert(toks.take(n as int) =~= toks);
        assert(ret@ =~= text_table(text@));
    }
    ret
}

/// The admission rule for one file: a file whose page count exceeds the
/// configured threshold is skipped and produces no document.
pub fn within_threshold(num_pages: usize, thresh: usize) -> (r: bool)
    ensures
        r == (num_pages <= thresh),
{
    num_pages <= thresh
}

/// The counts one extracted page contributes: those of its text's token
/// stream, or all zero for a page with no extractable text.
pub open spec fn text_page_table(p: Option<String>) -> Map<Seq<char>, nat> {
    match p {
        Some(s) => text_table(s@),
        None => zero_table(),
    }
}

/// The tokens one extracted page contributes to the document total.
pub open spec fn text_page_total(p: Option<String>) -> nat {
    match p {
        Some(s) => lex(s@).len(),
        None => 0,
    }
}

/// The aggregate counts of a list of extracted page texts.
pub open spec fn texts_counts(ps: Seq<Option<String>>) -> Map<Seq<char>, nat>
    decreases ps.len(),
{
    if ps.len() == 0 {
        zero_table()
    } else {
        table_add(texts_counts(ps.drop_last()), text_page_table(ps.last()))
    }
}

/// The total token count of a list of extracted page texts.
pub open spec fn texts_total(ps: Seq<Option<String>>) -> nat
    decreases ps.len(),
{
    if ps.len() == 0 {
        0
    } else {
        texts_total(ps.drop_last()) + text_page_total(ps.last())
    }
}

/// Whether a stored page slot matches the extracted page it came from: a
/// text page carries its text's frequency table, an absent page an absent
/// slot.
pub open spec fn page_matches(slot: Option<FrequencyTable>, text: Option<String>) -> bool {
    match (slot, text) {
        (Some(tb), Some(s)) => tb.wf() && tb@ == text_table(s@) && tb.spec_total() == lex(
            s@,
        ).len(),
        (None, None) => true,
        _ => false,
    }
}

proof fn lemma_texts_total_split(ps: Seq<Option<String>>, j: int)
    requires
        0 <= j <= ps.len(),
    ensures
        texts_total(ps) == texts_total(ps.take(j)) + texts_total(ps.skip(j)),
    decreases ps.len(),
{
    if j == ps.len() {
        assert(ps.take(j) =~= ps);
        assert(ps.skip(j) =~= Seq::<Option<String>>::empty());
    } else {
        lemma_texts_total_split(ps.drop_last(), j);
        assert(ps.drop_last().take(j) =~= ps.take(j));
        assert(ps.skip(j).drop_last() =~= ps.drop_last().skip(j));
        assert(ps.skip(j).len() > 0);
        assert(ps.skip(j).last() == ps.last());
    }
}

/// Build one document from the pages the extractor produced for one file,
/// tokenizing each page text and folding the pages in order. Returns `None`
/// only if the file's total token count cannot be represented, in which case
/// no document is produced.
pub fn build_document(fname: String, pages: &Vec<Option<String>>) -> (r: Option<Document>)
    ensures
        match r {
            Some(d) => {
                &&& texts_total(pages@) <= usize::MAX
                &&& d.wf()
                &&& d.name() == fname@
                &&& d.pages().len() == pages@.len()
                &&& forall|i: int|
                    0 <= i < pages@.len() ==> page_matches(
                        #[trigger] d.pages()[i],
                        pages@[i],
                    )
                &&& d.total_tokens() == texts_total(pages@)
                &&& d.counts() == texts_counts(pages@)
            },
            None => texts_total(pages@) > usize::MAX,
        },
{
    let mut doc = Document::new(fname);
    let n = pages.len();
    let mut i: usize = 0;
    proof {
        assert(pages@.take(0) =~= Seq::<Option<String>>::empty());
        assert(doc.counts() =~= texts_counts(pages@.take(0)));
    }
    while i < n
        invariant
            i <= n,
            n == pages@.len(),
            doc.wf(),
            doc.name() == fname@,
            doc.pages().len() == i,
            forall|k: int|
                0 <= k < i ==> page_matches(#[trigger] doc.pages()[k], pages@[k]),
            doc.total_tokens() == texts_total(pages@.take(i as int)),
            doc.counts() == texts_counts(pages@.take(i as int)),
        decreases n - i,
    {
        let ghost prev_pages = doc.pages();
        proof {
            assert(pages@.take(i as int + 1).drop_last() =~= pages@.take(i as int));
            assert(pages@.take(i as int + 1).last() == pages@[i as int]);
        }
        let p = &pages[i];
        match p {
            Some(text) => {
                let tbl = page_counts(text.as_str());
                let page_tokens = tbl.total_count();
                if doc.total_token_count() <= usize::MAX - page_tokens {
                    proof {
                        assert(page_total(Some(tbl)) == text_page_total(pages@[i as int]));
                        assert(page_table(Some(tbl)) =~= text_page_table(pages@[i as int]));
                    }
                    doc.push_page(Some(tbl));
                } else {
                    proof {
                        lemma_texts_total_split(pages@, i as int + 1);
                        assert(texts_total(pages@.take(i as int + 1)) > usize::MAX);
                    }
                    return None;
                }
            },
            None => {
                proof {
                    assert(page_total(None::<FrequencyTable>) == 0);
                    assert(page_table(None::<FrequencyTable>) =~= text_page_table(
                        pages@[i as int],
                    ));
                }
                doc.push_page(None);
            },
        }
        proof {
            assert(forall|k: int|
                0 <= k < i ==> #[trigger] doc.pages()[k] == prev_pages[k]);
        }
        i += 1;
    }
    proof {
        assert(pages@.take(n as int) =~= pages@);
        doc.lemma_total_fits();
    }
    Some(doc)
}

} // verus!
