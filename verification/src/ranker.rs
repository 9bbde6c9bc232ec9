//! The ranker: for a query, the pages that hold one of its terms, with the
//! whole-number measures from which each page's score is computed, and the
//! choice of the best-scored pages.

use crate::clock::Timestamp;
use crate::inverted_index::{
    find as find_urls, post_pages, terms_of, urls_for, Posting, TermIndex,
};
use crate::snapshot::{encode, law_round_trip, parse, storable, Entry};
use crate::places::{lemma_first_after_push, lemma_place, places};
use crate::text::{lowercase, split_whitespace, tokens};
use crate::url_index::{
    entries_of, entry_of, find as find_page, lemma_put_all_distinct, lookup, put_all, urls_of,
    DocumentStore, FieldCount, IndexConfig, Node, Page,
};
use vstd::hash_map::StringHashMap;
use vstd::prelude::*;

verus! {

/// The weight of a match in the URL of a page.
pub const WEIGHT_URL: u8 = 8;

/// The weight of a match in the title.
pub const WEIGHT_TITLE: u8 = 6;

/// The weight of a match in the headings.
pub const WEIGHT_HEADINGS: u8 = 4;

/// The weight of a match in the highlighted text.
pub const WEIGHT_HIGHLIGHTED: u8 = 2;

/// The weight of a match in the content.
pub const WEIGHT_CONTENT: u8 = 1;

/// The measures of one field of one page for one term, from which the
/// field's score is computed.
#[derive(Clone, Copy, Debug, PartialEq, Eq, Structural)]
pub struct FieldMeasure {
    /// The weight of the field.
    pub weight: u8,
    /// How often the term stands among the words of the field.
    pub occurrences: u64,
    /// The length of the field in characters.
    pub length: u64,
    /// The mean length of this field over all inserts, rounded down.
    pub average_length: u64,
    /// The number of inserts.
    pub total_docs: u64,
    /// The number of URLs under the term.
    pub docs_with_term: u64,
}

/// The measures of the five fields of one page for one term.
#[derive(Clone, Copy, Debug, PartialEq, Eq, Structural)]
pub struct TermMatch {
    pub url: FieldMeasure,
    pub title: FieldMeasure,
    pub headings: FieldMeasure,
    pub highlighted: FieldMeasure,
    pub content: FieldMeasure,
}

/// How often `query` stands among `words`.
pub open spec fn occurrences(words: Seq<Seq<char>>, query: Seq<char>) -> nat
    decreases words.len(),
{
    if words.len() == 0 {
        0
    } else {
        occurrences(words.drop_last(), query) + if words.last() == query {
            1nat
        } else {
            0nat
        }
    }
}

/// The measures of a field with the text `document` for the term `query`,
/// where the field has the summed length `total_len` over `total_count`
/// inserts and `with_term` URLs stand under the term.
pub open spec fn measure(
    weight: u8,
    document: Seq<char>,
    query: Seq<char>,
    total_len: u64,
    total_count: u64,
    with_term: u64,
) -> FieldMeasure {
    FieldMeasure {
        weight,
        occurrences: occurrences(tokens(document), query) as u64,
        length: document.len() as u64,
        average_length: total_len / total_count,
        total_docs: total_count,
        docs_with_term: with_term,
    }
}

/// There are no more words than characters.
pub proof fn lemma_tokens_len(s: Seq<char>)
    ensures
        tokens(s).len() <= s.len(),
    decreases s.len(),
{
    if s.len() > 0 {
        lemma_tokens_len(s.drop_last());
    }
}

/// A term stands no more often among the words than there are words.
pub proof fn lemma_occurrences_len(words: Seq<Seq<char>>, query: Seq<char>)
    ensures
        occurrences(words, query) <= words.len(),
    decreases words.len(),
{
    if words.len() > 0 {
        lemma_occurrences_len(words.drop_last(), query);
    }
}

/// Counts how often `query` stands among the words of `document`.
pub fn count_occurrences(document: &str, query: &str) -> (r: u64)
    ensures
        r == occurrences(tokens(document@), query@),
{
    let words = split_whitespace(document);
    let wanted = query.to_owned();
    let ghost all = words.deep_view();
    let mut count: u64 = 0;
    let mut i: usize = 0;
    while i < words.len()
        invariant
            i <= words.len(),
            all == words.deep_view(),
            wanted@ == query@,
            count == occurrences(all.take(i as int), query@),
            count <= i,
        decreases words.len() - i,
    {
        assert(all.take(i + 1).drop_last() =~= all.take(i as int));
        assert(all.take(i + 1).last() == words[i as int]@);
        if words[i] == wanted {
            count += 1;
        }
        i += 1;
    }
    assert(all.take(words.len() as int) =~= all);
    count
}

/// Takes the measures of one field for one term.
pub fn get_score_helper(
    weight: u8,
    document: &str,
    query: &str,
    total_doc_len: u64,
    total_doc_count: u64,
    total_query_count_doc: u64,
) -> (r: FieldMeasure)
    requires
        total_doc_count > 0,
    ensures
        r == measure(
            weight,
            document@,
            query@,
            total_doc_len,
            total_doc_count,
            total_query_count_doc,
        ),
{
    proof {
        lemma_tokens_len(document@);
        lemma_occurrences_len(tokens(document@), query@);
    }
    FieldMeasure {
        weight,
        occurrences: count_occurrences(document, query),
        length: document.unicode_len() as u64,
        average_length: total_doc_len / total_doc_count,
        total_docs: total_doc_count,
        docs_with_term: total_query_count_doc,
    }
}

/// The measures of the five fields of `page` for `term`.
pub open spec fn term_match(page: Page, term: Seq<char>, totals: IndexConfig, with_term: u64) -> TermMatch {
    let n = totals.total_count;
    TermMatch {
        url: measure(WEIGHT_URL, page.url, term, totals.field_count.url, n, with_term),
        title: measure(WEIGHT_TITLE, page.title, term, totals.field_count.title, n, with_term),
        headings: measure(
            WEIGHT_HEADINGS,
            page.headings,
            term,
            totals.field_count.headings,
            n,
            with_term,
        ),
        highlighted: measure(
            WEIGHT_HIGHLIGHTED,
            page.highlighted,
            term,
            totals.field_count.highlighted,
            n,
            with_term,
        ),
        content: measure(WEIGHT_CONTENT, page.content, term, totals.field_count.content, n, with_term),
    }
}

/// Takes the measures of the five fields of a page for one term.
pub fn match_page(node: &Node, term: &str, totals: &IndexConfig, with_term: u64) -> (r: TermMatch)
    requires
        totals.total_count > 0,
    ensures
        r == term_match(node@, term@, *totals, with_term),
{
    let n = totals.total_count;
    TermMatch {
        url: get_score_helper(WEIGHT_URL, node.url.as_str(), term, totals.field_count.url, n, with_term),
        title: get_score_helper(
            WEIGHT_TITLE,
            node.title.as_str(),
            term,
            totals.field_count.title,
            n,
            with_term,
        ),
        headings: get_score_helper(
            WEIGHT_HEADINGS,
            node.headings.as_str(),
            term,
            totals.field_count.headings,
            n,
            with_term,
        ),
        highlighted: get_score_helper(
            WEIGHT_HIGHLIGHTED,
            node.highlighted.as_str(),
            term,
            totals.field_count.highlighted,
            n,
            with_term,
        ),
        content: get_score_helper(
            WEIGHT_CONTENT,
            node.content.as_str(),
            term,
            totals.field_count.content,
            n,
            with_term,
        ),
    }
}

/// A page that holds a term of the query, with its measures for each term
/// of the query under which it stands, in the order of the query.
pub struct Candidate {
    pub url: String,
    pub title: String,
    pub matches: Vec<TermMatch>,
}

/// The value of a candidate.
pub ghost struct Tally {
    pub url: Seq<char>,
    pub title: Seq<char>,
    pub matches: Seq<TermMatch>,
}

impl View for Candidate {
    type V = Tally;

    open spec fn view(&self) -> Tally {
        Tally { url: self.url@, title: self.title@, matches: self.matches@ }
    }
}

impl DeepView for Candidate {
    type V = Tally;

    open spec fn deep_view(&self) -> Tally {
        self@
    }
}

impl Candidate {
    /// The number of terms of the query under which the page stands, a term
    /// that the query repeats counted each time.
    pub fn hit_count(&self) -> (r: usize)
        ensures
            r == self@.matches.len(),
    {
        self.matches.len()
    }
}

/// The URLs of a sequence of tallies.
pub open spec fn tally_urls(tallies: Seq<Tally>) -> Seq<Seq<char>> {
    tallies.map_values(|t: Tally| t.url)
}

/// The tallies after one more match of `page`: its measures come last in
/// the tally of its URL, and a page that is new comes last, with its title.
pub open spec fn tally_match(tallies: Seq<Tally>, page: Page, m: TermMatch) -> Seq<Tally> {
    match tally_urls(tallies).index_of_first(page.url) {
        Some(i) => tallies.update(
            i,
            Tally { url: tallies[i].url, title: tallies[i].title, matches: tallies[i].matches.push(m) },
        ),
        None => tallies.push(Tally { url: page.url, title: page.title, matches: seq![m] }),
    }
}

/// The tallies after the pages of `urls` are matched with `term`, in order;
/// a URL of which there is no page is passed over.
pub open spec fn tally_posting(
    tallies: Seq<Tally>,
    pages: Seq<Page>,
    urls: Seq<Seq<char>>,
    term: Seq<char>,
    totals: IndexConfig,
    with_term: u64,
) -> Seq<Tally>
    decreases urls.len(),
{
    if urls.len() == 0 {
        tallies
    } else {
        let before = tally_posting(tallies, pages, urls.drop_last(), term, totals, with_term);
        match lookup(pages, urls.last()) {
            Some(page) => tally_match(before, page, term_match(page, term, totals, with_term)),
            None => before,
        }
    }
}

/// The tallies after each of `terms` is looked up, in order, and the pages
/// under it are matched with it.
pub open spec fn tally_terms(
    pages: Seq<Page>,
    postings: Seq<Posting>,
    terms: Seq<Seq<char>>,
    totals: IndexConfig,
) -> Seq<Tally>
    decreases terms.len(),
{
    if terms.len() == 0 {
        Seq::empty()
    } else {
        let urls = urls_for(postings, terms.last());
        tally_posting(
            tally_terms(pages, postings, terms.drop_last(), totals),
            pages,
            urls,
            terms.last(),
            totals,
            urls.len() as u64,
        )
    }
}

/// The candidates of a query with the given terms: none before the first
/// insert, else the tallies of its terms.
pub open spec fn candidates_of(
    pages: Seq<Page>,
    postings: Seq<Posting>,
    terms: Seq<Seq<char>>,
    totals: IndexConfig,
) -> Seq<Tally> {
    if totals.total_count == 0 {
        Seq::empty()
    } else {
        tally_terms(pages, postings, terms, totals)
    }
}

/// How many matches the tally of `url` holds; none where there is no such
/// tally.
pub open spec fn hits(tallies: Seq<Tally>, url: Seq<char>) -> nat {
    match tally_urls(tallies).index_of_first(url) {
        Some(i) => tallies[i].matches.len(),
        None => 0,
    }
}

/// How often `url` stands in `urls`.
pub open spec fn times(urls: Seq<Seq<char>>, url: Seq<char>) -> nat
    decreases urls.len(),
{
    if urls.len() == 0 {
        0
    } else {
        times(urls.drop_last(), url) + if urls.last() == url {
            1nat
        } else {
            0nat
        }
    }
}

/// How often `url` stands under the terms of a query, a term that the query
/// repeats counted each time.
pub open spec fn postings_with(postings: Seq<Posting>, terms: Seq<Seq<char>>, url: Seq<char>) -> nat
    decreases terms.len(),
{
    if terms.len() == 0 {
        0
    } else {
        postings_with(postings, terms.drop_last(), url) + times(
            urls_for(postings, terms.last()),
            url,
        )
    }
}

/// Whether `url` stands under one of the terms.
pub open spec fn posted(postings: Seq<Posting>, terms: Seq<Seq<char>>, url: Seq<char>) -> bool {
    exists|k: int| 0 <= k < terms.len() && urls_for(postings, #[trigger] terms[k]).contains(url)
}

/// One more match of a page adds one to the matches of its URL, makes it a
/// candidate where it was none, and touches no other candidate.
pub proof fn lemma_tally_match(tallies: Seq<Tally>, page: Page, m: TermMatch, u: Seq<char>)
    requires
        tally_urls(tallies).no_duplicates(),
    ensures
        tally_urls(tally_match(tallies, page, m)).no_duplicates(),
        tally_urls(tally_match(tallies, page, m)).contains(u) <==> tally_urls(tallies).contains(u)
            || u == page.url,
        hits(tally_match(tallies, page, m), u) == hits(tallies, u) + if u == page.url {
            1nat
        } else {
            0nat
        },
{
    let urls = tally_urls(tallies);
    let after = tally_match(tallies, page, m);
    urls.index_of_first_ensures(page.url);
    urls.index_of_first_ensures(u);
    match urls.index_of_first(page.url) {
        Some(i) => {
            assert(tally_urls(after) =~= urls);
            if u == page.url {
                assert(urls.contains(u));
            }
        },
        None => {
            assert(tally_urls(after) =~= urls.push(page.url));
            lemma_first_after_push(urls, page.url, u);
        },
    }
}

/// What the pages under one term add to the tallies.
pub proof fn lemma_tally_posting(
    tallies: Seq<Tally>,
    pages: Seq<Page>,
    urls: Seq<Seq<char>>,
    term: Seq<char>,
    totals: IndexConfig,
    with_term: u64,
    u: Seq<char>,
)
    requires
        tally_urls(tallies).no_duplicates(),
    ensures
        ({
            let after = tally_posting(tallies, pages, urls, term, totals, with_term);
            &&& tally_urls(after).no_duplicates()
            &&& tally_urls(after).contains(u) <==> tally_urls(tallies).contains(u) || (urls.contains(u)
                && lookup(pages, u) is Some)
            &&& hits(after, u) == hits(tallies, u) + if lookup(pages, u) is Some {
                times(urls, u)
            } else {
                0nat
            }
        }),
    decreases urls.len(),
{
    if urls.len() > 0 {
        let head = urls.drop_last();
        let last = urls.last();
        let before = tally_posting(tallies, pages, head, term, totals, with_term);
        lemma_tally_posting(tallies, pages, head, term, totals, with_term, u);
        urls_of(pages).index_of_first_ensures(last);
        match lookup(pages, last) {
            Some(page) => {
                assert(page.url == last);
                lemma_tally_match(before, page, term_match(page, term, totals, with_term), u);
            },
            None => {},
        }
        if head.contains(u) {
            let k = choose|k: int| 0 <= k < head.len() && head[k] == u;
            assert(urls[k] == u);
        }
        if urls.contains(u) {
            let k = choose|k: int| 0 <= k < urls.len() && urls[k] == u;
            if k < head.len() {
                assert(head[k] == u);
            }
        }
        assert(urls[urls.len() - 1] == last);
    }
}

/// The candidates of a query are the pages whose URL stands under one of
/// its terms, each once; a candidate holds one match for each time its URL
/// stands under a term of the query.
pub proof fn law_candidates(
    pages: Seq<Page>,
    postings: Seq<Posting>,
    terms: Seq<Seq<char>>,
    totals: IndexConfig,
    u: Seq<char>,
)
    ensures
        ({
            let found = tally_terms(pages, postings, terms, totals);
            &&& tally_urls(found).no_duplicates()
            &&& tally_urls(found).contains(u) <==> posted(postings, terms, u) && lookup(pages, u) is Some
            &&& hits(found, u) == if lookup(pages, u) is Some {
                postings_with(postings, terms, u)
            } else {
                0nat
            }
        }),
    decreases terms.len(),
{
    let found = tally_terms(pages, postings, terms, totals);
    if terms.len() == 0 {
        assert(tally_urls(found) =~= Seq::<Seq<char>>::empty());
        tally_urls(found).index_of_first_ensures(u);
    } else {
        let head = terms.drop_last();
        let last = terms.last();
        let urls = urls_for(postings, last);
        law_candidates(pages, postings, head, totals, u);
        lemma_tally_posting(
            tally_terms(pages, postings, head, totals),
            pages,
            urls,
            last,
            totals,
            urls.len() as u64,
            u,
        );
        if posted(postings, head, u) {
            let k = choose|k: int|
                0 <= k < head.len() && urls_for(postings, #[trigger] head[k]).contains(u);
            assert(terms[k] == head[k]);
        }
        if urls.contains(u) {
            assert(urls_for(postings, terms[terms.len() - 1]).contains(u));
        }
        if posted(postings, terms, u) {
            let k = choose|k: int|
                0 <= k < terms.len() && urls_for(postings, #[trigger] terms[k]).contains(u);
            if k < head.len() {
                assert(head[k] == terms[k]);
            }
        }
    }
}

/// The instants of the pages do not count for the candidates of a query:
/// pages with the same texts give the same candidates.
pub proof fn lemma_candidates_ignore_instants(
    pages: Seq<Page>,
    others: Seq<Page>,
    postings: Seq<Posting>,
    terms: Seq<Seq<char>>,
    totals: IndexConfig,
)
    requires
        entries_of(pages) == entries_of(others),
    ensures
        tally_terms(pages, postings, terms, totals) == tally_terms(others, postings, terms, totals),
    decreases terms.len(),
{
    if terms.len() > 0 {
        lemma_candidates_ignore_instants(pages, others, postings, terms.drop_last(), totals);
        let urls = urls_for(postings, terms.last());
        lemma_posting_ignores_instants(
            tally_terms(pages, postings, terms.drop_last(), totals),
            pages,
            others,
            urls,
            terms.last(),
            totals,
            urls.len() as u64,
        );
    }
}

/// The same for the pages under one term.
proof fn lemma_posting_ignores_instants(
    tallies: Seq<Tally>,
    pages: Seq<Page>,
    others: Seq<Page>,
    urls: Seq<Seq<char>>,
    term: Seq<char>,
    totals: IndexConfig,
    with_term: u64,
)
    requires
        entries_of(pages) == entries_of(others),
    ensures
        tally_posting(tallies, pages, urls, term, totals, with_term) == tally_posting(
            tallies,
            others,
            urls,
            term,
            totals,
            with_term,
        ),
    decreases urls.len(),
{
    if urls.len() > 0 {
        lemma_posting_ignores_instants(
            tallies,
            pages,
            others,
            urls.drop_last(),
            term,
            totals,
            with_term,
        );
        assert(pages.len() == entries_of(pages).len() && others.len() == entries_of(others).len());
        assert forall|i: int| 0 <= i < pages.len() implies entry_of(pages[i]) == entry_of(
            others[i],
        ) by {
            assert(entries_of(pages)[i] == entry_of(pages[i]));
            assert(entries_of(others)[i] == entry_of(others[i]));
        }
        assert(urls_of(pages) =~= urls_of(others)) by {
            assert forall|i: int| 0 <= i < pages.len() implies urls_of(pages)[i] == urls_of(
                others,
            )[i] by {
                assert(entry_of(pages[i]).url == entry_of(others[i]).url);
            }
        }
        urls_of(pages).index_of_first_ensures(urls.last());
    }
}

/// A search after a reload finds what it found before. Pages with different
/// URLs that a snapshot can hold are each inserted once into an empty store
/// and an empty index; the snapshot of the store is then loaded into another
/// empty store and replayed into another empty index. Every query has the
/// same candidates there, in the same order and with the same measures, so
/// that one scoring gives the same results.
pub proof fn law_reload_same_candidates(
    entries: Seq<Entry>,
    first: Seq<Timestamp>,
    later: Seq<Timestamp>,
    terms: Seq<Seq<char>>,
)
    requires
        entries.map_values(|e: Entry| e.url).no_duplicates(),
        forall|i: int| 0 <= i < entries.len() ==> storable(#[trigger] entries[i]),
    ensures
        ({
            let none = IndexConfig {
                total_count: 0,
                field_count: FieldCount { url: 0, title: 0, headings: 0, highlighted: 0, content: 0 },
            };
            let pages = put_all(Seq::empty(), entries, first);
            let reloaded = parse(encode(entries_of(pages)));
            candidates_of(
                put_all(Seq::empty(), reloaded, later),
                post_pages(Seq::empty(), reloaded),
                terms,
                none.counted_all(reloaded),
            ) == candidates_of(
                pages,
                post_pages(Seq::empty(), entries),
                terms,
                none.counted_all(entries),
            )
        }),
{
    let pages = put_all(Seq::empty(), entries, first);
    lemma_put_all_distinct(entries, first);
    lemma_put_all_distinct(entries, later);
    assert(entries_of(pages) =~= entries);
    law_round_trip(entries);
    let others = put_all(Seq::empty(), entries, later);
    assert(entries_of(others) =~= entries);
    let none = IndexConfig {
        total_count: 0,
        field_count: FieldCount { url: 0, title: 0, headings: 0, highlighted: 0, content: 0 },
    };
    lemma_candidates_ignore_instants(
        others,
        pages,
        post_pages(Seq::empty(), entries),
        terms,
        none.counted_all(entries),
    );
}

/// The candidates found so far, with the place of each URL among them.
struct Board {
    slots: StringHashMap<usize>,
    rows: Vec<Candidate>,
}

impl Board {
    spec fn tallies(&self) -> Seq<Tally> {
        self.rows.deep_view()
    }

    spec fn wf(&self) -> bool {
        &&& forall|i: int|
            0 <= i < self.rows@.len() ==> self.slots@.contains_key((#[trigger] self.rows@[i]).url@)
                && self.slots@[self.rows@[i].url@] == i
        &&& forall|k: Seq<char>| #[trigger]
            self.slots@.contains_key(k) ==> self.slots@[k] < self.rows@.len()
                && self.rows@[self.slots@[k] as int].url@ == k
    }

    proof fn lemma_slot(&self, url: Seq<char>)
        requires
            self.wf(),
        ensures
            tally_urls(self.tallies()).index_of_first(url) == if self.slots@.contains_key(url) {
                Some(self.slots@[url] as int)
            } else {
                None
            },
    {
        let urls = tally_urls(self.tallies());
        assert forall|i: int| 0 <= i < urls.len() implies urls[i] == self.rows@[i].url@ by {}
        assert(places(self.slots@, urls));
        lemma_place(self.slots@, urls, url);
    }

    fn new() -> (r: Board)
        ensures
            r.wf(),
            r.tallies() == Seq::<Tally>::empty(),
    {
        let r = Board { slots: StringHashMap::new(), rows: Vec::new() };
        assert(r.tallies() =~= Seq::<Tally>::empty());
        r
    }

    fn record(&mut self, node: &Node, m: TermMatch)
        requires
            old(self).wf(),
        ensures
            final(self).wf(),
            final(self).tallies() == tally_match(old(self).tallies(), node@, m),
    {
        proof {
            self.lemma_slot(node.url@);
        }
        let ghost before = self.tallies();
        let found = match self.slots.get(node.url.as_str()) {
            Some(i) => Some(*i),
            None => None,
        };
        match found {
            Some(i) => {
                let ghost row = before[i as int];
                self.rows[i].matches.push(m);
                assert(self.tallies() =~= before.update(
                    i as int,
                    Tally { url: row.url, title: row.title, matches: row.matches.push(m) },
                ));
            },
            None => {
                let n = self.rows.len();
                self.slots.insert(node.url.clone(), n);
                let mut matches: Vec<TermMatch> = Vec::new();
                matches.push(m);
                self.rows.push(Candidate { url: node.url.clone(), title: node.title.clone(), matches });
                assert(matches@ =~= seq![m]);
                assert(self.tallies() =~= before.push(
                    Tally { url: node.url@, title: node.title@, matches: seq![m] },
                ));
            },
        }
    }
}

/// Finds the candidates of a query that is in lower case already.
pub fn tally_lowered(store: &DocumentStore, index: &TermIndex, lowered: &str) -> (r: Vec<Candidate>)
    requires
        store.wf(),
        index.wf(),
    ensures
        r.deep_view() == candidates_of(
            store.pages(),
            index.postings(),
            tokens(lowered@),
            store.totals(),
        ),
{
    let totals = store.config();
    if totals.total_count == 0 {
        let none: Vec<Candidate> = Vec::new();
        assert(none.deep_view() =~= Seq::<Tally>::empty());
        return none;
    }
    let words = split_whitespace(lowered);
    let ghost terms = words.deep_view();
    let mut board = Board::new();
    let mut i: usize = 0;
    while i < words.len()
        invariant
            i <= words.len(),
            store.wf(),
            index.wf(),
            board.wf(),
            terms == words.deep_view(),
            *totals == store.totals(),
            totals.total_count > 0,
            board.tallies() == tally_terms(
                store.pages(),
                index.postings(),
                terms.take(i as int),
                store.totals(),
            ),
        decreases words.len() - i,
    {
        assert(terms.take(i + 1).drop_last() =~= terms.take(i as int));
        assert(terms.take(i + 1).last() == words[i as int]@);
        let word = words[i].as_str();
        proof {
            terms_of(index.postings()).index_of_first_ensures(word@);
        }
        match find_urls(index, word) {
            Some(urls) => {
                let with_term = urls.len() as u64;
                let ghost start = board.tallies();
                let ghost listed = urls.deep_view();
                let mut j: usize = 0;
                while j < urls.len()
                    invariant
                        j <= urls.len(),
                        store.wf(),
                        board.wf(),
                        listed == urls.deep_view(),
                        *totals == store.totals(),
                        totals.total_count > 0,
                        board.tallies() == tally_posting(
                            start,
                            store.pages(),
                            listed.take(j as int),
                            word@,
                            store.totals(),
                            with_term,
                        ),
                    decreases urls.len() - j,
                {
                    assert(listed.take(j + 1).drop_last() =~= listed.take(j as int));
                    assert(listed.take(j + 1).last() == urls[j as int]@);
                    match find_page(store, urls[j].as_str()) {
                        Some(node) => {
                            let m = match_page(node, word, totals, with_term);
                            board.record(node, m);
                        },
                        None => {},
                    }
                    j += 1;
                }
                assert(listed.take(urls.len() as int) =~= listed);
            },
            None => {},
        }
        i += 1;
    }
    assert(terms.take(words.len() as int) =~= terms);
    board.rows
}

/// Finds the candidates of a query: the pages under one of its words, taken
/// in lower case, each with its measures for each such word.
pub fn get_text_by_scoring_helper(store: &DocumentStore, index: &TermIndex, text: &str) -> (r: Vec<
    Candidate,
>)
    requires
        store.wf(),
        index.wf(),
    ensures
        r.deep_view() == candidates_of(
            store.pages(),
            index.postings(),
            tokens(lowercase(text@)),
            store.totals(),
        ),
{
    let lowered = text.to_lowercase();
    tally_lowered(store, index, lowered.as_str())
}

/// A page with its score. The score is a whole number by which results are
/// ordered; a caller that scores in floating point hands over, for a score
/// that is not negative, its bit pattern, which is ordered as the scores are.
pub struct ResultScore {
    pub url: String,
    pub title: String,
    pub score: u64,
}

/// The value of a scored page.
pub ghost struct Scored {
    pub url: Seq<char>,
    pub title: Seq<char>,
    pub score: u64,
}

impl View for ResultScore {
    type V = Scored;

    open spec fn view(&self) -> Scored {
        Scored { url: self.url@, title: self.title@, score: self.score }
    }
}

impl DeepView for ResultScore {
    type V = Scored;

    open spec fn deep_view(&self) -> Scored {
        self@
    }
}

impl Clone for ResultScore {
    fn clone(&self) -> (r: ResultScore)
        ensures
            r@ == self@,
    {
        ResultScore { url: self.url.clone(), title: self.title.clone(), score: self.score }
    }
}

/// Whether no item has a higher score than one before it.
pub open spec fn non_increasing(items: Seq<Scored>) -> bool {
    forall|i: int, j: int| 0 <= i <= j < items.len() ==> items[i].score >= items[j].score
}

/// The place of a new item with the given score among `items`: just behind
/// the last item whose score is not lower.
pub open spec fn slot(items: Seq<Scored>, score: u64) -> int
    decreases items.len(),
{
    if items.len() == 0 {
        0
    } else if items.last().score >= score {
        items.len() as int
    } else {
        slot(items.drop_last(), score)
    }
}

/// The items in the order of their scores, the highest first; of two items
/// with the same score the one that came first stays first.
pub open spec fn ranked(items: Seq<Scored>) -> Seq<Scored>
    decreases items.len(),
{
    if items.len() == 0 {
        Seq::empty()
    } else {
        let before = ranked(items.drop_last());
        before.insert(slot(before, items.last().score), items.last())
    }
}

/// The `k` best-scored items, or all of them where there are fewer.
pub open spec fn best(items: Seq<Scored>, k: int) -> Seq<Scored> {
    ranked(items).take(if k <= items.len() {
        k
    } else {
        items.len() as int
    })
}

/// What marks the place of a new item.
pub proof fn lemma_slot(items: Seq<Scored>, score: u64)
    ensures
        0 <= slot(items, score) <= items.len(),
        forall|j: int| slot(items, score) <= j < items.len() ==> items[j].score < score,
        slot(items, score) > 0 ==> items[slot(items, score) - 1].score >= score,
    decreases items.len(),
{
    if items.len() > 0 && items.last().score < score {
        let head = items.drop_last();
        lemma_slot(head, score);
        assert forall|j: int| slot(items, score) <= j < items.len() implies items[j].score
            < score by {
            if j < head.len() {
                assert(items[j] == head[j]);
            }
        }
    }
}

/// The place of a new item is the only place with these marks.
pub proof fn lemma_slot_unique(items: Seq<Scored>, score: u64, p: int)
    requires
        0 <= p <= items.len(),
        forall|j: int| p <= j < items.len() ==> items[j].score < score,
        p > 0 ==> items[p - 1].score >= score,
    ensures
        slot(items, score) == p,
{
    lemma_slot(items, score);
    let q = slot(items, score);
    if q < p {
        assert(items[p - 1].score < score);
    } else if q > p {
        assert(items[q - 1].score < score);
    }
}

/// Ranking keeps every item and puts the scores in order.
pub proof fn lemma_ranked(items: Seq<Scored>)
    ensures
        ranked(items).len() == items.len(),
        non_increasing(ranked(items)),
        ranked(items).to_multiset() == items.to_multiset(),
    decreases items.len(),
{
    broadcast use vstd::seq_lib::group_to_multiset_ensures;

    if items.len() > 0 {
        let before = ranked(items.drop_last());
        let x = items.last();
        let p = slot(before, x.score);
        lemma_ranked(items.drop_last());
        lemma_slot(before, x.score);
        let after = before.insert(p, x);
        assert forall|i: int, j: int| 0 <= i <= j < after.len() implies after[i].score
            >= after[j].score by {
            if i < p && j >= p {
                assert(before[i].score >= before[p - 1].score);
            }
        }
        assert(items.drop_last().push(x) =~= items);
        assert(after.to_multiset() =~= before.to_multiset().insert(x)) by {
            before.to_multiset_ensures();
            vstd::seq_lib::lemma_multiset_commutative(before.take(p), before.skip(p));
            vstd::seq_lib::lemma_multiset_commutative(before.take(p).push(x), before.skip(p));
            assert(before.take(p) + before.skip(p) =~= before);
            assert(before.take(p).push(x) + before.skip(p) =~= after);
            before.take(p).to_multiset_ensures();
        }
    }
}

/// Chooses the `top_k` best-scored results, the best first.
pub fn get_top_k_filterd(url_results: Vec<ResultScore>, top_k: u8) -> (r: Vec<ResultScore>)
    ensures
        r.deep_view() == best(url_results.deep_view(), top_k as int),
        r.len() <= top_k,
        r.len() <= url_results.len(),
        non_increasing(r.deep_view()),
{
    let k = top_k as usize;
    let ghost items = url_results.deep_view();
    let mut kept: Vec<ResultScore> = Vec::new();
    let mut i: usize = 0;
    assert(kept.deep_view() =~= best(items.take(0), k as int));
    while i < url_results.len()
        invariant
            i <= url_results.len(),
            k == top_k,
            items == url_results.deep_view(),
            kept.deep_view() == best(items.take(i as int), k as int),
        decreases url_results.len() - i,
    {
        let x = url_results[i].clone();
        let ghost full = ranked(items.take(i as int));
        let ghost held = kept.deep_view();
        proof {
            lemma_ranked(items.take(i as int));
            lemma_slot(full, x.score);
            assert(items.take(i + 1).drop_last() =~= items.take(i as int));
            assert(items.take(i + 1).last() == x@);
        }
        let mut p: usize = kept.len();
        while p > 0 && kept[p - 1].score < x.score
            invariant
                p <= kept.len(),
                held == kept.deep_view(),
                forall|j: int| p <= j < held.len() ==> held[j].score < x.score,
            decreases p,
        {
            p -= 1;
        }
        proof {
            lemma_slot_unique(held, x.score, p as int);
            let place = slot(full, x.score);
            if place <= held.len() {
                lemma_slot_unique(held, x.score, place);
            } else {
                lemma_slot_unique(held, x.score, held.len() as int);
            }
        }
        if p < k {
            kept.insert(p, x);
            assert(kept.deep_view() =~= held.insert(p as int, x@));
            if kept.len() > k {
                kept.pop();
                assert(kept.deep_view() =~= held.insert(p as int, x@).take(k as int));
            }
            assert(kept.deep_view() =~= best(items.take(i + 1), k as int));
        } else {
            assert(kept.deep_view() =~= best(items.take(i + 1), k as int));
        }
        i += 1;
    }
    proof {
        assert(items.take(url_results.len() as int) =~= items);
        lemma_ranked(items);
    }
    kept
}

/// The values of a sequence of candidates.
pub open spec fn tallies_of(candidates: Seq<Candidate>) -> Seq<Tally> {
    candidates.map_values(|c: Candidate| c@)
}

/// The candidates with the given scores, as results.
pub open spec fn scored(tallies: Seq<Tally>, scores: Seq<u64>) -> Seq<Scored> {
    Seq::new(
        tallies.len(),
        |i: int| (Scored { url: tallies[i].url, title: tallies[i].title, score: scores[i] }),
    )
}

/// Scores each candidate with `score` and chooses the `top_k` best-scored,
/// the best first.
pub fn rank_candidates<F: Fn(&Candidate) -> u64>(candidates: &Vec<Candidate>, top_k: u8, score: &F) -> (r:
    Vec<ResultScore>)
    requires
        forall|c: &Candidate| #[trigger] score.requires((c,)),
    ensures
        exists|scores: Seq<u64>|
            {
                &&& scores.len() == candidates.len()
                &&& forall|i: int|
                    0 <= i < candidates.len() ==> score.ensures((&candidates[i],), #[trigger] scores[i])
                &&& r.deep_view() == best(#[trigger] scored(candidates.deep_view(), scores), top_k as int)
            },
        r.len() <= top_k,
        r.len() <= candidates.len(),
        non_increasing(r.deep_view()),
{
    let mut results: Vec<ResultScore> = Vec::new();
    let ghost mut scores: Seq<u64> = Seq::empty();
    let mut i: usize = 0;
    assert(results.deep_view() =~= scored(candidates.deep_view().take(0), scores));
    while i < candidates.len()
        invariant
            i <= candidates.len(),
            forall|c: &Candidate| #[trigger] score.requires((c,)),
            scores.len() == i,
            forall|j: int| 0 <= j < i ==> score.ensures((&candidates[j],), #[trigger] scores[j]),
            results.deep_view() == scored(candidates.deep_view().take(i as int), scores),
        decreases candidates.len() - i,
    {
        let candidate = &candidates[i];
        let value = score(candidate);
        let ghost before = results.deep_view();
        results.push(
            ResultScore { url: candidate.url.clone(), title: candidate.title.clone(), score: value },
        );
        proof {
            let earlier = scores;
            let all = candidates.deep_view();
            scores = scores.push(value);
            let want = scored(all.take(i + 1), scores);
            assert(before == scored(all.take(i as int), earlier));
            assert(all.len() == candidates.len());
            assert(before.len() == i);
            assert(results.deep_view().len() == results.len());
            assert(results.deep_view().len() == want.len());
            assert forall|j: int| 0 <= j < want.len() implies results.deep_view()[j] == want[j] by {
                if j < i {
                    assert(results.deep_view()[j] == before[j]);
                    assert(all.take(i as int)[j] == all.take(i + 1)[j]);
                } else {
                    assert(all.take(i + 1)[j] == candidate@);
                }
            }
            assert(results.deep_view() =~= want);
        }
        i += 1;
    }
    assert(candidates.deep_view().take(candidates.len() as int) =~= candidates.deep_view());
    get_top_k_filterd(results, top_k)
}

/// Answers a query: finds the pages under one of its words, taken in lower
/// case, scores each with `score`, and returns the `top_k` best-scored, the
/// best first.
pub fn get_text_by_scoring<F: Fn(&Candidate) -> u64>(
    store: &DocumentStore,
    index: &TermIndex,
    text: &str,
    top_k: u8,
    score: &F,
) -> (r: Vec<ResultScore>)
    requires
        store.wf(),
        index.wf(),
        forall|c: &Candidate| #[trigger] score.requires((c,)),
    ensures
        exists|candidates: Seq<Candidate>, scores: Seq<u64>|
            {
                &&& tallies_of(candidates) == candidates_of(
                    store.pages(),
                    index.postings(),
                    tokens(lowercase(text@)),
                    store.totals(),
                )
                &&& scores.len() == candidates.len()
                &&& forall|i: int|
                    0 <= i < candidates.len() ==> score.ensures((&candidates[i],), #[trigger] scores[i])
                &&& r.deep_view() == best(
                    #[trigger] scored(tallies_of(candidates), scores),
                    top_k as int,
                )
            },
        r.len() <= top_k,
        non_increasing(r.deep_view()),
{
    let candidates = get_text_by_scoring_helper(store, index, text);
    let r = rank_candidates(&candidates, top_k, score);
    proof {
        assert(tallies_of(candidates@) =~= candidates.deep_view());
        let scores = choose|scores: Seq<u64>|
            {
                &&& scores.len() == candidates.len()
                &&& forall|i: int|
                    0 <= i < candidates.len() ==> score.ensures((&candidates[i],), #[trigger] scores[i])
                &&& r.deep_view() == best(#[trigger] scored(candidates.deep_view(), scores), top_k as int)
            };
        assert(r.deep_view() == best(scored(tallies_of(candidates@), scores), top_k as int));
    }
    r
}

} // verus!
