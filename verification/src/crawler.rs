//! The decisions of the crawler: which URL is fetched, what a fetched page
//! changes in the stores, and in which order a bounded-depth crawl goes
//! through the URLs it finds.

use crate::clock::{days_between, whole_days, Timestamp, NANOS_PER_SEC};
use crate::digest::{digest, get_hash};
use crate::html::{extract, extracted, too_long, ExtractError, ExtractedPage};
use crate::inverted_index::{
    insert_by_content, lemma_post_all_holds, lemma_post_all_keeps, page_terms, post_all, post_pages,
    urls_for, Posting, TermIndex,
};
use crate::snapshot::{entry, Entry};
use crate::text::{contains, contains_text};
use crate::url_index::{
    entry_of, find, insert, lookup, page_of, put, put_all, urls_of, DocumentStore, IndexConfig, Page,
};
use std::collections::VecDeque;
use vstd::hash_set::StringHashSet;
use vstd::prelude::*;

verus! {

/// Whether a URL names the scheme `http` or `https` somewhere.
pub open spec fn is_http(url: Seq<char>) -> bool {
    contains(url, "http://"@) || contains(url, "https://"@)
}

/// What is done with a URL that a crawl comes to.
#[derive(Clone, Copy, Debug, PartialEq, Eq, Structural)]
pub enum Visit {
    /// The URL is not one of a web page: nothing is fetched.
    Reject,
    /// The page was indexed a short time ago: nothing is fetched.
    Skip,
    /// The page is fetched.
    Fetch,
}

/// The decision for `url`, of which the store holds `known`, at the instant
/// `now`: a page indexed less than `fresh_days` whole days ago is not fetched
/// again, unless the crawl is forced.
pub open spec fn visit_of(
    known: Option<Page>,
    url: Seq<char>,
    force_fetch: bool,
    now: Timestamp,
    fresh_days: i64,
) -> Visit {
    if !is_http(url) {
        Visit::Reject
    } else if known is Some && !force_fetch && whole_days(known->0.timestamp, now) < fresh_days {
        Visit::Skip
    } else {
        Visit::Fetch
    }
}

/// Decides what is done with `url` at the instant `now`.
pub fn plan_visit(
    store: &DocumentStore,
    url: &str,
    force_fetch: bool,
    now: Timestamp,
    fresh_days: i64,
) -> (r: Visit)
    requires
        store.wf(),
    ensures
        r == visit_of(lookup(store.pages(), url@), url@, force_fetch, now, fresh_days),
{
    if !contains_text(url, "http://") && !contains_text(url, "https://") {
        return Visit::Reject;
    }
    if force_fetch {
        return Visit::Fetch;
    }
    match find(store, url) {
        Some(node) => {
            if days_between(node.timestamp, now) < fresh_days {
                Visit::Skip
            } else {
                Visit::Fetch
            }
        },
        None => Visit::Fetch,
    }
}

/// Whether the page that is known under a URL has the given content already.
pub open spec fn same_content(known: Option<Page>, content: Seq<char>) -> bool {
    known is Some && known->0.hash == digest(content)
}

/// What taking `e` in does to the stores, or leaves undone: `taken` tells
/// whether the page went in.
pub open spec fn page_taken(
    before: (Seq<Page>, IndexConfig, Seq<Posting>),
    after: (Seq<Page>, IndexConfig, Seq<Posting>),
    e: Entry,
    taken: bool,
) -> bool {
    if taken {
        &&& exists|at: Timestamp|
            at.nanos < NANOS_PER_SEC && after.0 == put(before.0, #[trigger] page_of(e, at))
        &&& after.1 == before.1.counted(e)
        &&& after.2 == post_all(before.2, page_terms(e), e.url)
    } else {
        after == before
    }
}

/// Whether the index leads from each word of each page to the page: the
/// URL of the page stands under each word of its text, taken in lower case.
pub open spec fn covers(postings: Seq<Posting>, pages: Seq<Page>) -> bool {
    forall|i: int, k: int|
        0 <= i < pages.len() && 0 <= k < page_terms(entry_of(pages[i])).len() ==> urls_for(
            postings,
            #[trigger] page_terms(entry_of(pages[i]))[k],
        ).contains(pages[i].url)
}

/// A page that is taken into both stores keeps the index leading to every
/// page of the store.
pub proof fn law_pages_stay_covered(postings: Seq<Posting>, pages: Seq<Page>, e: Entry, at: Timestamp)
    requires
        covers(postings, pages),
    ensures
        covers(post_all(postings, page_terms(e), e.url), put(pages, page_of(e, at))),
{
    let page = page_of(e, at);
    let after = put(pages, page);
    let posted = post_all(postings, page_terms(e), e.url);
    urls_of(pages).index_of_first_ensures(page.url);
    assert forall|i: int, k: int|
        0 <= i < after.len() && 0 <= k < page_terms(entry_of(after[i])).len() implies urls_for(
        posted,
        #[trigger] page_terms(entry_of(after[i]))[k],
    ).contains(after[i].url) by {
        if after[i] == page {
            assert(entry_of(page) == e);
            lemma_post_all_holds(postings, page_terms(e), e.url, k);
        } else {
            assert(after[i] == pages[i]);
            lemma_post_all_keeps(
                postings,
                page_terms(e),
                e.url,
                page_terms(entry_of(pages[i]))[k],
                pages[i].url,
            );
        }
    }
}

/// Records that are loaded into an empty store and replayed into an empty
/// index leave an index that leads to every page of the store.
pub proof fn law_reload_covers(entries: Seq<Entry>, stamps: Seq<Timestamp>)
    ensures
        covers(post_pages(Seq::empty(), entries), put_all(Seq::empty(), entries, stamps)),
    decreases entries.len(),
{
    if entries.len() > 0 {
        law_reload_covers(entries.drop_last(), stamps);
        law_pages_stay_covered(
            post_pages(Seq::empty(), entries.drop_last()),
            put_all(Seq::empty(), entries.drop_last(), stamps),
            entries.last(),
            stamps[entries.len() - 1],
        );
    }
}

/// Tells whether the store holds a page of `url` with the digest of
/// `content`.
fn holds_content(store: &DocumentStore, url: &str, content: &str) -> (r: bool)
    requires
        store.wf(),
    ensures
        r == same_content(lookup(store.pages(), url@), content@),
{
    match find(store, url) {
        Some(node) => get_hash(content) == node.hash,
        None => false,
    }
}

/// Puts a page into both stores.
fn take_in(store: &mut DocumentStore, index: &mut TermIndex, url: &str, page: &ExtractedPage)
    requires
        old(store).wf(),
        old(index).wf(),
        old(store).totals().has_room(
            entry(url@, page.content@, page.title@, page.headings@, page.highlighted@),
        ),
    ensures
        final(store).wf(),
        final(index).wf(),
        page_taken(
            (old(store).pages(), old(store).totals(), old(index).postings()),
            (final(store).pages(), final(store).totals(), final(index).postings()),
            entry(url@, page.content@, page.title@, page.headings@, page.highlighted@),
            true,
        ),
{
    insert(
        store,
        url,
        page.content.as_str(),
        page.title.as_str(),
        page.headings.as_str(),
        page.highlighted.as_str(),
    );
    insert_by_content(
        index,
        url,
        page.content.as_str(),
        page.title.as_str(),
        page.headings.as_str(),
        page.highlighted.as_str(),
    );
}

/// Takes a fetched page into the stores, unless the store holds a page of
/// that URL with the digest of the same content; tells whether it did.
pub fn index_page(store: &mut DocumentStore, index: &mut TermIndex, url: &str, page: &ExtractedPage) -> (changed:
    bool)
    requires
        old(store).wf(),
        old(index).wf(),
        !same_content(lookup(old(store).pages(), url@), page.content@) ==> old(
            store,
        ).totals().has_room(
            entry(url@, page.content@, page.title@, page.headings@, page.highlighted@),
        ),
    ensures
        final(store).wf(),
        final(index).wf(),
        changed == !same_content(lookup(old(store).pages(), url@), page.content@),
        page_taken(
            (old(store).pages(), old(store).totals(), old(index).postings()),
            (final(store).pages(), final(store).totals(), final(index).postings()),
            entry(url@, page.content@, page.title@, page.headings@, page.highlighted@),
            changed,
        ),
{
    if holds_content(store, url, page.content.as_str()) {
        return false;
    }
    take_in(store, index, url, page);
    true
}

/// Why a fetched page was not taken in.
#[derive(Clone, Copy, Debug, PartialEq, Eq, Structural)]
pub enum CrawlError {
    /// A selector group was refused.
    Selector,
    /// The document is too long to be taken apart.
    TooLong,
    /// The totals of the store cannot count one more insert.
    Full,
}

/// Takes a fetched page into the stores, unless the store holds a page of
/// that URL with the digest of the same content; tells whether it did. A
/// page that would go in is refused where the totals cannot count it.
pub fn store_page(store: &mut DocumentStore, index: &mut TermIndex, url: &str, page: &ExtractedPage) -> (r:
    Result<bool, CrawlError>)
    requires
        old(store).wf(),
        old(index).wf(),
    ensures
        final(store).wf(),
        final(index).wf(),
        ({
            let e = entry(url@, page.content@, page.title@, page.headings@, page.highlighted@);
            let before = (old(store).pages(), old(store).totals(), old(index).postings());
            let after = (final(store).pages(), final(store).totals(), final(index).postings());
            if same_content(lookup(old(store).pages(), url@), page.content@) {
                r == Ok::<bool, CrawlError>(false) && page_taken(before, after, e, false)
            } else if !old(store).totals().has_room(e) {
                r == Err::<bool, CrawlError>(CrawlError::Full) && page_taken(before, after, e, false)
            } else {
                r == Ok::<bool, CrawlError>(true) && page_taken(before, after, e, true)
            }
        }),
{
    if holds_content(store, url, page.content.as_str()) {
        return Ok(false);
    }
    if !store.config().fits(
        url,
        page.content.as_str(),
        page.title.as_str(),
        page.headings.as_str(),
        page.highlighted.as_str(),
    ) {
        return Err(CrawlError::Full);
    }
    take_in(store, index, url, page);
    Ok(true)
}

/// Takes the fetched document `html` of `url` into the stores and returns
/// the links found in it. A page whose content the store holds already
/// changes nothing, and its links are returned all the same.
pub fn handle_page(store: &mut DocumentStore, index: &mut TermIndex, url: &str, html: &str) -> (r:
    Result<Vec<String>, CrawlError>)
    requires
        old(store).wf(),
        old(index).wf(),
    ensures
        final(store).wf(),
        final(index).wf(),
        ({
            let before = (old(store).pages(), old(store).totals(), old(index).postings());
            let after = (final(store).pages(), final(store).totals(), final(index).postings());
            if too_long(html@) {
                r == Err::<Vec<String>, CrawlError>(CrawlError::TooLong) && after == before
            } else {
                match extracted(html@) {
                    None => r == Err::<Vec<String>, CrawlError>(CrawlError::Selector) && after
                        == before,
                    Some(x) => {
                    let e = entry(url@, x.content, x.title, x.headings, x.highlighted);
                    if same_content(lookup(old(store).pages(), url@), x.content) {
                        &&& r is Ok
                        &&& r->Ok_0.deep_view() == x.links
                        &&& page_taken(before, after, e, false)
                    } else if !old(store).totals().has_room(e) {
                        &&& r == Err::<Vec<String>, CrawlError>(CrawlError::Full)
                        &&& page_taken(before, after, e, false)
                    } else {
                        &&& r is Ok
                        &&& r->Ok_0.deep_view() == x.links
                        &&& page_taken(before, after, e, true)
                    }
                },
                }
            }
        }),
{
    let page = match extract(html) {
        Ok(page) => page,
        Err(ExtractError::TooLong) => {
            return Err(CrawlError::TooLong);
        },
        Err(ExtractError::Selector) => {
            return Err(CrawlError::Selector);
        },
    };
    match store_page(store, index, url, &page) {
        Ok(_) => Ok(page.links),
        Err(e) => Err(e),
    }
}

/// URLs that wait to be visited, and how many levels the crawl may still go
/// down from them, their own level counted.
pub struct QueueEle {
    pub urls: Vec<String>,
    pub depth: u8,
}

/// The value of a queue entry.
pub ghost struct Batch {
    pub urls: Seq<Seq<char>>,
    pub depth: u8,
}

impl View for QueueEle {
    type V = Batch;

    open spec fn view(&self) -> Batch {
        Batch { urls: self.urls.deep_view(), depth: self.depth }
    }
}

impl DeepView for QueueEle {
    type V = Batch;

    open spec fn deep_view(&self) -> Batch {
        self@
    }
}

/// The queue without the entries at its head that have no depth left.
pub open spec fn live(queue: Seq<Batch>) -> Seq<Batch>
    decreases queue.len(),
{
    if queue.len() > 0 && queue[0].depth == 0 {
        live(queue.drop_first())
    } else {
        queue
    }
}

/// The URLs of `urls` that are to be visited: those that are not in
/// `visited`, each once, in order.
pub open spec fn fresh(urls: Seq<Seq<char>>, visited: Set<Seq<char>>) -> Seq<Seq<char>>
    decreases urls.len(),
{
    if urls.len() == 0 {
        Seq::empty()
    } else {
        let before = fresh(urls.drop_last(), visited);
        if visited.contains(urls.last()) || before.contains(urls.last()) {
            before
        } else {
            before.push(urls.last())
        }
    }
}

/// The piles after one more list is dealt out: its first URL goes on the
/// first pile, its second on the second, and so on, with new piles where
/// the list is longer than there are piles.
pub open spec fn deal_one(piles: Seq<Seq<Seq<char>>>, list: Seq<Seq<char>>) -> Seq<Seq<Seq<char>>> {
    Seq::new(
        if piles.len() >= list.len() {
            piles.len()
        } else {
            list.len()
        },
        |j: int|
            {
                let pile = if j < piles.len() {
                    piles[j]
                } else {
                    Seq::empty()
                };
                if j < list.len() {
                    pile.push(list[j])
                } else {
                    pile
                }
            },
    )
}

/// The piles after each list is dealt out, in order.
pub open spec fn deal(lists: Seq<Seq<Seq<char>>>) -> Seq<Seq<Seq<char>>>
    decreases lists.len(),
{
    if lists.len() == 0 {
        Seq::empty()
    } else {
        deal_one(deal(lists.drop_last()), lists.last())
    }
}

/// Whether `u` lies in one of the lists.
pub open spec fn in_some(lists: Seq<Seq<Seq<char>>>, u: Seq<char>) -> bool {
    exists|i: int| 0 <= i < lists.len() && (#[trigger] lists[i]).contains(u)
}

/// The number of URLs in all the lists together.
pub open spec fn count_all(lists: Seq<Seq<Seq<char>>>) -> nat
    decreases lists.len(),
{
    if lists.len() == 0 {
        0
    } else {
        count_all(lists.drop_last()) + lists.last().len()
    }
}

/// Dealing one list out puts each of its URLs on a pile and moves nothing
/// else.
pub proof fn lemma_deal_one_keeps_all(piles: Seq<Seq<Seq<char>>>, list: Seq<Seq<char>>, u: Seq<char>)
    ensures
        in_some(deal_one(piles, list), u) <==> in_some(piles, u) || list.contains(u),
{
    let after = deal_one(piles, list);
    if in_some(piles, u) {
        let j = choose|j: int| 0 <= j < piles.len() && (#[trigger] piles[j]).contains(u);
        let m = choose|m: int| 0 <= m < piles[j].len() && piles[j][m] == u;
        assert(after[j][m] == u);
        assert(after[j].contains(u));
    }
    if list.contains(u) {
        let k = choose|k: int| 0 <= k < list.len() && list[k] == u;
        assert(after[k][after[k].len() - 1] == u);
        assert(after[k].contains(u));
    }
    if in_some(after, u) {
        let j = choose|j: int| 0 <= j < after.len() && (#[trigger] after[j]).contains(u);
        let m = choose|m: int| 0 <= m < after[j].len() && after[j][m] == u;
        if j < list.len() && m == after[j].len() - 1 {
            assert(list[j] == u);
        } else {
            assert(j < piles.len());
            assert(piles[j][m] == u);
            assert(piles[j].contains(u));
        }
    }
}

/// Every URL of every list lies on some pile, and nothing else does.
pub proof fn law_deal_keeps_all(lists: Seq<Seq<Seq<char>>>, u: Seq<char>)
    ensures
        in_some(deal(lists), u) <==> in_some(lists, u),
    decreases lists.len(),
{
    if lists.len() > 0 {
        let head = lists.drop_last();
        law_deal_keeps_all(head, u);
        lemma_deal_one_keeps_all(deal(head), lists.last(), u);
        if in_some(head, u) {
            let i = choose|i: int| 0 <= i < head.len() && (#[trigger] head[i]).contains(u);
            assert(lists[i].contains(u));
        }
        if lists.last().contains(u) {
            assert(lists[lists.len() - 1].contains(u));
        }
        if in_some(lists, u) {
            let i = choose|i: int| 0 <= i < lists.len() && (#[trigger] lists[i]).contains(u);
            if i < head.len() {
                assert(head[i].contains(u));
            }
        }
    }
}

/// Dealing one list out adds as many URLs to the piles as the list holds.
pub proof fn lemma_deal_one_count(piles: Seq<Seq<Seq<char>>>, list: Seq<Seq<char>>)
    ensures
        count_all(deal_one(piles, list)) == count_all(piles) + list.len(),
    decreases piles.len() + list.len(),
{
    let after = deal_one(piles, list);
    if piles.len() == 0 && list.len() == 0 {
        assert(after =~= Seq::<Seq<Seq<char>>>::empty());
    } else if piles.len() >= list.len() {
        // The last pile gets no URL, or the list's last where the two are as long.
        let head = piles.drop_last();
        if piles.len() == list.len() {
            lemma_deal_one_count(head, list.drop_last());
            assert(after.drop_last() =~= deal_one(head, list.drop_last()));
            assert(after.last() =~= piles.last().push(list.last()));
        } else {
            lemma_deal_one_count(head, list);
            assert(after.drop_last() =~= deal_one(head, list));
            assert(after.last() =~= piles.last());
        }
    } else {
        // The list is longer: its last URL makes a pile of its own.
        lemma_deal_one_count(piles, list.drop_last());
        assert(after.drop_last() =~= deal_one(piles, list.drop_last()));
        assert(after.last() =~= seq![list.last()]);
    }
}

/// The piles hold as many URLs as the lists.
pub proof fn law_deal_count(lists: Seq<Seq<Seq<char>>>)
    ensures
        count_all(deal(lists)) == count_all(lists),
    decreases lists.len(),
{
    if lists.len() > 0 {
        law_deal_count(lists.drop_last());
        lemma_deal_one_count(deal(lists.drop_last()), lists.last());
    }
}

/// The entries that the piles make at the given depth.
pub open spec fn batches(piles: Seq<Seq<Seq<char>>>, depth: u8) -> Seq<Batch> {
    Seq::new(piles.len(), |i: int| (Batch { urls: piles[i], depth }))
}

/// Deals one list out onto the piles.
fn deal_list(piles: &mut Vec<Vec<String>>, list: &Vec<String>)
    ensures
        final(piles).deep_view() == deal_one(old(piles).deep_view(), list.deep_view()),
{
    let ghost start = piles.deep_view();
    let ghost all = list.deep_view();
    let mut j: usize = 0;
    assert(piles.deep_view() =~= deal_one(start, all.take(0)));
    while j < list.len()
        invariant
            j <= list.len(),
            all == list.deep_view(),
            piles.len() == if start.len() >= j {
                start.len()
            } else {
                j as nat
            },
            start.len() == old(piles).len(),
            piles.deep_view() == deal_one(start, all.take(j as int)),
        decreases list.len() - j,
    {
        let ghost before = piles.deep_view();
        if piles.len() <= j {
            piles.push(Vec::new());
            assert(piles@[j as int].deep_view() =~= Seq::<Seq<char>>::empty());
        }
        let ghost pile = piles@[j as int].deep_view();
        piles[j].push(list[j].clone());
        proof {
            let after = piles.deep_view();
            let want = deal_one(start, all.take(j + 1));
            assert(after[j as int] =~= pile.push(all[j as int]));
            assert(after.len() == want.len());
            assert forall|i: int| 0 <= i < after.len() implies after[i] == want[i] by {
                if i < j {
                    assert(after[i] == before[i]);
                    assert(all.take(j as int)[i] == all.take(j + 1)[i]);
                } else if i == j {
                    if j < before.len() {
                        assert(pile == before[j as int]);
                    }
                } else {
                    assert(after[i] == before[i]);
                }
            }
            assert(after =~= want);
        }
        j += 1;
    }
    assert(all.take(list.len() as int) =~= all);
}

/// Deals the lists out onto piles: the first URLs of the lists make the
/// first pile, their second URLs the second, and so on.
pub fn deal_out(lists: &Vec<Vec<String>>) -> (r: Vec<Vec<String>>)
    ensures
        r.deep_view() == deal(lists.deep_view()),
{
    let ghost all = lists.deep_view();
    let mut piles: Vec<Vec<String>> = Vec::new();
    let mut t: usize = 0;
    assert(piles.deep_view() =~= deal(all.take(0)));
    while t < lists.len()
        invariant
            t <= lists.len(),
            all == lists.deep_view(),
            piles.deep_view() == deal(all.take(t as int)),
        decreases lists.len() - t,
    {
        assert(all.take(t + 1).drop_last() =~= all.take(t as int));
        assert(all.take(t + 1).last() == lists@[t as int].deep_view());
        deal_list(&mut piles, &lists[t]);
        t += 1;
    }
    assert(all.take(lists.len() as int) =~= all);
    piles
}

/// The URLs to be visited are those of the list that were not visited.
pub proof fn lemma_fresh_contains(urls: Seq<Seq<char>>, visited: Set<Seq<char>>, u: Seq<char>)
    ensures
        fresh(urls, visited).contains(u) <==> urls.contains(u) && !visited.contains(u),
    decreases urls.len(),
{
    if urls.len() > 0 {
        let head = urls.drop_last();
        let last = urls.last();
        let before = fresh(head, visited);
        let after = fresh(urls, visited);
        lemma_fresh_contains(head, visited, u);
        lemma_fresh_contains(head, visited, last);
        if urls.contains(u) {
            let m = choose|m: int| 0 <= m < urls.len() && urls[m] == u;
            if m < head.len() {
                assert(head[m] == u);
            }
        }
        if head.contains(u) {
            let m = choose|m: int| 0 <= m < head.len() && head[m] == u;
            assert(urls[m] == u);
        }
        assert(urls[urls.len() - 1] == last);
        if after.contains(u) {
            let k = choose|k: int| 0 <= k < after.len() && after[k] == u;
            if k < before.len() {
                assert(before[k] == u);
            }
        }
        if before.contains(u) {
            let k = choose|k: int| 0 <= k < before.len() && before[k] == u;
            assert(after[k] == u);
        }
        if !(visited.contains(last) || before.contains(last)) {
            assert(after[after.len() - 1] == last);
        }
    }
}

/// No URL is to be visited twice.
pub proof fn law_visits_once(urls: Seq<Seq<char>>, visited: Set<Seq<char>>)
    ensures
        fresh(urls, visited).no_duplicates(),
    decreases urls.len(),
{
    if urls.len() > 0 {
        law_visits_once(urls.drop_last(), visited);
    }
}

/// Picks from `urls` those that are to be visited and marks them visited.
pub fn take_fresh(visited: &mut StringHashSet, urls: &Vec<String>) -> (r: Vec<String>)
    ensures
        r.deep_view() == fresh(urls.deep_view(), old(visited)@),
        final(visited)@ == old(visited)@.union(urls.deep_view().to_set()),
{
    let ghost known = visited@;
    let ghost all = urls.deep_view();
    let mut out: Vec<String> = Vec::new();
    let mut i: usize = 0;
    assert(out.deep_view() =~= fresh(all.take(0), known));
    assert(visited@ =~= known.union(all.take(0).to_set()));
    while i < urls.len()
        invariant
            i <= urls.len(),
            all == urls.deep_view(),
            out.deep_view() == fresh(all.take(i as int), known),
            visited@ == known.union(all.take(i as int).to_set()),
        decreases urls.len() - i,
    {
        let ghost seen = all.take(i as int);
        let ghost next = all.take(i + 1);
        let ghost before = out.deep_view();
        let ghost u = urls@[i as int]@;
        proof {
            assert(next.drop_last() =~= seen);
            assert(next.last() == u);
            assert(next =~= seen.push(u));
            seen.lemma_push_to_set_commute(u);
        }
        proof {
            lemma_fresh_contains(seen, known, u);
        }
        if visited.insert(urls[i].clone()) {
            out.push(urls[i].clone());
            assert(out.deep_view() =~= before.push(u));
        }
        assert(visited@ =~= known.union(next.to_set()));
        i += 1;
    }
    assert(all.take(urls.len() as int) =~= all);
    out
}

/// Whether no entry has more depth left than one before it.
pub open spec fn levelled(queue: Seq<Batch>) -> bool {
    forall|i: int, j: int| 0 <= i <= j < queue.len() ==> queue[i].depth >= queue[j].depth
}

/// Whether every entry is of the level `level` or of the one below it.
pub open spec fn near(queue: Seq<Batch>, level: u8) -> bool {
    forall|i: int| 0 <= i < queue.len() ==> (#[trigger] queue[i]).depth <= level <= queue[i].depth + 1
}

/// The entries that wait once the pages of the level that is out gave the
/// links `found`: where a level is out, the links are dealt out onto piles,
/// and each pile waits behind the others, one level further down.
pub open spec fn waiting(queue: Seq<Batch>, level: u8, found: Seq<Seq<Seq<char>>>) -> Seq<Batch> {
    if level > 0 {
        queue + batches(deal(found), (level - 1) as u8)
    } else {
        queue
    }
}

/// Dropping the entries without depth keeps the order of the levels.
proof fn lemma_live_levelled(queue: Seq<Batch>, level: u8)
    requires
        levelled(queue),
        level > 0 ==> near(queue, level),
        level == 0 ==> queue.len() <= 1,
    ensures
        levelled(live(queue)),
        level > 0 ==> near(live(queue), level),
        level == 0 ==> live(queue).len() <= 1,
        live(queue).len() > 0 ==> live(queue)[0].depth > 0 && levelled(live(queue).drop_first())
            && near(live(queue).drop_first(), live(queue)[0].depth),
        live(queue).len() > 0 && level > 0 ==> live(queue)[0].depth <= level,
    decreases queue.len(),
{
    if queue.len() > 0 && queue[0].depth == 0 {
        let tail = queue.drop_first();
        assert forall|i: int, j: int| 0 <= i <= j < tail.len() implies tail[i].depth
            >= tail[j].depth by {
            assert(tail[i] == queue[i + 1] && tail[j] == queue[j + 1]);
        }
        assert forall|i: int| 0 <= i < tail.len() implies (#[trigger] tail[i]).depth <= level
            <= tail[i].depth + 1 || level == 0 by {
            assert(tail[i] == queue[i + 1]);
        }
        lemma_live_levelled(tail, level);
    } else if queue.len() > 0 {
        let tail = queue.drop_first();
        let top = queue[0].depth;
        assert forall|i: int, j: int| 0 <= i <= j < tail.len() implies tail[i].depth
            >= tail[j].depth by {
            assert(tail[i] == queue[i + 1] && tail[j] == queue[j + 1]);
        }
        if level > 0 {
            assert forall|i: int| 0 <= i < tail.len() implies (#[trigger] tail[i]).depth <= top
                <= tail[i].depth + 1 by {
                assert(tail[i] == queue[i + 1]);
                assert(queue[0].depth >= queue[i + 1].depth);
            }
        }
    }
}

/// A crawl to a bounded depth: the URLs that wait, level by level, those
/// that were visited, and the level that is out to be fetched.
pub struct Crawl {
    queue: VecDeque<QueueEle>,
    visited: StringHashSet,
    level: u8,
}

impl Crawl {
    /// The entries that wait, the next first.
    pub closed spec fn queue(&self) -> Seq<Batch> {
        self.queue.deep_view()
    }

    /// The URLs that were visited.
    pub closed spec fn visited(&self) -> Set<Seq<char>> {
        self.visited@
    }

    /// The depth that is left at the level that is out to be fetched, its
    /// own level counted; zero where none is out.
    pub closed spec fn level(&self) -> u8 {
        self.level
    }

    /// The invariant of a crawl: the levels wait in order; behind the level
    /// that is out wait only that level and the one below it; and where no
    /// level is out, at most one entry waits.
    pub closed spec fn wf(&self) -> bool {
        &&& levelled(self.queue())
        &&& self.level > 0 ==> near(self.queue(), self.level)
        &&& self.level == 0 ==> self.queue().len() <= 1
    }

    /// A crawl that starts from `seeds` and goes `depth` levels deep.
    pub fn new(seeds: Vec<String>, depth: u8) -> (r: Crawl)
        ensures
            r.wf(),
            r.queue() == seq![Batch { urls: seeds.deep_view(), depth }],
            r.visited() == Set::<Seq<char>>::empty(),
            r.level() == 0,
    {
        let mut queue: VecDeque<QueueEle> = VecDeque::new();
        queue.push_back(QueueEle { urls: seeds, depth });
        let r = Crawl { queue, visited: StringHashSet::new(), level: 0 };
        assert(r.queue() =~= seq![Batch { urls: seeds.deep_view(), depth }]);
        r
    }

    /// Tells whether nothing waits any more.
    pub fn is_done(&self) -> (r: bool)
        ensures
            r == (self.queue().len() == 0),
    {
        self.queue.len() == 0
    }

    /// The depth that is left at the level that is out to be fetched.
    pub fn depth(&self) -> (r: u8)
        ensures
            r == self.level(),
    {
        self.level
    }

    /// Goes on to the next level. The links `found`, one list for each page
    /// of the level that was out, are put on the queue; then the entries
    /// that have no depth left are dropped, and of the first that has some,
    /// the URLs that were not visited are handed out, each once, and are
    /// marked visited. `None` where no entry with depth is left: the crawl
    /// is over then. A level is never handed out before one with less depth
    /// left.
    pub fn advance(&mut self, found: &Vec<Vec<String>>) -> (r: Option<Vec<String>>)
        requires
            old(self).wf(),
        ensures
            final(self).wf(),
            ({
                let queue = live(waiting(old(self).queue(), old(self).level(), found.deep_view()));
                match r {
                    None => {
                        &&& queue.len() == 0
                        &&& final(self).queue().len() == 0
                        &&& final(self).level() == 0
                        &&& final(self).visited() == old(self).visited()
                    },
                    Some(urls) => {
                        &&& queue.len() > 0
                        &&& urls.deep_view() == fresh(queue[0].urls, old(self).visited())
                        &&& final(self).queue() == queue.drop_first()
                        &&& final(self).level() == queue[0].depth
                        &&& final(self).level() > 0
                        &&& final(self).visited() == old(self).visited().union(queue[0].urls.to_set())
                        &&& old(self).level() > 0 ==> final(self).level() <= old(self).level()
                    },
                }
            }),
    {
        let ghost before = self.queue();
        let ghost level = self.level;
        if self.level > 0 {
            let depth = self.level;
            self.push_discovered(depth, found);
            proof {
                let more = batches(deal(found.deep_view()), (level - 1) as u8);
                let all = before + more;
                assert forall|i: int, j: int| 0 <= i <= j < all.len() implies all[i].depth
                    >= all[j].depth by {
                    if i < before.len() {
                        assert(all[i] == before[i]);
                    }
                    if j < before.len() {
                        assert(all[j] == before[j]);
                    }
                }
                assert forall|i: int| 0 <= i < all.len() implies (#[trigger] all[i]).depth <= level
                    <= all[i].depth + 1 by {
                    if i < before.len() {
                        assert(all[i] == before[i]);
                    }
                }
            }
        }
        proof {
            lemma_live_levelled(self.queue(), level);
        }
        match self.next_wave() {
            Some(wave) => {
                self.level = wave.depth;
                Some(wave.urls)
            },
            None => {
                self.level = 0;
                None
            },
        }
    }

    /// Takes the next level from the queue: the entries that have no depth
    /// left are dropped, and of the first that has some, the URLs that were
    /// not visited are handed out, each once, and marked visited. `None`
    /// where no entry with depth is left; the queue is empty then.
    fn next_wave(&mut self) -> (r: Option<QueueEle>)
        ensures
            final(self).level() == old(self).level(),
            match r {
                None => {
                    &&& live(old(self).queue()).len() == 0
                    &&& final(self).queue().len() == 0
                    &&& final(self).visited() == old(self).visited()
                },
                Some(wave) => {
                    let head = live(old(self).queue())[0];
                    &&& live(old(self).queue()).len() > 0
                    &&& wave.depth == head.depth
                    &&& wave.depth > 0
                    &&& wave.urls.deep_view() == fresh(head.urls, old(self).visited())
                    &&& final(self).queue() == live(old(self).queue()).drop_first()
                    &&& final(self).visited() == old(self).visited().union(head.urls.to_set())
                },
            },
    {
        let ghost start = self.queue();
        let ghost known = self.visited();
        loop
            invariant
                start == old(self).queue(),
                known == old(self).visited(),
                self.level() == old(self).level(),
                live(self.queue()) == live(start),
                self.visited() == known,
            decreases self.queue.len(),
        {
            let ghost before = self.queue();
            match self.queue.pop_front() {
                None => {
                    assert(before =~= Seq::<Batch>::empty());
                    assert(self.queue() =~= before);
                    return None;
                },
                Some(batch) => {
                    assert(self.queue() =~= before.drop_first());
                    assert(batch@ == before[0]);
                    if batch.depth > 0 {
                        assert(live(before) == before);
                        let urls = take_fresh(&mut self.visited, &batch.urls);
                        return Some(QueueEle { urls, depth: batch.depth });
                    }
                },
            }
        }
    }

    /// Puts the links that the pages of a level at `depth` gave on the
    /// queue, one list for each page that was taken in: they are dealt out
    /// onto piles, and each pile waits as an entry one level further down.
    fn push_discovered(&mut self, depth: u8, found: &Vec<Vec<String>>)
        requires
            depth > 0,
        ensures
            final(self).visited() == old(self).visited(),
            final(self).level() == old(self).level(),
            final(self).queue() == old(self).queue() + batches(
                deal(found.deep_view()),
                (depth - 1) as u8,
            ),
    {
        let mut piles = deal_out(found);
        let ghost dealt = piles.deep_view();
        let ghost start = self.queue();
        let ghost below = (depth - 1) as u8;
        let ghost n = piles.len();
        assert(self.queue() =~= start + batches(dealt.take(0), below));
        while piles.len() > 0
            invariant
                depth > 0,
                n == dealt.len(),
                piles.len() <= n,
                below == depth - 1,
                piles.deep_view() == dealt.skip(n - piles.len()),
                self.visited() == old(self).visited(),
                self.level() == old(self).level(),
                self.queue() == start + batches(dealt.take(n - piles.len()), below),
            decreases piles.len(),
        {
            let ghost k = n - piles.len();
            let ghost before = self.queue();
            let ghost rest = piles.deep_view();
            let urls = piles.remove(0);
            proof {
                assert(urls.deep_view() == rest[0]);
                assert(rest[0] == dealt[k]);
                assert forall|i: int| 0 <= i < piles.len() implies piles.deep_view()[i] == dealt.skip(
                    k + 1,
                )[i] by {
                    assert(piles.deep_view()[i] == rest[i + 1]);
                }
                assert(piles.deep_view() =~= dealt.skip(k + 1));
            }
            self.queue.push_back(QueueEle { urls, depth: depth - 1 });
            proof {
                assert(self.queue() =~= before.push(Batch { urls: dealt[k], depth: below }));
                assert(batches(dealt.take(k + 1), below) =~= batches(dealt.take(k), below).push(
                    Batch { urls: dealt[k], depth: below },
                ));
            }
        }
        assert(dealt.take(n as int) =~= dealt);
    }
}

/// The number of crawls that run side by side: `multiplier` for each unit
/// of parallelism that is available, and never fewer than one.
pub open spec fn workers_for(available: int, multiplier: int) -> int {
    if available * multiplier >= 1 {
        available * multiplier
    } else {
        1
    }
}

/// Computes the number of crawls that run side by side.
pub fn worker_count(available: usize, multiplier: u8) -> (r: usize)
    requires
        available * multiplier <= usize::MAX,
    ensures
        r == workers_for(available as int, multiplier as int),
{
    let n = available * (multiplier as usize);
    if n >= 1 {
        n
    } else {
        1
    }
}

/// The seeds dealt out to `workers` crawls in turn: the first seed to the
/// first crawl, the next to the second, and after the last crawl the first
/// again.
pub open spec fn split_round_robin(seeds: Seq<Seq<char>>, workers: nat) -> Seq<Seq<Seq<char>>>
    decreases seeds.len(),
{
    if seeds.len() == 0 {
        Seq::new(workers, |w: int| Seq::empty())
    } else {
        let before = split_round_robin(seeds.drop_last(), workers);
        let w = (seeds.len() - 1) % (workers as int);
        before.update(w, before[w].push(seeds.last()))
    }
}

/// Each crawl gets its share, and every seed goes to one of them.
pub proof fn law_split_keeps_all(seeds: Seq<Seq<char>>, workers: nat, u: Seq<char>)
    requires
        workers >= 1,
    ensures
        split_round_robin(seeds, workers).len() == workers,
        in_some(split_round_robin(seeds, workers), u) <==> seeds.contains(u),
        count_all(split_round_robin(seeds, workers)) == seeds.len(),
    decreases seeds.len(),
{
    let after = split_round_robin(seeds, workers);
    if seeds.len() == 0 {
        lemma_count_empty_piles(after);
    } else {
        let head = seeds.drop_last();
        let before = split_round_robin(head, workers);
        let w = (seeds.len() - 1) % (workers as int);
        law_split_keeps_all(head, workers, u);
        lemma_count_update(before, w, seeds.last());
        if in_some(before, u) {
            let j = choose|j: int| 0 <= j < before.len() && (#[trigger] before[j]).contains(u);
            let m = choose|m: int| 0 <= m < before[j].len() && before[j][m] == u;
            assert(after[j][m] == u);
            assert(after[j].contains(u));
        }
        if head.contains(u) {
            let m = choose|m: int| 0 <= m < head.len() && head[m] == u;
            assert(seeds[m] == u);
        }
        if seeds.last() == u {
            assert(after[w][after[w].len() - 1] == u);
            assert(after[w].contains(u));
            assert(seeds[seeds.len() - 1] == u);
        }
        if in_some(after, u) {
            let j = choose|j: int| 0 <= j < after.len() && (#[trigger] after[j]).contains(u);
            let m = choose|m: int| 0 <= m < after[j].len() && after[j][m] == u;
            if j == w && m == after[j].len() - 1 {
                assert(seeds.last() == u);
            } else {
                assert(before[j][m] == u);
                assert(before[j].contains(u));
            }
        }
        if seeds.contains(u) {
            let m = choose|m: int| 0 <= m < seeds.len() && seeds[m] == u;
            if m < head.len() {
                assert(head[m] == u);
            }
        }
    }
}

/// Piles that are all empty hold nothing.
proof fn lemma_count_empty_piles(piles: Seq<Seq<Seq<char>>>)
    requires
        forall|i: int| 0 <= i < piles.len() ==> (#[trigger] piles[i]).len() == 0,
    ensures
        count_all(piles) == 0,
    decreases piles.len(),
{
    if piles.len() > 0 {
        assert forall|i: int| 0 <= i < piles.drop_last().len() implies (
        #[trigger] piles.drop_last()[i]).len() == 0 by {
            assert(piles.drop_last()[i] == piles[i]);
        }
        lemma_count_empty_piles(piles.drop_last());
    }
}

/// One more URL on one pile is one more URL in all.
proof fn lemma_count_update(piles: Seq<Seq<Seq<char>>>, w: int, u: Seq<char>)
    requires
        0 <= w < piles.len(),
    ensures
        count_all(piles.update(w, piles[w].push(u))) == count_all(piles) + 1,
    decreases piles.len(),
{
    let after = piles.update(w, piles[w].push(u));
    if w == piles.len() - 1 {
        assert(after.drop_last() =~= piles.drop_last());
    } else {
        lemma_count_update(piles.drop_last(), w, u);
        assert(after.drop_last() =~= piles.drop_last().update(w, piles[w].push(u)));
        assert(after.last() == piles.last());
    }
}

/// Deals the seeds out to `workers` crawls in turn.
pub fn split_seeds(seeds: &Vec<String>, workers: usize) -> (r: Vec<Vec<String>>)
    requires
        workers >= 1,
    ensures
        r.deep_view() == split_round_robin(seeds.deep_view(), workers as nat),
{
    let ghost all = seeds.deep_view();
    let mut piles: Vec<Vec<String>> = Vec::new();
    let mut w: usize = 0;
    while w < workers
        invariant
            w <= workers,
            piles.len() == w,
            forall|i: int| 0 <= i < w ==> (#[trigger] piles@[i]).deep_view() == Seq::<Seq<char>>::empty(),
        decreases workers - w,
    {
        let pile: Vec<String> = Vec::new();
        assert(pile.deep_view() =~= Seq::<Seq<char>>::empty());
        piles.push(pile);
        w += 1;
    }
    assert(piles.deep_view() =~= split_round_robin(all.take(0), workers as nat));
    let mut i: usize = 0;
    while i < seeds.len()
        invariant
            i <= seeds.len(),
            workers >= 1,
            all == seeds.deep_view(),
            piles.len() == workers,
            piles.deep_view() == split_round_robin(all.take(i as int), workers as nat),
        decreases seeds.len() - i,
    {
        let ghost before = piles.deep_view();
        let at = i % workers;
        piles[at].push(seeds[i].clone());
        proof {
            assert(all.take(i + 1).drop_last() =~= all.take(i as int));
            assert(all.take(i + 1).last() == seeds@[i as int]@);
            let after = piles.deep_view();
            assert(after[at as int] =~= before[at as int].push(seeds@[i as int]@));
            assert forall|k: int| 0 <= k < after.len() && k != at implies after[k] == before[k] by {}
            assert(after =~= before.update(at as int, before[at as int].push(seeds@[i as int]@)));
        }
        i += 1;
    }
    assert(all.take(seeds.len() as int) =~= all);
    piles
}

} // verus!
