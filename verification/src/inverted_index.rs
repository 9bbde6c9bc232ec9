//! The term index: for each term, the URLs of the pages that hold it.

use crate::places::{lemma_first_after_push, lemma_place, places};
use crate::snapshot::{entry, parse, parse_snapshot, Entry, Record};
use crate::text::{lowercase, split_whitespace, tokens};
use vstd::hash_map::StringHashMap;
use vstd::hash_set::StringHashSet;
use vstd::prelude::*;

verus! {

/// A term with the URLs of the pages that hold it, each URL once, in the
/// order in which they came.
pub struct Node {
    pub text: String,
    pub urls: Vec<String>,
}

/// The value of a posting.
pub ghost struct Posting {
    pub term: Seq<char>,
    pub urls: Seq<Seq<char>>,
}

impl View for Node {
    type V = Posting;

    open spec fn view(&self) -> Posting {
        Posting { term: self.text@, urls: self.urls.deep_view() }
    }
}

impl DeepView for Node {
    type V = Posting;

    open spec fn deep_view(&self) -> Posting {
        self@
    }
}

/// The terms of a sequence of postings.
pub open spec fn terms_of(postings: Seq<Posting>) -> Seq<Seq<char>> {
    postings.map_values(|p: Posting| p.term)
}

/// What holds of the postings of an index: no term stands twice, and no URL
/// stands twice under one term.
pub open spec fn valid_postings(postings: Seq<Posting>) -> bool {
    &&& terms_of(postings).no_duplicates()
    &&& forall|i: int| 0 <= i < postings.len() ==> (#[trigger] postings[i]).urls.no_duplicates()
}

/// The URLs under `term`, in the order in which they came; none where the
/// term is unknown.
pub open spec fn urls_for(postings: Seq<Posting>, term: Seq<char>) -> Seq<Seq<char>> {
    match terms_of(postings).index_of_first(term) {
        Some(i) => postings[i].urls,
        None => Seq::empty(),
    }
}

/// The postings after `url` is put under `term`: nothing changes where it
/// stands there already; else it comes last under the term, and a term that
/// is new comes last among the terms.
pub open spec fn post(postings: Seq<Posting>, term: Seq<char>, url: Seq<char>) -> Seq<Posting> {
    match terms_of(postings).index_of_first(term) {
        Some(i) => if postings[i].urls.contains(url) {
            postings
        } else {
            postings.update(i, Posting { term, urls: postings[i].urls.push(url) })
        },
        None => postings.push(Posting { term, urls: seq![url] }),
    }
}

/// The postings after `url` is put under each of `terms`, in order.
pub open spec fn post_all(postings: Seq<Posting>, terms: Seq<Seq<char>>, url: Seq<char>) -> Seq<
    Posting,
>
    decreases terms.len(),
{
    if terms.len() == 0 {
        postings
    } else {
        post(post_all(postings, terms.drop_last(), url), terms.last(), url)
    }
}

/// The URLs under each of `terms`, one term after the other.
pub open spec fn gather(postings: Seq<Posting>, terms: Seq<Seq<char>>) -> Seq<Seq<char>>
    decreases terms.len(),
{
    if terms.len() == 0 {
        Seq::empty()
    } else {
        gather(postings, terms.drop_last()) + urls_for(postings, terms.last())
    }
}

/// After `url` is put under `term`, it stands under `term`, behind the URLs
/// that stood there; under every other term stands what stood there.
pub proof fn lemma_urls_for_post(
    postings: Seq<Posting>,
    term: Seq<char>,
    url: Seq<char>,
    other: Seq<char>,
)
    ensures
        urls_for(post(postings, term, url), other) == if other != term {
            urls_for(postings, other)
        } else if urls_for(postings, term).contains(url) {
            urls_for(postings, term)
        } else {
            urls_for(postings, term).push(url)
        },
{
    let terms = terms_of(postings);
    terms.index_of_first_ensures(term);
    match terms.index_of_first(term) {
        Some(i) => {
            assert(terms_of(post(postings, term, url)) =~= terms);
            terms.index_of_first_ensures(other);
        },
        None => {
            assert(terms_of(post(postings, term, url)) =~= terms.push(term));
            assert(Seq::<Seq<char>>::empty().push(url) =~= seq![url]);
            lemma_first_after_push(terms, term, other);
            terms.index_of_first_ensures(other);
        },
    }
}

/// A posting never loses a URL.
pub proof fn lemma_post_keeps(
    postings: Seq<Posting>,
    term: Seq<char>,
    url: Seq<char>,
    other: Seq<char>,
    held: Seq<char>,
)
    requires
        urls_for(postings, other).contains(held),
    ensures
        urls_for(post(postings, term, url), other).contains(held),
{
    lemma_urls_for_post(postings, term, url, other);
    let before = urls_for(postings, other);
    let k = choose|k: int| 0 <= k < before.len() && before[k] == held;
    if other == term && !before.contains(url) {
        assert(before.push(url)[k] == held);
    }
}

/// A posting never loses a URL, whatever is put under whatever terms.
pub proof fn lemma_post_all_keeps(
    postings: Seq<Posting>,
    terms: Seq<Seq<char>>,
    url: Seq<char>,
    other: Seq<char>,
    held: Seq<char>,
)
    requires
        urls_for(postings, other).contains(held),
    ensures
        urls_for(post_all(postings, terms, url), other).contains(held),
    decreases terms.len(),
{
    if terms.len() > 0 {
        lemma_post_all_keeps(postings, terms.drop_last(), url, other, held);
        lemma_post_keeps(post_all(postings, terms.drop_last(), url), terms.last(), url, other, held);
    }
}

/// After `url` is put under each of `terms`, it stands under each of them.
pub proof fn lemma_post_all_holds(
    postings: Seq<Posting>,
    terms: Seq<Seq<char>>,
    url: Seq<char>,
    i: int,
)
    requires
        0 <= i < terms.len(),
    ensures
        urls_for(post_all(postings, terms, url), terms[i]).contains(url),
    decreases terms.len(),
{
    let before = post_all(postings, terms.drop_last(), url);
    if i == terms.len() - 1 {
        lemma_urls_for_post(before, terms.last(), url, terms.last());
        let held = urls_for(before, terms.last());
        if !held.contains(url) {
            assert(held.push(url)[held.len() as int] == url);
        }
    } else {
        lemma_post_all_holds(postings, terms.drop_last(), url, i);
        lemma_post_keeps(before, terms.last(), url, terms[i], url);
    }
}

/// A posting never loses a URL, whatever pages are indexed.
pub proof fn law_postings_never_lose(
    postings: Seq<Posting>,
    entries: Seq<Entry>,
    other: Seq<char>,
    held: Seq<char>,
)
    requires
        urls_for(postings, other).contains(held),
    ensures
        urls_for(post_pages(postings, entries), other).contains(held),
    decreases entries.len(),
{
    if entries.len() > 0 {
        law_postings_never_lose(postings, entries.drop_last(), other, held);
        lemma_post_all_keeps(
            post_pages(postings, entries.drop_last()),
            page_terms(entries.last()),
            entries.last().url,
            other,
            held,
        );
    }
}

/// After pages are indexed, whatever stood in the index before and whatever
/// pages came between or after: the URL of each page stands under each word
/// of its text, taken in lower case.
pub proof fn law_terms_lead_to_page(postings: Seq<Posting>, entries: Seq<Entry>, i: int, k: int)
    requires
        0 <= i < entries.len(),
        0 <= k < page_terms(entries[i]).len(),
    ensures
        urls_for(post_pages(postings, entries), page_terms(entries[i])[k]).contains(entries[i].url),
    decreases entries.len(),
{
    let before = post_pages(postings, entries.drop_last());
    if i == entries.len() - 1 {
        lemma_post_all_holds(before, page_terms(entries.last()), entries.last().url, k);
    } else {
        law_terms_lead_to_page(postings, entries.drop_last(), i, k);
        lemma_post_all_keeps(
            before,
            page_terms(entries.last()),
            entries.last().url,
            page_terms(entries[i])[k],
            entries[i].url,
        );
    }
}

/// Where `url` stands under each of `terms` already, putting it there
/// changes nothing.
pub proof fn lemma_post_all_again(postings: Seq<Posting>, terms: Seq<Seq<char>>, url: Seq<char>)
    requires
        forall|i: int| 0 <= i < terms.len() ==> urls_for(postings, #[trigger] terms[i]).contains(url),
    ensures
        post_all(postings, terms, url) == postings,
    decreases terms.len(),
{
    if terms.len() > 0 {
        assert forall|i: int| 0 <= i < terms.drop_last().len() implies urls_for(
            postings,
            #[trigger] terms.drop_last()[i],
        ).contains(url) by {
            assert(terms.drop_last()[i] == terms[i]);
        }
        lemma_post_all_again(postings, terms.drop_last(), url);
        assert(urls_for(postings, terms[terms.len() - 1]).contains(url));
        terms_of(postings).index_of_first_ensures(terms.last());
    }
}

/// A page that is indexed a second time, with the same texts, changes
/// nothing in the index.
pub proof fn law_index_again(postings: Seq<Posting>, e: Entry)
    ensures
        post_all(post_all(postings, page_terms(e), e.url), page_terms(e), e.url) == post_all(
            postings,
            page_terms(e),
            e.url,
        ),
{
    let once = post_all(postings, page_terms(e), e.url);
    assert forall|i: int| 0 <= i < page_terms(e).len() implies urls_for(
        once,
        #[trigger] page_terms(e)[i],
    ).contains(e.url) by {
        lemma_post_all_holds(postings, page_terms(e), e.url, i);
    }
    lemma_post_all_again(once, page_terms(e), e.url);
}

/// The term index.
pub struct TermIndex {
    slots: StringHashMap<usize>,
    postings: Vec<Node>,
    members: Vec<StringHashSet>,
}

impl TermIndex {
    /// The postings of the index, in the order in which their terms first came.
    pub closed spec fn postings(&self) -> Seq<Posting> {
        self.postings.deep_view()
    }

    /// The invariant of the index.
    pub closed spec fn wf(&self) -> bool {
        &&& valid_postings(self.postings())
        &&& self.members@.len() == self.postings@.len()
        &&& forall|i: int|
            0 <= i < self.postings@.len() ==> self.slots@.contains_key(
                (#[trigger] self.postings@[i]).text@,
            ) && self.slots@[self.postings@[i].text@] == i
        &&& forall|k: Seq<char>| #[trigger]
            self.slots@.contains_key(k) ==> self.slots@[k] < self.postings@.len()
                && self.postings@[self.slots@[k] as int].text@ == k
        &&& forall|i: int|
            0 <= i < self.postings@.len() ==> (#[trigger] self.members@[i])@
                == self.postings@[i].urls.deep_view().to_set()
    }

    /// A well-formed index holds valid postings.
    pub proof fn law_postings_valid(&self)
        requires
            self.wf(),
        ensures
            valid_postings(self.postings()),
    {
    }

    /// An empty index.
    pub fn new() -> (r: TermIndex)
        ensures
            r.wf(),
            r.postings() == Seq::<Posting>::empty(),
    {
        let r = TermIndex { slots: StringHashMap::new(), postings: Vec::new(), members: Vec::new() };
        assert(r.postings() =~= Seq::<Posting>::empty());
        assert(terms_of(r.postings()) =~= Seq::<Seq<char>>::empty());
        r
    }

    /// The number of terms.
    pub fn len(&self) -> (r: usize)
        ensures
            r == self.postings().len(),
    {
        self.postings.len()
    }

    /// Where the index of slots says that `term` stands is where it stands.
    proof fn lemma_slot(&self, term: Seq<char>)
        requires
            self.wf(),
        ensures
            terms_of(self.postings()).index_of_first(term) == if self.slots@.contains_key(term) {
                Some(self.slots@[term] as int)
            } else {
                None
            },
    {
        let terms = terms_of(self.postings());
        assert forall|i: int| 0 <= i < terms.len() implies terms[i] == self.postings@[i].text@ by {}
        assert(places(self.slots@, terms));
        lemma_place(self.slots@, terms, term);
    }
}

/// A copy of a list of texts.
pub fn copy_texts(texts: &Vec<String>) -> (r: Vec<String>)
    ensures
        r.deep_view() == texts.deep_view(),
{
    let mut out: Vec<String> = Vec::new();
    let mut i: usize = 0;
    while i < texts.len()
        invariant
            i <= texts.len(),
            out.deep_view() == texts.deep_view().take(i as int),
        decreases texts.len() - i,
    {
        let ghost before = out.deep_view();
        out.push(texts[i].clone());
        assert(out.deep_view() =~= before.push(texts[i as int]@));
        assert(texts.deep_view().take(i + 1) =~= before.push(texts[i as int]@));
        i += 1;
    }
    assert(texts.deep_view().take(texts.len() as int) =~= texts.deep_view());
    out
}

/// The URLs under exactly `term`; `None` where the term is unknown.
pub fn find<'a>(index: &'a TermIndex, term: &str) -> (r: Option<&'a Vec<String>>)
    requires
        index.wf(),
    ensures
        match r {
            Some(urls) => terms_of(index.postings()).contains(term@) && urls.deep_view() == urls_for(
                index.postings(),
                term@,
            ),
            None => !terms_of(index.postings()).contains(term@),
        },
{
    proof {
        index.lemma_slot(term@);
        terms_of(index.postings()).index_of_first_ensures(term@);
    }
    match index.slots.get(term) {
        Some(i) => Some(&index.postings[*i].urls),
        None => None,
    }
}

/// The URLs under exactly `term`, as a copy; `None` where the term is unknown.
pub fn get_helper(index: &TermIndex, term: &str) -> (r: Option<Vec<String>>)
    requires
        index.wf(),
    ensures
        match r {
            Some(urls) => terms_of(index.postings()).contains(term@) && urls.deep_view() == urls_for(
                index.postings(),
                term@,
            ),
            None => !terms_of(index.postings()).contains(term@),
        },
{
    match find(index, term) {
        Some(urls) => Some(copy_texts(urls)),
        None => None,
    }
}

/// Puts `url` under exactly `term`.
pub fn insert_term(index: &mut TermIndex, term: &str, url: &str)
    requires
        old(index).wf(),
    ensures
        final(index).wf(),
        final(index).postings() == post(old(index).postings(), term@, url@),
{
    proof {
        index.lemma_slot(term@);
    }
    let ghost before = index.postings();
    let found = match index.slots.get(term) {
        Some(i) => Some(*i),
        None => None,
    };
    match found {
        Some(i) => {
            let ghost held = index.postings@[i as int].urls.deep_view();
            if !index.members[i].contains(url) {
                index.members[i].insert(url.to_owned());
                index.postings[i].urls.push(url.to_owned());
                proof {
                    let now = index.postings@[i as int].urls.deep_view();
                    assert(now =~= held.push(url@));
                    held.lemma_push_to_set_commute(url@);
                    assert(!held.contains(url@));
                    assert(index.postings() =~= before.update(
                        i as int,
                        Posting { term: term@, urls: held.push(url@) },
                    ));
                    assert(terms_of(index.postings()) =~= terms_of(before));
                    assert(before[i as int].urls == held);
                    assert(held.push(url@).no_duplicates());
                    assert forall|j: int| 0 <= j < index.postings().len() implies (
                    #[trigger] index.postings()[j]).urls.no_duplicates() by {
                        if j != i {
                            assert(index.postings()[j] == before[j]);
                        }
                    }
                }
            } else {
                assert(held.contains(url@));
            }
        },
        None => {
            let n = index.postings.len();
            index.slots.insert(term.to_owned(), n);
            let mut urls: Vec<String> = Vec::new();
            urls.push(url.to_owned());
            let mut set = StringHashSet::new();
            set.insert(url.to_owned());
            index.postings.push(Node { text: term.to_owned(), urls });
            index.members.push(set);
            proof {
                assert(urls.deep_view() =~= seq![url@]);
                Seq::<Seq<char>>::empty().lemma_push_to_set_commute(url@);
                assert(Seq::<Seq<char>>::empty().push(url@) =~= seq![url@]);
                assert(Seq::<Seq<char>>::empty().to_set() =~= Set::<Seq<char>>::empty());
                assert(index.postings() =~= before.push(Posting { term: term@, urls: seq![url@] }));
                assert(terms_of(index.postings()) =~= terms_of(before).push(term@));
                assert(!terms_of(before).contains(term@)) by {
                    terms_of(before).index_of_first_ensures(term@);
                }
            }
        },
    }
}

/// Puts `url` under the lower-case form of `text`.
pub fn insert(index: &mut TermIndex, text: &str, url: &str)
    requires
        old(index).wf(),
    ensures
        final(index).wf(),
        final(index).postings() == post(old(index).postings(), lowercase(text@), url@),
{
    let term = text.to_lowercase();
    insert_term(index, term.as_str(), url);
}

/// The text of a page as it is indexed: title, headings, highlighted text
/// and content, in this order, with one space between neighbours.
pub open spec fn page_text(e: Entry) -> Seq<char> {
    e.title + seq![' '] + e.headings + seq![' '] + e.highlighted + seq![' '] + e.content
}

/// The terms of a page: the words of its text, each in lower case.
pub open spec fn page_terms(e: Entry) -> Seq<Seq<char>> {
    tokens(page_text(e)).map_values(|w: Seq<char>| lowercase(w))
}

/// Puts `url` under each term of the page.
pub fn insert_by_content(
    index: &mut TermIndex,
    url: &str,
    content: &str,
    title: &str,
    headings: &str,
    highlighted: &str,
)
    requires
        old(index).wf(),
    ensures
        final(index).wf(),
        final(index).postings() == post_all(
            old(index).postings(),
            page_terms(entry(url@, content@, title@, headings@, highlighted@)),
            url@,
        ),
{
    proof {
        reveal_strlit(" ");
    }
    let mut whole = String::new();
    whole.append(title);
    whole.append(" ");
    whole.append(headings);
    whole.append(" ");
    whole.append(highlighted);
    whole.append(" ");
    whole.append(content);
    let ghost e = entry(url@, content@, title@, headings@, highlighted@);
    assert(whole@ =~= page_text(e));
    let words = split_whitespace(whole.as_str());
    let ghost start = index.postings();
    let ghost terms = page_terms(e);
    let mut i: usize = 0;
    while i < words.len()
        invariant
            i <= words.len(),
            index.wf(),
            words.deep_view() == tokens(page_text(e)),
            terms == page_terms(e),
            index.postings() == post_all(start, terms.take(i as int), url@),
        decreases words.len() - i,
    {
        assert(terms.take(i + 1).drop_last() =~= terms.take(i as int));
        assert(terms.take(i + 1).last() == lowercase(words[i as int]@));
        insert(index, words[i].as_str(), url);
        i += 1;
    }
    assert(terms.take(words.len() as int) =~= terms);
}

/// The postings after each of the pages `entries` is indexed, in order.
pub open spec fn post_pages(postings: Seq<Posting>, entries: Seq<Entry>) -> Seq<Posting>
    decreases entries.len(),
{
    if entries.len() == 0 {
        postings
    } else {
        post_all(
            post_pages(postings, entries.drop_last()),
            page_terms(entries.last()),
            entries.last().url,
        )
    }
}

/// Indexes each of `records`, in order.
pub fn index_records(index: &mut TermIndex, records: &Vec<Record>)
    requires
        old(index).wf(),
    ensures
        final(index).wf(),
        final(index).postings() == post_pages(old(index).postings(), records.deep_view()),
{
    let ghost start = index.postings();
    let ghost all = records.deep_view();
    let mut i: usize = 0;
    while i < records.len()
        invariant
            i <= records.len(),
            index.wf(),
            all == records.deep_view(),
            index.postings() == post_pages(start, all.take(i as int)),
        decreases records.len() - i,
    {
        let record = &records[i];
        proof {
            assert(all.take(i + 1).drop_last() =~= all.take(i as int));
            assert(all[i as int] == entry(
                record.url@,
                record.content@,
                record.title@,
                record.headings@,
                record.highlighted@,
            ));
        }
        insert_by_content(
            index,
            record.url.as_str(),
            record.content.as_str(),
            record.title.as_str(),
            record.headings.as_str(),
            record.highlighted.as_str(),
        );
        i += 1;
    }
    assert(all.take(records.len() as int) =~= all);
}

/// Replays a snapshot of the document store: each line of `data` that is a
/// record is indexed, in order.
pub fn index(index: &mut TermIndex, data: &str)
    requires
        old(index).wf(),
    ensures
        final(index).wf(),
        final(index).postings() == post_pages(old(index).postings(), parse(data@)),
{
    let records = parse_snapshot(data);
    index_records(index, &records);
}

/// The URLs under each word of `lowered`, one word after the other; a URL
/// comes once for each word under which it stands.
pub fn get_by_lowered(index: &TermIndex, lowered: &str) -> (r: Vec<String>)
    requires
        index.wf(),
    ensures
        r.deep_view() == gather(index.postings(), tokens(lowered@)),
{
    let words = split_whitespace(lowered);
    let mut out: Vec<String> = Vec::new();
    let ghost terms = words.deep_view();
    let mut i: usize = 0;
    while i < words.len()
        invariant
            i <= words.len(),
            index.wf(),
            terms == words.deep_view(),
            out.deep_view() == gather(index.postings(), terms.take(i as int)),
        decreases words.len() - i,
    {
        assert(terms.take(i + 1).drop_last() =~= terms.take(i as int));
        assert(terms.take(i + 1).last() == words[i as int]@);
        proof {
            terms_of(index.postings()).index_of_first_ensures(words[i as int]@);
        }
        match get_helper(index, words[i].as_str()) {
            Some(mut urls) => {
                let ghost before = out.deep_view();
                let ghost more = urls.deep_view();
                out.append(&mut urls);
                assert(out.deep_view() =~= before + more);
            },
            None => {
                assert(out.deep_view() + Seq::<Seq<char>>::empty() =~= out.deep_view());
            },
        }
        i += 1;
    }
    assert(terms.take(words.len() as int) =~= terms);
    out
}

/// The URLs under each word of `text`, taken in lower case, one word after
/// the other.
pub fn get_by_text(index: &TermIndex, text: &str) -> (r: Option<Vec<String>>)
    requires
        index.wf(),
    ensures
        r is Some,
        r->0.deep_view() == gather(index.postings(), tokens(lowercase(text@))),
{
    let lowered = text.to_lowercase();
    Some(get_by_lowered(index, lowered.as_str()))
}

} // verus!
