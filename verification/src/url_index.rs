//! The document store: one page record for each URL, found by its URL, with
//! the running totals that the ranker reads.

use crate::clock::{now, Timestamp, NANOS_PER_SEC};
use crate::digest::{digest, get_hash};
use crate::places::{lemma_first_after_push, lemma_place, places};
use crate::snapshot::{
    encode, encode_line, encode_record, entry, law_round_trip, parse, parse_snapshot, storable, Entry,
    Record,
};
use vstd::hash_map::StringHashMap;
use vstd::prelude::*;

verus! {

/// A page as the store keeps it.
pub struct Node {
    pub url: String,
    pub hash: String,
    pub title: String,
    pub headings: String,
    pub highlighted: String,
    pub content: String,
    pub timestamp: Timestamp,
}

/// The value of a page record.
pub ghost struct Page {
    pub url: Seq<char>,
    pub hash: Seq<char>,
    pub title: Seq<char>,
    pub headings: Seq<char>,
    pub highlighted: Seq<char>,
    pub content: Seq<char>,
    pub timestamp: Timestamp,
}

impl View for Node {
    type V = Page;

    open spec fn view(&self) -> Page {
        Page {
            url: self.url@,
            hash: self.hash@,
            title: self.title@,
            headings: self.headings@,
            highlighted: self.highlighted@,
            content: self.content@,
            timestamp: self.timestamp,
        }
    }
}

impl DeepView for Node {
    type V = Page;

    open spec fn deep_view(&self) -> Page {
        self@
    }
}

impl Clone for Node {
    fn clone(&self) -> (r: Node)
        ensures
            r@ == self@,
    {
        Node {
            url: self.url.clone(),
            hash: self.hash.clone(),
            title: self.title.clone(),
            headings: self.headings.clone(),
            highlighted: self.highlighted.clone(),
            content: self.content.clone(),
            timestamp: self.timestamp,
        }
    }
}

/// The summed lengths, in characters, of each field over all inserts.
#[derive(Clone, Copy)]
pub struct FieldCount {
    pub url: u64,
    pub title: u64,
    pub headings: u64,
    pub highlighted: u64,
    pub content: u64,
}

/// The totals of the store: the number of inserts and the field lengths.
#[derive(Clone, Copy)]
pub struct IndexConfig {
    pub total_count: u64,
    pub field_count: FieldCount,
}

impl IndexConfig {
    /// The totals before any insert.
    pub fn new() -> (r: IndexConfig)
        ensures
            r.total_count == 0,
            r.field_count.url == 0,
            r.field_count.title == 0,
            r.field_count.headings == 0,
            r.field_count.highlighted == 0,
            r.field_count.content == 0,
    {
        IndexConfig {
            total_count: 0,
            field_count: FieldCount { url: 0, title: 0, headings: 0, highlighted: 0, content: 0 },
        }
    }

    /// Whether one more insert of `e` can be counted in 64 bits.
    pub open spec fn has_room(self, e: Entry) -> bool {
        &&& self.total_count < u64::MAX
        &&& self.field_count.url + e.url.len() <= u64::MAX
        &&& self.field_count.title + e.title.len() <= u64::MAX
        &&& self.field_count.headings + e.headings.len() <= u64::MAX
        &&& self.field_count.highlighted + e.highlighted.len() <= u64::MAX
        &&& self.field_count.content + e.content.len() <= u64::MAX
    }

    /// The totals after one more insert of `e`.
    pub open spec fn counted(self, e: Entry) -> IndexConfig {
        IndexConfig {
            total_count: (self.total_count + 1) as u64,
            field_count: FieldCount {
                url: (self.field_count.url + e.url.len()) as u64,
                title: (self.field_count.title + e.title.len()) as u64,
                headings: (self.field_count.headings + e.headings.len()) as u64,
                highlighted: (self.field_count.highlighted + e.highlighted.len()) as u64,
                content: (self.field_count.content + e.content.len()) as u64,
            },
        }
    }

    /// Whether the inserts of `entries`, one after the other, can all be counted.
    pub open spec fn has_room_for(self, entries: Seq<Entry>) -> bool
        decreases entries.len(),
    {
        if entries.len() == 0 {
            true
        } else {
            self.has_room_for(entries.drop_last()) && self.counted_all(
                entries.drop_last(),
            ).has_room(entries.last())
        }
    }

    /// The totals after the inserts of `entries`, one after the other.
    pub open spec fn counted_all(self, entries: Seq<Entry>) -> IndexConfig
        decreases entries.len(),
    {
        if entries.len() == 0 {
            self
        } else {
            self.counted_all(entries.drop_last()).counted(entries.last())
        }
    }

    /// Tells whether one more insert of these texts can be counted.
    pub fn fits(&self, url: &str, content: &str, title: &str, headings: &str, highlighted: &str) -> (r:
        bool)
        ensures
            r == self.has_room(entry(url@, content@, title@, headings@, highlighted@)),
    {
        self.total_count < u64::MAX && fits_one(self.field_count.url, url) && fits_one(
            self.field_count.title,
            title,
        ) && fits_one(self.field_count.headings, headings) && fits_one(
            self.field_count.highlighted,
            highlighted,
        ) && fits_one(self.field_count.content, content)
    }

    /// Tells whether the inserts of `records`, one after the other, can all
    /// be counted.
    pub fn fits_all(&self, records: &Vec<Record>) -> (r: bool)
        ensures
            r == self.has_room_for(records.deep_view()),
    {
        let mut config = *self;
        let mut i: usize = 0;
        while i < records.len()
            invariant
                i <= records.len(),
                self.has_room_for(records.deep_view().take(i as int)),
                config == self.counted_all(records.deep_view().take(i as int)),
            decreases records.len() - i,
        {
            let record = &records[i];
            let ghost all = records.deep_view();
            assert(all.take(i + 1).drop_last() =~= all.take(i as int));
            assert(all.take(i + 1).last() == entry(
                record.url@,
                record.content@,
                record.title@,
                record.headings@,
                record.highlighted@,
            ));
            if !config.fits(
                record.url.as_str(),
                record.content.as_str(),
                record.title.as_str(),
                record.headings.as_str(),
                record.highlighted.as_str(),
            ) {
                proof {
                    if self.has_room_for(all) {
                        lemma_room_for_prefix(*self, all, i as int);
                    }
                }
                return false;
            }
            handle_index_config_update(
                &mut config,
                record.url.as_str(),
                record.content.as_str(),
                record.title.as_str(),
                record.headings.as_str(),
                record.highlighted.as_str(),
            );
            i += 1;
        }
        assert(records.deep_view().take(records.len() as int) =~= records.deep_view());
        true
    }
}

/// Where all of `entries` can be counted, so can each of them after those
/// before it.
pub proof fn lemma_room_for_prefix(config: IndexConfig, entries: Seq<Entry>, i: int)
    requires
        0 <= i < entries.len(),
        config.has_room_for(entries),
    ensures
        config.has_room_for(entries.take(i)),
        config.counted_all(entries.take(i)).has_room(entries[i]),
    decreases entries.len(),
{
    if i == entries.len() - 1 {
        assert(entries.take(i) =~= entries.drop_last());
    } else {
        lemma_room_for_prefix(config, entries.drop_last(), i);
        assert(entries.drop_last().take(i) =~= entries.take(i));
    }
}

/// The summed lengths of the texts that `field` picks from `entries`.
pub open spec fn summed(entries: Seq<Entry>, field: spec_fn(Entry) -> Seq<char>) -> nat
    decreases entries.len(),
{
    if entries.len() == 0 {
        0
    } else {
        summed(entries.drop_last(), field) + field(entries.last()).len()
    }
}

/// The totals count the inserts and sum the lengths of their texts; they
/// never go down.
pub proof fn law_totals_are_sums(config: IndexConfig, entries: Seq<Entry>)
    requires
        config.has_room_for(entries),
    ensures
        ({
            let after = config.counted_all(entries);
            &&& after.total_count == config.total_count + entries.len()
            &&& after.field_count.url == config.field_count.url + summed(entries, |e: Entry| e.url)
            &&& after.field_count.title == config.field_count.title + summed(
                entries,
                |e: Entry| e.title,
            )
            &&& after.field_count.headings == config.field_count.headings + summed(
                entries,
                |e: Entry| e.headings,
            )
            &&& after.field_count.highlighted == config.field_count.highlighted + summed(
                entries,
                |e: Entry| e.highlighted,
            )
            &&& after.field_count.content == config.field_count.content + summed(
                entries,
                |e: Entry| e.content,
            )
        }),
    decreases entries.len(),
{
    if entries.len() > 0 {
        law_totals_are_sums(config, entries.drop_last());
    }
}

fn fits_one(total: u64, text: &str) -> (r: bool)
    ensures
        r == (total + text@.len() <= u64::MAX),
{
    let n = text.unicode_len() as u64;
    n <= u64::MAX - total
}

/// A running mean in whole numbers: `old_value` weighted by
/// `(count - 1) / count`, plus `curr_value / count`. The weight is a whole
/// number too, and so always zero.
pub fn calc_helper(old_value: u64, curr_value: u64, count: u64) -> (r: u64)
    requires
        count >= 1,
    ensures
        r == old_value * ((count - 1) / (count as int)) + curr_value / count,
        r == curr_value / count,
{
    assert((count - 1) / (count as int) == 0) by (nonlinear_arith)
        requires
            count >= 1,
    ;
    old_value * ((count - 1) / count) + (curr_value / count)
}

/// Counts one insert: one more page, and the length in characters of each of
/// its five texts.
pub fn handle_index_config_update(
    config: &mut IndexConfig,
    url: &str,
    content: &str,
    title: &str,
    headings: &str,
    highlighted: &str,
)
    requires
        old(config).has_room(entry(url@, content@, title@, headings@, highlighted@)),
    ensures
        *final(config) == old(config).counted(entry(url@, content@, title@, headings@, highlighted@)),
{
    config.total_count += 1;
    config.field_count.url += url.unicode_len() as u64;
    config.field_count.content += content.unicode_len() as u64;
    config.field_count.title += title.unicode_len() as u64;
    config.field_count.headings += headings.unicode_len() as u64;
    config.field_count.highlighted += highlighted.unicode_len() as u64;
}

/// The URLs of a sequence of pages.
pub open spec fn urls_of(pages: Seq<Page>) -> Seq<Seq<char>> {
    pages.map_values(|p: Page| p.url)
}

/// What holds of the pages of a store: no URL stands twice, and each page
/// carries the digest of its own content.
pub open spec fn valid_pages(pages: Seq<Page>) -> bool {
    &&& urls_of(pages).no_duplicates()
    &&& forall|i: int| 0 <= i < pages.len() ==> (#[trigger] pages[i]).hash == digest(pages[i].content)
}

/// The page with the given URL, if there is one.
pub open spec fn lookup(pages: Seq<Page>, url: Seq<char>) -> Option<Page> {
    match urls_of(pages).index_of_first(url) {
        Some(i) => Some(pages[i]),
        None => None,
    }
}

/// The pages after `page` is inserted: it takes the place of the page with
/// its URL, or comes last where there is none.
pub open spec fn put(pages: Seq<Page>, page: Page) -> Seq<Page> {
    match urls_of(pages).index_of_first(page.url) {
        Some(i) => pages.update(i, page),
        None => pages.push(page),
    }
}

/// The page that an insert of `e` at the instant `at` stores.
pub open spec fn page_of(e: Entry, at: Timestamp) -> Page {
    Page {
        url: e.url,
        hash: digest(e.content),
        title: e.title,
        headings: e.headings,
        highlighted: e.highlighted,
        content: e.content,
        timestamp: at,
    }
}

/// What a snapshot keeps of a page.
pub open spec fn entry_of(p: Page) -> Entry {
    Entry {
        url: p.url,
        title: p.title,
        headings: p.headings,
        highlighted: p.highlighted,
        content: p.content,
    }
}

/// Whether each of the first `n` instants has fewer than a thousand million
/// nanoseconds beside its whole seconds.
pub open spec fn whole_stamps(stamps: Seq<Timestamp>, n: nat) -> bool {
    forall|i: int| 0 <= i < n ==> (#[trigger] stamps[i]).nanos < NANOS_PER_SEC
}

/// The pages after the inserts of `entries`, one after the other, the
/// `i`-th at the instant `stamps[i]`.
pub open spec fn put_all(pages: Seq<Page>, entries: Seq<Entry>, stamps: Seq<Timestamp>) -> Seq<Page>
    decreases entries.len(),
{
    if entries.len() == 0 {
        pages
    } else {
        put(
            put_all(pages, entries.drop_last(), stamps),
            page_of(entries.last(), stamps[entries.len() - 1]),
        )
    }
}

/// After an insert, the inserted page is found under its URL, and under
/// every other URL what was found before.
pub proof fn lemma_lookup_put(pages: Seq<Page>, page: Page, url: Seq<char>)
    ensures
        lookup(put(pages, page), url) == if url == page.url {
            Some(page)
        } else {
            lookup(pages, url)
        },
{
    let urls = urls_of(pages);
    urls.index_of_first_ensures(page.url);
    match urls.index_of_first(page.url) {
        Some(i) => {
            assert(urls_of(put(pages, page)) =~= urls);
            urls.index_of_first_ensures(url);
        },
        None => {
            assert(urls_of(put(pages, page)) =~= urls.push(page.url));
            lemma_first_after_push(urls, page.url, url);
            urls.index_of_first_ensures(url);
        },
    }
}

/// Of a sequence of inserts, the last one with a given URL decides what is
/// found under that URL: all the texts of that insert, the digest of its
/// content and its instant.
pub proof fn law_last_insert_wins(
    pages: Seq<Page>,
    entries: Seq<Entry>,
    stamps: Seq<Timestamp>,
    i: int,
)
    requires
        0 <= i < entries.len(),
        forall|j: int| i < j < entries.len() ==> entries[j].url != entries[i].url,
    ensures
        lookup(put_all(pages, entries, stamps), entries[i].url) == Some(
            page_of(entries[i], stamps[i]),
        ),
    decreases entries.len(),
{
    let head = entries.drop_last();
    let last = page_of(entries.last(), stamps[entries.len() - 1]);
    lemma_lookup_put(put_all(pages, head, stamps), last, entries[i].url);
    if i < entries.len() - 1 {
        law_last_insert_wins(pages, head, stamps, i);
    }
}

/// A URL that none of a sequence of inserts names keeps what was found
/// under it.
pub proof fn law_other_urls_keep(
    pages: Seq<Page>,
    entries: Seq<Entry>,
    stamps: Seq<Timestamp>,
    url: Seq<char>,
)
    requires
        forall|j: int| 0 <= j < entries.len() ==> entries[j].url != url,
    ensures
        lookup(put_all(pages, entries, stamps), url) == lookup(pages, url),
    decreases entries.len(),
{
    if entries.len() > 0 {
        let head = entries.drop_last();
        let last = page_of(entries.last(), stamps[entries.len() - 1]);
        lemma_lookup_put(put_all(pages, head, stamps), last, url);
        law_other_urls_keep(pages, head, stamps, url);
    }
}

/// The document store.
pub struct DocumentStore {
    slots: StringHashMap<usize>,
    records: Vec<Node>,
    config: IndexConfig,
}

impl DocumentStore {
    /// The pages of the store, in the order in which their URLs first came.
    pub closed spec fn pages(&self) -> Seq<Page> {
        self.records.deep_view()
    }

    /// The totals of the store.
    pub closed spec fn totals(&self) -> IndexConfig {
        self.config
    }

    /// The invariant of the store: its pages are valid, a store that holds a
    /// page has counted an insert, and the table of slots gives the place
    /// of each URL.
    pub closed spec fn wf(&self) -> bool {
        &&& valid_pages(self.pages())
        &&& self.records@.len() > 0 ==> self.config.total_count > 0
        &&& forall|i: int|
            0 <= i < self.records@.len() ==> self.slots@.contains_key(
                (#[trigger] self.records@[i]).url@,
            ) && self.slots@[self.records@[i].url@] == i
        &&& forall|k: Seq<char>| #[trigger]
            self.slots@.contains_key(k) ==> self.slots@[k] < self.records@.len()
                && self.records@[self.slots@[k] as int].url@ == k
    }

    /// A well-formed store holds valid pages, and a store that holds a page
    /// has counted an insert.
    pub proof fn law_pages_valid(&self)
        requires
            self.wf(),
        ensures
            valid_pages(self.pages()),
            self.pages().len() > 0 ==> self.totals().total_count > 0,
    {
    }

    /// An empty store.
    pub fn new() -> (r: DocumentStore)
        ensures
            r.wf(),
            r.pages() == Seq::<Page>::empty(),
            r.totals() == (IndexConfig {
                total_count: 0,
                field_count: FieldCount { url: 0, title: 0, headings: 0, highlighted: 0, content: 0 },
            }),
    {
        let r = DocumentStore {
            slots: StringHashMap::new(),
            records: Vec::new(),
            config: IndexConfig::new(),
        };
        assert(r.pages() =~= Seq::<Page>::empty());
        assert(urls_of(r.pages()) =~= Seq::<Seq<char>>::empty());
        r
    }

    /// The totals of the store.
    pub fn config(&self) -> (r: &IndexConfig)
        ensures
            *r == self.totals(),
    {
        &self.config
    }

    /// The number of pages.
    pub fn len(&self) -> (r: usize)
        ensures
            r == self.pages().len(),
    {
        self.records.len()
    }

    /// Where the index of slots says that `url` stands is where it stands.
    proof fn lemma_slot(&self, url: Seq<char>)
        requires
            self.wf(),
        ensures
            urls_of(self.pages()).index_of_first(url) == if self.slots@.contains_key(url) {
                Some(self.slots@[url] as int)
            } else {
                None
            },
    {
        let urls = urls_of(self.pages());
        assert forall|i: int| 0 <= i < urls.len() implies urls[i] == self.records@[i].url@ by {}
        assert(places(self.slots@, urls));
        lemma_place(self.slots@, urls, url);
    }
}

/// The record of `url`, if the store holds one.
pub fn find<'a>(store: &'a DocumentStore, url: &str) -> (r: Option<&'a Node>)
    requires
        store.wf(),
    ensures
        match r {
            Some(node) => lookup(store.pages(), url@) == Some(node@),
            None => lookup(store.pages(), url@) is None,
        },
{
    proof {
        store.lemma_slot(url@);
    }
    match store.slots.get(url) {
        Some(i) => Some(&store.records[*i]),
        None => None,
    }
}

/// The record of `url`, as a copy, if the store holds one.
pub fn get_by_url(store: &DocumentStore, url: &str) -> (r: Option<Node>)
    requires
        store.wf(),
    ensures
        match r {
            Some(node) => lookup(store.pages(), url@) == Some(node@),
            None => lookup(store.pages(), url@) is None,
        },
{
    match find(store, url) {
        Some(node) => Some(node.clone()),
        None => None,
    }
}

/// Creates or replaces the record of `url` with the given texts, the digest
/// of `content` and the instant `at`, and counts the insert.
pub fn insert_at(
    store: &mut DocumentStore,
    url: &str,
    content: &str,
    title: &str,
    headings: &str,
    highlighted: &str,
    at: Timestamp,
)
    requires
        old(store).wf(),
        old(store).totals().has_room(entry(url@, content@, title@, headings@, highlighted@)),
    ensures
        final(store).wf(),
        final(store).pages() == put(
            old(store).pages(),
            page_of(entry(url@, content@, title@, headings@, highlighted@), at),
        ),
        final(store).totals() == old(store).totals().counted(
            entry(url@, content@, title@, headings@, highlighted@),
        ),
{
    proof {
        store.lemma_slot(url@);
    }
    let ghost before = store.pages();
    let node = Node {
        url: url.to_owned(),
        hash: get_hash(content),
        title: title.to_owned(),
        headings: headings.to_owned(),
        highlighted: highlighted.to_owned(),
        content: content.to_owned(),
        timestamp: at,
    };
    let ghost page = node@;
    let found = match store.slots.get(url) {
        Some(i) => Some(*i),
        None => None,
    };
    match found {
        Some(i) => {
            store.records.set(i, node);
            assert(store.pages() =~= before.update(i as int, page));
            assert(urls_of(store.pages()) =~= urls_of(before));
        },
        None => {
            let n = store.records.len();
            store.slots.insert(url.to_owned(), n);
            store.records.push(node);
            assert(store.pages() =~= before.push(page));
            assert(urls_of(store.pages()) =~= urls_of(before).push(url@));
            assert(!urls_of(before).contains(url@)) by {
                urls_of(before).index_of_first_ensures(url@);
            }
        },
    }
    handle_index_config_update(&mut store.config, url, content, title, headings, highlighted);
}

/// Creates or replaces the record of `url` with the given texts, the digest
/// of `content` and the present instant, and counts the insert.
pub fn insert(
    store: &mut DocumentStore,
    url: &str,
    content: &str,
    title: &str,
    headings: &str,
    highlighted: &str,
)
    requires
        old(store).wf(),
        old(store).totals().has_room(entry(url@, content@, title@, headings@, highlighted@)),
    ensures
        final(store).wf(),
        exists|at: Timestamp|
            at.nanos < NANOS_PER_SEC && final(store).pages() == put(
                old(store).pages(),
                #[trigger] page_of(entry(url@, content@, title@, headings@, highlighted@), at),
            ),
        final(store).totals() == old(store).totals().counted(
            entry(url@, content@, title@, headings@, highlighted@),
        ),
{
    let at = now();
    insert_at(store, url, content, title, headings, highlighted, at);
}

/// What a snapshot keeps of each page.
pub open spec fn entries_of(pages: Seq<Page>) -> Seq<Entry> {
    pages.map_values(|p: Page| entry_of(p))
}

/// Only the instants of the inserts that are made count.
pub proof fn lemma_put_all_stamps(
    pages: Seq<Page>,
    entries: Seq<Entry>,
    a: Seq<Timestamp>,
    b: Seq<Timestamp>,
)
    requires
        forall|i: int| 0 <= i < entries.len() ==> a[i] == b[i],
    ensures
        put_all(pages, entries, a) == put_all(pages, entries, b),
    decreases entries.len(),
{
    if entries.len() > 0 {
        lemma_put_all_stamps(pages, entries.drop_last(), a, b);
    }
}

/// The pages with the instants `stamps` in place of their own.
pub open spec fn restamped(pages: Seq<Page>, stamps: Seq<Timestamp>) -> Seq<Page> {
    Seq::new(
        pages.len(),
        |i: int|
            (Page {
                url: pages[i].url,
                hash: pages[i].hash,
                title: pages[i].title,
                headings: pages[i].headings,
                highlighted: pages[i].highlighted,
                content: pages[i].content,
                timestamp: stamps[i],
            }),
    )
}

/// Inserts of records with different URLs into an empty store leave one
/// page for each record, in the order of the records.
pub proof fn lemma_put_all_distinct(entries: Seq<Entry>, stamps: Seq<Timestamp>)
    requires
        entries.map_values(|e: Entry| e.url).no_duplicates(),
    ensures
        put_all(Seq::empty(), entries, stamps) == Seq::new(
            entries.len(),
            |i: int| page_of(entries[i], stamps[i]),
        ),
    decreases entries.len(),
{
    let urls = entries.map_values(|e: Entry| e.url);
    let want = Seq::new(entries.len(), |i: int| page_of(entries[i], stamps[i]));
    if entries.len() == 0 {
        assert(put_all(Seq::empty(), entries, stamps) =~= want);
    } else {
        let head = entries.drop_last();
        let head_urls = head.map_values(|e: Entry| e.url);
        assert forall|i: int, j: int|
            0 <= i < head_urls.len() && 0 <= j < head_urls.len() && i != j implies head_urls[i]
            != head_urls[j] by {
            assert(head_urls[i] == urls[i] && head_urls[j] == urls[j]);
        }
        lemma_put_all_distinct(head, stamps);
        let before = put_all(Seq::empty(), head, stamps);
        let page = page_of(entries.last(), stamps[entries.len() - 1]);
        assert(urls_of(before) =~= head_urls);
        urls_of(before).index_of_first_ensures(page.url);
        if urls_of(before).contains(page.url) {
            let k = choose|k: int| 0 <= k < head_urls.len() && head_urls[k] == page.url;
            assert(urls[k] == urls[entries.len() - 1]);
        }
        assert(before.push(page) =~= want);
    }
}

/// A snapshot of valid pages that can be stored, loaded into an empty store,
/// gives the same pages in the same order, each with the instant of its
/// loading in place of its own.
pub proof fn law_snapshot_reload(pages: Seq<Page>, stamps: Seq<Timestamp>)
    requires
        valid_pages(pages),
        forall|i: int| 0 <= i < pages.len() ==> storable(entry_of(#[trigger] pages[i])),
    ensures
        put_all(Seq::empty(), parse(encode(entries_of(pages))), stamps) == restamped(pages, stamps),
{
    let entries = entries_of(pages);
    assert forall|i: int| 0 <= i < entries.len() implies storable(#[trigger] entries[i]) by {
        assert(entries[i] == entry_of(pages[i]));
    }
    law_round_trip(entries);
    assert(entries.map_values(|e: Entry| e.url) =~= urls_of(pages));
    lemma_put_all_distinct(entries, stamps);
    assert(put_all(Seq::empty(), entries, stamps) =~= restamped(pages, stamps));
}

/// After such a reload every URL is answered as before, but for the instant.
pub proof fn law_reload_answers(pages: Seq<Page>, stamps: Seq<Timestamp>, url: Seq<char>)
    requires
        valid_pages(pages),
        forall|i: int| 0 <= i < pages.len() ==> storable(entry_of(#[trigger] pages[i])),
    ensures
        ({
            let reloaded = put_all(Seq::empty(), parse(encode(entries_of(pages))), stamps);
            match lookup(pages, url) {
                Some(page) => lookup(reloaded, url) is Some && lookup(reloaded, url)->0 == (Page {
                    timestamp: lookup(reloaded, url)->0.timestamp,
                    ..page
                }),
                None => lookup(reloaded, url) is None,
            }
        }),
{
    law_snapshot_reload(pages, stamps);
    assert(urls_of(restamped(pages, stamps)) =~= urls_of(pages));
    urls_of(pages).index_of_first_ensures(url);
}

/// The snapshot of the store: the line of each page, in the order of the
/// store.
pub fn snapshot(store: &DocumentStore) -> (r: String)
    ensures
        r@ == encode(entries_of(store.pages())),
{
    let mut out = String::new();
    let mut i: usize = 0;
    while i < store.records.len()
        invariant
            i <= store.records.len(),
            out@ == encode(entries_of(store.pages()).take(i as int)),
        decreases store.records.len() - i,
    {
        let node = &store.records[i];
        let ghost all = entries_of(store.pages());
        assert(all.take(i + 1).drop_last() =~= all.take(i as int));
        assert(all.take(i + 1).last() == entry_of(node@));
        let line = encode_record(
            node.url.as_str(),
            node.title.as_str(),
            node.headings.as_str(),
            node.highlighted.as_str(),
            node.content.as_str(),
        );
        out.append(line.as_str());
        assert(out@ =~= encode(all.take(i as int)) + encode_line(entry_of(node@)) + seq!['\n']);
        i += 1;
    }
    assert(entries_of(store.pages()).take(store.records.len() as int) =~= entries_of(store.pages()));
    out
}

/// Inserts each of `records`, in order, each at the instant at which its
/// turn comes.
pub fn index_records(store: &mut DocumentStore, records: &Vec<Record>)
    requires
        old(store).wf(),
        old(store).totals().has_room_for(records.deep_view()),
    ensures
        final(store).wf(),
        exists|stamps: Seq<Timestamp>|
            whole_stamps(stamps, records.len() as nat) && final(store).pages() == #[trigger] put_all(
                old(store).pages(),
                records.deep_view(),
                stamps,
            ),
        final(store).totals() == old(store).totals().counted_all(records.deep_view()),
{
    let ghost start = store.pages();
    let ghost totals = store.totals();
    let ghost all = records.deep_view();
    let ghost mut stamps: Seq<Timestamp> = Seq::empty();
    let mut i: usize = 0;
    while i < records.len()
        invariant
            i <= records.len(),
            all == records.deep_view(),
            totals.has_room_for(all),
            store.wf(),
            stamps.len() == i,
            whole_stamps(stamps, i as nat),
            store.pages() == put_all(start, all.take(i as int), stamps),
            store.totals() == totals.counted_all(all.take(i as int)),
        decreases records.len() - i,
    {
        let record = &records[i];
        proof {
            lemma_room_for_prefix(totals, all, i as int);
            assert(all.take(i + 1).drop_last() =~= all.take(i as int));
            assert(all[i as int] == entry(
                record.url@,
                record.content@,
                record.title@,
                record.headings@,
                record.highlighted@,
            ));
        }
        let at = now();
        insert_at(
            store,
            record.url.as_str(),
            record.content.as_str(),
            record.title.as_str(),
            record.headings.as_str(),
            record.highlighted.as_str(),
            at,
        );
        proof {
            lemma_put_all_stamps(start, all.take(i as int), stamps, stamps.push(at));
            stamps = stamps.push(at);
        }
        i += 1;
    }
    assert(all.take(records.len() as int) =~= all);
}

/// Loads a snapshot: each line of `data` that is a record is inserted, in
/// order, at the instant at which its turn comes; the other lines are passed
/// over.
pub fn index(store: &mut DocumentStore, data: &str)
    requires
        old(store).wf(),
        old(store).totals().has_room_for(parse(data@)),
    ensures
        final(store).wf(),
        exists|stamps: Seq<Timestamp>|
            whole_stamps(stamps, parse(data@).len()) && final(store).pages() == #[trigger] put_all(
                old(store).pages(),
                parse(data@),
                stamps,
            ),
        final(store).totals() == old(store).totals().counted_all(parse(data@)),
{
    let records = parse_snapshot(data);
    index_records(store, &records);
}

} // verus!
