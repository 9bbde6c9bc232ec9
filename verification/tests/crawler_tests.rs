use search_core::clock::{now, Timestamp};
use search_core::crawler::{
    deal_out, handle_page, index_page, plan_visit, split_seeds, store_page, worker_count, Crawl,
    CrawlError, Visit,
};
use search_core::digest::get_hash;
use search_core::html::{
    collect_links, extract, get_by_selectors, get_urls, is_too_long, normalize, ExtractError,
    ExtractedPage, MAX_DOCUMENT,
};
use search_core::inverted_index::{get_helper, TermIndex};
use search_core::url_index::{get_by_url, insert_at, DocumentStore, FieldCount, IndexConfig};

fn owned(parts: &[&str]) -> Vec<String> {
    parts.iter().map(|p| p.to_string()).collect()
}

const PAGE: &str = r#"<!DOCTYPE html>
<html>
  <head><title>  The   Rust
     Book </title></head>
  <body>
    <h1>Getting Started</h1>
    <h2>Install</h2>
    <div class="content"><p>Rust is a <strong>Systems</strong> language.</p></div>
    <ul><li>First <em>Item</em></li></ul>
    <a href="http://a/next">next</a>
    <a href="/relative?x=1#frag">relative</a>
    <a name="no-href">anchor</a>
    <a href="http://a/next">again</a>
    <a href="https://b/">other</a>
  </body>
</html>"#;

#[test]
fn links_are_the_href_values_each_once() {
    assert_eq!(
        get_urls(PAGE),
        Ok(owned(&["http://a/next", "/relative?x=1#frag", "https://b/"]))
    );
    assert_eq!(get_urls("<p>no anchors</p>"), Ok(Vec::new()));
    assert_eq!(get_urls(""), Ok(Vec::new()));
}

#[test]
fn collect_links_drops_gaps_and_repeats() {
    let values = vec![
        Some("b".to_string()),
        None,
        Some("a".to_string()),
        Some("b".to_string()),
        None,
        Some("".to_string()),
        Some("a".to_string()),
    ];
    assert_eq!(collect_links(values), owned(&["b", "a", ""]));
    assert_eq!(collect_links(Vec::new()), Vec::<String>::new());
}

#[test]
fn selected_text_is_collapsed_and_lower_case() {
    assert_eq!(get_by_selectors(PAGE, "title"), Ok("the rust book".to_string()));
    assert_eq!(
        get_by_selectors(PAGE, "h1, h2, h3, h4, h5, h6"),
        Ok("getting started install".to_string())
    );
    assert_eq!(get_by_selectors(PAGE, "strong, em"), Ok("systems item".to_string()));
    assert_eq!(get_by_selectors(PAGE, "table"), Ok(String::new()));
}

#[test]
fn a_selector_that_is_none_is_refused() {
    assert_eq!(get_by_selectors(PAGE, "p["), Err(ExtractError::Selector));
    assert_eq!(get_by_selectors(PAGE, ""), Err(ExtractError::Selector));
}

#[test]
fn a_document_that_is_too_long_is_refused() {
    assert_eq!(MAX_DOCUMENT, 1_073_741_823);
    assert!(!is_too_long(""));
    assert!(!is_too_long(PAGE));
    let mut long = "<p>".to_string();
    long.push_str(&"a".repeat(MAX_DOCUMENT - 2));
    assert!(is_too_long(&long));
    assert_eq!(get_urls(&long), Err(ExtractError::TooLong));
    assert_eq!(get_by_selectors(&long, "p"), Err(ExtractError::TooLong));
    assert!(matches!(extract(&long), Err(ExtractError::TooLong)));
    let mut store = DocumentStore::new();
    let mut terms = TermIndex::new();
    assert_eq!(
        handle_page(&mut store, &mut terms, "http://a/", &long),
        Err(CrawlError::TooLong)
    );
    assert_eq!(store.len(), 0);
    assert_eq!(terms.len(), 0);
}

#[test]
fn normalize_collapses_whitespace() {
    assert_eq!(normalize(&owned(&["  Hello ", "", "\n", "WORLD\tagain"])), "hello world again");
    assert_eq!(normalize(&owned(&[" ", "\t"])), "");
    assert_eq!(normalize(&Vec::new()), "");
}

#[test]
fn a_page_is_taken_apart() {
    let page = extract(PAGE).unwrap();
    assert_eq!(page.title, "the rust book");
    assert_eq!(page.headings, "getting started install");
    assert_eq!(page.highlighted, "systems first item item");
    assert_eq!(page.content, "rust is a systems language. rust is a systems language.");
    assert_eq!(page.links, owned(&["http://a/next", "/relative?x=1#frag", "https://b/"]));
}

#[test]
fn urls_of_web_pages_are_fetched() {
    let store = DocumentStore::new();
    let t = Timestamp { secs: 1_000, nanos: 0 };
    assert_eq!(plan_visit(&store, "http://a/", false, t, 3), Visit::Fetch);
    assert_eq!(plan_visit(&store, "https://a/", false, t, 3), Visit::Fetch);
    assert_eq!(plan_visit(&store, "see http://a/", true, t, 3), Visit::Fetch);
}

#[test]
fn other_urls_are_rejected() {
    let mut store = DocumentStore::new();
    let t = Timestamp { secs: 1_000, nanos: 0 };
    for url in ["/relative", "ftp://a/", "mailto:x@y", "", "http:/a", "HTTP://A/"] {
        assert_eq!(plan_visit(&store, url, false, t, 3), Visit::Reject);
        assert_eq!(plan_visit(&store, url, true, t, 3), Visit::Reject);
    }
    insert_at(&mut store, "/relative", "c", "t", "h", "x", t);
    assert_eq!(plan_visit(&store, "/relative", false, t, 3), Visit::Reject);
}

#[test]
fn freshness_skip() {
    let mut store = DocumentStore::new();
    let terms = TermIndex::new();
    let stamp = now();
    insert_at(&mut store, "http://u/", "content", "t", "h", "x", stamp);
    assert_eq!(plan_visit(&store, "http://u/", false, now(), 3), Visit::Skip);
    assert_eq!(get_by_url(&store, "http://u/").unwrap().timestamp, stamp);
    assert_eq!(plan_visit(&store, "http://u/", true, now(), 3), Visit::Fetch);
    assert_eq!(plan_visit(&store, "http://other/", false, now(), 3), Visit::Fetch);
    assert_eq!(store.config().total_count, 1);
    assert_eq!(terms.len(), 0);
}

#[test]
fn a_page_is_fresh_for_whole_days() {
    let mut store = DocumentStore::new();
    let day: i64 = 86_400;
    let stamp = Timestamp { secs: 50 * day, nanos: 500 };
    insert_at(&mut store, "http://u/", "content", "t", "h", "x", stamp);
    let plan = |secs: i64, nanos: u32, days: i64| {
        plan_visit(&store, "http://u/", false, Timestamp { secs, nanos }, days)
    };
    assert_eq!(plan(50 * day, 500, 3), Visit::Skip);
    assert_eq!(plan(53 * day, 499, 3), Visit::Skip);
    assert_eq!(plan(53 * day, 500, 3), Visit::Fetch);
    assert_eq!(plan(60 * day, 0, 3), Visit::Fetch);
    assert_eq!(plan(50 * day, 500, 0), Visit::Fetch);
    assert_eq!(plan(40 * day, 0, 0), Visit::Skip);
    assert_eq!(plan(40 * day, 0, -10), Visit::Fetch);
    assert_eq!(plan(50 * day + 1, 0, 1), Visit::Skip);
}

#[test]
fn a_fetched_page_goes_into_both_stores() {
    let mut store = DocumentStore::new();
    let mut terms = TermIndex::new();
    let links = handle_page(&mut store, &mut terms, "http://a/", PAGE).unwrap();
    assert_eq!(links, owned(&["http://a/next", "/relative?x=1#frag", "https://b/"]));
    let node = get_by_url(&store, "http://a/").unwrap();
    assert_eq!(node.title, "the rust book");
    assert_eq!(node.headings, "getting started install");
    assert_eq!(node.hash, get_hash(&node.content));
    assert_eq!(store.config().total_count, 1);
    for word in ["the", "rust", "book", "getting", "install", "systems", "language.", "item"] {
        assert_eq!(get_helper(&terms, word), Some(owned(&["http://a/"])));
    }
    assert!(get_helper(&terms, "next").is_none());
}

#[test]
fn unchanged_content_changes_nothing() {
    let mut store = DocumentStore::new();
    let mut terms = TermIndex::new();
    let old = Timestamp { secs: 5, nanos: 5 };
    let page = extract(PAGE).unwrap();
    insert_at(&mut store, "http://a/", &page.content, "an older title", "", "", old);
    let count = terms.len();
    let links = handle_page(&mut store, &mut terms, "http://a/", PAGE).unwrap();
    assert_eq!(links.len(), 3);
    let node = get_by_url(&store, "http://a/").unwrap();
    assert_eq!(node.title, "an older title");
    assert_eq!(node.timestamp, old);
    assert_eq!(store.config().total_count, 1);
    assert_eq!(terms.len(), count);
    assert!(get_helper(&terms, "rust").is_none());
}

#[test]
fn changed_content_replaces_the_page() {
    let mut store = DocumentStore::new();
    let mut terms = TermIndex::new();
    let old = Timestamp { secs: 5, nanos: 5 };
    insert_at(&mut store, "http://a/", "something else", "an older title", "", "", old);
    handle_page(&mut store, &mut terms, "http://a/", PAGE).unwrap();
    let node = get_by_url(&store, "http://a/").unwrap();
    assert_eq!(node.title, "the rust book");
    assert!(node.timestamp.secs > 1_600_000_000);
    assert_eq!(store.config().total_count, 2);
    assert_eq!(store.len(), 1);
}

#[test]
fn index_page_tells_whether_it_changed_anything() {
    let mut store = DocumentStore::new();
    let mut terms = TermIndex::new();
    let page = ExtractedPage {
        title: "t".to_string(),
        headings: "h".to_string(),
        highlighted: "x".to_string(),
        content: "alpha beta".to_string(),
        links: Vec::new(),
    };
    assert!(index_page(&mut store, &mut terms, "http://a/", &page));
    assert!(!index_page(&mut store, &mut terms, "http://a/", &page));
    assert!(index_page(&mut store, &mut terms, "http://b/", &page));
    assert_eq!(store.config().total_count, 2);
    assert_eq!(get_helper(&terms, "alpha"), Some(owned(&["http://a/", "http://b/"])));
    let retitled = ExtractedPage { title: "other".to_string(), ..page };
    assert!(!index_page(&mut store, &mut terms, "http://a/", &retitled));
    assert_eq!(get_by_url(&store, "http://a/").unwrap().title, "t");
}

#[test]
fn store_page_takes_what_changed() {
    let mut store = DocumentStore::new();
    let mut terms = TermIndex::new();
    let page = ExtractedPage {
        title: "t".to_string(),
        headings: "h".to_string(),
        highlighted: "x".to_string(),
        content: "alpha".to_string(),
        links: owned(&["http://next/"]),
    };
    assert_eq!(store_page(&mut store, &mut terms, "http://a/", &page), Ok(true));
    assert_eq!(store_page(&mut store, &mut terms, "http://a/", &page), Ok(false));
    assert_eq!(store.config().total_count, 1);
    let full = IndexConfig {
        total_count: u64::MAX,
        field_count: FieldCount { url: 0, title: 0, headings: 0, highlighted: 0, content: 0 },
    };
    assert!(!full.fits("http://a/", "alpha", "t", "h", "x"));
    assert_ne!(CrawlError::Full, CrawlError::Selector);
}

#[test]
fn lists_are_dealt_out_onto_piles() {
    let lists = vec![owned(&["a1", "a2", "a3"]), owned(&[]), owned(&["b1"]), owned(&["c1", "c2"])];
    assert_eq!(
        deal_out(&lists),
        vec![owned(&["a1", "b1", "c1"]), owned(&["a2", "c2"]), owned(&["a3"])]
    );
    assert_eq!(deal_out(&Vec::new()), Vec::<Vec<String>>::new());
    assert_eq!(deal_out(&vec![owned(&[]), owned(&[])]), Vec::<Vec<String>>::new());
}

#[test]
fn a_crawl_visits_each_url_once_level_by_level() {
    let mut crawl = Crawl::new(owned(&["s1", "s2", "s1"]), 2);
    assert!(!crawl.is_done());
    assert_eq!(crawl.depth(), 0);
    let wave = crawl.advance(&vec![owned(&["ignored"])]).unwrap();
    assert_eq!(wave, owned(&["s1", "s2"]));
    assert_eq!(crawl.depth(), 2);
    assert!(crawl.is_done());
    let first = crawl.advance(&vec![owned(&["a", "s1", "b"]), owned(&["b", "c"])]).unwrap();
    assert_eq!(first, owned(&["a", "b"]));
    assert_eq!(crawl.depth(), 1);
    let second = crawl.advance(&vec![owned(&["deep"])]).unwrap();
    assert_eq!(second, owned(&["c"]));
    assert_eq!(crawl.depth(), 1);
    let third = crawl.advance(&Vec::new()).unwrap();
    assert_eq!(third, Vec::<String>::new());
    assert_eq!(crawl.depth(), 1);
    assert!(!crawl.is_done());
    assert!(crawl.advance(&vec![owned(&["deeper"])]).is_none());
    assert!(crawl.is_done());
    assert_eq!(crawl.depth(), 0);
    assert!(crawl.advance(&vec![owned(&["late"])]).is_none());
}

#[test]
fn a_crawl_never_goes_back_up() {
    let mut crawl = Crawl::new(owned(&["s"]), 4);
    let mut found: Vec<Vec<String>> = Vec::new();
    let mut last = 4;
    let mut waves = 0;
    let mut seen: Vec<String> = Vec::new();
    while let Some(urls) = crawl.advance(&found) {
        assert!(crawl.depth() <= last);
        assert!(crawl.depth() > 0);
        last = crawl.depth();
        found = Vec::new();
        for url in urls {
            assert!(!seen.contains(&url));
            found.push(vec![format!("{}0", url), format!("{}1", url), "s".to_string()]);
            seen.push(url);
        }
        waves += 1;
    }
    assert_eq!(last, 1);
    assert_eq!(seen.len(), 1 + 2 + 4 + 8);
    assert!(waves >= 4);
}

#[test]
fn a_crawl_of_no_depth_visits_nothing() {
    let mut crawl = Crawl::new(owned(&["s1"]), 0);
    assert!(crawl.advance(&Vec::new()).is_none());
    assert!(crawl.is_done());
    let mut empty = Crawl::new(Vec::new(), 3);
    let wave = empty.advance(&Vec::new()).unwrap();
    assert!(wave.is_empty());
    assert!(empty.advance(&Vec::new()).is_none());
}

#[test]
fn seeds_are_dealt_out_in_turn() {
    let seeds = owned(&["a", "b", "c", "d", "e"]);
    assert_eq!(split_seeds(&seeds, 2), vec![owned(&["a", "c", "e"]), owned(&["b", "d"])]);
    assert_eq!(split_seeds(&seeds, 1), vec![seeds.clone()]);
    assert_eq!(
        split_seeds(&owned(&["a", "b"]), 4),
        vec![owned(&["a"]), owned(&["b"]), Vec::new(), Vec::new()]
    );
    assert_eq!(split_seeds(&Vec::new(), 3), vec![Vec::<String>::new(); 3]);
}

#[test]
fn there_is_always_a_worker() {
    assert_eq!(worker_count(4, 2), 8);
    assert_eq!(worker_count(1, 1), 1);
    assert_eq!(worker_count(0, 2), 1);
    assert_eq!(worker_count(8, 0), 1);
    assert_eq!(worker_count(3, 255), 765);
}
