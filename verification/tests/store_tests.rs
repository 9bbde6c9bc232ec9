use search_core::clock::Timestamp;
use search_core::digest::get_hash;
use search_core::snapshot::{encode_record, parse_record, parse_snapshot, temp_path, Record};
use search_core::url_index::{
    calc_helper, find, get_by_url, handle_index_config_update, index, index_records, insert,
    insert_at, snapshot, DocumentStore, FieldCount, IndexConfig,
};

fn at(secs: i64) -> Timestamp {
    Timestamp { secs, nanos: 0 }
}

#[test]
fn empty_store_knows_no_url() {
    let store = DocumentStore::new();
    assert_eq!(store.len(), 0);
    assert!(get_by_url(&store, "http://a/").is_none());
    assert!(find(&store, "").is_none());
    assert_eq!(store.config().total_count, 0);
    assert_eq!(snapshot(&store), "");
}

#[test]
fn insert_then_get_returns_the_fields() {
    let mut store = DocumentStore::new();
    insert_at(&mut store, "http://a/", "the content", "a title", "some headings", "bold words", at(7));
    let node = get_by_url(&store, "http://a/").unwrap();
    assert_eq!(node.url, "http://a/");
    assert_eq!(node.content, "the content");
    assert_eq!(node.title, "a title");
    assert_eq!(node.headings, "some headings");
    assert_eq!(node.highlighted, "bold words");
    assert_eq!(node.hash, get_hash("the content"));
    assert_eq!(node.timestamp, at(7));
    assert!(get_by_url(&store, "http://a").is_none());
    assert!(get_by_url(&store, "http://b/").is_none());
}

#[test]
fn last_insert_of_a_url_wins() {
    let mut store = DocumentStore::new();
    insert_at(&mut store, "http://a/", "one", "t1", "h1", "x1", at(1));
    insert_at(&mut store, "http://b/", "other", "tb", "hb", "xb", at(2));
    insert_at(&mut store, "http://a/", "two", "t2", "h2", "x2", at(3));
    assert_eq!(store.len(), 2);
    let a = get_by_url(&store, "http://a/").unwrap();
    assert_eq!(a.content, "two");
    assert_eq!(a.title, "t2");
    assert_eq!(a.headings, "h2");
    assert_eq!(a.highlighted, "x2");
    assert_eq!(a.hash, get_hash("two"));
    assert_eq!(a.timestamp, at(3));
    let b = get_by_url(&store, "http://b/").unwrap();
    assert_eq!(b.content, "other");
    assert_eq!(b.timestamp, at(2));
}

#[test]
fn get_returns_a_copy() {
    let mut store = DocumentStore::new();
    insert_at(&mut store, "http://a/", "one", "t", "h", "x", at(1));
    let mut copy = get_by_url(&store, "http://a/").unwrap();
    copy.content.push_str(" changed");
    copy.url = "http://other/".to_string();
    assert_eq!(get_by_url(&store, "http://a/").unwrap().content, "one");
    assert!(get_by_url(&store, "http://other/").is_none());
}

#[test]
fn insert_stamps_the_present() {
    let mut store = DocumentStore::new();
    let before = search_core::clock::now();
    insert(&mut store, "http://a/", "c", "t", "h", "x");
    let after = search_core::clock::now();
    let node = get_by_url(&store, "http://a/").unwrap();
    assert!(before.secs <= node.timestamp.secs && node.timestamp.secs <= after.secs);
    assert!(node.timestamp.nanos < 1_000_000_000);
    assert_eq!(node.hash, get_hash("c"));
    assert_eq!(node.title, "t");
}

#[test]
fn totals_count_every_insert() {
    let mut store = DocumentStore::new();
    insert_at(&mut store, "http://a/", "12345", "123", "12", "1", at(1));
    assert_eq!(store.config().total_count, 1);
    assert_eq!(store.config().field_count.url, 9);
    assert_eq!(store.config().field_count.content, 5);
    assert_eq!(store.config().field_count.title, 3);
    assert_eq!(store.config().field_count.headings, 2);
    assert_eq!(store.config().field_count.highlighted, 1);
    insert_at(&mut store, "http://a/", "1234567", "", "1", "12", at(2));
    assert_eq!(store.len(), 1);
    assert_eq!(store.config().total_count, 2);
    assert_eq!(store.config().field_count.url, 18);
    assert_eq!(store.config().field_count.content, 12);
    assert_eq!(store.config().field_count.title, 3);
    assert_eq!(store.config().field_count.headings, 3);
    assert_eq!(store.config().field_count.highlighted, 3);
}

#[test]
fn totals_count_characters() {
    let mut config = IndexConfig::new();
    handle_index_config_update(&mut config, "http://ä/", "çé", "ü", "", "日本語");
    assert_eq!(config.total_count, 1);
    assert_eq!(config.field_count.url, 9);
    assert_eq!(config.field_count.content, 2);
    assert_eq!(config.field_count.title, 1);
    assert_eq!(config.field_count.headings, 0);
    assert_eq!(config.field_count.highlighted, 3);
}

#[test]
fn totals_that_are_full_do_not_fit() {
    let roomy = IndexConfig::new();
    assert!(roomy.fits("u", "c", "t", "h", "x"));
    let counted_out = IndexConfig {
        total_count: u64::MAX,
        field_count: FieldCount { url: 0, title: 0, headings: 0, highlighted: 0, content: 0 },
    };
    assert!(!counted_out.fits("u", "c", "t", "h", "x"));
    let long_titles = IndexConfig {
        total_count: 5,
        field_count: FieldCount { url: 0, title: u64::MAX - 2, headings: 0, highlighted: 0, content: 0 },
    };
    assert!(long_titles.fits("u", "c", "ab", "h", "x"));
    assert!(!long_titles.fits("u", "c", "abc", "h", "x"));
    let records = vec![
        Record {
            url: "u".to_string(),
            title: "a".to_string(),
            headings: String::new(),
            highlighted: String::new(),
            content: String::new(),
        },
        Record {
            url: "v".to_string(),
            title: "bc".to_string(),
            headings: String::new(),
            highlighted: String::new(),
            content: String::new(),
        },
    ];
    assert!(!long_titles.fits_all(&records));
    assert!(roomy.fits_all(&records));
    assert!(long_titles.fits_all(&Vec::new()));
}

#[test]
fn calc_helper_divides_the_current_value() {
    assert_eq!(calc_helper(100, 10, 1), 10);
    assert_eq!(calc_helper(100, 10, 3), 3);
    assert_eq!(calc_helper(u64::MAX, u64::MAX, 2), u64::MAX / 2);
    assert_eq!(calc_helper(7, 0, 9), 0);
    assert_eq!(calc_helper(0, 9, 10), 0);
}

#[test]
fn a_record_is_written_as_one_line() {
    assert_eq!(
        encode_record("http://a/", "T", "H", "X", "C"),
        "http://a/$$==$$=$$T$$==$$=$$H$$==$$=$$X$$==$$=$$C\n"
    );
    assert_eq!(encode_record("", "", "", "", ""), "$$==$$=$$$$==$$=$$$$==$$=$$$$==$$=$$\n");
}

#[test]
fn a_line_of_five_fields_is_a_record() {
    let record = parse_record("http://a/$$==$$=$$T$$==$$=$$H$$==$$=$$X$$==$$=$$C").unwrap();
    assert_eq!(record.url, "http://a/");
    assert_eq!(record.title, "T");
    assert_eq!(record.headings, "H");
    assert_eq!(record.highlighted, "X");
    assert_eq!(record.content, "C");
    let empty = parse_record("$$==$$=$$$$==$$=$$$$==$$=$$$$==$$=$$").unwrap();
    assert_eq!(empty.url, "");
    assert_eq!(empty.content, "");
}

#[test]
fn a_line_of_another_field_count_is_no_record() {
    assert!(parse_record("").is_none());
    assert!(parse_record("just text").is_none());
    assert!(parse_record("a$$==$$=$$b$$==$$=$$c$$==$$=$$d").is_none());
    assert!(parse_record("a$$==$$=$$b$$==$$=$$c$$==$$=$$d$$==$$=$$e$$==$$=$$f").is_none());
}

#[test]
fn malformed_lines_are_passed_over() {
    let text = "junk\nu1$$==$$=$$t1$$==$$=$$h1$$==$$=$$x1$$==$$=$$c1\n\nfour$$==$$=$$fields$$==$$=$$only$$==$$=$$here\nu2$$==$$=$$t2$$==$$=$$h2$$==$$=$$x2$$==$$=$$c2\r\n";
    let records = parse_snapshot(text);
    assert_eq!(records.len(), 2);
    assert_eq!(records[0].url, "u1");
    assert_eq!(records[0].content, "c1");
    assert_eq!(records[1].url, "u2");
    assert_eq!(records[1].content, "c2");
    assert_eq!(parse_snapshot("").len(), 0);
}

#[test]
fn temp_path_stands_beside_the_snapshot() {
    assert_eq!(temp_path("data/url_index.txt"), "data/url_index-temp.txt");
    assert_eq!(temp_path("index"), "index");
    assert_eq!(temp_path("a.txt/b.txt"), "a-temp.txt/b-temp.txt");
}

#[test]
fn snapshot_round_trip() {
    let mut store = DocumentStore::new();
    insert_at(&mut store, "http://a/", "alpha beta", "first", "h a", "x a", at(1));
    insert_at(&mut store, "http://b/", "gamma", "second", "", "", at(2));
    insert_at(&mut store, "http://c/", "", "third $ = page", "h$$c", "$$==$$", at(3));
    let text = snapshot(&store);
    assert_eq!(text.lines().count(), 3);
    assert!(text.ends_with('\n'));
    let mut fresh = DocumentStore::new();
    index(&mut fresh, &text);
    assert_eq!(fresh.len(), 3);
    for url in ["http://a/", "http://b/", "http://c/"] {
        let was = get_by_url(&store, url).unwrap();
        let is = get_by_url(&fresh, url).unwrap();
        assert_eq!(is.url, was.url);
        assert_eq!(is.title, was.title);
        assert_eq!(is.headings, was.headings);
        assert_eq!(is.highlighted, was.highlighted);
        assert_eq!(is.content, was.content);
        assert_eq!(is.hash, was.hash);
    }
    assert!(get_by_url(&fresh, "http://d/").is_none());
    assert_eq!(snapshot(&fresh), text);
    assert_eq!(fresh.config().total_count, 3);
    assert_eq!(fresh.config().field_count.content, 15);
}

#[test]
fn snapshot_keeps_the_order_of_first_inserts() {
    let mut store = DocumentStore::new();
    insert_at(&mut store, "u2", "c2", "t2", "h2", "x2", at(1));
    insert_at(&mut store, "u1", "c1", "t1", "h1", "x1", at(2));
    insert_at(&mut store, "u2", "c3", "t3", "h3", "x3", at(3));
    assert_eq!(
        snapshot(&store),
        "u2$$==$$=$$t3$$==$$=$$h3$$==$$=$$x3$$==$$=$$c3\nu1$$==$$=$$t1$$==$$=$$h1$$==$$=$$x1$$==$$=$$c1\n"
    );
}

#[test]
fn a_field_that_ends_in_part_of_the_separator_does_not_come_back() {
    let mut store = DocumentStore::new();
    insert_at(&mut store, "x$$==$$=", "c", "t", "h", "x", at(1));
    let mut fresh = DocumentStore::new();
    index(&mut fresh, &snapshot(&store));
    assert!(get_by_url(&fresh, "x$$==$$=").is_none());
}

#[test]
fn loading_replaces_and_adds() {
    let mut store = DocumentStore::new();
    insert_at(&mut store, "u1", "old", "t", "h", "x", at(1));
    insert_at(&mut store, "u0", "kept", "t", "h", "x", at(2));
    let records = parse_snapshot("u1$$==$$=$$T1$$==$$=$$H1$$==$$=$$X1$$==$$=$$new\nbad line\nu2$$==$$=$$T2$$==$$=$$H2$$==$$=$$X2$$==$$=$$C2\nu1$$==$$=$$T3$$==$$=$$H3$$==$$=$$X3$$==$$=$$newest\n");
    index_records(&mut store, &records);
    assert_eq!(store.len(), 3);
    for url in ["u1", "u2"] {
        let stamp = get_by_url(&store, url).unwrap().timestamp;
        assert!(stamp.nanos < 1_000_000_000 && stamp.secs > 1_600_000_000);
    }
    assert_eq!(get_by_url(&store, "u1").unwrap().content, "newest");
    assert_eq!(get_by_url(&store, "u1").unwrap().title, "T3");
    assert_eq!(get_by_url(&store, "u2").unwrap().content, "C2");
    let kept = get_by_url(&store, "u0").unwrap();
    assert_eq!(kept.content, "kept");
    assert_eq!(kept.timestamp, at(2));
    assert_eq!(store.config().total_count, 5);
}
