//! What the crawler takes from a page: the links behind its anchors and the
//! four texts that are indexed.

use crate::text::{join, join_with, lowercase, split_whitespace, tokens};
use vstd::hash_set::StringHashSet;
use vstd::prelude::*;

verus! {

/// The texts of the elements of the document `html` that the CSS selector
/// group `selector` matches, each the text of the element's descendants, in
/// the order in which the parser holds the elements; `None` where the
/// selector group is not one.
pub uninterp spec fn selected_texts(html: Seq<char>, selector: Seq<char>) -> Option<Seq<Seq<char>>>;

/// For each element of the document `html` that the CSS selector group
/// `selector` matches, the value of its attribute `name`, where it has one;
/// `None` where the selector group is not one.
pub uninterp spec fn selected_attrs(html: Seq<char>, selector: Seq<char>, name: Seq<char>) -> Option<
    Seq<Option<Seq<char>>>,
>;

/// The longest document, in characters, that is taken apart. A character
/// takes at most four bytes, so such a document has fewer than 2^32 bytes,
/// which is what the parser holds.
pub const MAX_DOCUMENT: usize = 0x3fff_ffff;

/// Whether a document is too long to be taken apart.
pub open spec fn too_long(html: Seq<char>) -> bool {
    html.len() > MAX_DOCUMENT
}

/// `scraper::Selector::parse` reads the selector group and fails where it is
/// none; `scraper::Html::parse_document` reads a document of fewer than 2^32
/// bytes, whatever it holds; `Html::select` walks the matching elements, and
/// `ElementRef::text` the text nodes below one of them.
#[verifier::external_body]
fn select_texts(html: &str, selector: &str) -> (r: Option<Vec<String>>)
    requires
        !too_long(html@),
    ensures
        r.deep_view() == selected_texts(html@, selector@),
{
    let group = scraper::Selector::parse(selector).ok()?;
    let document = scraper::Html::parse_document(html);
    let mut out: Vec<String> = Vec::new();
    for element in document.select(&group) {
        out.push(element.text().collect());
    }
    Some(out)
}

/// As [`select_texts`], with `Element::attr` in place of the text: the value
/// of the attribute of that name, if the element has it.
#[verifier::external_body]
fn select_attrs(html: &str, selector: &str, name: &str) -> (r: Option<Vec<Option<String>>>)
    requires
        !too_long(html@),
    ensures
        r.deep_view() == selected_attrs(html@, selector@, name@),
{
    let group = scraper::Selector::parse(selector).ok()?;
    let document = scraper::Html::parse_document(html);
    let mut out: Vec<Option<String>> = Vec::new();
    for element in document.select(&group) {
        out.push(element.value().attr(name).map(String::from));
    }
    Some(out)
}

/// The values that are there, in order.
pub open spec fn present(values: Seq<Option<Seq<char>>>) -> Seq<Seq<char>> {
    values.filter_map(|v: Option<Seq<char>>| v)
}

/// The texts without repetition: of equal texts the first stays.
pub open spec fn distinct(texts: Seq<Seq<char>>) -> Seq<Seq<char>>
    decreases texts.len(),
{
    if texts.len() == 0 {
        Seq::empty()
    } else {
        let before = distinct(texts.drop_last());
        if before.contains(texts.last()) {
            before
        } else {
            before.push(texts.last())
        }
    }
}

/// The links of a list of attribute values: the values that are there,
/// without repetition.
pub open spec fn links_of(values: Seq<Option<Seq<char>>>) -> Seq<Seq<char>> {
    distinct(present(values))
}

/// A text made of the words of `texts`, with one space between neighbours,
/// in lower case.
pub open spec fn field_text(texts: Seq<Seq<char>>) -> Seq<char> {
    lowercase(join(tokens(join(texts, seq![' '])), seq![' ']))
}

/// Why a page could not be taken in.
#[derive(Clone, Copy, Debug, PartialEq, Eq, Structural)]
pub enum ExtractError {
    /// A selector group was refused.
    Selector,
    /// The document is longer than [`MAX_DOCUMENT`].
    TooLong,
}

/// Tells whether a document is too long to be taken apart.
pub fn is_too_long(html: &str) -> (r: bool)
    ensures
        r == too_long(html@),
{
    html.unicode_len() > MAX_DOCUMENT
}

/// Picks the links out of attribute values.
pub fn collect_links(values: Vec<Option<String>>) -> (r: Vec<String>)
    ensures
        r.deep_view() == links_of(values.deep_view()),
{
    let ghost all = values.deep_view();
    let ghost keep = |v: Option<Seq<char>>| v;
    let mut seen = StringHashSet::new();
    let mut out: Vec<String> = Vec::new();
    let mut i: usize = 0;
    assert(all.take(0).filter_map(keep) =~= Seq::<Seq<char>>::empty());
    assert(out.deep_view() =~= Seq::<Seq<char>>::empty());
    assert(out.deep_view().to_set() =~= Set::<Seq<char>>::empty());
    while i < values.len()
        invariant
            i <= values.len(),
            all == values.deep_view(),
            keep == |v: Option<Seq<char>>| v,
            out.deep_view() == distinct(all.take(i as int).filter_map(keep)),
            seen@ == out.deep_view().to_set(),
        decreases values.len() - i,
    {
        proof {
            all.lemma_filter_map_take_succ(keep, i as int);
        }
        let ghost found = all.take(i as int).filter_map(keep);
        let ghost before = out.deep_view();
        match &values[i] {
            Some(link) => {
                assert(all[i as int] == Some(link@));
                assert((found + seq![link@]).drop_last() =~= found);
                if !seen.contains(link.as_str()) {
                    seen.insert(link.clone());
                    out.push(link.clone());
                    proof {
                        assert(out.deep_view() =~= before.push(link@));
                        before.lemma_push_to_set_commute(link@);
                    }
                }
            },
            None => {
                assert(all[i as int] is None);
                assert(found + Seq::<Seq<char>>::empty() =~= found);
            },
        }
        i += 1;
    }
    assert(all.take(values.len() as int) =~= all);
    out
}

/// The links of a document that is not too long.
fn links_in(html: &str) -> (r: Result<Vec<String>, ExtractError>)
    requires
        !too_long(html@),
    ensures
        match selected_attrs(html@, "a"@, "href"@) {
            Some(values) => r is Ok && r->Ok_0.deep_view() == links_of(values),
            None => r == Err::<Vec<String>, ExtractError>(ExtractError::Selector),
        },
{
    match select_attrs(html, "a", "href") {
        Some(values) => Ok(collect_links(values)),
        None => Err(ExtractError::Selector),
    }
}

/// The links of a page: the `href` values of its anchors, each once. A
/// document that is too long is refused.
pub fn get_urls(html: &str) -> (r: Result<Vec<String>, ExtractError>)
    ensures
        if too_long(html@) {
            r == Err::<Vec<String>, ExtractError>(ExtractError::TooLong)
        } else {
            match selected_attrs(html@, "a"@, "href"@) {
                Some(values) => r is Ok && r->Ok_0.deep_view() == links_of(values),
                None => r == Err::<Vec<String>, ExtractError>(ExtractError::Selector),
            }
        },
{
    if is_too_long(html) {
        return Err(ExtractError::TooLong);
    }
    links_in(html)
}

/// Makes one text of the words of `texts`, in lower case.
pub fn normalize(texts: &Vec<String>) -> (r: String)
    ensures
        r@ == field_text(texts.deep_view()),
{
    proof {
        reveal_strlit(" ");
        assert(" "@ =~= seq![' ']);
    }
    let whole = join_with(texts, " ");
    let words = split_whitespace(whole.as_str());
    let collapsed = join_with(&words, " ");
    collapsed.as_str().to_lowercase()
}

/// One field of a document that is not too long.
fn field_in(html: &str, selector: &str) -> (r: Result<String, ExtractError>)
    requires
        !too_long(html@),
    ensures
        match selected_texts(html@, selector@) {
            Some(texts) => r is Ok && r->Ok_0@ == field_text(texts),
            None => r == Err::<String, ExtractError>(ExtractError::Selector),
        },
{
    match select_texts(html, selector) {
        Some(texts) => Ok(normalize(&texts)),
        None => Err(ExtractError::Selector),
    }
}

/// The text of the elements that `selector` matches, as one field. A
/// document that is too long is refused.
pub fn get_by_selectors(html: &str, selector: &str) -> (r: Result<String, ExtractError>)
    ensures
        if too_long(html@) {
            r == Err::<String, ExtractError>(ExtractError::TooLong)
        } else {
            match selected_texts(html@, selector@) {
                Some(texts) => r is Ok && r->Ok_0@ == field_text(texts),
                None => r == Err::<String, ExtractError>(ExtractError::Selector),
            }
        },
{
    if is_too_long(html) {
        return Err(ExtractError::TooLong);
    }
    field_in(html, selector)
}

/// The selector group of the title.
pub open spec fn title_selector() -> Seq<char> {
    "title"@
}

/// The selector group of the headings.
pub open spec fn headings_selector() -> Seq<char> {
    "h1, h2, h3, h4, h5, h6"@
}

/// The selector group of the highlighted text.
pub open spec fn highlighted_selector() -> Seq<char> {
    "strong, b, i, em, li, [class*='highlight'], [class*='important'], [class*='bold'], [class*='italic'], [class*='emphasize']"@
}

/// The selector group of the content.
pub open spec fn content_selector() -> Seq<char> {
    "div, article, main, section, p, [class*='content'], [class*='post'], [class*='story']"@
}

/// What is taken from a page.
pub struct ExtractedPage {
    pub title: String,
    pub headings: String,
    pub highlighted: String,
    pub content: String,
    pub links: Vec<String>,
}

/// The value of what is taken from a page.
pub ghost struct Extract {
    pub title: Seq<char>,
    pub headings: Seq<char>,
    pub highlighted: Seq<char>,
    pub content: Seq<char>,
    pub links: Seq<Seq<char>>,
}

impl View for ExtractedPage {
    type V = Extract;

    open spec fn view(&self) -> Extract {
        Extract {
            title: self.title@,
            headings: self.headings@,
            highlighted: self.highlighted@,
            content: self.content@,
            links: self.links.deep_view(),
        }
    }
}

/// What is taken from a document `html` that is not too long: its links and
/// its four fields; `None` where a selector group is refused.
pub open spec fn extracted(html: Seq<char>) -> Option<Extract> {
    match (
        selected_attrs(html, "a"@, "href"@),
        selected_texts(html, title_selector()),
        selected_texts(html, headings_selector()),
        selected_texts(html, highlighted_selector()),
        selected_texts(html, content_selector()),
    ) {
        (Some(anchors), Some(title), Some(headings), Some(highlighted), Some(content)) => Some(
            Extract {
                title: field_text(title),
                headings: field_text(headings),
                highlighted: field_text(highlighted),
                content: field_text(content),
                links: links_of(anchors),
            },
        ),
        _ => None,
    }
}

/// Takes the links and the four fields from a page. A document that is too
/// long is refused.
pub fn extract(html: &str) -> (r: Result<ExtractedPage, ExtractError>)
    ensures
        if too_long(html@) {
            r == Err::<ExtractedPage, ExtractError>(ExtractError::TooLong)
        } else {
            match extracted(html@) {
                Some(page) => r is Ok && r->Ok_0@ == page,
                None => r == Err::<ExtractedPage, ExtractError>(ExtractError::Selector),
            }
        },
{
    if is_too_long(html) {
        return Err(ExtractError::TooLong);
    }
    let links = match links_in(html) {
        Ok(links) => links,
        Err(e) => {
            return Err(e);
        },
    };
    let title = match field_in(html, "title") {
        Ok(text) => text,
        Err(e) => {
            return Err(e);
        },
    };
    let headings = match field_in(html, "h1, h2, h3, h4, h5, h6") {
        Ok(text) => text,
        Err(e) => {
            return Err(e);
        },
    };
    let highlighted = match field_in(
        html,
        "strong, b, i, em, li, [class*='highlight'], [class*='important'], [class*='bold'], [class*='italic'], [class*='emphasize']",
    ) {
        Ok(text) => text,
        Err(e) => {
            return Err(e);
        },
    };
    let content = match field_in(
        html,
        "div, article, main, section, p, [class*='content'], [class*='post'], [class*='story']",
    ) {
        Ok(text) => text,
        Err(e) => {
            return Err(e);
        },
    };
    Ok(ExtractedPage { title, headings, highlighted, content, links })
}

} // verus!
