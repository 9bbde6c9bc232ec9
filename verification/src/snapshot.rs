//! The snapshot format of the document store: one record per line, its five
//! fields separated by a fixed marker.

use crate::text::{
    contains, join, lemma_split_join, lines, occurs_at, replace_all, replaced, split, split_lines,
    split_on, splits_off, strip_cr,
};
use vstd::prelude::*;

verus! {

/// The marker that stands between two fields of a record.
pub open spec fn separator() -> Seq<char> {
    "$$==$$=$$"@
}

/// What a snapshot keeps of a page.
pub ghost struct Entry {
    pub url: Seq<char>,
    pub title: Seq<char>,
    pub headings: Seq<char>,
    pub highlighted: Seq<char>,
    pub content: Seq<char>,
}

/// The five texts of a page, named in the order in which an insert takes
/// them.
pub open spec fn entry(
    url: Seq<char>,
    content: Seq<char>,
    title: Seq<char>,
    headings: Seq<char>,
    highlighted: Seq<char>,
) -> Entry {
    Entry { url, title, headings, highlighted, content }
}

/// One record of a snapshot.
pub struct Record {
    pub url: String,
    pub title: String,
    pub headings: String,
    pub highlighted: String,
    pub content: String,
}

impl View for Record {
    type V = Entry;

    open spec fn view(&self) -> Entry {
        Entry {
            url: self.url@,
            title: self.title@,
            headings: self.headings@,
            highlighted: self.highlighted@,
            content: self.content@,
        }
    }
}

impl DeepView for Record {
    type V = Entry;

    open spec fn deep_view(&self) -> Entry {
        self@
    }
}

/// The fields of a record in the order in which a line holds them.
pub open spec fn fields(e: Entry) -> Seq<Seq<char>> {
    seq![e.url, e.title, e.headings, e.highlighted, e.content]
}

/// The line that stands for a record, without its line feed.
pub open spec fn encode_line(e: Entry) -> Seq<char> {
    join(fields(e), separator())
}

/// The record that a line stands for: a line is a record when the separator
/// cuts it into exactly five fields.
pub open spec fn parse_line(line: Seq<char>) -> Option<Entry> {
    let parts = split_on(line, separator());
    if parts.len() == 5 {
        Some(
            Entry {
                url: parts[0],
                title: parts[1],
                headings: parts[2],
                highlighted: parts[3],
                content: parts[4],
            },
        )
    } else {
        None
    }
}

/// The snapshot of a sequence of records: each record's line, ended by a
/// line feed.
pub open spec fn encode(entries: Seq<Entry>) -> Seq<char>
    decreases entries.len(),
{
    if entries.len() == 0 {
        Seq::empty()
    } else {
        encode(entries.drop_last()) + encode_line(entries.last()) + seq!['\n']
    }
}

/// The records of a snapshot, in order; a line that is no record is passed
/// over.
pub open spec fn parse(text: Seq<char>) -> Seq<Entry> {
    lines(text).filter_map(|line: Seq<char>| parse_line(line))
}

/// Whether a snapshot gives a record back as it was written. The record
/// holds no line feed; its content does not end in a carriage return; the
/// separator does not stand in its content, and each other field can be
/// followed by the separator and be found again.
pub open spec fn storable(e: Entry) -> bool {
    &&& splits_off(e.url, separator())
    &&& splits_off(e.title, separator())
    &&& splits_off(e.headings, separator())
    &&& splits_off(e.highlighted, separator())
    &&& !contains(e.content, separator())
    &&& !e.url.contains('\n')
    &&& !e.title.contains('\n')
    &&& !e.headings.contains('\n')
    &&& !e.highlighted.contains('\n')
    &&& !e.content.contains('\n')
    &&& !(e.content.len() > 0 && e.content.last() == '\r')
}

/// The lines of a sequence of records.
pub open spec fn lines_of(entries: Seq<Entry>) -> Seq<Seq<char>> {
    entries.map_values(|e: Entry| encode_line(e))
}

/// The line of a record, written out.
proof fn lemma_line(e: Entry)
    ensures
        encode_line(e) == e.url + separator() + e.title + separator() + e.headings + separator()
            + e.highlighted + separator() + e.content,
{
    let f = fields(e);
    let s = separator();
    reveal_with_fuel(join, 5);
    assert(f.drop_last() =~= seq![e.url, e.title, e.headings, e.highlighted]);
    assert(f.drop_last().drop_last() =~= seq![e.url, e.title, e.headings]);
    assert(f.drop_last().drop_last().drop_last() =~= seq![e.url, e.title]);
    assert(f.drop_last().drop_last().drop_last().drop_last() =~= seq![e.url]);
    assert(join(seq![e.url], s) == e.url);
    assert(join(seq![e.url, e.title], s) == e.url + s + e.title);
    assert(join(seq![e.url, e.title, e.headings], s) == e.url + s + e.title + s + e.headings);
    assert(join(seq![e.url, e.title, e.headings, e.highlighted], s) == e.url + s + e.title + s
        + e.headings + s + e.highlighted);
}

/// A character of two texts put together is a character of one of them.
proof fn lemma_contains_concat(a: Seq<char>, b: Seq<char>, c: char)
    ensures
        (a + b).contains(c) <==> a.contains(c) || b.contains(c),
{
    let ab = a + b;
    if ab.contains(c) {
        let i = choose|i: int| 0 <= i < ab.len() && ab[i] == c;
        if i < a.len() {
            assert(a[i] == c);
        } else {
            assert(b[i - a.len()] == c);
        }
    }
    if a.contains(c) {
        let i = choose|i: int| 0 <= i < a.len() && a[i] == c;
        assert(ab[i] == c);
    }
    if b.contains(c) {
        let i = choose|i: int| 0 <= i < b.len() && b[i] == c;
        assert(ab[a.len() + i] == c);
    }
}

/// The line of a record that can be stored is read as that record.
pub proof fn lemma_line_parses(e: Entry)
    requires
        storable(e),
    ensures
        parse_line(encode_line(e)) == Some(e),
{
    reveal_strlit("$$==$$=$$");
    let f = fields(e);
    assert forall|i: int| 0 <= i < f.len() - 1 implies splits_off(#[trigger] f[i], separator()) by {}
    lemma_split_join(f, separator());
}

/// The line of a record that can be stored holds no line feed and does not
/// end in a carriage return.
pub proof fn lemma_line_is_one_line(e: Entry)
    requires
        storable(e),
    ensures
        !encode_line(e).contains('\n'),
        strip_cr(encode_line(e)) == encode_line(e),
{
    reveal_strlit("$$==$$=$$");
    let s = separator();
    lemma_line(e);
    assert(!s.contains('\n')) by {
        if s.contains('\n') {
            let i = choose|i: int| 0 <= i < s.len() && s[i] == '\n';
            assert(s[i] == '$' || s[i] == '=');
        }
    }
    let a = e.url + s;
    let b = a + e.title;
    let c = b + s;
    let d = c + e.headings;
    let g = d + s;
    let h = g + e.highlighted;
    let k = h + s;
    let line = k + e.content;
    lemma_contains_concat(e.url, s, '\n');
    lemma_contains_concat(a, e.title, '\n');
    lemma_contains_concat(b, s, '\n');
    lemma_contains_concat(c, e.headings, '\n');
    lemma_contains_concat(d, s, '\n');
    lemma_contains_concat(g, e.highlighted, '\n');
    lemma_contains_concat(h, s, '\n');
    lemma_contains_concat(k, e.content, '\n');
    assert(line == encode_line(e));
    if e.content.len() > 0 {
        assert(line.last() == e.content.last());
    } else {
        assert(line.last() == s[8]);
    }
}

/// A snapshot is its lines and an empty text, joined by line feeds.
proof fn lemma_encode_joins(entries: Seq<Entry>)
    ensures
        encode(entries) == join(lines_of(entries).push(Seq::empty()), seq!['\n']),
    decreases entries.len(),
{
    let nl = seq!['\n'];
    let rows = lines_of(entries);
    let parts = rows.push(Seq::empty());
    if entries.len() == 0 {
        assert(parts =~= seq![Seq::<char>::empty()]);
        assert(join(parts, nl) == Seq::<char>::empty());
    } else {
        let head = entries.drop_last();
        lemma_encode_joins(head);
        let head_rows = lines_of(head);
        assert(head_rows =~= rows.drop_last());
        assert(parts.drop_last() =~= rows);
        assert(rows.last() == encode_line(entries.last()));
        assert(join(parts, nl) == join(rows, nl) + nl + Seq::<char>::empty());
        // The lines before the last, joined and ended, are the snapshot of
        // the records before the last.
        let head_parts = head_rows.push(Seq::empty());
        assert(head_parts.drop_last() =~= head_rows);
        if head.len() == 0 {
            assert(rows =~= seq![rows.last()]);
            assert(join(rows, nl) == rows.last());
            assert(encode(entries) =~= join(parts, nl));
        } else {
            assert(join(head_parts, nl) == join(head_rows, nl) + nl + Seq::<char>::empty());
            assert(join(rows, nl) == join(head_rows, nl) + nl + rows.last());
            assert(encode(entries) =~= join(parts, nl));
        }
    }
}

/// The lines of the snapshot of records that can be stored are the lines of
/// the records.
pub proof fn lemma_snapshot_lines(entries: Seq<Entry>)
    requires
        forall|i: int| 0 <= i < entries.len() ==> storable(#[trigger] entries[i]),
    ensures
        lines(encode(entries)) == lines_of(entries),
{
    let nl = seq!['\n'];
    let rows = lines_of(entries);
    let parts = rows.push(Seq::empty());
    lemma_encode_joins(entries);
    assert(nl.drop_last() =~= Seq::<char>::empty());
    assert forall|i: int| 0 <= i < parts.len() - 1 implies splits_off(#[trigger] parts[i], nl) by {
        let row = parts[i];
        assert(row == encode_line(entries[i]));
        lemma_line_is_one_line(entries[i]);
        assert(row + nl.drop_last() =~= row);
        assert forall|j: int| !occurs_at(row, nl, j) by {
            if occurs_at(row, nl, j) {
                assert(row.subrange(j, j + 1)[0] == '\n');
                assert(row[j] == '\n');
            }
        }
    }
    assert(!contains(parts.last(), nl)) by {
        assert forall|j: int| !occurs_at(parts.last(), nl, j) by {}
    }
    lemma_split_join(parts, nl);
    let pieces = split_on(encode(entries), nl);
    assert(pieces == parts);
    assert(pieces.drop_last() =~= rows);
    let ended = pieces.drop_last().map_values(|l: Seq<char>| strip_cr(l));
    assert forall|i: int| 0 <= i < rows.len() implies ended[i] == rows[i] by {
        lemma_line_is_one_line(entries[i]);
    }
    assert(ended =~= rows);
}

/// The lines of records that can be stored are read as these records.
proof fn lemma_lines_parse(entries: Seq<Entry>)
    requires
        forall|i: int| 0 <= i < entries.len() ==> storable(#[trigger] entries[i]),
    ensures
        lines_of(entries).filter_map(|line: Seq<char>| parse_line(line)) == entries,
    decreases entries.len(),
{
    let f = |line: Seq<char>| parse_line(line);
    let rows = lines_of(entries);
    if entries.len() == 0 {
        assert(rows.filter_map(f) =~= entries);
    } else {
        let head = entries.drop_last();
        assert forall|i: int| 0 <= i < head.len() implies storable(#[trigger] head[i]) by {
            assert(head[i] == entries[i]);
        }
        lemma_lines_parse(head);
        assert(rows.drop_last() =~= lines_of(head));
        assert(storable(entries[entries.len() - 1]));
        lemma_line_parses(entries.last());
        assert(rows.last() == encode_line(entries.last()));
        assert(rows.filter_map(f) =~= head + seq![entries.last()]);
        assert(head + seq![entries.last()] =~= entries);
    }
}

/// A snapshot that is written and read again gives the records that were
/// written, in their order, where each of them can be stored.
pub proof fn law_round_trip(entries: Seq<Entry>)
    requires
        forall|i: int| 0 <= i < entries.len() ==> storable(#[trigger] entries[i]),
    ensures
        parse(encode(entries)) == entries,
{
    lemma_snapshot_lines(entries);
    lemma_lines_parse(entries);
}

/// Reads one line of a snapshot.
pub fn parse_record(line: &str) -> (r: Option<Record>)
    ensures
        match r {
            Some(record) => parse_line(line@) == Some(record@),
            None => parse_line(line@) is None,
        },
{
    proof {
        reveal_strlit("$$==$$=$$");
    }
    let mut parts = split(line, "$$==$$=$$");
    if parts.len() != 5 {
        return None;
    }
    let ghost all = parts.deep_view();
    let content = parts.pop().unwrap();
    let highlighted = parts.pop().unwrap();
    let headings = parts.pop().unwrap();
    let title = parts.pop().unwrap();
    let url = parts.pop().unwrap();
    assert(all[0] == url@ && all[1] == title@ && all[2] == headings@ && all[3] == highlighted@
        && all[4] == content@);
    Some(Record { url, title, headings, highlighted, content })
}

/// Reads the records of a snapshot.
pub fn parse_snapshot(text: &str) -> (r: Vec<Record>)
    ensures
        r.deep_view() == parse(text@),
{
    let rows = split_lines(text);
    let mut out: Vec<Record> = Vec::new();
    let ghost f = |line: Seq<char>| parse_line(line);
    let mut i: usize = 0;
    while i < rows.len()
        invariant
            i <= rows.len(),
            rows.deep_view() == lines(text@),
            f == |line: Seq<char>| parse_line(line),
            out.deep_view() == rows.deep_view().take(i as int).filter_map(f),
        decreases rows.len() - i,
    {
        let ghost before = out.deep_view();
        proof {
            rows.deep_view().lemma_filter_map_take_succ(f, i as int);
        }
        match parse_record(rows[i].as_str()) {
            Some(record) => {
                out.push(record);
                assert(out.deep_view() =~= before + seq![record@]);
            },
            None => {},
        }
        i += 1;
    }
    assert(rows.deep_view().take(rows.len() as int) =~= rows.deep_view());
    out
}

/// Writes one record as a line of a snapshot, line feed included.
pub fn encode_record(url: &str, title: &str, headings: &str, highlighted: &str, content: &str) -> (r:
    String)
    ensures
        r@ == encode_line(
            Entry {
                url: url@,
                title: title@,
                headings: headings@,
                highlighted: highlighted@,
                content: content@,
            },
        ) + seq!['\n'],
{
    proof {
        reveal_strlit("\n");
    }
    let mut out = String::new();
    out.append(url);
    out.append("$$==$$=$$");
    out.append(title);
    out.append("$$==$$=$$");
    out.append(headings);
    out.append("$$==$$=$$");
    out.append(highlighted);
    out.append("$$==$$=$$");
    out.append(content);
    out.append("\n");
    let ghost e = Entry {
        url: url@,
        title: title@,
        headings: headings@,
        highlighted: highlighted@,
        content: content@,
    };
    proof {
        lemma_line(e);
        assert(out@ =~= encode_line(e) + seq!['\n']);
    }
    out
}

/// The path of the file in which a snapshot is written before it takes the
/// place of the snapshot at `path`: each `.txt` in it becomes `-temp.txt`.
pub open spec fn temp_path_of(path: Seq<char>) -> Seq<char> {
    replaced(path, ".txt"@, "-temp.txt"@)
}

/// Computes the path of the file in which a snapshot is written first.
pub fn temp_path(path: &str) -> (r: String)
    ensures
        r@ == temp_path_of(path@),
{
    proof {
        reveal_strlit(".txt");
    }
    replace_all(path, ".txt", "-temp.txt")
}

} // verus!
