//! Text primitives shared by the stores, the snapshot format and the ranker:
//! characters of a string, whitespace tokens, lower-casing.

use vstd::prelude::*;

verus! {

/// The code points with the Unicode `White_Space` property.
pub open spec fn is_white_space(c: char) -> bool {
    let n = c as u32;
    ||| 0x09 <= n <= 0x0D
    ||| n == 0x20
    ||| n == 0x85
    ||| n == 0xA0
    ||| n == 0x1680
    ||| 0x2000 <= n <= 0x200A
    ||| n == 0x2028
    ||| n == 0x2029
    ||| n == 0x202F
    ||| n == 0x205F
    ||| n == 0x3000
}

/// `char::is_whitespace` tells whether a character has the `White_Space`
/// property; the code points that have it are listed in [`is_white_space`].
pub assume_specification[ char::is_whitespace ](c: char) -> (r: bool)
    ensures
        r == is_white_space(c),
;

/// `String::push` appends one character to the end of the string.
pub assume_specification[ String::push ](s: &mut String, ch: char)
    ensures
        final(s)@ == old(s)@.push(ch),
;

/// The lower-case form of a text as `str::to_lowercase` computes it.
pub uninterp spec fn lowercase(s: Seq<char>) -> Seq<char>;

/// `str::to_lowercase` returns the lower-case equivalent of the text as a new
/// string; the mapping follows the Unicode tables and is not restated here.
pub assume_specification[ str::to_lowercase ](s: &str) -> (r: String)
    ensures
        r@ == lowercase(s@),
;

/// The characters of `s`, in order.
pub fn chars_of(s: &str) -> (r: Vec<char>)
    ensures
        r@ == s@,
{
    let mut out: Vec<char> = Vec::new();
    for c in it: s.chars()
        invariant
            out@ == it.seq().take(it.index() as int),
    {
        out.push(c);
    }
    out
}

/// The whitespace-separated words of a text, in order.
///
/// Read from the left, a whitespace character ends the word before it, and
/// any other character extends the word that the character before it belongs
/// to, or starts a new word.
pub open spec fn tokens(s: Seq<char>) -> Seq<Seq<char>>
    decreases s.len(),
{
    if s.len() == 0 {
        Seq::empty()
    } else {
        let before = tokens(s.drop_last());
        if is_white_space(s.last()) {
            before
        } else if ends_in_word(s.drop_last()) {
            before.drop_last().push(before.last().push(s.last()))
        } else {
            before.push(seq![s.last()])
        }
    }
}

/// Whether the last character of `s` belongs to a word.
pub open spec fn ends_in_word(s: Seq<char>) -> bool {
    s.len() > 0 && !is_white_space(s.last())
}

/// Every word holds a character, and none of its characters is whitespace.
pub proof fn law_tokens_are_words(s: Seq<char>, i: int)
    requires
        0 <= i < tokens(s).len(),
    ensures
        tokens(s)[i].len() > 0,
        forall|j: int| 0 <= j < tokens(s)[i].len() ==> !is_white_space(#[trigger] tokens(s)[i][j]),
        ends_in_word(s) ==> tokens(s).len() > 0,
    decreases s.len(),
{
    if s.len() > 0 {
        let head = s.drop_last();
        let before = tokens(head);
        lemma_tokens_end(head);
        if is_white_space(s.last()) {
            law_tokens_are_words(head, i);
        } else if ends_in_word(head) {
            if i < before.len() - 1 {
                law_tokens_are_words(head, i);
            } else {
                law_tokens_are_words(head, before.len() - 1);
            }
        } else {
            if i < before.len() {
                law_tokens_are_words(head, i);
            }
        }
    }
}

/// A text that ends in a word has a word.
proof fn lemma_tokens_end(s: Seq<char>)
    ensures
        ends_in_word(s) ==> tokens(s).len() > 0,
    decreases s.len(),
{
    if s.len() > 0 && !is_white_space(s.last()) && ends_in_word(s.drop_last()) {
        lemma_tokens_end(s.drop_last());
    }
}

/// Splits a text into its whitespace-separated words.
pub fn split_whitespace(s: &str) -> (r: Vec<String>)
    ensures
        r.deep_view() == tokens(s@),
{
    let mut done: Vec<String> = Vec::new();
    let mut word = String::new();
    let mut in_word = false;
    for c in it: s.chars()
        invariant
            it.seq() == s@,
            in_word == ends_in_word(s@.take(it.index() as int)),
            in_word ==> word@.len() > 0,
            !in_word ==> word@.len() == 0,
            tokens(s@.take(it.index() as int)) == if in_word {
                done.deep_view().push(word@)
            } else {
                done.deep_view()
            },
    {
        let ghost seen = s@.take(it.index() as int);
        let ghost next = s@.take(it.index() + 1);
        assert(next.drop_last() == seen);
        assert(next.last() == c);
        if c.is_whitespace() {
            if in_word {
                let ghost before = done.deep_view();
                done.push(word);
                assert(done.deep_view() == before.push(word@));
                word = String::new();
                in_word = false;
            }
        } else {
            let ghost old_word = word@;
            word.push(c);
            proof {
                if in_word {
                    let before = done.deep_view().push(old_word);
                    assert(before.drop_last() == done.deep_view());
                } else {
                    assert(word@ == seq![c]);
                }
            }
            in_word = true;
        }
    }
    assert(s@.take(s@.len() as int) == s@);
    if in_word {
        let ghost before = done.deep_view();
        done.push(word);
        assert(done.deep_view() == before.push(word@));
    }
    done
}

/// The text `chars[from..to]`.
pub fn substring(chars: &Vec<char>, from: usize, to: usize) -> (r: String)
    requires
        from <= to <= chars.len(),
    ensures
        r@ == chars@.subrange(from as int, to as int),
{
    let mut out = String::new();
    let mut i: usize = from;
    while i < to
        invariant
            from <= i <= to <= chars.len(),
            out@ == chars@.subrange(from as int, i as int),
        decreases to - i,
    {
        out.push(chars[i]);
        i += 1;
    }
    out
}

/// Whether `pat` stands in `s` at position `i`.
pub open spec fn occurs_at(s: Seq<char>, pat: Seq<char>, i: int) -> bool {
    0 <= i && i + pat.len() <= s.len() && s.subrange(i, i + pat.len()) == pat
}

/// Whether `pat` stands somewhere in `s`.
pub open spec fn contains(s: Seq<char>, pat: Seq<char>) -> bool {
    exists|i: int| occurs_at(s, pat, i)
}

/// Whether `i` is the first position at or after `from` where `pat` stands in `s`.
pub open spec fn first_occurrence(s: Seq<char>, pat: Seq<char>, from: int, i: int) -> bool {
    &&& from <= i
    &&& occurs_at(s, pat, i)
    &&& forall|j: int| from <= j < i ==> !occurs_at(s, pat, j)
}

/// Tells whether `pat` stands in `hay` at position `i`.
pub fn occurs_here(hay: &Vec<char>, pat: &Vec<char>, i: usize) -> (r: bool)
    ensures
        r == occurs_at(hay@, pat@, i as int),
{
    if pat.len() > hay.len() || i > hay.len() - pat.len() {
        return false;
    }
    let mut k: usize = 0;
    while k < pat.len()
        invariant
            k <= pat.len(),
            i + pat.len() <= hay.len(),
            forall|j: int| 0 <= j < k ==> hay@[i + j] == pat@[j],
        decreases pat.len() - k,
    {
        if hay[i + k] != pat[k] {
            assert(hay@.subrange(i as int, i + pat.len())[k as int] != pat@[k as int]);
            return false;
        }
        k += 1;
    }
    assert(hay@.subrange(i as int, i + pat.len()) =~= pat@);
    true
}

/// Finds the first position at or after `from` where `pat` stands in `hay`.
pub fn find_from(hay: &Vec<char>, pat: &Vec<char>, from: usize) -> (r: Option<usize>)
    ensures
        match r {
            Some(i) => first_occurrence(hay@, pat@, from as int, i as int),
            None => forall|j: int| from <= j ==> !occurs_at(hay@, pat@, j),
        },
{
    if from > hay.len() {
        return None;
    }
    let mut i: usize = from;
    while i < hay.len()
        invariant
            from <= i <= hay.len(),
            forall|j: int| from <= j < i ==> !occurs_at(hay@, pat@, j),
        decreases hay.len() - i,
    {
        if occurs_here(hay, pat, i) {
            return Some(i);
        }
        i += 1;
    }
    if occurs_here(hay, pat, i) {
        Some(i)
    } else {
        None
    }
}

/// Tells whether `pat` stands somewhere in `s`.
pub fn contains_text(s: &str, pat: &str) -> (r: bool)
    ensures
        r == contains(s@, pat@),
{
    let hay = chars_of(s);
    let needle = chars_of(pat);
    match find_from(&hay, &needle, 0) {
        Some(i) => {
            assert(occurs_at(s@, pat@, i as int));
            true
        },
        None => {
            assert forall|j: int| !occurs_at(s@, pat@, j) by {
                if j >= 0 {
                    assert(!occurs_at(hay@, needle@, j));
                }
            }
            false
        },
    }
}

/// The pieces of `s` between the occurrences of `sep`, found from the left
/// and without overlap. There is always at least one piece.
pub open spec fn split_on(s: Seq<char>, sep: Seq<char>) -> Seq<Seq<char>>
    decreases s.len(),
{
    if sep.len() > 0 && occurs_at(s, sep, 0) {
        seq![Seq::empty()] + split_on(s.skip(sep.len() as int), sep)
    } else if s.len() == 0 {
        seq![Seq::empty()]
    } else {
        let rest = split_on(s.drop_first(), sep);
        seq![seq![s[0]] + rest[0]] + rest.drop_first()
    }
}

/// A text in which the separator does not stand is a single piece.
pub proof fn lemma_split_without_separator(s: Seq<char>, sep: Seq<char>)
    requires
        !contains(s, sep),
    ensures
        split_on(s, sep) == seq![s],
    decreases s.len(),
{
    assert(!occurs_at(s, sep, 0));
    if s.len() > 0 {
        let tail = s.drop_first();
        assert forall|j: int| !occurs_at(tail, sep, j) by {
            if occurs_at(tail, sep, j) {
                assert(s.subrange(j + 1, j + 1 + sep.len()) =~= tail.subrange(j, j + sep.len()));
                assert(occurs_at(s, sep, j + 1));
            }
        }
        lemma_split_without_separator(tail, sep);
        let rest = split_on(tail, sep);
        assert(rest[0] == tail);
        assert(rest.drop_first() =~= Seq::<Seq<char>>::empty());
        assert(seq![s[0]] + tail =~= s);
        assert(split_on(s, sep) == seq![seq![s[0]] + rest[0]] + rest.drop_first());
        assert(seq![seq![s[0]] + rest[0]] + rest.drop_first() =~= seq![s]);
    } else {
        assert(s =~= Seq::<char>::empty());
    }
}

/// At the first occurrence of the separator the text is cut: what stands
/// before it is the first piece, and the rest is split in the same way.
pub proof fn lemma_split_at_first(s: Seq<char>, sep: Seq<char>, i: int)
    requires
        sep.len() > 0,
        first_occurrence(s, sep, 0, i),
    ensures
        split_on(s, sep) == seq![s.take(i)] + split_on(s.skip(i + sep.len()), sep),
    decreases i,
{
    if i == 0 {
        assert(s.take(0) =~= Seq::<char>::empty());
    } else {
        assert(!occurs_at(s, sep, 0));
        let tail = s.drop_first();
        assert(tail.subrange(i - 1, i - 1 + sep.len()) =~= s.subrange(i, i + sep.len()));
        assert forall|j: int| 0 <= j < i - 1 implies !occurs_at(tail, sep, j) by {
            if occurs_at(tail, sep, j) {
                assert(s.subrange(j + 1, j + 1 + sep.len()) =~= tail.subrange(j, j + sep.len()));
                assert(occurs_at(s, sep, j + 1));
            }
        }
        lemma_split_at_first(tail, sep, i - 1);
        let after = split_on(tail.skip(i - 1 + sep.len()), sep);
        assert(tail.skip(i - 1 + sep.len()) =~= s.skip(i + sep.len()));
        let rest = split_on(tail, sep);
        assert(rest == seq![tail.take(i - 1)] + after);
        assert(rest[0] == tail.take(i - 1));
        assert(rest.drop_first() =~= after);
        assert(seq![s[0]] + tail.take(i - 1) =~= s.take(i));
    }
}

/// The parts joined into one text, with `sep` between neighbours.
pub open spec fn join(parts: Seq<Seq<char>>, sep: Seq<char>) -> Seq<char>
    decreases parts.len(),
{
    if parts.len() == 0 {
        Seq::empty()
    } else if parts.len() == 1 {
        parts[0]
    } else {
        join(parts.drop_last(), sep) + sep + parts.last()
    }
}

/// A joined text starts with its first part and the separator.
pub proof fn lemma_join_front(parts: Seq<Seq<char>>, sep: Seq<char>)
    requires
        parts.len() >= 2,
    ensures
        join(parts, sep) == parts[0] + sep + join(parts.drop_first(), sep),
    decreases parts.len(),
{
    let tail = parts.drop_first();
    if parts.len() == 2 {
        assert(parts.drop_last() =~= seq![parts[0]]);
        assert(tail =~= seq![parts[1]]);
        assert(join(parts.drop_last(), sep) == parts[0]);
        assert(join(tail, sep) == parts[1]);
    } else {
        lemma_join_front(parts.drop_last(), sep);
        assert(parts.drop_last().drop_first() =~= tail.drop_last());
        assert(join(parts, sep) =~= parts[0] + sep + join(tail, sep));
    }
}

/// Whether a part can be followed by the separator in a joined text and be
/// found again: the separator stands nowhere in the part followed by all
/// but the last character of the separator.
pub open spec fn splits_off(part: Seq<char>, sep: Seq<char>) -> bool {
    !contains(part + sep.drop_last(), sep)
}

/// Splitting undoes joining, where each part but the last can be followed
/// by the separator and the separator does not stand in the last part.
pub proof fn lemma_split_join(parts: Seq<Seq<char>>, sep: Seq<char>)
    requires
        sep.len() > 0,
        parts.len() >= 1,
        forall|i: int| 0 <= i < parts.len() - 1 ==> splits_off(#[trigger] parts[i], sep),
        !contains(parts.last(), sep),
    ensures
        split_on(join(parts, sep), sep) == parts,
    decreases parts.len(),
{
    if parts.len() == 1 {
        lemma_split_without_separator(parts[0], sep);
        assert(seq![parts[0]] =~= parts);
    } else {
        let first = parts[0];
        let tail = parts.drop_first();
        let rest = join(tail, sep);
        let s = join(parts, sep);
        let n = first.len() as int;
        let m = sep.len() as int;
        lemma_join_front(parts, sep);
        assert(s == first + sep + rest);
        assert(s.subrange(n, n + m) =~= sep);
        assert(splits_off(parts[0], sep));
        assert forall|j: int| 0 <= j < n implies !occurs_at(s, sep, j) by {
            if occurs_at(s, sep, j) {
                let guard = first + sep.drop_last();
                assert(guard.subrange(j, j + m) =~= s.subrange(j, j + m));
                assert(occurs_at(guard, sep, j));
            }
        }
        lemma_split_at_first(s, sep, n);
        assert(s.take(n) =~= first);
        assert(s.skip(n + m) =~= rest);
        assert forall|i: int| 0 <= i < tail.len() - 1 implies splits_off(#[trigger] tail[i], sep) by {
            assert(tail[i] == parts[i + 1]);
        }
        assert(tail.last() == parts.last());
        lemma_split_join(tail, sep);
        assert(seq![first] + tail =~= parts);
    }
}

/// `s` with every occurrence of `from`, found from the left and without
/// overlap, replaced by `to`.
pub open spec fn replaced(s: Seq<char>, from: Seq<char>, to: Seq<char>) -> Seq<char> {
    join(split_on(s, from), to)
}

/// A line without the carriage return that may end it.
pub open spec fn strip_cr(line: Seq<char>) -> Seq<char> {
    if line.len() > 0 && line.last() == '\r' {
        line.drop_last()
    } else {
        line
    }
}

/// The lines of a text. A line ends at a line feed; a carriage return just
/// before that line feed is not part of the line. What follows the last line
/// feed is a line of its own unless it is empty.
pub open spec fn lines(s: Seq<char>) -> Seq<Seq<char>> {
    let pieces = split_on(s, seq!['\n']);
    let ended = pieces.drop_last().map_values(|l: Seq<char>| strip_cr(l));
    if pieces.last().len() == 0 {
        ended
    } else {
        ended.push(pieces.last())
    }
}

/// Where `hay` is cut at `start`, the separator stands in the tail exactly
/// where it stands in `hay`, moved by `start`.
proof fn lemma_occurs_in_tail(hay: Seq<char>, sep: Seq<char>, start: int, j: int)
    requires
        0 <= start <= hay.len(),
        0 <= j,
    ensures
        occurs_at(hay.skip(start), sep, j) == occurs_at(hay, sep, start + j),
{
    if j + sep.len() <= hay.len() - start {
        assert(hay.skip(start).subrange(j, j + sep.len()) =~= hay.subrange(
            start + j,
            start + j + sep.len(),
        ));
    }
}

/// Splits `hay` at the occurrences of `sep`.
pub fn split_chars(hay: &Vec<char>, sep: &Vec<char>) -> (r: Vec<String>)
    requires
        sep.len() > 0,
    ensures
        r.deep_view() == split_on(hay@, sep@),
{
    let mut out: Vec<String> = Vec::new();
    let mut start: usize = 0;
    assert(hay@.skip(0) =~= hay@);
    assert(out.deep_view() + split_on(hay@, sep@) =~= split_on(hay@, sep@));
    loop
        invariant_except_break
            start <= hay.len(),
            sep.len() > 0,
            split_on(hay@, sep@) == out.deep_view() + split_on(hay@.skip(start as int), sep@),
        ensures
            out.deep_view() == split_on(hay@, sep@),
        decreases hay.len() - start,
    {
        let ghost tail = hay@.skip(start as int);
        let ghost before = out.deep_view();
        match find_from(hay, sep, start) {
            Some(i) => {
                proof {
                    lemma_occurs_in_tail(hay@, sep@, start as int, i - start);
                    assert forall|j: int| 0 <= j < i - start implies !occurs_at(tail, sep@, j) by {
                        lemma_occurs_in_tail(hay@, sep@, start as int, j);
                    }
                    lemma_split_at_first(tail, sep@, i - start);
                    assert(tail.take(i - start) =~= hay@.subrange(start as int, i as int));
                    assert(tail.skip(i - start + sep.len()) =~= hay@.skip(i + sep.len()));
                }
                out.push(substring(hay, start, i));
                assert(out.deep_view() =~= before.push(hay@.subrange(start as int, i as int)));
                start = i + sep.len();
            },
            None => {
                proof {
                    assert forall|j: int| !occurs_at(tail, sep@, j) by {
                        if j >= 0 {
                            lemma_occurs_in_tail(hay@, sep@, start as int, j);
                        }
                    }
                    lemma_split_without_separator(tail, sep@);
                    assert(tail =~= hay@.subrange(start as int, hay.len() as int));
                }
                out.push(substring(hay, start, hay.len()));
                assert(out.deep_view() =~= before.push(tail));
                break ;
            },
        }
    }
    out
}

/// Splits a text at the occurrences of a separator that is not empty.
pub fn split(s: &str, sep: &str) -> (r: Vec<String>)
    requires
        sep@.len() > 0,
    ensures
        r.deep_view() == split_on(s@, sep@),
{
    let hay = chars_of(s);
    let needle = chars_of(sep);
    split_chars(&hay, &needle)
}

/// Joins the parts into one text, with `sep` between neighbours.
pub fn join_with(parts: &Vec<String>, sep: &str) -> (r: String)
    ensures
        r@ == join(parts.deep_view(), sep@),
{
    let mut out = String::new();
    let mut i: usize = 0;
    while i < parts.len()
        invariant
            i <= parts.len(),
            out@ == join(parts.deep_view().take(i as int), sep@),
        decreases parts.len() - i,
    {
        let ghost done = parts.deep_view().take(i as int);
        let ghost next = parts.deep_view().take(i + 1);
        assert(next.drop_last() =~= done);
        assert(next.last() == parts[i as int]@);
        if i > 0 {
            out.append(sep);
        }
        out.append(parts[i].as_str());
        i += 1;
    }
    assert(parts.deep_view().take(parts.len() as int) =~= parts.deep_view());
    out
}

/// Replaces every occurrence of `from`, which is not empty, by `to`.
pub fn replace_all(s: &str, from: &str, to: &str) -> (r: String)
    requires
        from@.len() > 0,
    ensures
        r@ == replaced(s@, from@, to@),
{
    let pieces = split(s, from);
    join_with(&pieces, to)
}

/// Splits a text into its lines.
pub fn split_lines(s: &str) -> (r: Vec<String>)
    ensures
        r.deep_view() == lines(s@),
{
    let hay = chars_of(s);
    let mut newline: Vec<char> = Vec::new();
    newline.push('\n');
    assert(newline@ =~= seq!['\n']);
    let mut out: Vec<String> = Vec::new();
    let mut start: usize = 0;
    let ghost mut pieces: Seq<Seq<char>> = Seq::empty();
    assert(hay@.skip(0) =~= hay@);
    assert(pieces + split_on(hay@, newline@) =~= split_on(hay@, newline@));
    assert(out.deep_view() =~= pieces.map_values(|l: Seq<char>| strip_cr(l)));
    loop
        invariant_except_break
            start <= hay.len(),
            hay@ == s@,
            newline@ == seq!['\n'],
            split_on(hay@, newline@) == pieces + split_on(hay@.skip(start as int), newline@),
            out.deep_view() == pieces.map_values(|l: Seq<char>| strip_cr(l)),
        ensures
            out.deep_view() == lines(s@),
        decreases hay.len() - start,
    {
        let ghost tail = hay@.skip(start as int);
        let ghost before = out.deep_view();
        match find_from(&hay, &newline, start) {
            Some(i) => {
                proof {
                    lemma_occurs_in_tail(hay@, newline@, start as int, i - start);
                    assert forall|j: int| 0 <= j < i - start implies !occurs_at(
                        tail,
                        newline@,
                        j,
                    ) by {
                        lemma_occurs_in_tail(hay@, newline@, start as int, j);
                    }
                    lemma_split_at_first(tail, newline@, i - start);
                    assert(tail.take(i - start) =~= hay@.subrange(start as int, i as int));
                    assert(tail.skip(i - start + 1) =~= hay@.skip(i + 1));
                }
                let ghost piece = hay@.subrange(start as int, i as int);
                let end = if i > start && hay[i - 1] == '\r' {
                    i - 1
                } else {
                    i
                };
                assert(hay@.subrange(start as int, end as int) =~= strip_cr(piece));
                out.push(substring(&hay, start, end));
                proof {
                    assert(out.deep_view() =~= before.push(strip_cr(piece)));
                    assert(pieces.push(piece).map_values(|l: Seq<char>| strip_cr(l)) =~= before.push(
                        strip_cr(piece),
                    ));
                    pieces = pieces.push(piece);
                }
                start = i + 1;
            },
            None => {
                proof {
                    assert forall|j: int| !occurs_at(tail, newline@, j) by {
                        if j >= 0 {
                            lemma_occurs_in_tail(hay@, newline@, start as int, j);
                        }
                    }
                    lemma_split_without_separator(tail, newline@);
                    assert(tail =~= hay@.subrange(start as int, hay.len() as int));
                    let all = split_on(hay@, newline@);
                    assert(all == pieces.push(tail));
                    assert(all.drop_last() =~= pieces);
                    assert(all.last() == tail);
                }
                if start < hay.len() {
                    out.push(substring(&hay, start, hay.len()));
                    assert(out.deep_view() =~= before.push(tail));
                }
                break ;
            },
        }
    }
    out
}

} // verus!
