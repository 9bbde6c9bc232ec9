use search_core::text::{
    chars_of, contains_text, find_from, join_with, occurs_here, replace_all, split, split_chars,
    split_lines, split_whitespace, substring,
};

fn owned(parts: &[&str]) -> Vec<String> {
    parts.iter().map(|p| p.to_string()).collect()
}

#[test]
fn words_are_split_at_any_whitespace() {
    assert_eq!(split_whitespace("  alpha\tbeta \n gamma "), owned(&["alpha", "beta", "gamma"]));
    assert_eq!(split_whitespace("one"), owned(&["one"]));
    assert_eq!(split_whitespace("a  b"), owned(&["a", "b"]));
}

#[test]
fn no_words_in_blank_text() {
    assert_eq!(split_whitespace(""), Vec::<String>::new());
    assert_eq!(split_whitespace(" \t\r\n\u{3000}"), Vec::<String>::new());
}

#[test]
fn words_agree_with_the_standard_split() {
    let samples = [
        "The quick  brown\u{a0}fox",
        "\u{2003}lead and trail\u{2028}",
        "tabs\tand\nnewlines\r\nmixed",
        "ünïcödé wörds ärε kept",
        "x",
        "   ",
    ];
    for s in samples {
        let want: Vec<String> = s.split_whitespace().map(String::from).collect();
        assert_eq!(split_whitespace(s), want);
    }
}

#[test]
fn every_listed_white_space_character_separates() {
    let listed: [u32; 25] = [
        0x09, 0x0A, 0x0B, 0x0C, 0x0D, 0x20, 0x85, 0xA0, 0x1680, 0x2000, 0x2001, 0x2002, 0x2003,
        0x2004, 0x2005, 0x2006, 0x2007, 0x2008, 0x2009, 0x200A, 0x2028, 0x2029, 0x202F, 0x205F,
        0x3000,
    ];
    for code in listed {
        let c = char::from_u32(code).unwrap();
        let text = format!("a{}b", c);
        assert_eq!(split_whitespace(&text), owned(&["a", "b"]));
    }
}

#[test]
fn no_other_character_separates() {
    let listed: [u32; 25] = [
        0x09, 0x0A, 0x0B, 0x0C, 0x0D, 0x20, 0x85, 0xA0, 0x1680, 0x2000, 0x2001, 0x2002, 0x2003,
        0x2004, 0x2005, 0x2006, 0x2007, 0x2008, 0x2009, 0x200A, 0x2028, 0x2029, 0x202F, 0x205F,
        0x3000,
    ];
    let mut code: u32 = 0;
    while code <= 0x10ffff {
        if let Some(c) = char::from_u32(code) {
            let text = format!("a{}b", c);
            let pieces = split_whitespace(&text).len();
            if listed.contains(&code) {
                assert_eq!(pieces, 2);
            } else {
                assert_eq!(pieces, 1);
            }
        }
        code += 1;
    }
}

#[test]
fn characters_go_there_and_back() {
    let text = "héllo wörld";
    let chars = chars_of(text);
    assert_eq!(chars.len(), 11);
    assert_eq!(chars[1], 'é');
    assert_eq!(substring(&chars, 0, 11), text);
    assert_eq!(substring(&chars, 6, 11), "wörld");
    assert_eq!(substring(&chars, 3, 3), "");
}

#[test]
fn finds_the_first_occurrence() {
    let hay = chars_of("abcabcabc");
    let pat = chars_of("bc");
    assert_eq!(find_from(&hay, &pat, 0), Some(1));
    assert_eq!(find_from(&hay, &pat, 2), Some(4));
    assert_eq!(find_from(&hay, &pat, 8), None);
    assert_eq!(find_from(&hay, &pat, 100), None);
    assert!(occurs_here(&hay, &pat, 7));
    assert!(!occurs_here(&hay, &pat, 8));
    assert!(!occurs_here(&hay, &pat, 0));
    let nothing = chars_of("");
    assert_eq!(find_from(&hay, &nothing, 9), Some(9));
    assert_eq!(find_from(&hay, &nothing, 10), None);
}

#[test]
fn contains_text_tells_whether_a_part_is_there() {
    assert!(contains_text("see http://a/ there", "http://"));
    assert!(!contains_text("see ftp://a/ there", "http://"));
    assert!(contains_text("anything", ""));
    assert!(!contains_text("ab", "abc"));
}

#[test]
fn split_cuts_from_the_left_without_overlap() {
    assert_eq!(split("a,b,c", ","), owned(&["a", "b", "c"]));
    assert_eq!(split("a,,c", ","), owned(&["a", "", "c"]));
    assert_eq!(split(",a,", ","), owned(&["", "a", ""]));
    assert_eq!(split("", ","), owned(&[""]));
    assert_eq!(split("aaa", "aa"), owned(&["", "a"]));
    assert_eq!(split("x$$==$$=$$==$$=$$", "$$==$$=$$"), owned(&["x", "==$$=$$"]));
    let hay = chars_of("1--2--3");
    let sep = chars_of("--");
    assert_eq!(split_chars(&hay, &sep), owned(&["1", "2", "3"]));
}

#[test]
fn split_agrees_with_the_standard_split() {
    let cases = [("a$$b$$$c", "$$"), ("no separator", "::"), ("::::", "::"), ("ab", "abc")];
    for (s, sep) in cases {
        let want: Vec<String> = s.split(sep).map(String::from).collect();
        assert_eq!(split(s, sep), want);
    }
}

#[test]
fn join_puts_the_separator_between_parts() {
    assert_eq!(join_with(&owned(&["a", "b", "c"]), ", "), "a, b, c");
    assert_eq!(join_with(&owned(&["only"]), ", "), "only");
    assert_eq!(join_with(&owned(&[]), ", "), "");
    assert_eq!(join_with(&owned(&["", ""]), "-"), "-");
}

#[test]
fn replace_all_replaces_every_occurrence() {
    assert_eq!(replace_all("data/index.txt", ".txt", "-temp.txt"), "data/index-temp.txt");
    assert_eq!(replace_all("a.txt.txt", ".txt", "-temp.txt"), "a-temp.txt-temp.txt");
    assert_eq!(replace_all("no suffix", ".txt", "-temp.txt"), "no suffix");
    assert_eq!(replace_all("aaa", "aa", "b"), "ba");
}

#[test]
fn lines_end_at_line_feeds() {
    assert_eq!(split_lines("a\nb\n"), owned(&["a", "b"]));
    assert_eq!(split_lines("a\nb"), owned(&["a", "b"]));
    assert_eq!(split_lines("a\r\nb\r\n"), owned(&["a", "b"]));
    assert_eq!(split_lines("a\n\nb"), owned(&["a", "", "b"]));
    assert_eq!(split_lines(""), Vec::<String>::new());
    assert_eq!(split_lines("\n"), owned(&[""]));
    assert_eq!(split_lines("last\r"), owned(&["last\r"]));
    assert_eq!(split_lines("mid\rdle\n"), owned(&["mid\rdle"]));
}

#[test]
fn lines_agree_with_the_standard_lines() {
    let samples = ["a\nb\n", "a\r\nb", "\n\n", "x\r", "\r\n", "one line", "a\n\r\nb\r\r\n"];
    for s in samples {
        let want: Vec<String> = s.lines().map(String::from).collect();
        assert_eq!(split_lines(s), want);
    }
}
