use bake::text::{
    contains, find_char, from_chars, is_whitespace_char, replace, same_text, split_lines,
    split_once, split_whitespace, starts_with, to_chars, trim,
};

fn chars_of(s: &str) -> Vec<char> {
    s.chars().collect()
}

fn text_of(chars: &[char]) -> String {
    chars.iter().collect()
}

#[test]
fn chars_round_trip() {
    let chars = to_chars("include: é");
    assert_eq!(chars.len(), 10);
    assert_eq!(chars, chars_of("include: é"));
    assert_eq!(from_chars(&chars), "include: é");
    assert_eq!(to_chars(""), Vec::<char>::new());
    assert_eq!(from_chars(&[]), "");
}

#[test]
fn whitespace_is_the_unicode_property() {
    let mut code: u32 = 0;
    while code <= 0x10FFFF {
        if let Some(c) = char::from_u32(code) {
            assert_eq!(is_whitespace_char(c), c.is_whitespace(), "U+{:04X}", code);
        }
        code += 1;
    }
}

#[test]
fn trim_removes_whitespace_at_both_ends() {
    assert_eq!(text_of(trim(&chars_of("  \tcc -o a  b \r"))), "cc -o a  b");
    assert_eq!(text_of(trim(&chars_of("\u{A0}x\u{3000}"))), "x");
    assert_eq!(text_of(trim(&chars_of("x"))), "x");
    assert_eq!(text_of(trim(&chars_of(" \t \n"))), "");
    assert_eq!(text_of(trim(&chars_of(""))), "");
}

#[test]
fn trim_agrees_with_std() {
    for s in ["", " ", "a", " a", "a ", " a b ", "\t\ta\u{2003}", "\u{85}\u{1680}z\u{2028}\u{2029}"] {
        assert_eq!(text_of(trim(&chars_of(s))), s.trim());
    }
}

#[test]
fn find_char_gives_the_first_position() {
    assert_eq!(find_char(&chars_of("a:b:c"), ':'), Some(1));
    assert_eq!(find_char(&chars_of(":"), ':'), Some(0));
    assert_eq!(find_char(&chars_of("abc"), ':'), None);
    assert_eq!(find_char(&chars_of(""), ':'), None);
}

#[test]
fn split_once_splits_at_the_first_occurrence() {
    let line = chars_of("a = b = c");
    let (left, right) = split_once(&line, '=').unwrap();
    assert_eq!(text_of(left), "a ");
    assert_eq!(text_of(right), " b = c");
    let line = chars_of("=");
    let (left, right) = split_once(&line, '=').unwrap();
    assert_eq!(text_of(left), "");
    assert_eq!(text_of(right), "");
    assert!(split_once(&chars_of("abc"), '=').is_none());
}

#[test]
fn split_whitespace_gives_the_words() {
    assert_eq!(split_whitespace(&chars_of("  cc   -o\tout main.c ")), vec!["cc", "-o", "out", "main.c"]);
    assert_eq!(split_whitespace(&chars_of("one")), vec!["one"]);
    assert_eq!(split_whitespace(&chars_of(" \t ")), Vec::<String>::new());
    assert_eq!(split_whitespace(&chars_of("")), Vec::<String>::new());
    assert_eq!(split_whitespace(&chars_of("a\u{A0}b")), vec!["a", "b"]);
}

#[test]
fn split_whitespace_agrees_with_std() {
    for s in ["", " ", "a", " a  b ", "echo 'a b'", "\ta\nb\rc", "x\u{3000}y z"] {
        let expected: Vec<String> = s.split_whitespace().map(String::from).collect();
        assert_eq!(split_whitespace(&chars_of(s)), expected);
    }
}

#[test]
fn split_lines_splits_at_line_feeds() {
    let texts = ["", "a", "a\n", "\na", "a\nb", "a\n\nb\n", "a\r\nb"];
    for s in texts {
        let chars = chars_of(s);
        let got: Vec<String> = split_lines(&chars).iter().map(|l| text_of(l)).collect();
        let expected: Vec<String> = s.split("\n").map(String::from).collect();
        assert_eq!(got, expected, "{:?}", s);
    }
    let chars = chars_of("a\n\nb\n");
    let got: Vec<String> = split_lines(&chars).iter().map(|l| text_of(l)).collect();
    assert_eq!(got, vec!["a", "", "b", ""]);
}

#[test]
fn starts_with_and_contains() {
    assert!(starts_with(&chars_of("http://x"), &chars_of("http")));
    assert!(starts_with(&chars_of("http"), &chars_of("http")));
    assert!(starts_with(&chars_of("abc"), &chars_of("")));
    assert!(!starts_with(&chars_of("htt"), &chars_of("http")));
    assert!(!starts_with(&chars_of("xhttp"), &chars_of("http")));
    assert!(contains(&chars_of("see http"), &chars_of("http")));
    assert!(contains(&chars_of("xhttpx"), &chars_of("http")));
    assert!(contains(&chars_of(""), &chars_of("")));
    assert!(contains(&chars_of("abc"), &chars_of("")));
    assert!(!contains(&chars_of("htt p"), &chars_of("http")));
    assert!(!contains(&chars_of(""), &chars_of("http")));
}

#[test]
fn same_text_compares_all_characters() {
    assert!(same_text(&chars_of("include"), &chars_of("include")));
    assert!(same_text(&chars_of(""), &chars_of("")));
    assert!(!same_text(&chars_of("include"), &chars_of("includes")));
    assert!(!same_text(&chars_of("include"), &chars_of("includ3")));
}

#[test]
fn replace_replaces_every_occurrence() {
    let r = replace(&chars_of("a$X b$X"), &chars_of("$X"), &chars_of("12"));
    assert_eq!(text_of(&r), "a12 b12");
    let r = replace(&chars_of("aaa"), &chars_of("aa"), &chars_of("b"));
    assert_eq!(text_of(&r), "ba");
    let r = replace(&chars_of("abc"), &chars_of("x"), &chars_of("y"));
    assert_eq!(text_of(&r), "abc");
    let r = replace(&chars_of("abab"), &chars_of("ab"), &chars_of(""));
    assert_eq!(text_of(&r), "");
}

#[test]
fn replace_does_not_search_what_it_put_in() {
    let r = replace(&chars_of("ab"), &chars_of("a"), &chars_of("aa"));
    assert_eq!(text_of(&r), "aab");
    let r = replace(&chars_of("zz"), &chars_of("z"), &chars_of("zz"));
    assert_eq!(text_of(&r), "zzzz");
}

#[test]
fn replace_with_an_empty_pattern_changes_nothing() {
    let r = replace(&chars_of("abc"), &chars_of(""), &chars_of("-"));
    assert_eq!(text_of(&r), "abc");
}

#[test]
fn replace_agrees_with_std_for_patterns_that_are_not_empty() {
    let cases = [
        ("echo $NAME", "$NAME", "value"),
        ("$$$", "$$", "$"),
        ("abcabc", "bc", "cb"),
        ("", "a", "b"),
        ("aXbXc", "X", ""),
    ];
    for (s, pattern, with) in cases {
        let r = replace(&chars_of(s), &chars_of(pattern), &chars_of(with));
        assert_eq!(text_of(&r), s.replace(pattern, with));
    }
}
