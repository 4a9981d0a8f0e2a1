use ebook_reader::text::{
    chars_of, contains_chars, is_blank_line, is_space_char, join_with_newlines, push_decimal,
    split_lines, trim_end_string,
};
use ebook_reader::view::{highlight_segments, line_prefix_text};

fn std_lines(s: &str) -> Vec<String> {
    s.lines().map(|l| l.to_string()).collect()
}

#[test]
fn split_lines_matches_str_lines() {
    let cases = [
        "", "a", "a\n", "a\nb", "a\n\nb\n", "\n", "\n\n", "a\r\nb\r\n", "a\rb", "a\r", "x\r\n",
        "héllo\nwörld", " \n\t\n",
    ];
    for c in cases.iter() {
        assert_eq!(split_lines(c), std_lines(c), "input {:?}", c);
    }
}

#[test]
fn split_lines_exact_values() {
    assert_eq!(split_lines("one\r\ntwo\n\nthree"), vec!["one", "two", "", "three"]);
    assert_eq!(split_lines(""), Vec::<String>::new());
    assert_eq!(split_lines("end\n"), vec!["end"]);
}

#[test]
fn whitespace_matches_char_is_whitespace() {
    for u in 0u32..0x11_0000 {
        if let Some(c) = char::from_u32(u) {
            assert_eq!(is_space_char(c), c.is_whitespace(), "char {:#x}", u);
        }
    }
}

#[test]
fn trim_end_matches_std() {
    let cases = ["", "abc", "abc  ", "  abc \t\n", "\u{3000}x\u{3000}", "   "];
    for c in cases.iter() {
        assert_eq!(trim_end_string(c), c.trim_end(), "input {:?}", c);
    }
}

#[test]
fn blank_lines() {
    assert!(is_blank_line(""));
    assert!(is_blank_line(" \t \u{a0}"));
    assert!(!is_blank_line("  x "));
    for c in ["", " ", "a", " a", "\u{2028}"].iter() {
        assert_eq!(is_blank_line(c), c.trim().is_empty());
    }
}

#[test]
fn join_puts_newlines_between() {
    let v = vec!["a".to_string(), "".to_string(), "b".to_string()];
    assert_eq!(join_with_newlines(&v), "a\n\nb");
    assert_eq!(join_with_newlines(&Vec::new()), "");
    assert_eq!(join_with_newlines(&vec!["only".to_string()]), "only");
}

#[test]
fn substring_search() {
    let hay = chars_of("the quick brown fox");
    assert!(contains_chars(&hay, &chars_of("quick")));
    assert!(contains_chars(&hay, &chars_of("fox")));
    assert!(contains_chars(&hay, &chars_of("")));
    assert!(!contains_chars(&hay, &chars_of("foxes")));
    assert!(!contains_chars(&chars_of(""), &chars_of("a")));
    for (h, n) in [("abcabd", "abd"), ("aaa", "aa"), ("ab", "ba"), ("é", "é")].iter() {
        assert_eq!(contains_chars(&chars_of(h), &chars_of(n)), h.contains(n));
    }
}

#[test]
fn decimal_matches_display() {
    for n in [0usize, 7, 10, 99, 100, 12345, usize::MAX].iter() {
        let mut s = String::from("#");
        push_decimal(&mut s, *n);
        assert_eq!(s, format!("#{}", n));
    }
}

#[test]
fn line_prefix_matches_format() {
    for n in [1usize, 9, 42, 999, 1000, 123456].iter() {
        assert_eq!(line_prefix_text(true, *n), format!("{:4} │ ", n));
    }
    assert_eq!(line_prefix_text(false, 5), "");
}

fn runs(text: &str, query: &str) -> Vec<(String, bool)> {
    highlight_segments(text, query).into_iter().map(|s| (s.text, s.highlighted)).collect()
}

#[test]
fn highlight_marks_each_match() {
    assert_eq!(
        runs("Hello hello world", "hello"),
        vec![
            ("Hello".to_string(), true),
            (" ".to_string(), false),
            ("hello".to_string(), true),
            (" world".to_string(), false)
        ]
    );
    assert_eq!(runs("aaaa", "aa"), vec![("aa".to_string(), true), ("aa".to_string(), true)]);
    assert_eq!(runs("abc", "x"), vec![("abc".to_string(), false)]);
    assert_eq!(runs("abc", ""), vec![("abc".to_string(), false)]);
    assert_eq!(runs("", "a"), vec![("".to_string(), false)]);
}

#[test]
fn highlight_keeps_text() {
    for (t, q) in [("One TWO one", "one"), ("xyz", "Y"), ("ÉtÉ été", "été")].iter() {
        let joined: String = runs(t, q).into_iter().map(|r| r.0).collect();
        assert_eq!(&joined, t);
    }
}
