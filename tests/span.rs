use core::iter::successors;

use line_column::span::wrapper::EmptySpan;
use line_column::span::{Span, TextRange};

fn check_texts(spans: impl IntoIterator<Item = Span>, expect: &[&str]) {
    let spans = Vec::from_iter(spans);
    let texts = spans.iter().map(|it| it.text()).collect::<Vec<_>>();
    assert_eq!(texts, expect);
}

fn size_of(s: &str) -> u32 {
    s.len() as u32
}

#[test]
fn next_lines_without_end_eol() {
    let source = "foo\nbar\n\nbaz";
    let span = Span::new_full(source);
    let lines = successors(span.current_line().into(), |it: &Span| Some(it.next_line()))
        .take_while(|it| !it.is_empty())
        .collect::<Vec<_>>();
    check_texts(lines, &["foo\n", "bar\n", "\n", "baz"]);
}

#[test]
fn next_lines_multi_bytes_char() {
    let source = "测试\n实现\n\n多字节";
    let span = Span::new_full(source);
    let lines = successors(span.current_line().into(), |it: &Span| Some(it.next_line()))
        .take_while(|it| !it.is_empty())
        .collect::<Vec<_>>();
    check_texts(lines, &["测试\n", "实现\n", "\n", "多字节"]);
}

#[test]
fn next_lines_with_end_eol() {
    let source = "foo\nbar\n\nbaz\n";
    let span = Span::new_full(source);
    let lines = successors(span.current_line().into(), |it: &Span| Some(it.next_line()))
        .take_while(|it| !it.is_empty())
        .collect::<Vec<_>>();
    check_texts(lines, &["foo\n", "bar\n", "\n", "baz\n"]);
}

#[test]
fn next_lines_first_empty_line() {
    let source = "\nfoo\nbar\n\nbaz";
    let span = Span::new_full(source);
    let lines = successors(span.current_line().into(), |it: &Span| Some(it.next_line()))
        .take_while(|it| !it.is_empty())
        .collect::<Vec<_>>();
    check_texts(lines, &["\n", "foo\n", "bar\n", "\n", "baz"]);
}

#[test]
fn prev_lines_with_end_eol() {
    let source = "foo\nbar\n\nbaz\n";
    let span = Span::new(source, TextRange::new(size_of(source), size_of(source)));
    let lines = successors(span.current_line().into(), |it: &Span| Some(it.prev_line()))
        .skip(1)
        .take_while(|it| !it.is_empty())
        .collect::<Vec<_>>();
    check_texts(lines, &["baz\n", "\n", "bar\n", "foo\n"]);
}

#[test]
fn prev_lines_without_end_eol() {
    let source = "foo\nbar\n\nbaz";
    let span = Span::new(source, TextRange::new(size_of(source), size_of(source)));
    let lines = successors(span.current_line().into(), |it: &Span| Some(it.prev_line()))
        .take_while(|it| !it.is_empty())
        .collect::<Vec<_>>();
    check_texts(lines, &["baz", "\n", "bar\n", "foo\n"]);
}

#[test]
fn prev_lines_multi_bytes_char() {
    let source = "测试\n实现\n\n多字节";
    let span = Span::new(source, TextRange::new(size_of(source), size_of(source)));
    let lines = successors(span.current_line().into(), |it: &Span| Some(it.prev_line()))
        .take_while(|it| !it.is_empty())
        .collect::<Vec<_>>();
    check_texts(lines, &["多字节", "\n", "实现\n", "测试\n"]);
}

#[test]
fn test_trim_start() {
    let datas = ["", "f", "foo", " ", " f", " foo", "  ", "  f", "  foo", "  f", "  foo"];
    for prefix in ["", "x"] {
        for suffix in ["", "x", " ", "  "] {
            for data in datas {
                let source = format!("{prefix}{data}{suffix}");
                let range = TextRange::new(size_of(prefix), size_of(&source));
                let span = Span::new(&source, range);
                let expected = source[range.start as usize..range.end as usize].trim_start();
                assert_eq!(span.trim_start().text(), expected);
            }
        }
    }
}

#[test]
fn test_trim_end() {
    let datas = ["", "f", "foo", " ", " f", "foo ", "  ", "f  ", "foo  ", "f  ", "foo  "];
    for prefix in ["", "x", " ", "  "] {
        for suffix in ["", "x"] {
            for data in datas {
                let source = format!("{prefix}{data}{suffix}");
                let range = TextRange::new(0, size_of(&source) - size_of(suffix));
                let span = Span::new(&source, range);
                let expected = source[range.start as usize..range.end as usize].trim_end();
                assert_eq!(span.trim_end().text(), expected);
            }
        }
    }
}

#[test]
fn trim_unicode_whitespace() {
    let source = "x\u{3000}\t\u{a0}ab\u{2028} \u{85}y";
    let len = size_of(source);
    let span = Span::new(source, TextRange::new(1, len - 1));
    assert_eq!(span.trim_start().text(), "ab\u{2028} \u{85}");
    assert_eq!(span.trim_end().text(), "\u{3000}\t\u{a0}ab");
    assert_eq!(span.trim_start().trim_end().text(), "ab");
    assert_eq!(span.trim_start().range(), TextRange::new(1 + 3 + 1 + 2, len - 1));
}

#[test]
fn after_then_take() {
    let source = Span::new_full("foo,bar,baz");
    let comma = source.create(TextRange::new(3, 4));
    let bar = comma.after().take(size_of("bar"));
    assert_eq!(comma.text(), ",");
    assert_eq!(bar.text(), "bar");
    assert_eq!(bar.source(), "foo,bar,baz");
    assert_eq!(bar.line_column(), (1, 5));
    assert_eq!(bar.line(), 1);
    assert_eq!(bar.column(), 5);
}

#[test]
fn construct_and_slice() {
    let span = Span::new("abcdef", TextRange::new(2, 4));
    assert_eq!(span.text(), "cd");
    let full = Span::new_full("abcdef");
    assert_eq!(full.text(), "abcdef");
    let bcd = full.create(TextRange::new(1, 4));
    assert_eq!(bcd.text(), "bcd");
    assert_eq!(bcd.create(TextRange::new(3, 6)).text(), "def");
    let sliced = full.slice(TextRange::new(1, 4));
    assert_eq!(sliced.text(), "bcd");
    assert_eq!(sliced.slice(TextRange::new(1, 4)).text(), "cde");
}

#[test]
fn split_in_two() {
    let full = Span::new_full("abcdef");
    let (a, rest) = full.split(1);
    assert_eq!(a.text(), "a");
    assert_eq!(rest.text(), "bcdef");
    let (bcd, ef) = rest.split(3);
    assert_eq!(bcd.text(), "bcd");
    assert_eq!(ef.text(), "ef");
}

#[test]
fn lengths_and_bounds() {
    let span = Span::new_full("foo");
    let empty = span.create(TextRange::new(1, 1));
    assert!(!span.is_empty());
    assert!(empty.is_empty());
    assert_eq!(empty.range(), TextRange::new(1, 1));
    assert_eq!(span.len(), 3);
    assert_eq!(empty.len(), 0);

    let span = Span::new("foobarbaz", TextRange::new(3, 6));
    assert_eq!(span.text(), "bar");
    assert_eq!(span.before().text(), "foo");
    assert_eq!(span.after().text(), "baz");
    assert_eq!(span.index(), 3);

    let span = Span::new("foobarbaz", TextRange::new(3, 7));
    assert_eq!(span.take(3).text(), "bar");
    assert_eq!(span.take(10).text(), "barb");

    let span = Span::new("abcdef", TextRange::new(1, 4));
    assert_eq!(span.start().range(), TextRange::new(1, 1));
    assert_eq!(span.end().range(), TextRange::new(4, 4));
    assert_eq!(span.range(), TextRange::new(1, 4));
}

#[test]
fn line_navigation() {
    let span = Span::new_full("foo\nbar\nbaz");
    let next = span.create(TextRange::new(4, 9));
    let tail = span.create(TextRange::new(8, 11));
    let endl = span.create(TextRange::new(3, 6));
    assert_eq!(next.text(), "bar\nb");
    assert_eq!(tail.text(), "baz");
    assert_eq!(endl.text(), "\nba");

    assert_eq!(span.current_line().text(), "foo\n");
    assert_eq!(next.current_line().text(), "bar\n");
    assert_eq!(tail.current_line().text(), "baz");
    assert_eq!(endl.current_line().text(), "foo\n");

    assert_eq!(span.prev_line().text(), "");
    assert_eq!(next.prev_line().text(), "foo\n");
    assert_eq!(tail.prev_line().text(), "bar\n");
    assert_eq!(endl.prev_line().text(), "");

    assert_eq!(span.next_line().text(), "bar\n");
    assert_eq!(next.next_line().text(), "baz");
    assert_eq!(tail.next_line().text(), "");
    assert_eq!(tail.next_line().range(), TextRange::new(11, 11));
    assert_eq!(endl.next_line().text(), "bar\n");
}

#[test]
fn line_walk_ends_in_an_empty_span() {
    let source = "foo\nbar\n\nbaz";
    let mut line = Span::new_full(source).current_line();
    let mut texts = Vec::new();
    while !line.is_empty() {
        texts.push(line.text().to_string());
        line = line.next_line();
    }
    assert_eq!(texts, ["foo\n", "bar\n", "\n", "baz"]);
    assert_eq!(line.range(), TextRange::new(12, 12));

    let mut line = Span::new(source, TextRange::new(12, 12)).current_line();
    let mut texts = Vec::new();
    while !line.is_empty() {
        texts.push(line.text().to_string());
        line = line.prev_line();
    }
    assert_eq!(texts, ["baz", "\n", "bar\n", "foo\n"]);
    assert_eq!(line.range(), TextRange::new(0, 0));
}

#[test]
fn spans_share_their_source() {
    let span = Span::new_full("abc");
    let copy = span.clone();
    assert_eq!(copy.range(), span.range());
    assert!(std::ptr::eq(copy.source(), span.source()));
    assert!(std::ptr::eq(span.after().source(), span.source()));
}

#[test]
fn empty_span_defaults() {
    let empty = EmptySpan::default();
    assert!(empty.is_empty());
    assert_eq!(empty.range(), TextRange::new(0, 0));
    assert_eq!(empty.source(), "");
    let span: Span = empty.clone().into();
    assert_eq!(span.text(), "");
    let span = Span::default();
    assert_eq!(span.range(), TextRange::default());
}
