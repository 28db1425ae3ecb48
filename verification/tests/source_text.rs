use source_text::SourceText;

#[test]
fn test() {
    let text = SourceText::new("foo\r\nbar\r\nqux".into());
    assert_eq!(0, text.get_column(0));
    assert_eq!(0, text.get_column(5));
    assert_eq!(2, text.get_line_number(5));
    assert_eq!(5, text.get_line_offset(2).unwrap());
    assert_eq!(5, text.get_line_offset_from_offset(7));

    let text = SourceText::new("\n".repeat(1_024));
    assert_eq!(1, text.get_line_number(0));
    assert_eq!(2, text.get_line_number(1));
    assert_eq!(1_025, text.get_line_number(1_024));

    let text = SourceText::new("\ndefault xml namespace =\n".into());
    assert_eq!(3, text.get_line_number(25));
    assert_eq!(0, text.get_column(25));
    assert_eq!(2, text.get_line_number(24));
    assert_eq!(23, text.get_column(24));
}

/// Line boundaries of `text` as pairs of the offset where one begins and the
/// offset just behind it, found by a plain scan.
fn plain_breaks(text: &str) -> Vec<(usize, usize)> {
    let chars: Vec<(usize, char)> = text.char_indices().collect();
    let mut breaks = Vec::new();
    let mut i = 0;
    while i < chars.len() {
        let (at, ch) = chars[i];
        let mut end = at + ch.len_utf8();
        let mut step = 1;
        if ch == '\n' || ch == '\r' || ch == '\u{2028}' || ch == '\u{2029}' {
            if ch == '\r' && i + 1 < chars.len() && chars[i + 1].1 == '\n' {
                end += 1;
                step = 2;
            }
            breaks.push((at, end));
        }
        i += step;
    }
    breaks
}

fn plain_line_number(breaks: &[(usize, usize)], offset: usize) -> usize {
    1 + breaks.iter().filter(|b| b.0 < offset).count()
}

fn plain_line_offset(breaks: &[(usize, usize)], line: usize) -> Option<usize> {
    if line == 1 {
        Some(0)
    } else if 2 <= line && line <= breaks.len() + 1 {
        Some(breaks[line - 2].1)
    } else {
        None
    }
}

fn plain_column(text: &str, breaks: &[(usize, usize)], offset: usize) -> usize {
    let start = plain_line_offset(breaks, plain_line_number(breaks, offset)).unwrap();
    if start > offset {
        return 0;
    }
    text.char_indices().filter(|(at, _)| start <= *at && *at < offset).count()
}

fn agrees_with_plain_scan(contents: &str) {
    let breaks = plain_breaks(contents);
    let text = SourceText::new(contents.to_string());
    for offset in 0..=contents.len() + 2 {
        let line = plain_line_number(&breaks, offset);
        assert_eq!(line, text.get_line_number(offset), "line number of {}", offset);
        assert_eq!(
            plain_line_offset(&breaks, line).unwrap(),
            text.get_line_offset_from_offset(offset),
            "line start of {}",
            offset
        );
        assert_eq!(
            plain_column(contents, &breaks, offset),
            text.get_column(offset),
            "column of {}",
            offset
        );
    }
    for line in 0..=breaks.len() + 3 {
        assert_eq!(plain_line_offset(&breaks, line), text.get_line_offset(line), "line {}", line);
    }
}

#[test]
fn contents_are_kept() {
    let text = SourceText::new("foo\r\nbar".into());
    assert_eq!("foo\r\nbar", text.contents().as_str());
}

#[test]
fn empty_text_has_one_line() {
    let text = SourceText::new(String::new());
    assert_eq!(1, text.get_line_number(0));
    assert_eq!(0, text.get_line_offset_from_offset(0));
    assert_eq!(0, text.get_column(0));
    assert_eq!(None, text.get_line_offset(0));
    assert_eq!(Some(0), text.get_line_offset(1));
    assert_eq!(None, text.get_line_offset(2));
}

#[test]
fn text_without_boundary_is_one_line() {
    let text = SourceText::new("let x = 1;".into());
    assert_eq!(1, text.get_line_number(0));
    assert_eq!(1, text.get_line_number(10));
    assert_eq!(0, text.get_line_offset_from_offset(10));
    assert_eq!(10, text.get_column(10));
    assert_eq!(Some(0), text.get_line_offset(1));
    assert_eq!(None, text.get_line_offset(2));
}

#[test]
fn carriage_return_line_feed_is_one_boundary() {
    let text = SourceText::new("foo\r\nbar\r\nqux".into());
    assert_eq!(1, text.get_line_number(3));
    assert_eq!(2, text.get_line_number(5));
    assert_eq!(2, text.get_line_number(8));
    assert_eq!(3, text.get_line_number(10));
    assert_eq!(3, text.get_line_number(13));
    assert_eq!(Some(0), text.get_line_offset(1));
    assert_eq!(Some(5), text.get_line_offset(2));
    assert_eq!(Some(10), text.get_line_offset(3));
    assert_eq!(None, text.get_line_offset(4));
}

#[test]
fn each_lone_terminator_is_one_boundary() {
    let text = SourceText::new("a\u{2028}b\u{2029}c\rd\ne".into());
    assert_eq!(Some(0), text.get_line_offset(1));
    assert_eq!(Some(4), text.get_line_offset(2));
    assert_eq!(Some(8), text.get_line_offset(3));
    assert_eq!(Some(10), text.get_line_offset(4));
    assert_eq!(Some(12), text.get_line_offset(5));
    assert_eq!(None, text.get_line_offset(6));
    assert_eq!(5, text.get_line_number(12));
    assert_eq!(5, text.get_line_number(13));
}

#[test]
fn carriage_returns_pair_with_the_line_feed_behind_them_only() {
    let text = SourceText::new("\r\r\n\n".into());
    assert_eq!(Some(0), text.get_line_offset(1));
    assert_eq!(Some(1), text.get_line_offset(2));
    assert_eq!(Some(3), text.get_line_offset(3));
    assert_eq!(Some(4), text.get_line_offset(4));
    assert_eq!(None, text.get_line_offset(5));

    let text = SourceText::new("\n\r".into());
    assert_eq!(Some(1), text.get_line_offset(2));
    assert_eq!(Some(2), text.get_line_offset(3));
    assert_eq!(None, text.get_line_offset(4));
}

#[test]
fn offset_inside_a_boundary_belongs_to_the_next_line() {
    let text = SourceText::new("foo\r\nbar".into());
    assert_eq!(2, text.get_line_number(4));
    assert_eq!(5, text.get_line_offset_from_offset(4));
    assert_eq!(0, text.get_column(4));

    let text = SourceText::new("a\u{2028}b".into());
    assert_eq!(1, text.get_line_number(1));
    assert_eq!(2, text.get_line_number(2));
    assert_eq!(4, text.get_line_offset_from_offset(2));
    assert_eq!(0, text.get_column(2));
    assert_eq!(0, text.get_column(3));
    assert_eq!(0, text.get_column(4));
    assert_eq!(1, text.get_column(5));
}

#[test]
fn line_zero_does_not_exist() {
    let text = SourceText::new("\n".repeat(1_024));
    assert_eq!(None, text.get_line_offset(0));
    let text = SourceText::new("one line".into());
    assert_eq!(None, text.get_line_offset(0));
}

#[test]
fn line_past_the_last_is_absent() {
    let text = SourceText::new("\n".repeat(1_024));
    assert_eq!(Some(1_024), text.get_line_offset(1_025));
    assert_eq!(None, text.get_line_offset(1_026));
    assert_eq!(None, text.get_line_offset(2_000));
    assert_eq!(None, text.get_line_offset(usize::MAX));
}

#[test]
fn offset_past_the_end_is_on_the_last_line() {
    let text = SourceText::new("ab\ncd".into());
    assert_eq!(2, text.get_line_number(5));
    assert_eq!(2, text.get_line_number(6));
    assert_eq!(2, text.get_line_number(usize::MAX));
    assert_eq!(3, text.get_line_offset_from_offset(usize::MAX));
    assert_eq!(2, text.get_column(5));
    assert_eq!(2, text.get_column(usize::MAX));
}

#[test]
fn column_counts_scalar_values_not_bytes() {
    let text = SourceText::new("\u{3b1}\u{3b2}\u{3b3}\n\u{3b4}\u{3b5}\u{3b6}".into());
    assert_eq!(0, text.get_column(0));
    assert_eq!(1, text.get_column(2));
    assert_eq!(2, text.get_column(4));
    assert_eq!(3, text.get_column(6));
    assert_eq!(2, text.get_line_number(7));
    assert_eq!(Some(7), text.get_line_offset(2));
    assert_eq!(0, text.get_column(7));
    assert_eq!(1, text.get_column(9));
    assert_eq!(2, text.get_column(11));
    assert_eq!(3, text.get_column(13));

    let text = SourceText::new("x\u{1F600}\u{65E5}y".into());
    assert_eq!(1, text.get_column(1));
    assert_eq!(2, text.get_column(5));
    assert_eq!(3, text.get_column(8));
    assert_eq!(4, text.get_column(9));
}

#[test]
fn offset_inside_a_scalar_value_counts_it() {
    let text = SourceText::new("\u{3b1}\u{3b2}".into());
    assert_eq!(1, text.get_column(1));
    assert_eq!(2, text.get_column(3));
    assert_eq!(1, text.get_line_number(3));
    assert_eq!(0, text.get_line_offset_from_offset(3));
}

#[test]
fn embedded_nul_is_an_ordinary_character() {
    let text = SourceText::new("a\0b\n\0".into());
    assert_eq!(1, text.get_line_number(3));
    assert_eq!(2, text.get_line_number(4));
    assert_eq!(3, text.get_column(3));
    assert_eq!(1, text.get_column(5));
}

#[test]
fn every_line_of_a_long_text_is_found() {
    let text = SourceText::new("\n".repeat(1_024));
    for offset in 0..=1_024 {
        assert_eq!(offset + 1, text.get_line_number(offset));
        assert_eq!(Some(offset), text.get_line_offset(offset + 1));
        assert_eq!(offset, text.get_line_offset_from_offset(offset));
        assert_eq!(0, text.get_column(offset));
    }
}

#[test]
fn checkpoint_lines_and_their_neighbours() {
    let mut contents = String::new();
    for i in 0..2_500 {
        contents.push_str(&format!("{}\n", i));
    }
    let breaks = plain_breaks(&contents);
    let text = SourceText::new(contents);
    for line in [
        1, 2, 10, 11, 12, 13, 22, 23, 24, 100, 101, 102, 103, 111, 112, 1000, 1001, 1002, 1003,
        1012, 1013, 2002, 2003, 2004, 2500, 2501,
    ] {
        let start = plain_line_offset(&breaks, line).unwrap();
        assert_eq!(Some(start), text.get_line_offset(line));
        assert_eq!(line, text.get_line_number(start));
        assert_eq!(start, text.get_line_offset_from_offset(start));
        if line > 1 {
            assert_eq!(line - 1, text.get_line_number(start - 1));
        }
    }
    assert_eq!(None, text.get_line_offset(2_502));
}

#[test]
fn long_text_agrees_with_plain_scan() {
    let mut contents = String::new();
    for i in 0..1_300 {
        contents.push_str(&format!("l{}", i));
        contents.push_str(match i % 5 {
            0 => "\n",
            1 => "\r\n",
            2 => "\r",
            3 => "\u{2028}",
            _ => "\u{2029}",
        });
    }
    agrees_with_plain_scan(&contents);
}

#[test]
fn mixed_text_agrees_with_plain_scan() {
    agrees_with_plain_scan("");
    agrees_with_plain_scan("\r\n");
    agrees_with_plain_scan("\n\r\n\r\r\n\n");
    agrees_with_plain_scan("\u{3b1}\r\n\u{1F600}\u{2028}\u{2029}z\r");
    agrees_with_plain_scan("fn main() {\r\n    println!(\"\u{4f60}\u{597d}\");\r\n}\r\n");
}

#[test]
fn line_number_never_falls() {
    let contents = "a\r\nbc\n\nd\u{2028}e\rf\u{2029}\r\n";
    let text = SourceText::new(contents.into());
    let mut last = text.get_line_number(0);
    for offset in 1..=contents.len() + 1 {
        let line = text.get_line_number(offset);
        assert!(last <= line);
        last = line;
    }
    assert_eq!(8, last);
}

#[test]
fn line_start_is_at_most_the_offset_outside_boundaries() {
    let contents = "ab\ncd\u{3b1}\re";
    let text = SourceText::new(contents.into());
    let starts = [0, 0, 0, 3, 3, 3, 3, 3, 8, 8];
    for (offset, start) in starts.iter().enumerate() {
        assert_eq!(*start, text.get_line_offset_from_offset(offset));
        assert!(*start <= offset);
    }
}

#[test]
fn line_starts_round_trip() {
    let contents = "a\r\nbc\n\nd\u{2028}e\rf\u{2029}\r\n";
    let text = SourceText::new(contents.into());
    let mut line = 1;
    while let Some(offset) = text.get_line_offset(line) {
        assert_eq!(line, text.get_line_number(offset));
        assert_eq!(Some(offset), text.get_line_offset(text.get_line_number(offset)));
        assert_eq!(offset, text.get_line_offset_from_offset(offset));
        assert_eq!(0, text.get_column(offset));
        line += 1;
    }
    assert_eq!(9, line);
}
