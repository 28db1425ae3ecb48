use source_text::line_skips::{LineSkips, SkipTarget};

/// A table over `lines` lines, where line `n` begins at `3 * (n - 1)`.
fn table(lines: usize) -> LineSkips {
    let mut skips = LineSkips::new();
    for line in 2..=lines {
        skips.push_line_skip(line, 3 * (line - 1));
    }
    skips
}

#[test]
fn new_table_holds_the_first_line() {
    let skips = LineSkips::new();
    let skip = skips.skip_for_line(1);
    assert_eq!((1, 0), (skip.line_number, skip.offset));
    let skip = skips.skip_for_line(0);
    assert_eq!((1, 0), (skip.line_number, skip.offset));
    let skip = skips.skip_for_line(700);
    assert_eq!((1, 0), (skip.line_number, skip.offset));
    let skip = skips.skip_for_offset(0);
    assert_eq!((1, 0), (skip.line_number, skip.offset));
    let skip = skips.skip_for_offset(usize::MAX);
    assert_eq!((1, 0), (skip.line_number, skip.offset));
}

#[test]
fn every_eleventh_line_is_a_checkpoint() {
    let skips = table(40);
    for line in 0..=60 {
        let skip = skips.skip_for_line(line);
        let expected = if line == 0 {
            1
        } else if line > 40 {
            34
        } else {
            line - (line - 1) % 11
        };
        assert_eq!(expected, skip.line_number, "line {}", line);
        assert_eq!(3 * (expected - 1), skip.offset);
    }
}

#[test]
fn eleventh_line_is_not_yet_a_checkpoint() {
    let skips = table(11);
    assert_eq!(1, skips.skip_for_line(11).line_number);
    let skips = table(12);
    assert_eq!(1, skips.skip_for_line(11).line_number);
    assert_eq!(12, skips.skip_for_line(12).line_number);
    assert_eq!(33, skips.skip_for_line(12).offset);
}

#[test]
fn lookup_by_offset_finds_the_last_checkpoint_at_or_before() {
    let skips = table(40);
    assert_eq!(1, skips.skip_for_offset(0).line_number);
    assert_eq!(1, skips.skip_for_offset(32).line_number);
    assert_eq!(12, skips.skip_for_offset(33).line_number);
    assert_eq!(12, skips.skip_for_offset(65).line_number);
    assert_eq!(23, skips.skip_for_offset(66).line_number);
    assert_eq!(34, skips.skip_for_offset(99).line_number);
    assert_eq!(34, skips.skip_for_offset(10_000).line_number);
    assert_eq!(99, skips.skip_for_offset(10_000).offset);
}

#[test]
fn lookups_cross_all_three_tiers() {
    let skips = table(3_100);
    for line in [
        1, 11, 12, 13, 100, 101, 102, 103, 111, 112, 1000, 1001, 1002, 1003, 1012, 1013, 2002,
        2003, 2013, 2014, 3003, 3004, 3014, 3100,
    ] {
        let expected = line - (line - 1) % 11;
        let skip = skips.skip_for_line(line);
        assert_eq!(expected, skip.line_number, "line {}", line);
        assert_eq!(3 * (expected - 1), skip.offset);
        for offset in 3 * (line - 1)..3 * line {
            let skip = skips.skip_for_offset(offset);
            assert_eq!(expected, skip.line_number, "offset {}", offset);
            assert_eq!(3 * (expected - 1), skip.offset);
        }
    }
    assert_eq!(3_092, skips.skip_for_line(5_000).line_number);
    assert_eq!(3_092, skips.skip_for_offset(1_000_000).line_number);
}

#[test]
fn lookup_takes_either_target() {
    let skips = table(30);
    let by_line = skips.lookup(SkipTarget::Line(25));
    let by_offset = skips.lookup(SkipTarget::Offset(72));
    assert_eq!(23, by_line.line_number);
    assert_eq!(23, by_offset.line_number);
    assert_eq!(66, by_line.offset);
    assert_eq!(66, by_offset.offset);
}

#[test]
fn target_is_before_a_later_line() {
    assert!(SkipTarget::Offset(4).is_before(5, 2));
    assert!(!SkipTarget::Offset(5).is_before(5, 2));
    assert!(!SkipTarget::Offset(6).is_before(5, 2));
    assert!(SkipTarget::Line(1).is_before(5, 2));
    assert!(!SkipTarget::Line(2).is_before(5, 2));
    assert!(!SkipTarget::Line(3).is_before(5, 2));
}
