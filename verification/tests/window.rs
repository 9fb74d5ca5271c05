use std::ops::Range;

use lets::output::{Line, Marker, Omission, TargetBlock};
use lets::window::{
    content_bytes, context, cut_long_lines, range, trim_to_budget, trim_to_bytes, window, Bounds,
    LINE_DISPLAY_CAP,
};

fn bounds(start: usize, end: usize) -> Bounds {
    Bounds { start, end }
}

#[test]
fn window_243_200_shows_the_first_200_and_names_what_is_left() {
    let (found, omission) = window(243, 200);
    assert_eq!(found, Some(bounds(1, 200)));
    match omission {
        Some(Omission::Window { shown, total }) => {
            assert_eq!(shown, (1, 200));
            assert_eq!(total, 243);
        },
        other => panic!("expected Omission::Window, got {other:?}"),
    }
}

#[test]
fn total_at_or_under_size_shows_everything_with_no_omission() {
    let (found, omission) = window(50, 200);
    assert_eq!(found, Some(bounds(1, 50)));
    assert!(omission.is_none());

    let (found, omission) = window(200, 200);
    assert_eq!(found, Some(bounds(1, 200)));
    assert!(omission.is_none());
}

#[test]
fn an_empty_file_has_nothing_to_show_and_nothing_to_omit() {
    let (found, omission) = window(0, 200);
    assert_eq!(found, None);
    assert!(omission.is_none());
    assert_eq!(context(1, 0, 0, 0), None);
    assert_eq!(range(1, 1, 0), None);
}

#[test]
fn context_41_0_30_212_is_bounds_41_71() {
    assert_eq!(context(41, 0, 30, 212), Some(bounds(41, 71)));
}

#[test]
fn context_start_clamps_to_1() {
    assert_eq!(context(5, 30, 0, 212), Some(bounds(1, 5)));
}

#[test]
fn context_around_a_line_the_file_lacks_is_nothing_to_show() {
    assert_eq!(context(0, 2, 2, 212), None);
    assert_eq!(context(213, 2, 2, 212), None);
    assert_eq!(context(400, 300, 0, 212), None);
}

#[test]
fn range_549_556_812_is_bounds_549_556() {
    assert_eq!(range(549, 556, 812), Some(bounds(549, 556)));
}

#[test]
fn range_end_clamps_to_total() {
    assert_eq!(range(5, 900, 812), Some(bounds(5, 812)));
}

#[test]
fn range_swaps_reversed_bounds() {
    assert_eq!(range(556, 549, 812), Some(bounds(549, 556)));
}

#[test]
fn a_range_wholly_past_the_end_is_nothing_to_show() {
    assert_eq!(range(813, 900, 812), None);
}

#[test]
fn line_zero_is_not_a_line() {
    assert_eq!(range(0, 5, 812), None);
    assert_eq!(range(0, 0, 812), None);
}

fn line(number: usize, text: &str) -> Line {
    Line {
        number,
        marker: Marker::Plain,
        text: text.to_owned(),
    }
}

#[test]
fn trim_to_bytes_stops_before_the_line_that_would_exceed_budget() {
    let lines = vec![line(1, "1234"), line(2, "1234"), line(3, "1234")];
    let (kept, trimmed) = trim_to_bytes(lines, 10);
    assert_eq!(kept.len(), 2);
    assert_eq!(kept[1].number, 2);
    assert!(trimmed);
}

#[test]
fn trim_to_bytes_keeps_everything_under_budget() {
    let lines = vec![line(1, "12"), line(2, "12")];
    let (kept, trimmed) = trim_to_bytes(lines, 100);
    assert_eq!(kept.len(), 2);
    assert!(!trimmed);
}

fn cut_one(text: &str, hit: Option<Range<usize>>) -> (String, usize) {
    let mut lines = vec![line(1, text)];
    let cut = cut_long_lines(&mut lines, &[hit]);
    (lines.remove(0).text, cut)
}

fn pair_at(start: usize, pair: &str) -> Range<usize> {
    start..start + pair.len()
}

#[test]
fn a_line_at_or_under_the_cap_is_left_alone() {
    for len in [999, 1_000] {
        let text = "a".repeat(len);
        assert_eq!(cut_one(&text, None), (text.clone(), 0));
        assert_eq!(cut_one(&text, Some(0..1)), (text, 0));
    }
}

#[test]
fn a_line_one_byte_over_the_cap_keeps_the_cap_and_marks_the_cut() {
    let (text, cut) = cut_one(&"a".repeat(1_001), None);
    assert_eq!(text, format!("{}…", "a".repeat(1_000)));
    assert_eq!(cut, 1);
}

#[test]
fn a_cut_lands_on_a_char_boundary() {
    let (text, _) = cut_one(&"é".repeat(600), None);
    assert_eq!(text, format!("{}…", "é".repeat(500)));

    // Byte 1,000 falls inside an `é` here, so the cut has to step back one byte.
    let (text, _) = cut_one(&format!("a{}", "é".repeat(600)), None);
    assert_eq!(text, format!("a{}…", "é".repeat(499)));
}

fn letters(len: usize) -> String {
    (b'a'..=b'z').cycle().take(len).map(char::from).collect()
}

#[test]
fn a_hit_keeps_200_bytes_each_side_of_its_pair() {
    let (before, after) = (letters(3_000), letters(1_990));
    let text = format!("{before}«needle»{after}");
    assert_eq!(text.len(), 5_000);

    let (kept, cut) = cut_one(&text, Some(pair_at(before.len(), "«needle»")));
    assert_eq!(
        kept,
        format!("…{}«needle»{}…", &before[2_800..], &after[..200])
    );
    assert_eq!(cut, 1);
}

#[test]
fn a_hit_near_the_start_has_no_leading_mark() {
    let text = format!("{}«needle»{}", "p".repeat(10), "q".repeat(1_500));
    let (kept, _) = cut_one(&text, Some(pair_at(10, "«needle»")));
    assert_eq!(
        kept,
        format!("{}«needle»{}…", "p".repeat(10), "q".repeat(200))
    );
}

#[test]
fn a_literal_guillemet_before_the_hit_does_not_move_the_window_off_it() {
    let text = format!("x«{}«needle»{}", "a".repeat(2_000), "b".repeat(50));
    let (kept, _) = cut_one(&text, Some(pair_at(2_003, "«needle»")));
    assert_eq!(
        kept,
        format!("…{}«needle»{}", "a".repeat(200), "b".repeat(50))
    );
}

#[test]
fn a_line_with_no_hit_falls_back_to_the_plain_cut() {
    let (kept, cut) = cut_one(&"z".repeat(1_500), None);
    assert_eq!(kept, format!("{}…", "z".repeat(1_000)));
    assert_eq!(cut, 1);
}

#[test]
fn a_hit_window_over_the_cap_keeps_the_cap_from_its_start() {
    let pair = format!("«{}»", "m".repeat(1_500));
    let text = format!("{}{pair}", "b".repeat(300));
    let (kept, _) = cut_one(&text, Some(pair_at(300, &pair)));
    // 200 context bytes and the two-byte `«` leave 798 of the cap for the match.
    assert_eq!(kept, format!("…{}«{}…", "b".repeat(200), "m".repeat(798)));
}

#[test]
fn the_count_names_only_the_lines_that_were_cut() {
    let mut lines = vec![
        line(1, "short"),
        line(2, &"x".repeat(1_200)),
        line(3, &"y".repeat(1_000)),
        line(4, &"z".repeat(4_000)),
    ];
    assert_eq!(cut_long_lines(&mut lines, &[]), 2);
    assert_eq!(lines[0].text, "short");
    assert_eq!(lines[2].text, "y".repeat(1_000));
}

#[test]
fn a_cut_line_stays_within_the_cap_and_a_short_one_is_untouched() {
    let alphabet = ['a', '\u{e9}', '\u{65e5}', '\u{1f980}', '\u{ab}', '\u{bb}', ' '];
    for count in [0, 1, 240, 250, 333, 334, 499, 500, 501, 999, 1_000, 1_001, 1_499] {
        for step in 1..=alphabet.len() {
            let text: String =
                (0..count).map(|i| alphabet[(i * step + i / 7) % alphabet.len()]).collect();
            let boundaries: Vec<usize> =
                text.char_indices().map(|(at, _)| at).chain([text.len()]).collect();
            for (a, b) in [(0, 0), (0, 1), (1, 3), (2, 3), (1, 1)] {
                let at = |part: usize| boundaries[(boundaries.len() - 1) * part / 3];
                for hit in [None, Some(at(a)..at(b))] {
                    let (kept, cut) = cut_one(&text, hit);
                    assert!(kept.len() <= LINE_DISPLAY_CAP + 2 * '\u{2026}'.len_utf8());
                    if text.len() <= LINE_DISPLAY_CAP {
                        assert_eq!(kept, text);
                        assert_eq!(cut, 0);
                    } else {
                        assert_eq!(cut, 1);
                    }
                }
            }
        }
    }
}

#[test]
fn range_either_holds_the_invariant_or_shows_nothing() {
    for total in [0usize, 1, 2, 7, 999] {
        for a in [0usize, 1, 2, 6, 7, 8, 998, 999, 1_000, 1_499] {
            for b in [0usize, 1, 2, 6, 7, 8, 998, 999, 1_000, 1_499] {
                let (lo, hi) = if a <= b { (a, b) } else { (b, a) };
                match range(a, b, total) {
                    Some(found) => {
                        assert!(1 <= found.start && found.start <= found.end && found.end <= total);
                        assert_eq!(found.start, lo);
                        assert_eq!(found.end, hi.min(total));
                    },
                    None => assert!(lo == 0 || lo > total),
                }
            }
        }
    }
}

#[test]
fn context_either_holds_the_invariant_or_shows_nothing() {
    for total in [0usize, 1, 2, 50, 999] {
        for center in [0usize, 1, 2, 49, 50, 51, 998, 999, 1_000, 1_499] {
            for before in [0usize, 1, 2, 99] {
                for after in [0usize, 1, 2, 99] {
                    match context(center, before, after, total) {
                        Some(found) => {
                            assert!(1 <= found.start && found.start <= found.end);
                            assert!(found.end <= total);
                            assert!(found.start <= center && center <= found.end);
                        },
                        None => assert!(center == 0 || center > total),
                    }
                }
            }
        }
    }
}

#[test]
fn window_under_total_shows_size_and_omits() {
    for total in [2usize, 3, 10, 999] {
        for size in [1usize, 2, 9, 998] {
            if size < total {
                let (found, omission) = window(total, size);
                assert_eq!(found, Some(Bounds { start: 1, end: size }));
                assert!(omission.is_some());
            }
        }
    }
}

fn block(target: &str, lines: Vec<Line>) -> TargetBlock {
    TargetBlock {
        target: target.to_owned(),
        path: target.to_owned(),
        span: None,
        window: None,
        not_shown: None,
        resolver: None,
        crlf: false,
        lossy_lines: Vec::new(),
        no_trailing_newline: false,
        lines,
    }
}

#[test]
fn a_budget_that_holds_everything_trims_nothing() {
    let mut blocks = vec![block("a", vec![line(1, "1234")]), block("b", vec![line(1, "12")])];
    assert!(trim_to_budget(&mut blocks, 2).is_empty());
    assert_eq!(blocks[0].lines.len(), 1);
    assert_eq!(blocks[1].lines.len(), 1);
}

#[test]
fn a_budget_is_spent_within_its_bytes_and_names_the_block_it_shortened() {
    let lines: Vec<Line> = (1..=5).map(|number| line(number, "1234567")).collect();
    let mut blocks = vec![block("a", lines), block("b", vec![line(1, "x")])];
    let omitted = trim_to_budget(&mut blocks, 5);
    let shown: usize = blocks.iter().map(|block| content_bytes(&block.lines)).sum();
    assert!(shown <= 20);
    assert_eq!(omitted.len(), 1);
    let Omission::Budget { budget, trimmed_target, .. } = &omitted[0] else {
        panic!("expected Omission::Budget, got {:?}", omitted[0]);
    };
    assert_eq!(*budget, 5);
    assert_eq!(trimmed_target, "a");
    assert_eq!(blocks[1].lines.len(), 1);
}

#[test]
fn content_bytes_counts_each_line_with_its_newline() {
    assert_eq!(content_bytes(&[]), 0);
    assert_eq!(content_bytes(&[line(1, "ab"), line(2, ""), line(3, "\u{e9}")]), 7);
}

#[test]
fn bounds_are_a_part_of_the_file() {
    let bounds = |start, end, total| {
        Bounds::checked(start, end, total).map(|bounds| (bounds.start, bounds.end))
    };
    assert_eq!(bounds(1, 3, 3), Some((1, 3)));
    assert_eq!(bounds(2, 2, 3), Some((2, 2)));
    assert_eq!(bounds(0, 1, 3), None);
    assert_eq!(bounds(3, 2, 3), None);
    assert_eq!(bounds(1, 4, 3), None);
    assert_eq!(bounds(1, 1, 0), None);
}
