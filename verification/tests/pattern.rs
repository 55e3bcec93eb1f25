use gol::pattern::{
    chars_of, is_whitespace_char, parse_pattern, parse_row, pattern_fits, split_chars, trim_chars,
};
use gol::world::{add_offset, offset_at};

fn chars(s: &str) -> Vec<char> {
    s.chars().collect()
}

#[test]
fn whitespace_is_what_std_says() {
    for code in 0..0x11000u32 {
        if let Some(c) = char::from_u32(code) {
            assert_eq!(is_whitespace_char(c), c.is_whitespace());
        }
    }
}

#[test]
fn chars_of_a_text() {
    assert_eq!(chars_of(""), Vec::<char>::new());
    assert_eq!(chars_of("a\u{e9}#"), vec!['a', '\u{e9}', '#']);
}

#[test]
fn trim_removes_whitespace_at_both_ends() {
    assert_eq!(trim_chars(&chars("  a b \n")), chars("a b"));
    assert_eq!(trim_chars(&chars("a")), chars("a"));
    assert_eq!(trim_chars(&chars(" \t\n ")), chars(""));
    assert_eq!(trim_chars(&chars("")), chars(""));
    assert_eq!(trim_chars(&chars("\u{a0}x y\u{2003}")), chars("x y"));
}

#[test]
fn split_keeps_empty_pieces() {
    assert_eq!(split_chars(&chars("a b"), ' '), vec![chars("a"), chars("b")]);
    assert_eq!(split_chars(&chars(""), ' '), vec![chars("")]);
    assert_eq!(
        split_chars(&chars(" a  b "), ' '),
        vec![chars(""), chars("a"), chars(""), chars("b"), chars("")]
    );
    assert_eq!(split_chars(&chars("ab"), '\n'), vec![chars("ab")]);
    for text in ["", "#", "# - #", "  ", "a  b c ", " x"] {
        let expected: Vec<Vec<char>> = text.split(' ').map(chars).collect();
        assert_eq!(split_chars(&chars(text), ' '), expected);
    }
}

#[test]
fn rows_of_a_pattern() {
    assert_eq!(parse_row(&chars("  # - #  ")), vec![true, false, true]);
    assert_eq!(parse_row(&chars("")), vec![false]);
    assert_eq!(parse_row(&chars("## #")), vec![false, true]);
    assert_eq!(
        parse_pattern("\n  - #\n  # -  \n"),
        vec![vec![false, true], vec![true, false]]
    );
    assert_eq!(parse_pattern(""), vec![vec![false]]);
    assert_eq!(parse_pattern("#\n\n#"), vec![vec![true], vec![false], vec![true]]);
}

#[test]
fn patterns_must_be_rectangular_and_fit() {
    let rows = vec![vec![true, false], vec![false, false]];
    assert!(pattern_fits(&rows, 2, 2));
    assert!(pattern_fits(&rows, 5, 3));
    assert!(!pattern_fits(&rows, 1, 2));
    assert!(!pattern_fits(&rows, 2, 1));
    assert!(!pattern_fits(&vec![vec![true, false], vec![false]], 4, 4));
    assert!(pattern_fits(&Vec::new(), 1, 1));
}

#[test]
fn offsets_wrap_at_both_ends() {
    assert_eq!(add_offset(5, 0, -1), 5);
    assert_eq!(add_offset(5, 5, 1), 0);
    assert_eq!(add_offset(5, 3, 1), 4);
    assert_eq!(add_offset(5, 3, -1), 2);
    assert_eq!(add_offset(5, 3, 0), 3);
    assert_eq!(add_offset(0, 0, 1), 0);
    assert_eq!(add_offset(0, 0, -1), 0);
    assert_eq!(add_offset(usize::MAX, usize::MAX, 1), 0);
    assert_eq!(add_offset(usize::MAX, 0, -1), usize::MAX);
}

#[test]
fn the_eight_offsets_in_order() {
    let offsets: Vec<(i8, i8)> = (0..8).map(offset_at).collect();
    assert_eq!(
        offsets,
        vec![(-1, -1), (-1, 0), (-1, 1), (0, -1), (0, 1), (1, -1), (1, 0), (1, 1)]
    );
    assert_eq!(offset_at(8), (1, 1));
}
