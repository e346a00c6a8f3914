use tuiscope::highlight::{sections_from_stringdices, MatchHighlightError, Style};

fn unmatched(s: &str) -> Style {
    Style::Unmatched(s.to_string())
}

fn matched(s: &str) -> Style {
    Style::Matched(s.to_string())
}

#[test]
fn no_highlight() {
    assert_eq!(
        sections_from_stringdices("abc", &Vec::new()).unwrap(),
        vec![unmatched("abc")]
    );
}

#[test]
fn highlight_one_char_at_start() {
    assert_eq!(
        sections_from_stringdices("abc", &[0]).unwrap(),
        vec![matched("a"), unmatched("bc")]
    );
}

#[test]
fn highlight_one_char_at_end() {
    assert_eq!(
        sections_from_stringdices("abc", &[2]).unwrap(),
        vec![unmatched("ab"), matched("c")]
    );
}

#[test]
fn highlight_three_char_at_start() {
    assert_eq!(
        sections_from_stringdices("abcde", &[0, 1, 2]).unwrap(),
        vec![matched("abc"), unmatched("de")]
    );
}

#[test]
fn highlight_three_char_at_end() {
    assert_eq!(
        sections_from_stringdices("abcde", &[2, 3, 4]).unwrap(),
        vec![unmatched("ab"), matched("cde")]
    );
}

#[test]
fn highlight_fun_mixture_one() {
    assert_eq!(
        sections_from_stringdices("abcdefghijk", &[1, 2, 5, 6, 7, 9]).unwrap(),
        vec![
            unmatched("a"),
            matched("bc"),
            unmatched("de"),
            matched("fgh"),
            unmatched("i"),
            matched("j"),
            unmatched("k")
        ]
    );
}

// These two inputs begin with a multi-byte character sequence; indices are
// character positions, so segmenting must not split or reject them.
#[test]
fn found_bug_1() {
    sections_from_stringdices("Chimay Grande Réserve", &[0, 16]).unwrap();
}

#[test]
fn found_bug_2() {
    sections_from_stringdices("Bell’s Expedition", &[0, 5]).unwrap();
}

#[test]
fn periods_are_ok() {
    sections_from_stringdices("ABC.DEF.GHI", &[0, 4]).unwrap();
}

#[test]
fn normal_apostrophes_are_ok() {
    sections_from_stringdices("ABC'DEF.GHI", &[0, 4]).unwrap();
}

#[test]
fn normal_backticks_are_ok() {
    sections_from_stringdices("ABC`DEF.GHI", &[0, 4]).unwrap();
}

#[test]
fn lib_no_highlight() {
    assert_eq!(
        sections_from_stringdices("abc", &Vec::new()).unwrap(),
        vec![unmatched("abc")]
    );
}

#[test]
fn lib_highlight_one_char_at_start() {
    assert_eq!(
        sections_from_stringdices("abc", &[0]).unwrap(),
        vec![matched("a"), unmatched("bc")]
    );
}

#[test]
fn lib_highlight_one_char_at_end() {
    assert_eq!(
        sections_from_stringdices("abc", &[2]).unwrap(),
        vec![unmatched("ab"), matched("c")]
    );
}

#[test]
fn lib_highlight_three_char_at_start() {
    assert_eq!(
        sections_from_stringdices("abcde", &[0, 1, 2]).unwrap(),
        vec![matched("abc"), unmatched("de")]
    );
}

#[test]
fn lib_highlight_three_char_at_end() {
    assert_eq!(
        sections_from_stringdices("abcde", &[2, 3, 4]).unwrap(),
        vec![unmatched("ab"), matched("cde")]
    );
}

#[test]
fn lib_highlight_fun_mixture_one() {
    assert_eq!(
        sections_from_stringdices("abcdefghijk", &[1, 2, 5, 6, 7, 9]).unwrap(),
        vec![
            unmatched("a"),
            matched("bc"),
            unmatched("de"),
            matched("fgh"),
            unmatched("i"),
            matched("j"),
            unmatched("k")
        ]
    );
}

#[test]
fn lib_found_bug_1() {
    sections_from_stringdices("Chimay Grande Réserve", &[0, 16]).unwrap();
}

#[test]
fn lib_found_bug_2() {
    sections_from_stringdices("Bell’s Expedition", &[0, 5]).unwrap();
}

#[test]
fn lib_periods_are_ok() {
    sections_from_stringdices("ABC.DEF.GHI", &[0, 4]).unwrap();
}

#[test]
fn lib_normal_apostrophes_are_ok() {
    sections_from_stringdices("ABC'DEF.GHI", &[0, 4]).unwrap();
}

#[test]
fn lib_normal_backticks_are_ok() {
    sections_from_stringdices("ABC`DEF.GHI", &[0, 4]).unwrap();
}

#[test]
fn empty_text_yields_no_segments() {
    assert_eq!(sections_from_stringdices("", &[]).unwrap(), Vec::<Style>::new());
}

#[test]
fn out_of_bounds_index_errors() {
    assert_eq!(
        sections_from_stringdices("abc", &[5]).unwrap_err(),
        MatchHighlightError::InvalidMatchIndices
    );
}

#[test]
fn duplicate_index_errors() {
    assert_eq!(
        sections_from_stringdices("abc", &[1, 1]).unwrap_err(),
        MatchHighlightError::InvalidMatchIndices
    );
}

#[test]
fn descending_indices_error() {
    assert_eq!(
        sections_from_stringdices("abc", &[2, 1]).unwrap_err(),
        MatchHighlightError::InvalidMatchIndices
    );
}

#[test]
fn boundary_index_is_rejected() {
    // The index one past the last character is already out of bounds.
    assert_eq!(
        sections_from_stringdices("abc", &[3]).unwrap_err(),
        MatchHighlightError::InvalidMatchIndices
    );
}

// Concatenating the segments reproduces the text exactly, including on
// multi-byte text.
#[test]
fn segments_concatenate_back_to_text() {
    let cases: Vec<(&str, Vec<usize>)> = vec![
        ("abcdefghijk", vec![1, 2, 5, 6, 7, 9]),
        ("Chimay Grande Réserve", vec![0, 16, 20]),
        ("Bell’s Expedition", vec![0, 5]),
        ("abc", vec![]),
        ("", vec![]),
        ("abc", vec![0, 1, 2]),
    ];
    for (text, indices) in cases {
        let segs = sections_from_stringdices(text, &indices).unwrap();
        let mut rebuilt = String::new();
        for seg in segs {
            match seg {
                Style::Unmatched(s) => rebuilt.push_str(&s),
                Style::Matched(s) => rebuilt.push_str(&s),
            }
        }
        assert_eq!(rebuilt, text);
    }
}

// Segments alternate: no two adjacent segments share a kind, and none is empty.
#[test]
fn segments_alternate_kinds() {
    let segs = sections_from_stringdices("abcdefghijk", &[1, 2, 5, 6, 7, 9]).unwrap();
    for pair in segs.windows(2) {
        let both_matched =
            matches!(pair[0], Style::Matched(_)) == matches!(pair[1], Style::Matched(_));
        assert!(!both_matched);
    }
    for seg in &segs {
        match seg {
            Style::Unmatched(s) => assert!(!s.is_empty()),
            Style::Matched(s) => assert!(!s.is_empty()),
        }
    }
}
