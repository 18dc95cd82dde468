use plagiarism_basic::highlight::get_boldtext_segments_from_intervals;
use plagiarism_basic::highlight::project_highlights;
use plagiarism_basic::highlight::TextMaybeBold;

fn five_words() -> Vec<String> {
    vec!["a", "b", "c", "d", "e"].iter().map(|x| x.to_string()).collect()
}

#[test]
fn test_intervals_firstwords_bold() {
    let words = five_words();
    let intervals: Vec<(usize, usize)> = vec![(0, 1)];
    assert_eq!(
        get_boldtext_segments_from_intervals(&words, &intervals),
        vec![
            TextMaybeBold {
                text: "a b".to_string(),
                is_bold: true
            },
            TextMaybeBold {
                text: "c d e".to_string(),
                is_bold: false
            }
        ]
    );
}

#[test]
fn test_intervals_lastwords_bold() {
    let words = five_words();
    let intervals: Vec<(usize, usize)> = vec![(2, 4)];
    assert_eq!(
        get_boldtext_segments_from_intervals(&words, &intervals),
        vec![
            TextMaybeBold {
                text: "a b".to_string(),
                is_bold: false
            },
            TextMaybeBold {
                text: "c d e".to_string(),
                is_bold: true
            }
        ]
    );
}

#[test]
fn test_intervals_no_bold() {
    let words = five_words();
    let intervals: Vec<(usize, usize)> = vec![];
    assert_eq!(
        get_boldtext_segments_from_intervals(&words, &intervals),
        vec![TextMaybeBold {
            text: "a b c d e".to_string(),
            is_bold: false
        },]
    );
}

#[test]
fn test_intervals_all_bold() {
    let words = five_words();
    let intervals: Vec<(usize, usize)> = vec![(0, 4)];
    assert_eq!(
        get_boldtext_segments_from_intervals(&words, &intervals),
        vec![TextMaybeBold {
            text: "a b c d e".to_string(),
            is_bold: true
        },]
    );
}

#[test]
fn test_intervals_single_letters_bold() {
    let words = five_words();
    let intervals: Vec<(usize, usize)> = vec![(0, 0), (2, 2)];
    assert_eq!(
        get_boldtext_segments_from_intervals(&words, &intervals),
        vec![
            TextMaybeBold {
                text: "a".to_string(),
                is_bold: true
            },
            TextMaybeBold {
                text: "b".to_string(),
                is_bold: false
            },
            TextMaybeBold {
                text: "c".to_string(),
                is_bold: true
            },
            TextMaybeBold {
                text: "d e".to_string(),
                is_bold: false
            },
        ]
    );
}

#[test]
fn intervals_both_ends_bold() {
    let words = five_words();
    let intervals: Vec<(usize, usize)> = vec![(0, 0), (4, 4)];
    assert_eq!(
        get_boldtext_segments_from_intervals(&words, &intervals),
        vec![
            TextMaybeBold {
                text: "a".to_string(),
                is_bold: true
            },
            TextMaybeBold {
                text: "b c d".to_string(),
                is_bold: false
            },
            TextMaybeBold {
                text: "e".to_string(),
                is_bold: true
            },
        ]
    );
}

#[test]
fn project_covers_two_of_five() {
    let words = five_words();
    // One fragment location of width 2 starting at token 0 covers {0, 1}
    let locations: Vec<(usize, usize)> = vec![(0, 2)];
    let (segments, percent) = project_highlights(&words, &locations);
    assert_eq!(
        segments,
        vec![
            TextMaybeBold {
                text: "a b".to_string(),
                is_bold: true
            },
            TextMaybeBold {
                text: "c d e".to_string(),
                is_bold: false
            }
        ]
    );
    assert_eq!(percent, 40);
}

#[test]
fn project_merges_overlapping_locations() {
    let words = five_words();
    let locations: Vec<(usize, usize)> = vec![(0, 2), (1, 3)];
    let (segments, percent) = project_highlights(&words, &locations);
    assert_eq!(
        segments,
        vec![
            TextMaybeBold {
                text: "a b c".to_string(),
                is_bold: true
            },
            TextMaybeBold {
                text: "d e".to_string(),
                is_bold: false
            }
        ]
    );
    assert_eq!(percent, 60);
}

#[test]
fn project_empty_text_has_zero_coverage() {
    let words: Vec<String> = Vec::new();
    let locations: Vec<(usize, usize)> = vec![(0, 1)];
    let (segments, percent) = project_highlights(&words, &locations);
    assert_eq!(segments, Vec::<TextMaybeBold>::new());
    assert_eq!(percent, 0);
}

#[test]
fn project_full_coverage_is_hundred() {
    let words = five_words();
    let locations: Vec<(usize, usize)> = vec![(0, 5)];
    let (_, percent) = project_highlights(&words, &locations);
    assert_eq!(percent, 100);
}
