use plagiarism_basic::text_utils::clean_text;
use plagiarism_basic::text_utils::extract_clean_word_ngrams;

#[test]
fn test_ngram() {
    assert_eq!(
        extract_clean_word_ngrams(&clean_text("mary had a"), 2),
        vec!["mary had", "had a"]
    );

    assert_eq!(
        extract_clean_word_ngrams(&clean_text("    ||| mary\n  @@@@ ....  had a\n\n\n"), 2),
        vec!["mary had", "had a"]
    );
}

#[test]
fn text_utils_test_ngram() {
    assert_eq!(
        extract_clean_word_ngrams(
            &vec!["mary".to_string(), "had".to_string(), "a".to_string()],
            2
        ),
        vec!["mary had", "had a"]
    );

    assert_eq!(
        extract_clean_word_ngrams(&clean_text("    ||| mary\n  @@@@ ....  had a\n\n\n"), 2),
        vec!["mary had", "had a"]
    );
}

#[test]
fn test_clean() {
    assert_eq!(
        clean_text("  a  b c \n 2 3 @ 4\n224acb@\n"),
        vec!["a", "b", "c", "2", "3", "4", "224acb"]
    )
}

#[test]
fn text_utils_test_clean() {
    assert_eq!(
        clean_text("  a  b c \n 2 3 @ 4\n224acb@\n"),
        vec!["a", "b", "c", "2", "3", "4", "224acb"]
    )
}

#[test]
fn clean_empty_and_uppercase() {
    assert_eq!(clean_text(""), Vec::<String>::new());
    assert_eq!(clean_text("   \n\t  "), Vec::<String>::new());
    assert_eq!(clean_text("HeLLo WoRLD"), vec!["hello", "world"]);
}

#[test]
fn ngram_window_wider_than_text() {
    let words: Vec<String> = vec!["one".to_string(), "two".to_string()];
    assert_eq!(extract_clean_word_ngrams(&words, 3), Vec::<String>::new());
}

#[test]
fn ngram_full_width() {
    let words: Vec<String> = vec!["one".to_string(), "two".to_string(), "three".to_string()];
    assert_eq!(extract_clean_word_ngrams(&words, 3), vec!["one two three"]);
}
