use plagiarism_basic::plagiarism_database::sort_results_by_matches;
use plagiarism_basic::plagiarism_database::PlagiarismDatabase;
use plagiarism_basic::run_plagiarism_checks;
use plagiarism_basic::AppSettings;
use plagiarism_basic::Metric;

fn settings(n: usize, s: usize, metric: Metric) -> AppSettings {
    AppSettings {
        n,
        s,
        metric,
        udir: String::new(),
        tdir: None,
        idir: None,
        output_cli: false,
        output_html: false,
        open_html_after: false,
    }
}

#[test]
fn index_fragments_and_locations() {
    let words: Vec<String> = vec!["mary".to_string(), "had".to_string(), "a".to_string()];
    let (fragments, locations) = PlagiarismDatabase::get_textfragments(&words, 2);
    assert_eq!(fragments, vec!["mary had".to_string(), "had a".to_string()]);
    let mary_had = locations.iter().find(|p| p.0 == "mary had").unwrap();
    assert_eq!(mary_had.1, vec![(0, 2)]);
    let had_a = locations.iter().find(|p| p.0 == "had a").unwrap();
    assert_eq!(had_a.1, vec![(1, 3)]);
}

#[test]
fn index_window_wider_than_text_is_empty() {
    let words: Vec<String> = vec!["mary".to_string(), "had".to_string(), "a".to_string()];
    let (fragments, locations) = PlagiarismDatabase::get_textfragments(&words, 4);
    assert!(fragments.is_empty());
    assert!(locations.is_empty());
}

#[test]
fn index_repeated_fragment_keeps_all_locations() {
    let words: Vec<String> = vec![
        "a".to_string(),
        "b".to_string(),
        "a".to_string(),
        "b".to_string(),
    ];
    let (fragments, locations) = PlagiarismDatabase::get_textfragments(&words, 2);
    assert_eq!(
        fragments,
        vec!["a b".to_string(), "b a".to_string()]
    );
    let ab = locations.iter().find(|p| p.0 == "a b").unwrap();
    assert_eq!(ab.1, vec![(0, 2), (2, 4)]);
}

#[test]
fn untrusted_check_finds_shared_phrase() {
    let mut db = PlagiarismDatabase::new(3, 0, Metric::Equal, Vec::new());
    db.add_untrusted_text("alpha", "the quick brown fox jumps");
    db.add_untrusted_text("beta", "see the quick brown dog run");
    let results = db.check_untrusted_plagiarism();
    assert_eq!(results.len(), 1);
    assert_eq!(results[0].owner_id1, "alpha");
    assert_eq!(results[0].owner_id2, "beta");
    assert!(results[0].equal_fragments);
    assert!(!results[0].trusted_owner1);
    assert_eq!(
        results[0].matching_fragments,
        vec![("the quick brown".to_string(), "the quick brown".to_string())]
    );
    assert_eq!(results[0].matching_fragments_locations.len(), 1);
    assert_eq!(results[0].matching_fragments_locations[0].0, vec![(0, 3)]);
    assert_eq!(results[0].matching_fragments_locations[0].1, vec![(1, 4)]);
}

#[test]
fn untrusted_check_visits_each_pair_once() {
    let mut db = PlagiarismDatabase::new(2, 0, Metric::Equal, Vec::new());
    db.add_untrusted_text("a", "shared words here");
    db.add_untrusted_text("b", "shared words there");
    db.add_untrusted_text("c", "shared words everywhere");
    let results = db.check_untrusted_plagiarism();
    // At most the three unordered pairs, never a self pair, never both orders
    assert_eq!(results.len(), 3);
    let mut pairs: Vec<(String, String)> = Vec::new();
    for r in &results {
        assert_ne!(r.owner_id1, r.owner_id2);
        for (o1, o2) in &pairs {
            let same = (o1 == &r.owner_id1 && o2 == &r.owner_id2)
                || (o1 == &r.owner_id2 && o2 == &r.owner_id1);
            assert!(!same);
        }
        pairs.push((r.owner_id1.clone(), r.owner_id2.clone()));
    }
}

#[test]
fn equal_metric_matches_text_with_itself_fully() {
    let mut db = PlagiarismDatabase::new(2, 0, Metric::Equal, Vec::new());
    db.add_untrusted_text("one", "x y z");
    db.add_untrusted_text("two", "x y z");
    let results = db.check_untrusted_plagiarism();
    assert_eq!(results.len(), 1);
    // The whole fragment set of the text matches, each fragment with itself
    assert_eq!(
        results[0].matching_fragments,
        vec![
            ("x y".to_string(), "x y".to_string()),
            ("y z".to_string(), "y z".to_string()),
        ]
    );
}

#[test]
fn trusted_check_is_full_cross_product() {
    let mut db = PlagiarismDatabase::new(2, 0, Metric::Equal, Vec::new());
    db.add_trusted_text("ref", "alpha beta gamma");
    db.add_untrusted_text("s1", "alpha beta delta");
    db.add_untrusted_text("s2", "beta gamma epsilon");
    let results = db.check_trusted_plagiarism();
    assert_eq!(results.len(), 2);
    assert!(results.iter().all(|r| r.trusted_owner1));
    assert!(results.iter().all(|r| r.owner_id1 == "ref"));
}

#[test]
fn ignored_phrase_produces_no_result() {
    let ignored = vec!["the cat sat".to_string()];
    let mut db = PlagiarismDatabase::new(3, 0, Metric::Equal, ignored);
    db.add_untrusted_text("first", "the cat sat quietly today");
    db.add_untrusted_text("second", "the cat sat alone yesterday");
    let results = db.check_untrusted_plagiarism();
    assert!(results.is_empty());
}

#[test]
fn lev_metric_reports_both_fragments() {
    let mut db = PlagiarismDatabase::new(1, 1, Metric::Lev, Vec::new());
    db.add_untrusted_text("p", "cart");
    db.add_untrusted_text("q", "card");
    let results = db.check_untrusted_plagiarism();
    assert_eq!(results.len(), 1);
    assert!(!results[0].equal_fragments);
    assert_eq!(
        results[0].matching_fragments,
        vec![("cart".to_string(), "card".to_string())]
    );
}

#[test]
fn readding_an_owner_overwrites_the_entry() {
    let mut db = PlagiarismDatabase::new(2, 0, Metric::Equal, Vec::new());
    db.add_untrusted_text("dup", "old words gone");
    db.add_untrusted_text("dup", "completely different text");
    db.add_untrusted_text("other", "old words gone");
    let results = db.check_untrusted_plagiarism();
    // The overwritten text no longer matches its earlier contents
    assert!(results.is_empty());
    let texts = db.get_all_cleantext();
    assert_eq!(texts.len(), 2);
}

#[test]
fn cleantext_prefers_untrusted_on_shared_owner() {
    let mut db = PlagiarismDatabase::new(2, 0, Metric::Equal, Vec::new());
    db.add_trusted_text("shared", "trusted words");
    db.add_trusted_text("only trusted", "reference text");
    db.add_untrusted_text("shared", "untrusted words");
    let texts = db.get_all_cleantext();
    assert_eq!(texts.len(), 2);
    let shared = texts.iter().find(|p| p.0 == "shared").unwrap();
    assert_eq!(shared.1, vec!["untrusted", "words"]);
    let trusted = texts.iter().find(|p| p.0 == "only trusted").unwrap();
    assert_eq!(trusted.1, vec!["reference", "text"]);
}

#[test]
fn run_checks_end_to_end() {
    let untrusted = vec![
        ("u1".to_string(), "one two three four".to_string()),
        ("u2".to_string(), "zero one two three".to_string()),
    ];
    let trusted = vec![("t1".to_string(), "two three four five".to_string())];
    let (ut, t, texts) = run_plagiarism_checks(
        &settings(3, 0, Metric::Equal),
        untrusted,
        trusted,
        Vec::new(),
    );
    assert_eq!(ut.len(), 1);
    assert_eq!(ut[0].matching_fragments[0].0, "one two three");
    // The trusted sweep only matches u1, whose text shares "two three four"
    assert_eq!(t.len(), 1);
    assert!(t[0].trusted_owner1);
    assert_eq!(t[0].owner_id1, "t1");
    assert_eq!(t[0].owner_id2, "u1");
    assert_eq!(texts.len(), 3);
}

#[test]
fn sort_orders_by_decreasing_matches() {
    let mut db = PlagiarismDatabase::new(2, 0, Metric::Equal, Vec::new());
    db.add_untrusted_text("long1", "a b c d e");
    db.add_untrusted_text("long2", "a b c d f");
    db.add_untrusted_text("short", "g h a b i");
    let mut results = db.check_untrusted_plagiarism();
    sort_results_by_matches(&mut results);
    for w in results.windows(2) {
        assert!(w[0].matching_fragments.len() >= w[1].matching_fragments.len());
    }
    assert_eq!(results[0].owner_id1, "long1");
    assert_eq!(results[0].owner_id2, "long2");
}
