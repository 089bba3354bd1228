use fuzzy_matcher::skim::SkimMatcherV2;
use fuzzy_matcher::FuzzyMatcher;
use sonic_search::scanner::FileEntry;
use sonic_search::search::{can_search, find_files, rank_matches, within_match_limit, NameMatch, MATCH_LIMIT};
use std::path::PathBuf;

fn named(name: &str) -> FileEntry {
    FileEntry { path: PathBuf::from("/files").join(name), name: name.to_string(), size: 1, is_dir: false }
}

fn hit(name: &str, score: i64) -> NameMatch {
    NameMatch { name: name.to_string(), score }
}

fn candidate(name: &str, score: Option<i64>) -> (String, Option<i64>) {
    (name.to_string(), score)
}

#[test]
fn ranking_puts_the_best_first() {
    let ranked = rank_matches(vec![
        candidate("low", Some(3)),
        candidate("high", Some(90)),
        candidate("mid", Some(40)),
    ]);
    assert_eq!(ranked, vec![hit("high", 90), hit("mid", 40), hit("low", 3)]);
}

#[test]
fn ranking_drops_candidates_without_a_score() {
    let ranked = rank_matches(vec![
        candidate("a", None),
        candidate("b", Some(5)),
        candidate("c", None),
        candidate("d", Some(7)),
    ]);
    assert_eq!(ranked, vec![hit("d", 7), hit("b", 5)]);
}

#[test]
fn ranking_keeps_the_order_of_equal_scores() {
    let ranked = rank_matches(vec![
        candidate("first", Some(10)),
        candidate("top", Some(20)),
        candidate("second", Some(10)),
        candidate("third", Some(10)),
        candidate("top too", Some(20)),
        candidate("fourth", Some(10)),
    ]);
    assert_eq!(
        ranked,
        vec![
            hit("top", 20),
            hit("top too", 20),
            hit("first", 10),
            hit("second", 10),
            hit("third", 10),
            hit("fourth", 10),
        ]
    );
}

#[test]
fn ranking_of_nothing_is_empty() {
    assert_eq!(rank_matches(vec![]), vec![]);
    assert_eq!(rank_matches(vec![candidate("a", None)]), vec![]);
}

#[test]
fn ranking_handles_negative_and_extreme_scores() {
    let ranked = rank_matches(vec![
        candidate("least", Some(i64::MIN)),
        candidate("minus", Some(-1)),
        candidate("most", Some(i64::MAX)),
        candidate("zero", Some(0)),
    ]);
    assert_eq!(ranked, vec![hit("most", i64::MAX), hit("zero", 0), hit("minus", -1), hit("least", i64::MIN)]);
}

#[test]
fn ranking_agrees_with_a_stable_sort() {
    let mut state: u64 = 7;
    let mut scored = Vec::new();
    for index in 0..2000 {
        state = state.wrapping_mul(6364136223846793005).wrapping_add(1442695040888963407);
        let score = if state % 5 == 0 { None } else { Some(((state >> 33) % 17) as i64 - 8) };
        scored.push((format!("file{}", index), score));
    }
    let mut expected: Vec<NameMatch> = scored
        .iter()
        .filter_map(|(name, score)| score.map(|score| NameMatch { name: name.clone(), score }))
        .collect();
    expected.sort_by(|a, b| b.score.cmp(&a.score));
    assert_eq!(rank_matches(scored), expected);
}

#[test]
fn test_find_files_logic() {
    let files = vec![
        named("document.txt"),
        named("report.pdf"),
        named("image.png"),
        named("archive.zip"),
        named("archive.tar.gz"),
    ];

    let found = find_files(&files, "doc");
    let names: Vec<&str> = found.iter().map(|m| m.name.as_str()).collect();
    assert_eq!(names, vec!["document.txt"]);

    let found = find_files(&files, "archive");
    let mut names: Vec<&str> = found.iter().map(|m| m.name.as_str()).collect();
    names.sort();
    assert_eq!(names, vec!["archive.tar.gz", "archive.zip"]);
}

#[test]
fn found_scores_are_those_of_the_matcher() {
    let matcher = SkimMatcherV2::default();
    let names = ["main.rs", "Makefile", "README.md", "remain.txt", "src", "m", "a_i_n"];
    let files: Vec<FileEntry> = names.iter().map(|name| named(name)).collect();
    for query in ["main", "m", "re", "M", "zzz", ""] {
        let mut expected: Vec<NameMatch> = names
            .iter()
            .filter_map(|name| matcher.fuzzy_match(name, query).map(|score| hit(name, score)))
            .collect();
        expected.sort_by(|a, b| b.score.cmp(&a.score));
        assert_eq!(find_files(&files, query), expected, "query {:?}", query);
    }
}

#[test]
fn a_score_depends_on_name_and_query() {
    let files = vec![named("main.rs")];
    let exact = find_files(&files, "main.rs");
    let loose = find_files(&files, "mr");
    assert_eq!(exact.len(), 1);
    assert_eq!(loose.len(), 1);
    assert!(exact[0].score > loose[0].score);
    assert!(find_files(&files, "xyz").is_empty());
}

#[test]
fn empty_query_matches_every_file() {
    let files = vec![named("b"), named("a"), named("c")];
    let found = find_files(&files, "");
    assert_eq!(found, vec![hit("b", 0), hit("a", 0), hit("c", 0)]);
}

#[test]
fn no_files_nothing_found() {
    assert!(find_files(&Vec::new(), "query").is_empty());
}

#[test]
fn match_limit_counts_characters() {
    assert!(within_match_limit(""));
    assert!(within_match_limit("name.txt"));
    let at_limit = "x".repeat(MATCH_LIMIT);
    assert!(within_match_limit(&at_limit));
    let over = "x".repeat(MATCH_LIMIT + 1);
    assert!(!within_match_limit(&over));
    // Characters, not bytes: each of these takes two bytes.
    let wide = "é".repeat(MATCH_LIMIT);
    assert!(within_match_limit(&wide));
}

#[test]
fn can_search_tests_query_and_names() {
    let files = vec![named("a.txt"), named("b.txt")];
    assert!(can_search(&files, "a"));
    assert!(can_search(&Vec::new(), ""));
    let over = "x".repeat(MATCH_LIMIT + 1);
    assert!(!can_search(&files, &over));
    let long_named = vec![named("a.txt"), named(&over)];
    assert!(!can_search(&long_named, "a"));
}

#[test]
fn try_find_files_refuses_what_is_too_long() {
    let files = vec![named("main.rs"), named("remain.txt")];
    let found = sonic_search::search::try_find_files(&files, "main");
    assert_eq!(found, Some(find_files(&files, "main")));
    assert_eq!(found.unwrap().len(), 2);

    let over = "x".repeat(MATCH_LIMIT + 1);
    assert_eq!(sonic_search::search::try_find_files(&files, &over), None);
    let long_named = vec![named(&over)];
    assert_eq!(sonic_search::search::try_find_files(&long_named, "x"), None);
}

#[test]
fn names_at_the_limit_are_matched() {
    let at_limit = "a".repeat(MATCH_LIMIT);
    let files = vec![named(&at_limit)];
    let found = find_files(&files, "aaa");
    assert_eq!(found.len(), 1);
    assert_eq!(found[0].name.len(), MATCH_LIMIT);
}

#[test]
fn scores_do_not_depend_on_earlier_calls() {
    // One matcher that has seen every earlier text gives the scores that the
    // library gets for each text on its own.
    let matcher = SkimMatcherV2::default();
    let alphabet = ['a', 'b', 'A', 'B', '_', '.', '/', '1', 'é'];
    let mut state: u64 = 99;
    let mut next = |limit: u64| {
        state = state.wrapping_mul(6364136223846793005).wrapping_add(1442695040888963407);
        (state >> 33) % limit
    };
    for _ in 0..400 {
        let name: String = (0..next(24)).map(|_| alphabet[next(9) as usize]).collect();
        let query: String = (0..next(5)).map(|_| alphabet[next(9) as usize]).collect();
        let expected: Vec<NameMatch> =
            matcher.fuzzy_match(&name, &query).map(|score| hit(&name, score)).into_iter().collect();
        assert_eq!(find_files(&vec![named(&name)], &query), expected, "{:?} for {:?}", name, query);
    }
}
