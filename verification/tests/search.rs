use app_search::engine::RESULT_LIMIT;
use app_search::engine::rehydrate;
use app_search::engine::search;
use app_search::index::build_index;
use app_search::items::App;
use app_search::items::SearchResultItem;
use app_search::query::query;

fn app(name: &str) -> App {
    App { name: name.to_string(), icon: format!("{name}.icns"), path: format!("/Applications/{name}.app") }
}

fn names_of(results: &[SearchResultItem]) -> Vec<String> {
    results
        .iter()
        .map(|r| match r {
            SearchResultItem::App(a) => a.name.clone(),
        })
        .collect()
}

#[test]
fn scenario_calculator() {
    let apps = vec![app("Safari"), app("Terminal"), app("Calculator")];
    let results = search(&apps, "cal");
    assert_eq!(names_of(&results), vec!["Calculator".to_string()]);

    let index = build_index(&apps);
    let pairs = query(&index, "cal", RESULT_LIMIT);
    assert_eq!(pairs.len(), 1);
    assert_eq!(pairs[0].0, 2);
    assert!(pairs[0].1 > 0);
}

#[test]
fn scenario_duplicate_names() {
    let apps = vec![app("Notes"), app("Safari"), app("Notes")];
    let results = search(&apps, "not");
    // both items named "Notes" match, in original list order, and each
    // rehydrates to the first record bearing that name
    assert_eq!(results.len(), 2);
    for r in &results {
        let SearchResultItem::App(a) = r;
        assert_eq!(a.name, "Notes");
        assert_eq!(a.path, apps[0].path);
    }
}

#[test]
fn scenario_nine_character_keyword() {
    // the keyword is a substring of a long name, but nine characters wide:
    // no token of that width was ever indexed
    let apps = vec![app("Terminallauncher")];
    assert!(apps[0].name.to_lowercase().contains("terminall"));
    let results = search(&apps, "terminall");
    assert!(results.is_empty());
}

#[test]
fn empty_keyword_returns_nothing() {
    let apps = vec![app("Safari"), app("Terminal")];
    assert!(search(&apps, "").is_empty());
}

#[test]
fn overlong_keyword_returns_nothing() {
    let apps = vec![app("Calculator")];
    assert!(search(&apps, "calculato").is_empty());
    assert!(search(&apps, "calculator").is_empty());
    // the widest indexed token still matches
    assert_eq!(search(&apps, "calculat").len(), 1);
}

#[test]
fn case_folding_applies_to_keyword_and_names() {
    let apps = vec![app("Safari")];
    assert_eq!(names_of(&search(&apps, "SAF")), vec!["Safari".to_string()]);
    assert_eq!(names_of(&search(&apps, "saf")), vec!["Safari".to_string()]);
    assert_eq!(names_of(&search(&apps, "aFA")), vec!["Safari".to_string()]);
}

#[test]
fn unicode_names_fold() {
    let apps = vec![app("CAFÉ")];
    assert_eq!(search(&apps, "café").len(), 1);
    assert_eq!(search(&apps, "afé").len(), 1);
    assert!(search(&apps, "afe").is_empty());
}

#[test]
fn ranking_by_frequency_then_first_seen() {
    // "xy" holds one "x", "xx" holds two: higher frequency ranks first
    let apps = vec![app("xy"), app("xx")];
    let results = search(&apps, "x");
    assert_eq!(names_of(&results), vec!["xx".to_string(), "xy".to_string()]);

    // equal frequency: first-seen order is kept
    let apps = vec![app("Notebook"), app("Notes")];
    let results = search(&apps, "not");
    assert_eq!(names_of(&results), vec!["Notebook".to_string(), "Notes".to_string()]);
}

#[test]
fn limit_truncates_after_ranking() {
    // six matching items but the default limit is five
    let apps = vec![app("a1"), app("a2"), app("a3"), app("a4"), app("a5"), app("a6")];
    let results = search(&apps, "a");
    assert_eq!(results.len(), RESULT_LIMIT);

    // the top of the full candidate set survives, not an arbitrary prefix:
    // "aaa" ranks first on frequency even though it stands last in the list
    let index = build_index(&vec![app("ab"), app("cd"), app("aa"), app("aaa")]);
    let pairs = query(&index, "a", 2);
    assert_eq!(pairs, vec![(3, 3), (2, 2)]);
}

#[test]
fn repeated_searches_agree() {
    let apps = vec![app("Safari"), app("Terminal"), app("Calculator")];
    let first = search(&apps, "a");
    let second = search(&apps, "a");
    assert_eq!(first, second);
    assert!(!first.is_empty());
}

#[test]
fn empty_names_contribute_no_tokens() {
    let apps = vec![app(""), app("a")];
    let results = search(&apps, "a");
    assert_eq!(results.len(), 1);
    let SearchResultItem::App(a) = &results[0];
    assert_eq!(a.name, "a");
}

#[test]
fn index_records_frequencies_and_positions() {
    let apps = vec![app("aba")];
    let index = build_index(&apps);
    let mut seen = Vec::new();
    for posting in &index.postings {
        let token: String = posting.token.iter().collect();
        assert_eq!(posting.entries.len(), 1);
        let entry = &posting.entries[0];
        assert_eq!(entry.item, 0);
        assert_eq!(entry.freq, entry.positions.len());
        seen.push((token, entry.positions.clone()));
    }
    seen.sort();
    let expected: Vec<(String, Vec<usize>)> = vec![
        ("a".to_string(), vec![0, 2]),
        ("ab".to_string(), vec![0]),
        ("aba".to_string(), vec![0]),
        ("b".to_string(), vec![1]),
        ("ba".to_string(), vec![1]),
    ];
    assert_eq!(seen, expected);
}

#[test]
fn rehydrate_returns_first_match() {
    let apps = vec![app("Notes"), app("Safari"), app("Notes")];
    let hit = rehydrate(&apps, &"Notes".to_string());
    assert_eq!(hit, Some(apps[0].clone()));
    let miss = rehydrate(&apps, &"Missing".to_string());
    assert_eq!(miss, None);
}

#[test]
fn every_indexed_substring_matches_its_item() {
    let apps = vec![app("Finder")];
    let folded = "finder";
    for width in 1..=folded.len() {
        for start in 0..=(folded.len() - width) {
            let sub = &folded[start..start + width];
            let results = search(&apps, sub);
            assert_eq!(names_of(&results), vec!["Finder".to_string()], "substring {sub:?}");
        }
    }
}
