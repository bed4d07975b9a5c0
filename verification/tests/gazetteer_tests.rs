use std::sync::Arc;

use gazetteer::tree::{HashMapSearchTree, Match, MatchType, ResultSelection};

fn label_of(m: &Match) -> &str {
    m.match_label.as_str()
}

#[test]
fn tree_test_sample() {
    let mut tree = HashMapSearchTree::default();
    let an_example: String = "An example".to_string();
    let an_example_phrase: String = "An example phrase".to_string();
    let example: String = "Example".to_string();
    let entries: Vec<(String, String)> = vec![
        (an_example.clone(), "uri:example".to_string()),
        (an_example_phrase.clone(), "uri:phrase".to_string()),
        (example.clone(), "uri:single".to_string()),
    ];
    tree.load(entries.clone(), false, 0, 0, false, 0, 3);
    let tree = tree;

    let results = tree.search("An xyz", Some(3), None);
    assert!(results.is_empty());

    let results = tree.search(&an_example, Some(3), Some(&ResultSelection::Last));
    let results = results.first().unwrap();
    let results = &results.1;
    assert_eq!(results.len(), 1);
    assert_eq!(label_of(&results[0]), entries[0].1);

    let results = tree.search(&an_example_phrase, Some(3), Some(&ResultSelection::Last));
    let results = results.first().unwrap();
    let matches = &results.1;
    assert_eq!(matches.len(), 1);
    assert_eq!(label_of(&matches[0]), entries[1].1);

    let results = tree.search(&example, Some(3), None);
    let results = results.first().unwrap();
    let results = &results.1;
    assert_eq!(results.len(), 1);
    assert_eq!(label_of(&results[0]), entries[2].1);

    let results = tree.search(&an_example_phrase, Some(2), Some(&ResultSelection::Last));
    let results = results.first().unwrap();
    let matches = &results.1;
    assert_eq!(matches.len(), 1);
    assert_eq!(label_of(&matches[0]), entries[0].1);

    let results = tree.search(&an_example_phrase, Some(3), Some(&ResultSelection::All));
    let mut match_labels: Vec<String> = results
        .into_iter()
        .flat_map(|r| r.1)
        .map(|m| m.match_label.as_str().to_string())
        .collect();
    match_labels.sort();
    assert_eq!(match_labels.len(), 3);
    assert_eq!(match_labels, vec!["uri:example", "uri:phrase", "uri:single"]);
}

#[test]
fn test_skip_grams() {
    let mut tree = HashMapSearchTree::default();
    let entries: Vec<(String, String)> = vec![
        ("An example".to_string(), "uri:example".to_string()),
        ("An example phrase".to_string(), "uri:phrase".to_string()),
        ("Another example A".to_string(), "uri:other".to_string()),
    ];
    tree.load(entries.clone(), true, 2, 2, false, 0, 3);
    let tree = tree;

    let results = tree.search("An xyz", Some(3), None);
    assert!(results.is_empty());

    let results = tree.search("An A A xyz ", Some(3), None);
    assert!(results.is_empty());

    let results = tree.search(&entries[0].0, Some(3), Some(&ResultSelection::Last));
    let results = results.first().unwrap();
    let results = &results.1;
    assert_eq!(results.len(), 2);
    assert_eq!(label_of(&results[0]), entries[0].1);

    let results = tree.search(&entries[1].0, Some(3), Some(&ResultSelection::Last));
    let results = results.first().unwrap();
    let matches = &results.1;
    assert_eq!(matches.len(), 1);
    assert_eq!(label_of(&matches[0]), entries[1].1);

    let results = tree.search(&entries[1].0, Some(2), Some(&ResultSelection::Last));
    let results = results.first().unwrap();
    let matches = &results.1;
    assert_eq!(matches.len(), 2);
    assert_eq!(label_of(&matches[0]), entries[0].1);

    let results = tree.search(&entries[1].0, Some(3), Some(&ResultSelection::All));
    let mut match_labels: Vec<String> = results
        .into_iter()
        .flat_map(|r| r.1)
        .map(|m| m.match_label.as_str().to_string())
        .collect();
    match_labels.sort();
    assert_eq!(match_labels.len(), 3);
    assert_eq!(match_labels, vec!["uri:example", "uri:phrase", "uri:phrase"]);
}

#[test]
fn test_sanitize() {
    let mut tree = HashMapSearchTree::default();

    tree.insert(
        vec!["Puffinus".to_string()],
        Arc::new(String::from("Puffinus")),
        Arc::new(String::from("URI:short")),
        MatchType::Full,
    );
    tree.insert(
        vec!["p.".to_string(), "puffinus".to_string()],
        Arc::new(String::from("p. puffinus")),
        Arc::new(String::from("URI:abbrv")),
        MatchType::Full,
    );

    // The query is lower-cased and stripped of punctuation before probing,
    // so neither the cased key nor the dotted key can be reached.
    let result = tree.search(
        "ABC Puffinus p. puffinus X Y Z",
        Some(3),
        Some(&ResultSelection::Last),
    );
    assert!(result.is_empty());
}

#[test]
fn test_tree_test_sample() {
    let mut tree = HashMapSearchTree::default();
    for (s, uri) in vec![
        ("An example phrase", "uri:phrase"),
        ("An example", "uri:example"),
    ] {
        let s = String::from(s);
        let uri = String::from(uri);
        let v: Vec<String> = s.split(' ').map(String::from).collect();
        tree.insert(v, Arc::new(s), Arc::new(uri), MatchType::Full);
    }
    let window: Vec<String> = "An xyz".split(' ').map(String::from).collect();
    assert!(tree.traverse(&window).is_err());
    let window: Vec<String> = "An example".split(' ').map(String::from).collect();
    let hits = tree.traverse(&window).unwrap();
    assert_eq!(hits.len(), 1);
    assert_eq!(hits[0].get_search_term_string(), "An example");
    let window: Vec<String> = "An example phrase".split(' ').map(String::from).collect();
    let hits = tree.traverse(&window).unwrap();
    assert_eq!(hits.len(), 2);
    assert_eq!(hits[1].get_search_term_string(), "An example phrase");
}

#[test]
fn test_match_sort() {
    let mut mtches = vec![
        Match {
            match_type: MatchType::Abbreviated,
            match_string: Arc::new("1_FULL".to_string()),
            match_label: Arc::new("1_URI".to_string()),
        },
        Match {
            match_type: MatchType::Abbreviated,
            match_string: Arc::new("1_ABBRV".to_string()),
            match_label: Arc::new("2_URI".to_string()),
        },
        Match {
            match_type: MatchType::SkipGram,
            match_string: Arc::new("1_NGRAM".to_string()),
            match_label: Arc::new("3_URI".to_string()),
        },
        Match {
            match_type: MatchType::Full,
            match_string: Arc::new("1_FULL".to_string()),
            match_label: Arc::new("1_URI".to_string()),
        },
        Match {
            match_type: MatchType::NoMatch,
            match_string: Arc::new("_".to_string()),
            match_label: Arc::new("_".to_string()),
        },
    ];
    mtches.sort();
    let order: Vec<(MatchType, &str)> = mtches
        .iter()
        .map(|m| (m.match_type, m.match_string.as_str()))
        .collect();
    assert_eq!(
        order,
        vec![
            (MatchType::Full, "1_FULL"),
            (MatchType::Abbreviated, "1_ABBRV"),
            (MatchType::Abbreviated, "1_FULL"),
            (MatchType::SkipGram, "1_NGRAM"),
            (MatchType::NoMatch, "_"),
        ]
    );
}

#[test]
fn test_abbreviation() {
    let mut tree = HashMapSearchTree::default();
    let entries = vec![("Puffinus puffinus".to_string(), "uri:pp".to_string())];
    tree.load(entries, false, 0, 0, true, 0, 3);

    let results = tree.search("P. puffinus", None, None);
    let results = results.first().unwrap();
    let matches = &results.1;
    assert_eq!(matches.len(), 1);
    assert_eq!(matches[0].match_type, MatchType::Abbreviated);
    assert_eq!(label_of(&matches[0]), "uri:pp");
}

#[test]
fn test_abbreviation_index_bound() {
    // With the abbreviation index capped at 0, only the first token may be
    // shortened: a query abbreviating the second token finds nothing.
    let mut tree = HashMapSearchTree::default();
    let entries = vec![("Puffinus puffinus".to_string(), "uri:pp".to_string())];
    tree.load(entries, false, 0, 0, true, 0, 3);

    let results = tree.search("puffinus p", None, None);
    assert!(results.is_empty());
}

#[test]
fn test_abbreviation_suffix_bound() {
    // The suffix after the abbreviated token is one character, under the
    // configured minimum of 3: no variant may be produced.
    let mut tree = HashMapSearchTree::default();
    let entries = vec![("Puffinus A".to_string(), "uri:pa".to_string())];
    tree.load(entries, false, 0, 0, true, 0, 3);

    let results = tree.search("P. A", None, None);
    assert!(results.is_empty());
}

#[test]
fn test_insert_idempotent() {
    let mut tree = HashMapSearchTree::default();
    for _ in 0..2 {
        tree.insert(
            vec!["an".to_string(), "example".to_string()],
            Arc::new("An example".to_string()),
            Arc::new("uri:example".to_string()),
            MatchType::Full,
        );
    }
    assert_eq!(tree.search_map.len(), 1);
    assert_eq!(tree.search_map[0].1.len(), 1);
    let results = tree.search("an example", Some(2), None);
    assert_eq!(results.len(), 1);
    assert_eq!(results[0].1.len(), 1);
}

#[test]
fn test_last_prefer_full_restricts() {
    let mut tree = HashMapSearchTree::default();
    tree.load(
        vec![("An example".to_string(), "uri:example".to_string())],
        false,
        0,
        0,
        false,
        0,
        3,
    );
    tree.insert(
        vec!["an".to_string(), "example".to_string()],
        Arc::new("An example".to_string()),
        Arc::new("uri:example2".to_string()),
        MatchType::SkipGram,
    );

    let results = tree.search("An example", Some(2), Some(&ResultSelection::LastPreferFull));
    let results = results.first().unwrap();
    let matches = &results.1;
    assert_eq!(matches.len(), 1);
    assert_eq!(matches[0].match_type, MatchType::Full);
    assert_eq!(label_of(&matches[0]), "uri:example");

    // Under plain `Last` both records surface.
    let results = tree.search("An example", Some(2), Some(&ResultSelection::Last));
    assert_eq!(results.first().unwrap().1.len(), 2);
}

#[test]
fn test_dedupe_keeps_earlier_span() {
    let mut tree = HashMapSearchTree::default();
    tree.load(
        vec![
            ("An example".to_string(), "uri:example".to_string()),
            ("example".to_string(), "uri:single".to_string()),
        ],
        false,
        0,
        0,
        false,
        0,
        3,
    );

    // Both the two-token span and the nested one-token span end at offset
    // 10; the earlier window wins and the later span is dropped.
    let results = tree.search("An example", Some(2), Some(&ResultSelection::Last));
    assert_eq!(results.len(), 1);
    assert_eq!(results[0].0, "an example");
    assert_eq!(results[0].2, 0);
    assert_eq!(results[0].3, 10);
}

#[test]
fn test_span_offsets() {
    let text = "Some text about An example phrase here";
    let mut tree = HashMapSearchTree::default();
    tree.load(
        vec![("An example phrase".to_string(), "uri:phrase".to_string())],
        false,
        0,
        0,
        false,
        0,
        3,
    );
    let results = tree.search(text, None, None);
    assert_eq!(results.len(), 1);
    let (_, _, begin, end) = (
        &results[0].0,
        &results[0].1,
        results[0].2,
        results[0].3,
    );
    assert!(begin <= end && end <= text.chars().count());
    let covered: String = text.chars().skip(begin).take(end - begin).collect();
    assert_eq!(covered, "An example phrase");
}

#[test]
fn test_search_default_depth() {
    // With no explicit window size the longest inserted key is used.
    let mut tree = HashMapSearchTree::default();
    tree.load(
        vec![("An example phrase".to_string(), "uri:phrase".to_string())],
        false,
        0,
        0,
        false,
        0,
        3,
    );
    let results = tree.search("An example phrase", None, Some(&ResultSelection::Last));
    assert_eq!(results.len(), 1);
    assert_eq!(label_of(&results[0].1[0]), "uri:phrase");
}

#[test]
fn test_worker_count_invariance() {
    let mut tree = HashMapSearchTree::default();
    tree.load(
        vec![
            ("An example".to_string(), "uri:example".to_string()),
            ("An example phrase".to_string(), "uri:phrase".to_string()),
            ("Example".to_string(), "uri:single".to_string()),
        ],
        true,
        2,
        2,
        false,
        0,
        3,
    );
    let text = "There is An example phrase and another Example in this text";

    let one = rayon::ThreadPoolBuilder::new()
        .num_threads(1)
        .build()
        .unwrap()
        .install(|| tree.search(text, Some(3), Some(&ResultSelection::All)));
    let four = rayon::ThreadPoolBuilder::new()
        .num_threads(4)
        .build()
        .unwrap()
        .install(|| tree.search(text, Some(3), Some(&ResultSelection::All)));
    assert_eq!(one, four);
    assert!(!one.is_empty());
}
