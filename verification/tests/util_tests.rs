use gazetteer::api::{response_records, Request};
use gazetteer::tree::{HashMapSearchTree, ResultSelection};
use gazetteer::util::{
    filter_entries, parse_corpus, parse_optional, split_with_indices, CorpusError, CorpusFormat,
    RobustCorpusFormat, Tokenizer,
};

fn default_format() -> CorpusFormat {
    CorpusFormat {
        comment: None,
        delimiter: None,
        double_quote: None,
        flexible: None,
        has_header: None,
        quote: None,
        quoting: None,
        skip_lines: None,
        search_term_column_idx: None,
        label_column_idx: None,
        label_format_string: None,
        label_format_pattern: None,
    }
}

#[test]
fn test_tokenizer_normalizes() {
    let tokenizer = Tokenizer::default();
    let (tokens, offsets) = tokenizer.tokenize("An Example-Sentence.");
    assert_eq!(tokens, vec!["an", "example", "sentence"]);
    assert_eq!(offsets, vec![(0, 2), (3, 10), (11, 19)]);
}

#[test]
fn test_parse_corpus_basic() {
    let content = "An example\turi:example\nAn example phrase\turi:phrase\n";
    let rows = parse_corpus(content, &default_format()).unwrap();
    assert_eq!(
        rows,
        vec![
            ("An example".to_string(), "uri:example".to_string()),
            ("An example phrase".to_string(), "uri:phrase".to_string()),
        ]
    );
}

#[test]
fn test_parse_corpus_options() {
    let content = "meta line\n# a comment\nuri:x;Thing\n";
    let mut format = default_format();
    format.skip_lines = Some(1);
    format.delimiter = Some(";".to_string());
    format.search_term_column_idx = Some(1);
    format.label_column_idx = Some(0);
    format.label_format_string = Some("https://example.org/{}".to_string());
    let rows = parse_corpus(content, &format).unwrap();
    assert_eq!(
        rows,
        vec![("Thing".to_string(), "https://example.org/uri:x".to_string())]
    );
}

#[test]
fn test_parse_corpus_config_error() {
    let mut format = default_format();
    format.label_format_string = Some("no pattern here".to_string());
    let err = parse_corpus("a\tb\n", &format).unwrap_err();
    assert_eq!(err, CorpusError::ConfigError);

    let mut format = default_format();
    format.delimiter = Some("".to_string());
    let err = parse_corpus("a\tb\n", &format).unwrap_err();
    assert_eq!(err, CorpusError::ConfigError);
}

#[test]
fn test_parse_corpus_parse_error() {
    // A row without the configured label column cannot be mapped.
    let content = "a\tb\nc\td\te\nf\n";
    let err = parse_corpus(content, &default_format()).unwrap_err();
    assert_eq!(err, CorpusError::ParseError);
}

#[test]
fn test_robust_format_defaults() {
    let rf = RobustCorpusFormat::try_from(&default_format()).unwrap();
    assert_eq!(rf.comment, Some(b'#'));
    assert_eq!(rf.delimiter, b'\t');
    assert_eq!(rf.quote, b'"');
    assert!(!rf.double_quote && !rf.flexible && !rf.has_header);
    assert!(rf.quoting);
    assert_eq!(rf.skip_lines, 0);
    assert_eq!(rf.search_term_column_idx, 0);
    assert_eq!(rf.label_column_idx, 1);
    assert_eq!(rf.label_format_pattern, "{}");
}

#[test]
fn test_filter_entries() {
    let entries = vec![
        ("Example".to_string(), "uri:example".to_string()),
        ("Kept".to_string(), "uri:kept".to_string()),
    ];
    let filtered = filter_entries(entries.clone(), &Some(vec!["EXAMPLE".to_string()]));
    assert_eq!(filtered, vec![("Kept".to_string(), "uri:kept".to_string())]);

    let unfiltered = filter_entries(entries.clone(), &None);
    assert_eq!(unfiltered, entries);

    let unfiltered = filter_entries(entries.clone(), &Some(vec![]));
    assert_eq!(unfiltered, entries);
}

#[test]
fn test_parse_optional() {
    assert_eq!(parse_optional(&None), None);
    assert_eq!(parse_optional(&Some("42".to_string())), Some(42));
    assert_eq!(parse_optional(&Some("+7".to_string())), Some(7));
    assert_eq!(parse_optional(&Some("".to_string())), None);
    assert_eq!(parse_optional(&Some("x12".to_string())), None);
    assert_eq!(parse_optional(&Some("12 ".to_string())), None);
    assert_eq!(
        parse_optional(&Some("99999999999999999999999999".to_string())),
        None
    );
}

#[test]
fn test_split_with_indices() {
    let (slices, offsets) = split_with_indices("An example-sentence.");
    assert_eq!(slices, vec!["An", "example", "sentence"]);
    assert_eq!(offsets, vec![(0, 3), (3, 11), (11, 20)]);
}

#[test]
fn test_request_new() {
    let r = Request::new("Some text".to_string());
    assert_eq!(r.text, "Some text");
    assert!(r.max_len.is_none());
    assert!(r.result_selection.is_none());
}

#[test]
fn test_response_records() {
    let mut tree = HashMapSearchTree::default();
    tree.load(
        vec![
            ("An example".to_string(), "uri:example".to_string()),
            ("An example".to_string(), "uri:example2".to_string()),
        ],
        false,
        0,
        0,
        false,
        0,
        3,
    );
    let results = tree.search("An example", Some(2), Some(&ResultSelection::Last));
    let records = response_records(&results);
    assert_eq!(records.len(), 1);
    let rec = &records[0];
    assert_eq!(rec.string, "an example");
    assert_eq!(rec.match_strings, "An example");
    assert_eq!(rec.match_types, "Full");
    assert_eq!(rec.match_labels, "uri:example uri:example2");
    assert_eq!(rec.begin, 0);
    assert_eq!(rec.end, 10);
}
