use serde_json::Value;
use string_analyzer::filters::{
    apply_filters, enum_to_string, extract_filters_from_query, get_strings_filtered,
    process_filter_response, record_passes, FilterResponse, SearchFilter, StringQuery,
};
use string_analyzer::record::analyse_string;
use string_analyzer::store::{process_string, TempDatabase};

fn store() -> TempDatabase {
    let mut db = TempDatabase::new();
    for text in ["racecar", "hello world", "level", "a", "never odd or even", "abcde"] {
        assert!(process_string(&mut db, text.to_string(), "t".to_string()).is_ok());
    }
    db
}

fn words(db: &TempDatabase, filters: Vec<SearchFilter>) -> Vec<String> {
    apply_filters(db, filters).into_iter().map(|record| record.word).collect()
}

fn no_conditions() -> StringQuery {
    StringQuery {
        is_palindrome: None,
        min_length: None,
        max_length: None,
        word_count: None,
        contains_character: None,
    }
}

#[test]
fn without_filters_every_record_is_listed() {
    let db = store();
    assert_eq!(apply_filters(&db, Vec::new()), db.all_records());
}

#[test]
fn min_then_max_of_five_is_exactly_five() {
    let db = store();
    let listed = words(&db, vec![SearchFilter::MinLength(5), SearchFilter::MaxLength(5)]);
    assert_eq!(listed, vec!["level".to_string(), "abcde".to_string()]);
    let swapped = words(&db, vec![SearchFilter::MaxLength(5), SearchFilter::MinLength(5)]);
    assert_eq!(swapped, listed);
}

#[test]
fn each_filter_tests_its_field() {
    let db = store();
    assert_eq!(
        words(&db, vec![SearchFilter::IsPalindrome(true)]),
        vec!["racecar".to_string(), "level".to_string(), "a".to_string()]
    );
    assert_eq!(
        words(&db, vec![SearchFilter::IsPalindrome(false)]),
        vec!["hello world".to_string(), "never odd or even".to_string(), "abcde".to_string()]
    );
    assert_eq!(
        words(&db, vec![SearchFilter::MinLength(11)]),
        vec!["hello world".to_string(), "never odd or even".to_string()]
    );
    assert_eq!(words(&db, vec![SearchFilter::MaxLength(1)]), vec!["a".to_string()]);
    assert_eq!(words(&db, vec![SearchFilter::WordCount(2)]), vec!["hello world".to_string()]);
    assert_eq!(
        words(&db, vec![SearchFilter::WordCount(4)]),
        vec!["never odd or even".to_string()]
    );
    assert_eq!(
        words(&db, vec![SearchFilter::ContainsCharacter('v')]),
        vec!["level".to_string(), "never odd or even".to_string()]
    );
    assert_eq!(words(&db, vec![SearchFilter::ContainsCharacter('z')]), Vec::<String>::new());
}

#[test]
fn filters_compose_as_an_intersection() {
    let db = store();
    let listed = words(
        &db,
        vec![SearchFilter::IsPalindrome(true), SearchFilter::ContainsCharacter('e')],
    );
    assert_eq!(listed, vec!["racecar".to_string(), "level".to_string()]);
    let narrowed = words(
        &db,
        vec![
            SearchFilter::IsPalindrome(true),
            SearchFilter::ContainsCharacter('e'),
            SearchFilter::MinLength(6),
        ],
    );
    assert_eq!(narrowed, vec!["racecar".to_string()]);
}

#[test]
fn record_passes_one_condition() {
    let record = analyse_string("hello world".to_string(), "t".to_string());
    assert!(record_passes(&record, SearchFilter::MinLength(11)));
    assert!(!record_passes(&record, SearchFilter::MinLength(12)));
    assert!(record_passes(&record, SearchFilter::MaxLength(11)));
    assert!(!record_passes(&record, SearchFilter::MaxLength(10)));
    assert!(record_passes(&record, SearchFilter::WordCount(2)));
    assert!(!record_passes(&record, SearchFilter::WordCount(1)));
    assert!(record_passes(&record, SearchFilter::ContainsCharacter(' ')));
    assert!(!record_passes(&record, SearchFilter::ContainsCharacter('H')));
    assert!(record_passes(&record, SearchFilter::IsPalindrome(false)));
}

#[test]
fn a_request_names_its_filters_in_the_order_of_its_fields() {
    let query = StringQuery {
        is_palindrome: Some(true),
        min_length: Some(3),
        max_length: Some(9),
        word_count: Some(1),
        contains_character: Some('c'),
    };
    assert_eq!(
        extract_filters_from_query(&query),
        vec![
            SearchFilter::IsPalindrome(true),
            SearchFilter::MinLength(3),
            SearchFilter::MaxLength(9),
            SearchFilter::WordCount(1),
            SearchFilter::ContainsCharacter('c'),
        ]
    );
    assert_eq!(extract_filters_from_query(&no_conditions()), Vec::new());
    let partial = StringQuery { max_length: Some(4), contains_character: Some('x'), ..no_conditions() };
    assert_eq!(
        extract_filters_from_query(&partial),
        vec![SearchFilter::MaxLength(4), SearchFilter::ContainsCharacter('x')]
    );
}

#[test]
fn a_request_lists_what_passes_its_filters() {
    let db = store();
    let query = StringQuery { is_palindrome: Some(true), min_length: Some(5), ..no_conditions() };
    let (records, filters) = get_strings_filtered(&db, &query);
    let listed: Vec<String> = records.into_iter().map(|record| record.word).collect();
    assert_eq!(listed, vec!["racecar".to_string(), "level".to_string()]);
    assert_eq!(filters, vec![SearchFilter::IsPalindrome(true), SearchFilter::MinLength(5)]);
    let (all, none) = get_strings_filtered(&db, &no_conditions());
    assert_eq!(all.len(), 6);
    assert!(none.is_empty());
}

#[test]
fn filters_are_written_as_a_json_object() {
    let object = enum_to_string(&vec![
        SearchFilter::IsPalindrome(true),
        SearchFilter::MinLength(3),
        SearchFilter::MaxLength(9),
        SearchFilter::WordCount(2),
        SearchFilter::ContainsCharacter('c'),
    ]);
    let mut expected = serde_json::Map::new();
    expected.insert("is_palindrome".to_string(), Value::Bool(true));
    expected.insert("min_length".to_string(), Value::from(3u64));
    expected.insert("max_length".to_string(), Value::from(9u64));
    expected.insert("word_count".to_string(), Value::from(2u64));
    expected.insert("contains_character".to_string(), Value::String("c".to_string()));
    assert_eq!(object, expected);
    assert!(enum_to_string(&Vec::new()).is_empty());
}

#[test]
fn a_later_filter_of_a_kind_replaces_an_earlier_one() {
    let object = enum_to_string(&vec![SearchFilter::MinLength(3), SearchFilter::MinLength(7)]);
    assert_eq!(object.len(), 1);
    assert_eq!(object.get("min_length"), Some(&Value::from(7u64)));
}

#[test]
fn a_listing_without_records_answers_no_match() {
    let response = process_filter_response(Vec::new(), vec![SearchFilter::MinLength(100)]);
    assert!(matches!(response, FilterResponse::NoMatch));
}

#[test]
fn a_listing_with_records_answers_them_with_their_number() {
    let db = store();
    let filters = vec![SearchFilter::WordCount(2)];
    let results = apply_filters(&db, filters.clone());
    match process_filter_response(results.clone(), filters) {
        FilterResponse::Matches { data, count, filters_applied } => {
            assert_eq!(data, results);
            assert_eq!(count, 1);
            assert_eq!(filters_applied.get("word_count"), Some(&Value::from(2u64)));
            assert_eq!(filters_applied.len(), 1);
        },
        FilterResponse::NoMatch => panic!("records were listed"),
    }
}
