use string_analyzer::config::Config;
use string_analyzer::record::analyse_string;
use string_analyzer::store::{
    delete_string, get_string_details, pre_analysis_check, process_string,
    ProcessStringError, TempDatabase,
};

fn submit(db: &mut TempDatabase, text: &str, time: &str) {
    assert!(process_string(db, text.to_string(), time.to_string()).is_ok());
}

#[test]
fn a_new_store_is_empty() {
    let db = TempDatabase::new();
    assert_eq!(db.len(), 0);
    assert!(db.all_records().is_empty());
}

#[test]
fn init_gives_an_empty_store_at_the_address() {
    let config = Config::init("8080".to_string(), "localhost".to_string());
    assert_eq!(config.port, "8080");
    assert_eq!(config.url, "localhost");
    assert_eq!(config.db.len(), 0);
}

#[test]
fn submitting_adds_the_analysis() {
    let mut db = TempDatabase::new();
    let outcome = process_string(&mut db, "racecar".to_string(), "t1".to_string());
    let expected = analyse_string("racecar".to_string(), "t1".to_string());
    assert_eq!(outcome, Ok(expected.clone()));
    assert_eq!(db.len(), 1);
    assert_eq!(db.all_records(), vec![expected]);
}

#[test]
fn lookup_after_submit_gives_the_text() {
    let mut db = TempDatabase::new();
    submit(&mut db, "hello world", "t1");
    submit(&mut db, "racecar", "t2");
    let found = get_string_details(&db, &"racecar".to_string());
    match found {
        Ok(record) => {
            assert_eq!(record.word, "racecar");
            assert_eq!(record.created_at, "t2");
        },
        Err(error) => panic!("{:?}", error),
    }
}

#[test]
fn second_submit_is_refused_with_the_first_record() {
    let mut db = TempDatabase::new();
    let first = process_string(&mut db, "racecar".to_string(), "first".to_string());
    let first = match first {
        Ok(record) => record,
        Err(error) => panic!("{:?}", error),
    };
    let second = process_string(&mut db, "racecar".to_string(), "second".to_string());
    assert_eq!(second, Err(ProcessStringError::Found(first.clone())));
    match second {
        Err(ProcessStringError::Found(existing)) => assert_eq!(existing.created_at, "first"),
        other => panic!("{:?}", other),
    }
    assert_eq!(db.len(), 1);
    assert_eq!(db.all_records(), vec![first]);
}

#[test]
fn submit_after_delete_is_accepted_again() {
    let mut db = TempDatabase::new();
    submit(&mut db, "racecar", "first");
    assert_eq!(delete_string(&mut db, &"racecar".to_string()), Ok(()));
    assert_eq!(db.len(), 0);
    let again = process_string(&mut db, "racecar".to_string(), "third".to_string());
    match again {
        Ok(record) => assert_eq!(record.created_at, "third"),
        Err(error) => panic!("{:?}", error),
    }
    assert_eq!(db.len(), 1);
}

#[test]
fn lookup_after_delete_finds_nothing() {
    let mut db = TempDatabase::new();
    submit(&mut db, "racecar", "t1");
    submit(&mut db, "level", "t2");
    assert_eq!(delete_string(&mut db, &"racecar".to_string()), Ok(()));
    assert_eq!(
        get_string_details(&db, &"racecar".to_string()),
        Err(ProcessStringError::NotFound)
    );
    assert!(get_string_details(&db, &"level".to_string()).is_ok());
}

#[test]
fn delete_keeps_the_order_of_the_others() {
    let mut db = TempDatabase::new();
    submit(&mut db, "one", "t1");
    submit(&mut db, "two", "t2");
    submit(&mut db, "three", "t3");
    assert_eq!(delete_string(&mut db, &"two".to_string()), Ok(()));
    let words: Vec<String> = db.all_records().into_iter().map(|record| record.word).collect();
    assert_eq!(words, vec!["one".to_string(), "three".to_string()]);
}

#[test]
fn delete_of_an_unknown_text_is_not_found() {
    let mut db = TempDatabase::new();
    submit(&mut db, "racecar", "t1");
    assert_eq!(
        delete_string(&mut db, &"level".to_string()),
        Err(ProcessStringError::NotFound)
    );
    assert_eq!(db.len(), 1);
}

#[test]
fn lookup_of_an_unknown_text_is_not_found() {
    let db = TempDatabase::new();
    assert_eq!(
        get_string_details(&db, &"racecar".to_string()),
        Err(ProcessStringError::NotFound)
    );
}

#[test]
fn the_empty_text_is_rejected_everywhere() {
    let mut db = TempDatabase::new();
    submit(&mut db, "racecar", "t1");
    assert_eq!(
        process_string(&mut db, String::new(), "t2".to_string()),
        Err(ProcessStringError::EmptyInput)
    );
    assert_eq!(get_string_details(&db, &String::new()), Err(ProcessStringError::EmptyInput));
    assert_eq!(delete_string(&mut db, &String::new()), Err(ProcessStringError::EmptyInput));
    assert_eq!(pre_analysis_check(&String::new(), &db), ProcessStringError::EmptyInput);
    assert_eq!(db.len(), 1);
}

#[test]
fn pre_analysis_check_tells_the_three_cases() {
    let mut db = TempDatabase::new();
    submit(&mut db, "racecar", "t1");
    assert_eq!(pre_analysis_check(&"level".to_string(), &db), ProcessStringError::NotFound);
    assert_eq!(
        pre_analysis_check(&"racecar".to_string(), &db),
        ProcessStringError::Found(analyse_string("racecar".to_string(), "t1".to_string()))
    );
    assert_eq!(pre_analysis_check(&String::new(), &db), ProcessStringError::EmptyInput);
}

#[test]
fn texts_that_differ_in_case_are_different_texts() {
    let mut db = TempDatabase::new();
    submit(&mut db, "Racecar", "t1");
    submit(&mut db, "racecar", "t2");
    assert_eq!(db.len(), 2);
}

#[test]
fn all_records_is_a_copy() {
    let mut db = TempDatabase::new();
    submit(&mut db, "one", "t1");
    let before = db.all_records();
    submit(&mut db, "two", "t2");
    assert_eq!(before.len(), 1);
    assert_eq!(db.all_records().len(), 2);
}

#[test]
fn submit_delete_submit_leaves_one_record_at_the_end() {
    let mut db = TempDatabase::new();
    submit(&mut db, "one", "t1");
    submit(&mut db, "racecar", "t2");
    submit(&mut db, "two", "t3");
    assert_eq!(delete_string(&mut db, &"racecar".to_string()), Ok(()));
    submit(&mut db, "racecar", "t4");
    let records = db.all_records();
    let places: Vec<usize> = records
        .iter()
        .enumerate()
        .filter(|(_, record)| record.word == "racecar")
        .map(|(place, _)| place)
        .collect();
    assert_eq!(places, vec![2]);
    assert_eq!(records[2].created_at, "t4");
}

#[test]
fn every_stored_record_is_the_analysis_of_its_text() {
    let mut db = TempDatabase::new();
    submit(&mut db, "hello world", "t1");
    submit(&mut db, "level", "t2");
    for record in db.all_records() {
        assert_eq!(record, analyse_string(record.word.clone(), record.created_at.clone()));
    }
}
