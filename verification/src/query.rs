//! Queries in free text: two stages that turn a text into filters, and the
//! listing of the records that the filters admit.

use crate::filters::{
    keep_meeting, lemma_filter_all, lemma_filter_narrow, lemma_filter_same, meeting, RecordTest,
};
use crate::json::{
    filter_map_contents, filter_map_entries, filter_map_insert, filter_map_is_empty,
    lists_contents, new_filter_map, FilterMap, FilterValue, FilterValueView,
};
use crate::record::{AnalysisResult, AnalysisView};
use crate::store::{views, TempDatabase};
use crate::text::{
    chars_of, contains, contains_text, lowercase_of, parse_unsigned, parse_unsigned_word,
    same_text, single_char_text, split_whitespace, split_words, texts, to_lowercase,
};
use vstd::prelude::*;

verus! {

/// Why a query in free text gives no listing.
#[derive(Debug, Clone, Copy, PartialEq, Eq)]
pub enum QueryError {
    /// No filter could be read from the text.
    Unrecognized,
}

/// The letter at `index` of the alphabet, `a` at 0.
pub open spec fn letter(index: int) -> char {
    (97 + index) as char
}

/// The text names the letter in one of the fixed ways.
pub open spec fn names_letter(lower: Seq<char>, c: char) -> bool {
    ||| contains_text(lower, "strings that contain the letter "@.push(c))
    ||| contains_text(lower, "the letter "@.push(c))
    ||| contains_text(lower, "the vowel "@.push(c))
    ||| contains_text(lower, "the consonant "@.push(c))
}

/// The last of the first `count` letters of the alphabet that the text names.
pub open spec fn last_named_letter(lower: Seq<char>, count: int) -> Option<char>
    decreases count,
{
    if count <= 0 {
        None
    } else if names_letter(lower, letter(count - 1)) {
        Some(letter(count - 1))
    } else {
        last_named_letter(lower, count - 1)
    }
}

/// The filters that a named letter gives.
pub open spec fn letter_object(named: Option<char>) -> Map<Seq<char>, FilterValueView> {
    match named {
        Some(c) => Map::empty().insert("contains_character"@, FilterValueView::Text(seq![c])),
        None => Map::empty(),
    }
}

/// The first stage: the named letter, and over it the first of four fixed
/// phrases that the text holds. A text with neither gives nothing.
pub open spec fn first_stage(lower: Seq<char>) -> Option<Map<Seq<char>, FilterValueView>> {
    let named = letter_object(last_named_letter(lower, 26));
    if contains_text(lower, "all single word palindromic strings"@) {
        Some(
            named.insert("is_palindrome"@, FilterValueView::Flag(true)).insert(
                "word_count"@,
                FilterValueView::Number(1),
            ),
        )
    } else if contains_text(lower, "strings longer than 10 characters"@) {
        Some(named.insert("min_length"@, FilterValueView::Number(11)))
    } else if contains_text(lower, "palindromic strings that contain the first vowel"@) {
        Some(
            named.insert("is_palindrome"@, FilterValueView::Flag(true)).insert(
                "contains_character"@,
                FilterValueView::Text(seq!['a']),
            ),
        )
    } else if contains_text(lower, "palindromic strings that contain the last vowel"@) {
        Some(
            named.insert("is_palindrome"@, FilterValueView::Flag(true)).insert(
                "contains_character"@,
                FilterValueView::Text(seq!['u']),
            ),
        )
    } else if last_named_letter(lower, 26) is Some {
        Some(named)
    } else {
        None
    }
}

/// The number of the first word that is a number.
pub open spec fn first_number(words: Seq<Seq<char>>) -> Option<usize>
    decreases words.len(),
{
    if words.len() == 0 {
        None
    } else {
        match parse_unsigned(words[0]) {
            Some(number) => Some(number),
            None => first_number(words.drop_first()),
        }
    }
}

/// The first scalar value of a word, a space for the empty word.
pub open spec fn initial(word: Seq<char>) -> char {
    if word.len() > 0 {
        word[0]
    } else {
        ' '
    }
}

/// The initial of the word that follows the first word `letter`, at or
/// after `from`, that has a word after it.
pub open spec fn letter_after(words: Seq<Seq<char>>, from: int) -> Option<char>
    decreases words.len() - from,
{
    if from < 0 || from + 1 >= words.len() {
        None
    } else if words[from] == "letter"@ {
        Some(initial(words[from + 1]))
    } else {
        letter_after(words, from + 1)
    }
}

/// One more than `number`, or the greatest `u64` where there is none.
pub open spec fn above(number: usize) -> u64 {
    if number < u64::MAX {
        (number + 1) as u64
    } else {
        u64::MAX
    }
}

/// One less than `number`, or 0 where there is none.
pub open spec fn below(number: usize) -> u64 {
    if number > 0 {
        (number - 1) as u64
    } else {
        0
    }
}

/// The second stage's rule on palindromes.
pub open spec fn with_palindrome(
    lower: Seq<char>,
    filters: Map<Seq<char>, FilterValueView>,
) -> Map<Seq<char>, FilterValueView> {
    if contains_text(lower, "palindrom"@) {
        filters.insert("is_palindrome"@, FilterValueView::Flag(true))
    } else {
        filters
    }
}

/// The second stage's rule on lengths: `longer than` before `shorter than`,
/// each with the first number among the words, if there is one. A text longer
/// than `n` has at least `above(n)` scalar values, one shorter than `n` at
/// most `below(n)`.
pub open spec fn with_length(
    lower: Seq<char>,
    filters: Map<Seq<char>, FilterValueView>,
) -> Map<Seq<char>, FilterValueView> {
    if contains_text(lower, "longer than"@) {
        match first_number(split_words(lower)) {
            Some(number) => filters.insert("min_length"@, FilterValueView::Number(above(number))),
            None => filters,
        }
    } else if contains_text(lower, "shorter than"@) {
        match first_number(split_words(lower)) {
            Some(number) => filters.insert("max_length"@, FilterValueView::Number(below(number))),
            None => filters,
        }
    } else {
        filters
    }
}

/// The second stage's rule on the number of words.
pub open spec fn with_word_count(
    lower: Seq<char>,
    filters: Map<Seq<char>, FilterValueView>,
) -> Map<Seq<char>, FilterValueView> {
    if contains_text(lower, "single word"@) || contains_text(lower, "one word"@) {
        filters.insert("word_count"@, FilterValueView::Number(1))
    } else if contains_text(lower, "two words"@) || contains_text(lower, "double word"@) {
        filters.insert("word_count"@, FilterValueView::Number(2))
    } else {
        filters
    }
}

/// The second stage's rule on a scalar value: the initial of the word after
/// the word `letter`, whatever it is; else the first vowel, the last vowel, a
/// vowel, the first consonant.
pub open spec fn with_character(
    lower: Seq<char>,
    filters: Map<Seq<char>, FilterValueView>,
) -> Map<Seq<char>, FilterValueView> {
    match letter_after(split_words(lower), 0) {
        Some(c) => filters.insert("contains_character"@, FilterValueView::Text(seq![c])),
        None => if contains_text(lower, "first vowel"@) {
            filters.insert("contains_character"@, FilterValueView::Text(seq!['a']))
        } else if contains_text(lower, "last vowel"@) {
            filters.insert("contains_character"@, FilterValueView::Text(seq!['u']))
        } else if contains_text(lower, "vowel"@) {
            filters.insert("contains_character"@, FilterValueView::Text(seq!['a']))
        } else if contains_text(lower, "first consonant"@) {
            filters.insert("contains_character"@, FilterValueView::Text(seq!['b']))
        } else {
            filters
        },
    }
}

/// The second stage: four rules, each adding to what the rules before it
/// gave. It may give no filter at all.
pub open spec fn second_stage(lower: Seq<char>) -> Map<Seq<char>, FilterValueView> {
    with_character(
        lower,
        with_word_count(lower, with_length(lower, with_palindrome(lower, Map::empty()))),
    )
}

/// The filters of a query in lowercase: those of the first stage, and where
/// it gives none, those of the second.
pub open spec fn resolved(lower: Seq<char>) -> Map<Seq<char>, FilterValueView> {
    match first_stage(lower) {
        Some(filters) => filters,
        None => second_stage(lower),
    }
}

/// The filters of a query: those of its lowercase form.
pub open spec fn translated(query: Seq<char>) -> Map<Seq<char>, FilterValueView> {
    resolved(lowercase_of(query))
}

/// The entry is one that filters by: a known key with a value of its kind.
pub open spec fn counts(key: Seq<char>, value: FilterValueView) -> bool {
    if key == "is_palindrome"@ {
        value is Flag
    } else if key == "min_length"@ || key == "max_length"@ || key == "word_count"@ {
        value is Number
    } else if key == "contains_character"@ {
        value is Text
    } else {
        false
    }
}

/// The entry admits the record. An entry that does not count admits every
/// record.
pub open spec fn admits(key: Seq<char>, value: FilterValueView, record: AnalysisView) -> bool {
    if key == "is_palindrome"@ {
        value matches FilterValueView::Flag(wanted) ==> record.is_palindrome == wanted
    } else if key == "min_length"@ {
        value matches FilterValueView::Number(least) ==> record.length >= least
    } else if key == "max_length"@ {
        value matches FilterValueView::Number(most) ==> record.length <= most
    } else if key == "word_count"@ {
        value matches FilterValueView::Number(count) ==> record.word_count == count
    } else if key == "contains_character"@ {
        value matches FilterValueView::Text(part) ==> contains_text(record.word, part)
    } else {
        true
    }
}

impl RecordTest for (String, FilterValue) {
    open spec fn meets(&self, record: AnalysisView) -> bool {
        admits(self.0@, self.1@, record)
    }

    fn test(&self, record: &AnalysisResult) -> (pass: bool) {
        entry_admits(&self.0, &self.1, record)
    }
}

/// The test of all entries of an object together.
pub open spec fn admitting(contents: Map<Seq<char>, FilterValueView>) -> spec_fn(
    AnalysisView,
) -> bool {
    |record: AnalysisView|
        forall|key: Seq<char>| #[trigger]
            contents.contains_key(key) ==> admits(key, contents[key], record)
}

/// Some entry of the object counts.
pub open spec fn any_counts(contents: Map<Seq<char>, FilterValueView>) -> bool {
    exists|key: Seq<char>| #[trigger] contents.contains_key(key) && counts(key, contents[key])
}

/// The listing for an object of filters: the records that every entry
/// admits, in their order; none where no entry counts.
pub open spec fn listing(
    records: Seq<AnalysisView>,
    contents: Map<Seq<char>, FilterValueView>,
) -> Option<Seq<AnalysisView>> {
    if any_counts(contents) {
        Some(records.filter(admitting(contents)))
    } else {
        None
    }
}

/// The test of the first `count` entries of a list together.
pub open spec fn admitting_first(entries: Seq<(String, FilterValue)>, count: int) -> spec_fn(
    AnalysisView,
) -> bool {
    |record: AnalysisView|
        forall|j: int|
            0 <= j < count ==> admits((#[trigger] entries[j]).0@, entries[j].1@, record)
}

/// The text names the letter in one of the fixed ways.
fn text_names_letter(text: &Vec<char>, c: char) -> (named: bool)
    ensures
        named == names_letter(text@, c),
{
    let mut pattern = chars_of("strings that contain the letter ");
    pattern.push(c);
    if contains(text, &pattern) {
        return true;
    }
    let mut pattern = chars_of("the letter ");
    pattern.push(c);
    if contains(text, &pattern) {
        return true;
    }
    let mut pattern = chars_of("the vowel ");
    pattern.push(c);
    if contains(text, &pattern) {
        return true;
    }
    let mut pattern = chars_of("the consonant ");
    pattern.push(c);
    contains(text, &pattern)
}

/// The text holds the phrase.
fn holds_phrase(text: &Vec<char>, phrase: &str) -> (held: bool)
    ensures
        held == contains_text(text@, phrase@),
{
    let pattern = chars_of(phrase);
    contains(text, &pattern)
}

/// The first stage on a query that is in lowercase already.
pub fn first_stage_filters(lower: &str) -> (outcome: Result<FilterMap, QueryError>)
    ensures
        match outcome {
            Ok(filters) => first_stage(lower@) == Some(filter_map_contents(filters)),
            Err(_) => first_stage(lower@) is None,
        },
{
    let text = chars_of(lower);
    let mut filters = new_filter_map();
    let mut index: u8 = 0;
    while index < 26
        invariant
            index <= 26,
            filter_map_contents(filters) == letter_object(
                last_named_letter(text@, index as int),
            ),
        decreases 26 - index,
    {
        let c = (97 + index) as char;
        if text_names_letter(&text, c) {
            filter_map_insert(&mut filters, "contains_character", FilterValue::Text(single_char_text(c)));
            assert(filter_map_contents(filters) =~= letter_object(Some(c)));
        }
        index += 1;
    }
    let ghost named = last_named_letter(text@, 26);
    if holds_phrase(&text, "all single word palindromic strings") {
        filter_map_insert(&mut filters, "is_palindrome", FilterValue::Flag(true));
        filter_map_insert(&mut filters, "word_count", FilterValue::Number(1));
        Ok(filters)
    } else if holds_phrase(&text, "strings longer than 10 characters") {
        filter_map_insert(&mut filters, "min_length", FilterValue::Number(11));
        Ok(filters)
    } else if holds_phrase(&text, "palindromic strings that contain the first vowel") {
        filter_map_insert(&mut filters, "is_palindrome", FilterValue::Flag(true));
        filter_map_insert(&mut filters, "contains_character", FilterValue::Text(single_char_text('a')));
        Ok(filters)
    } else if holds_phrase(&text, "palindromic strings that contain the last vowel") {
        filter_map_insert(&mut filters, "is_palindrome", FilterValue::Flag(true));
        filter_map_insert(&mut filters, "contains_character", FilterValue::Text(single_char_text('u')));
        Ok(filters)
    } else {
        if filter_map_is_empty(&filters) {
            proof {
                if named is Some {
                    assert(filter_map_contents(filters).contains_key("contains_character"@));
                }
            }
            Err(QueryError::Unrecognized)
        } else {
            Ok(filters)
        }
    }
}

/// The first stage of reading a query: fixed phrases only, looked for in the
/// query's lowercase form.
pub fn first_stage_process(query: &str) -> (outcome: Result<FilterMap, QueryError>)
    ensures
        match outcome {
            Ok(filters) => first_stage(lowercase_of(query@)) == Some(filter_map_contents(filters)),
            Err(_) => first_stage(lowercase_of(query@)) is None,
        },
{
    let lower = to_lowercase(query);
    first_stage_filters(lower.as_str())
}

/// The number of the first word that is a number.
pub fn extract_number(words: &[&str]) -> (number: Option<usize>)
    ensures
        number == first_number(texts(words@)),
{
    let mut i: usize = 0;
    assert(texts(words@).skip(0) =~= texts(words@));
    while i < words.len()
        invariant
            i <= words.len(),
            first_number(texts(words@)) == first_number(texts(words@).skip(i as int)),
        decreases words.len() - i,
    {
        let ghost rest = texts(words@).skip(i as int);
        assert(rest[0] == words@[i as int]@);
        assert(rest.drop_first() =~= texts(words@).skip(i + 1));
        if let Some(number) = parse_unsigned_word(words[i]) {
            return Some(number);
        }
        i += 1;
    }
    None
}

/// The initial of the word after the first word `letter` that has a word
/// after it.
pub fn extract_letter(words: &[&str]) -> (found: Option<char>)
    ensures
        found == letter_after(texts(words@), 0),
{
    let mut i: usize = 0;
    while i < words.len()
        invariant
            i <= words.len(),
            letter_after(texts(words@), 0) == letter_after(texts(words@), i as int),
        decreases words.len() - i,
    {
        if i + 1 >= words.len() {
            return None;
        }
        assert(texts(words@)[i as int] == words@[i as int]@);
        assert(texts(words@)[i + 1] == words@[i + 1]@);
        if same_text(words[i], "letter") {
            let next = chars_of(words[i + 1]);
            let c = if next.len() > 0 {
                next[0]
            } else {
                ' '
            };
            return Some(c);
        }
        i += 1;
    }
    None
}

/// The second stage on a query that is in lowercase already.
pub fn second_stage_filters(lower: &str) -> (filters: FilterMap)
    ensures
        filter_map_contents(filters) == second_stage(lower@),
{
    let text = chars_of(lower);
    let words = split_whitespace(lower);
    let mut filters = new_filter_map();

    if holds_phrase(&text, "palindrom") {
        filter_map_insert(&mut filters, "is_palindrome", FilterValue::Flag(true));
    }
    if holds_phrase(&text, "longer than") {
        if let Some(num) = extract_number(words.as_slice()) {
            let least: u64 = if (num as u64) < u64::MAX {
                num as u64 + 1
            } else {
                u64::MAX
            };
            filter_map_insert(&mut filters, "min_length", FilterValue::Number(least));
        }
    } else if holds_phrase(&text, "shorter than") {
        if let Some(num) = extract_number(words.as_slice()) {
            let most: u64 = if num > 0 {
                (num - 1) as u64
            } else {
                0
            };
            filter_map_insert(&mut filters, "max_length", FilterValue::Number(most));
        }
    }
    if holds_phrase(&text, "single word") || holds_phrase(&text, "one word") {
        filter_map_insert(&mut filters, "word_count", FilterValue::Number(1));
    } else if holds_phrase(&text, "two words") || holds_phrase(&text, "double word") {
        filter_map_insert(&mut filters, "word_count", FilterValue::Number(2));
    }
    if let Some(letter) = extract_letter(words.as_slice()) {
        filter_map_insert(&mut filters, "contains_character", FilterValue::Text(single_char_text(letter)));
    } else if holds_phrase(&text, "first vowel") {
        filter_map_insert(&mut filters, "contains_character", FilterValue::Text(single_char_text('a')));
    } else if holds_phrase(&text, "last vowel") {
        filter_map_insert(&mut filters, "contains_character", FilterValue::Text(single_char_text('u')));
    } else if holds_phrase(&text, "vowel") {
        filter_map_insert(&mut filters, "contains_character", FilterValue::Text(single_char_text('a')));
    } else if holds_phrase(&text, "first consonant") {
        filter_map_insert(&mut filters, "contains_character", FilterValue::Text(single_char_text('b')));
    }
    filters
}

/// The second stage of reading a query: rules on parts of phrases and on
/// single words of the query's lowercase form. It always gives an object,
/// which may be empty.
pub fn parse_natural_language_query(query: &str) -> (outcome: Result<FilterMap, QueryError>)
    ensures
        outcome matches Ok(filters) && filter_map_contents(filters) == second_stage(
            lowercase_of(query@),
        ),
{
    let lower = to_lowercase(query);
    Ok(second_stage_filters(lower.as_str()))
}

/// Tells whether an entry is one that filters by.
fn entry_counts(key: &String, value: &FilterValue) -> (counted: bool)
    ensures
        counted == counts(key@, value@),
{
    if same_text(key.as_str(), "is_palindrome") {
        match value {
            FilterValue::Flag(_) => true,
            _ => false,
        }
    } else if same_text(key.as_str(), "min_length") || same_text(key.as_str(), "max_length")
        || same_text(key.as_str(), "word_count") {
        match value {
            FilterValue::Number(_) => true,
            _ => false,
        }
    } else if same_text(key.as_str(), "contains_character") {
        match value {
            FilterValue::Text(_) => true,
            _ => false,
        }
    } else {
        false
    }
}

/// Tests one record against one entry.
fn entry_admits(key: &String, value: &FilterValue, record: &AnalysisResult) -> (admitted: bool)
    ensures
        admitted == admits(key@, value@, record@),
{
    if same_text(key.as_str(), "is_palindrome") {
        match value {
            FilterValue::Flag(wanted) => record.is_palindrome == *wanted,
            _ => true,
        }
    } else if same_text(key.as_str(), "min_length") {
        match value {
            FilterValue::Number(least) => record.length as u64 >= *least,
            _ => true,
        }
    } else if same_text(key.as_str(), "max_length") {
        match value {
            FilterValue::Number(most) => record.length as u64 <= *most,
            _ => true,
        }
    } else if same_text(key.as_str(), "word_count") {
        match value {
            FilterValue::Number(count) => record.word_count as u64 == *count,
            _ => true,
        }
    } else if same_text(key.as_str(), "contains_character") {
        match value {
            FilterValue::Text(part) => {
                let word = chars_of(record.word.as_str());
                let pattern = chars_of(part.as_str());
                contains(&word, &pattern)
            },
            _ => true,
        }
    } else {
        true
    }
}

/// An entry that does not count admits every record.
proof fn lemma_uncounted_admits_all(key: Seq<char>, value: FilterValueView, record: AnalysisView)
    requires
        !counts(key, value),
    ensures
        admits(key, value, record),
{
}

/// Lists the records of the store that every filter of the object admits,
/// by one narrowing pass for each entry that counts. Without such an entry
/// there is no listing.
pub fn filter_database_res_based_on_query(db: &TempDatabase, filters: &FilterMap) -> (results:
    Option<Vec<AnalysisResult>>)
    ensures
        match results {
            Some(records) => listing(db@, filter_map_contents(*filters)) == Some(views(records@)),
            None => listing(db@, filter_map_contents(*filters)) is None,
        },
{
    let entries = filter_map_entries(filters);
    let ghost contents = filter_map_contents(*filters);
    let mut all_results = db.all_records();
    let mut applied_filters_count: usize = 0;
    let mut i: usize = 0;
    proof {
        lemma_filter_all(db@, admitting_first(entries@, 0));
    }
    while i < entries.len()
        invariant
            i <= entries.len(),
            applied_filters_count <= i,
            views(all_results@) == db@.filter(admitting_first(entries@, i as int)),
            applied_filters_count > 0 <==> exists|j: int|
                0 <= j < i && counts((#[trigger] entries@[j]).0@, entries@[j].1@),
        decreases entries.len() - i,
    {
        let ghost key = entries@[i as int].0@;
        let ghost value = entries@[i as int].1@;
        let ghost before = admitting_first(entries@, i as int);
        let ghost after = admitting_first(entries@, i + 1);
        proof {
            assert forall|record: AnalysisView| #[trigger]
                after(record) == (before(record) && meeting(entries@[i as int])(record)) by {
                if after(record) {
                    assert(admits(entries@[i as int].0@, entries@[i as int].1@, record));
                }
            }
        }
        if entry_counts(&entries[i].0, &entries[i].1) {
            let narrowed = keep_meeting(&all_results, &entries[i]);
            proof {
                lemma_filter_narrow(db@, before, meeting(entries@[i as int]), after);
            }
            all_results = narrowed;
            applied_filters_count += 1;
        } else {
            proof {
                assert forall|k: int| 0 <= k < db@.len() implies before(#[trigger] db@[k])
                    == after(db@[k]) by {
                    lemma_uncounted_admits_all(key, value, db@[k]);
                }
                lemma_filter_same(db@, before, after);
            }
        }
        i += 1;
    }
    proof {
        let whole = admitting_first(entries@, entries@.len() as int);
        assert forall|k: int| 0 <= k < db@.len() implies whole(#[trigger] db@[k]) == admitting(
            contents,
        )(db@[k]) by {
            let record = db@[k];
            if whole(record) {
                assert forall|name: Seq<char>| #[trigger]
                    contents.contains_key(name) implies admits(name, contents[name], record) by {
                    let j = choose|j: int|
                        0 <= j < entries@.len() && (#[trigger] entries@[j]).0@ == name;
                    assert(contents.contains_pair(entries@[j].0@, entries@[j].1@));
                    assert(admits(entries@[j].0@, entries@[j].1@, record));
                }
            }
            if admitting(contents)(record) {
                assert forall|j: int| 0 <= j < entries@.len() implies admits(
                    (#[trigger] entries@[j]).0@,
                    entries@[j].1@,
                    record,
                ) by {
                    assert(contents.contains_pair(entries@[j].0@, entries@[j].1@));
                    assert(contents.contains_key(entries@[j].0@));
                }
            }
        }
        lemma_filter_same(db@, whole, admitting(contents));
        if applied_filters_count > 0 {
            let j = choose|j: int|
                0 <= j < entries@.len() && counts((#[trigger] entries@[j]).0@, entries@[j].1@);
            assert(contents.contains_pair(entries@[j].0@, entries@[j].1@));
            assert(contents.contains_key(entries@[j].0@));
        } else {
            if any_counts(contents) {
                let name = choose|name: Seq<char>| #[trigger]
                    contents.contains_key(name) && counts(name, contents[name]);
                let j = choose|j: int|
                    0 <= j < entries@.len() && (#[trigger] entries@[j]).0@ == name;
                assert(contents.contains_pair(entries@[j].0@, entries@[j].1@));
                assert(counts(entries@[j].0@, entries@[j].1@));
            }
        }
    }
    if applied_filters_count == 0 {
        None
    } else {
        Some(all_results)
    }
}

/// Answers a query that is in lowercase already: the filters that the two
/// stages read from it, and the records of the store that they admit. A
/// query from which no filter that counts can be read is not recognized.
pub fn filter_by_lowercase_query(db: &TempDatabase, lower: &str) -> (outcome: Result<
    (Vec<AnalysisResult>, FilterMap),
    QueryError,
>)
    ensures
        match outcome {
            Ok(answer) => filter_map_contents(answer.1) == resolved(lower@) && listing(
                db@,
                resolved(lower@),
            ) == Some(views(answer.0@)),
            Err(_) => listing(db@, resolved(lower@)) is None,
        },
{
    let parsed_filters = match first_stage_filters(lower) {
        Ok(filters) => filters,
        Err(_) => second_stage_filters(lower),
    };
    match filter_database_res_based_on_query(db, &parsed_filters) {
        Some(results) => Ok((results, parsed_filters)),
        None => Err(QueryError::Unrecognized),
    }
}

/// Answers a query in free text: the filters that the two stages read from
/// its lowercase form, and the records of the store that they admit. A query
/// from which no filter that counts can be read is not recognized.
pub fn filter_by_natural_language(db: &TempDatabase, query: &str) -> (outcome: Result<
    (Vec<AnalysisResult>, FilterMap),
    QueryError,
>)
    ensures
        match outcome {
            Ok(answer) => filter_map_contents(answer.1) == translated(query@) && listing(
                db@,
                translated(query@),
            ) == Some(views(answer.0@)),
            Err(_) => listing(db@, translated(query@)) is None,
        },
{
    let lower = to_lowercase(query);
    filter_by_lowercase_query(db, lower.as_str())
}

} // verus!
