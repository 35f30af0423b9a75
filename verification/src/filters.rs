//! Typed filters over the records of a store.

use crate::json::{filter_map_contents, filter_map_insert, new_filter_map, FilterMap, FilterValue, FilterValueView};
use crate::record::{AnalysisResult, AnalysisView};
use crate::store::{views, TempDatabase};
use crate::text::{chars_of, contains_char, single_char_text};
use vstd::prelude::*;

verus! {

/// One condition on a record.
#[derive(Debug, Clone, Copy, PartialEq, Eq)]
pub enum SearchFilter {
    IsPalindrome(bool),
    MinLength(usize),
    MaxLength(usize),
    WordCount(u32),
    ContainsCharacter(char),
}

/// The conditions of a request, each of them optional.
#[derive(Debug)]
pub struct StringQuery {
    pub is_palindrome: Option<bool>,
    pub min_length: Option<usize>,
    pub max_length: Option<usize>,
    pub word_count: Option<u32>,
    pub contains_character: Option<char>,
}

/// What a listing with filters gives back.
#[derive(Debug)]
pub enum FilterResponse {
    /// No record passes the filters.
    NoMatch,
    /// The records that pass, their number, and the filters as a JSON object.
    Matches { data: Vec<AnalysisResult>, count: usize, filters_applied: FilterMap },
}

/// The record meets the condition.
pub open spec fn passes(filter: SearchFilter, record: AnalysisView) -> bool {
    match filter {
        SearchFilter::IsPalindrome(wanted) => record.is_palindrome == wanted,
        SearchFilter::MinLength(least) => record.length >= least,
        SearchFilter::MaxLength(most) => record.length <= most,
        SearchFilter::WordCount(count) => record.word_count == count,
        SearchFilter::ContainsCharacter(c) => record.word.contains(c),
    }
}

/// The record meets every condition.
pub open spec fn passes_all(filters: Seq<SearchFilter>, record: AnalysisView) -> bool {
    forall|i: int| 0 <= i < filters.len() ==> passes(#[trigger] filters[i], record)
}

/// A test that records are held against.
pub trait RecordTest {
    /// The record passes the test.
    spec fn meets(&self, record: AnalysisView) -> bool;

    /// Holds one record against the test.
    fn test(&self, record: &AnalysisResult) -> (pass: bool)
        ensures
            pass == self.meets(record@),
    ;
}

/// A test as a predicate on records.
pub open spec fn meeting<T: RecordTest>(test: T) -> spec_fn(AnalysisView) -> bool {
    |record: AnalysisView| test.meets(record)
}

impl RecordTest for SearchFilter {
    open spec fn meets(&self, record: AnalysisView) -> bool {
        passes(*self, record)
    }

    fn test(&self, record: &AnalysisResult) -> (pass: bool) {
        record_passes(record, *self)
    }
}

/// The test of all conditions together.
pub open spec fn passing_all(filters: Seq<SearchFilter>) -> spec_fn(AnalysisView) -> bool {
    |record: AnalysisView| passes_all(filters, record)
}

/// The records that meet every condition, in their order.
pub open spec fn filtered(records: Seq<AnalysisView>, filters: Seq<SearchFilter>) -> Seq<
    AnalysisView,
> {
    records.filter(passing_all(filters))
}

/// The condition on palindromes that a request names, if any.
pub open spec fn palindrome_filter(query: StringQuery) -> Seq<SearchFilter> {
    match query.is_palindrome {
        Some(wanted) => seq![SearchFilter::IsPalindrome(wanted)],
        None => Seq::empty(),
    }
}

/// The least length that a request names, if any.
pub open spec fn min_length_filter(query: StringQuery) -> Seq<SearchFilter> {
    match query.min_length {
        Some(least) => seq![SearchFilter::MinLength(least)],
        None => Seq::empty(),
    }
}

/// The greatest length that a request names, if any.
pub open spec fn max_length_filter(query: StringQuery) -> Seq<SearchFilter> {
    match query.max_length {
        Some(most) => seq![SearchFilter::MaxLength(most)],
        None => Seq::empty(),
    }
}

/// The number of words that a request names, if any.
pub open spec fn word_count_filter(query: StringQuery) -> Seq<SearchFilter> {
    match query.word_count {
        Some(count) => seq![SearchFilter::WordCount(count)],
        None => Seq::empty(),
    }
}

/// The scalar value that a request names, if any.
pub open spec fn character_filter(query: StringQuery) -> Seq<SearchFilter> {
    match query.contains_character {
        Some(c) => seq![SearchFilter::ContainsCharacter(c)],
        None => Seq::empty(),
    }
}

/// The conditions that a request names, in the order of its fields.
pub open spec fn selected_filters(query: StringQuery) -> Seq<SearchFilter> {
    palindrome_filter(query) + min_length_filter(query) + max_length_filter(query)
        + word_count_filter(query) + character_filter(query)
}

/// The key under which a condition is written in a JSON object.
pub open spec fn filter_key(filter: SearchFilter) -> Seq<char> {
    match filter {
        SearchFilter::IsPalindrome(_) => "is_palindrome"@,
        SearchFilter::MinLength(_) => "min_length"@,
        SearchFilter::MaxLength(_) => "max_length"@,
        SearchFilter::WordCount(_) => "word_count"@,
        SearchFilter::ContainsCharacter(_) => "contains_character"@,
    }
}

/// The value as which a condition is written in a JSON object.
pub open spec fn filter_value(filter: SearchFilter) -> FilterValueView {
    match filter {
        SearchFilter::IsPalindrome(wanted) => FilterValueView::Flag(wanted),
        SearchFilter::MinLength(least) => FilterValueView::Number(least as u64),
        SearchFilter::MaxLength(most) => FilterValueView::Number(most as u64),
        SearchFilter::WordCount(count) => FilterValueView::Number(count as u64),
        SearchFilter::ContainsCharacter(c) => FilterValueView::Text(seq![c]),
    }
}

/// The JSON object of a sequence of conditions: each under its key, a later
/// condition in place of an earlier one of the same kind.
pub open spec fn filters_as_object(filters: Seq<SearchFilter>) -> Map<Seq<char>, FilterValueView>
    decreases filters.len(),
{
    if filters.len() == 0 {
        Map::empty()
    } else {
        filters_as_object(filters.drop_last()).insert(
            filter_key(filters.last()),
            filter_value(filters.last()),
        )
    }
}

/// Keeping what passes two tests, one after the other, keeps what passes both.
pub proof fn lemma_filter_narrow<A>(
    items: Seq<A>,
    first: spec_fn(A) -> bool,
    second: spec_fn(A) -> bool,
    both: spec_fn(A) -> bool,
)
    requires
        forall|item: A| #[trigger] both(item) == (first(item) && second(item)),
    ensures
        items.filter(first).filter(second) == items.filter(both),
    decreases items.len(),
{
    reveal(Seq::filter);
    if items.len() > 0 {
        let front = items.drop_last();
        lemma_filter_narrow(front, first, second, both);
        if first(items.last()) {
            assert(front.filter(first).push(items.last()).drop_last() =~= front.filter(first));
        }
    }
}

/// Two tests that agree on every item keep the same items.
pub proof fn lemma_filter_same<A>(items: Seq<A>, left: spec_fn(A) -> bool, right: spec_fn(A) -> bool)
    requires
        forall|i: int| 0 <= i < items.len() ==> left(#[trigger] items[i]) == right(items[i]),
    ensures
        items.filter(left) == items.filter(right),
    decreases items.len(),
{
    reveal(Seq::filter);
    if items.len() > 0 {
        let front = items.drop_last();
        assert forall|i: int| 0 <= i < front.len() implies left(#[trigger] front[i]) == right(
            front[i],
        ) by {
            assert(front[i] == items[i]);
        }
        lemma_filter_same(front, left, right);
        assert(items.last() == items[items.len() - 1]);
    }
}

/// A test that every item passes keeps all items.
pub proof fn lemma_filter_all<A>(items: Seq<A>, test: spec_fn(A) -> bool)
    requires
        forall|i: int| 0 <= i < items.len() ==> test(#[trigger] items[i]),
    ensures
        items.filter(test) == items,
    decreases items.len(),
{
    reveal(Seq::filter);
    if items.len() > 0 {
        let front = items.drop_last();
        assert forall|i: int| 0 <= i < front.len() implies test(#[trigger] front[i]) by {
            assert(front[i] == items[i]);
        }
        lemma_filter_all(front, test);
        assert(items.last() == items[items.len() - 1]);
        assert(front.push(items.last()) =~= items);
    }
}

/// The condition that a record holds `c`.
fn containing(c: char) -> (filter: SearchFilter)
    ensures
        filter == SearchFilter::ContainsCharacter(c),
{
    SearchFilter::ContainsCharacter(c)
}

/// The conditions of a request as a list.
pub fn extract_filters_from_query(query: &StringQuery) -> (filters: Vec<SearchFilter>)
    ensures
        filters@ == selected_filters(*query),
{
    let mut filters: Vec<SearchFilter> = Vec::new();
    let ghost palindrome = palindrome_filter(*query);
    let ghost least = min_length_filter(*query);
    let ghost most = max_length_filter(*query);
    let ghost words = word_count_filter(*query);
    let ghost character = character_filter(*query);
    if let Some(is_palindrome) = query.is_palindrome {
        filters.push(SearchFilter::IsPalindrome(is_palindrome));
    }
    assert(filters@ =~= palindrome);
    if let Some(min_length) = query.min_length {
        filters.push(SearchFilter::MinLength(min_length));
    }
    assert(filters@ =~= palindrome + least);
    if let Some(max_length) = query.max_length {
        filters.push(SearchFilter::MaxLength(max_length));
    }
    assert(filters@ =~= palindrome + least + most);
    if let Some(word_count) = query.word_count {
        filters.push(SearchFilter::WordCount(word_count));
    }
    assert(filters@ =~= palindrome + least + most + words);
    if let Some(contains_character) = query.contains_character {
        filters.push(containing(contains_character));
    }
    assert(filters@ =~= palindrome + least + most + words + character);
    filters
}

/// Tests one record against one condition.
pub fn record_passes(record: &AnalysisResult, filter: SearchFilter) -> (pass: bool)
    ensures
        pass == passes(filter, record@),
{
    match filter {
        SearchFilter::IsPalindrome(wanted) => record.is_palindrome == wanted,
        SearchFilter::MinLength(least) => record.length >= least,
        SearchFilter::MaxLength(most) => record.length <= most,
        SearchFilter::WordCount(count) => record.word_count == count as usize,
        SearchFilter::ContainsCharacter(c) => {
            let chars = chars_of(record.word.as_str());
            contains_char(&chars, c)
        },
    }
}

/// One narrowing pass: the records that pass the test, in their order.
pub fn keep_meeting<T: RecordTest>(records: &Vec<AnalysisResult>, test: &T) -> (kept: Vec<
    AnalysisResult,
>)
    ensures
        views(kept@) == views(records@).filter(meeting(*test)),
{
    let mut kept: Vec<AnalysisResult> = Vec::new();
    let mut i: usize = 0;
    proof {
        reveal(Seq::filter);
        assert(views(records@).take(0) =~= Seq::empty());
        assert(views(kept@) =~= Seq::empty());
    }
    while i < records.len()
        invariant
            i <= records.len(),
            views(kept@) == views(records@).take(i as int).filter(meeting(*test)),
        decreases records.len() - i,
    {
        proof {
            reveal(Seq::filter);
            assert(views(records@).take(i + 1).drop_last() =~= views(records@).take(i as int));
            assert(views(records@).take(i + 1).last() == records@[i as int]@);
        }
        if test.test(&records[i]) {
            let copy = records[i].clone();
            assert(views(kept@.push(copy)) =~= views(kept@).push(copy@));
            kept.push(copy);
        }
        i += 1;
    }
    assert(views(records@).take(records@.len() as int) =~= views(records@));
    kept
}

/// The records of the store that meet every condition, found by one
/// narrowing pass for each condition, in the order of the conditions.
pub fn apply_filters(db: &TempDatabase, filters: Vec<SearchFilter>) -> (results: Vec<AnalysisResult>)
    ensures
        views(results@) == filtered(db@, filters@),
{
    let mut results = db.all_records();
    let mut i: usize = 0;
    proof {
        lemma_filter_all(db@, passing_all(filters@.take(0)));
    }
    while i < filters.len()
        invariant
            i <= filters.len(),
            views(results@) == filtered(db@, filters@.take(i as int)),
        decreases filters.len() - i,
    {
        let filter = filters[i];
        let narrowed = keep_meeting(&results, &filter);
        proof {
            let before = filters@.take(i as int);
            let after = filters@.take(i + 1);
            assert forall|record: AnalysisView| #[trigger]
                passing_all(after)(record) == (passing_all(before)(record) && meeting(filter)(
                    record,
                )) by {
                if passes_all(after, record) {
                    assert(after[i as int] == filter);
                    assert forall|j: int| 0 <= j < before.len() implies passes(
                        #[trigger] before[j],
                        record,
                    ) by {
                        assert(before[j] == after[j]);
                    }
                }
                if passes_all(before, record) && passes(filter, record) {
                    assert forall|j: int| 0 <= j < after.len() implies passes(
                        #[trigger] after[j],
                        record,
                    ) by {
                        if j < i {
                            assert(after[j] == before[j]);
                        }
                    }
                }
            }
            lemma_filter_narrow(db@, passing_all(before), meeting(filter), passing_all(after));
        }
        results = narrowed;
        i += 1;
    }
    assert(filters@.take(filters@.len() as int) =~= filters@);
    results
}

/// Lists the records of the store that meet the conditions of a request, and
/// the conditions themselves.
pub fn get_strings_filtered(db: &TempDatabase, query: &StringQuery) -> (listing: (
    Vec<AnalysisResult>,
    Vec<SearchFilter>,
))
    ensures
        listing.1@ == selected_filters(*query),
        views(listing.0@) == filtered(db@, selected_filters(*query)),
{
    let selected_filters = extract_filters_from_query(query);
    let filtered_results = apply_filters(db, selected_filters.clone());
    (filtered_results, selected_filters)
}

/// Writes conditions as a JSON object.
pub fn enum_to_string(filters: &Vec<SearchFilter>) -> (object: FilterMap)
    ensures
        filter_map_contents(object) == filters_as_object(filters@),
{
    let mut object = new_filter_map();
    let mut i: usize = 0;
    assert(filters@.take(0) =~= Seq::empty());
    while i < filters.len()
        invariant
            i <= filters.len(),
            filter_map_contents(object) == filters_as_object(filters@.take(i as int)),
        decreases filters.len() - i,
    {
        assert(filters@.take(i + 1).drop_last() =~= filters@.take(i as int));
        match filters[i] {
            SearchFilter::IsPalindrome(value) => {
                filter_map_insert(&mut object, "is_palindrome", FilterValue::Flag(value));
            },
            SearchFilter::MinLength(min) => {
                filter_map_insert(&mut object, "min_length", FilterValue::Number(min as u64));
            },
            SearchFilter::MaxLength(max) => {
                filter_map_insert(&mut object, "max_length", FilterValue::Number(max as u64));
            },
            SearchFilter::WordCount(count) => {
                filter_map_insert(&mut object, "word_count", FilterValue::Number(count as u64));
            },
            SearchFilter::ContainsCharacter(c) => {
                filter_map_insert(
                    &mut object,
                    "contains_character",
                    FilterValue::Text(single_char_text(c)),
                );
            },
        }
        i += 1;
    }
    assert(filters@.take(filters@.len() as int) =~= filters@);
    object
}

/// Decides what a listing answers: nothing where no record passed, else the
/// records with their number and the filters that were applied.
pub fn process_filter_response(results: Vec<AnalysisResult>, filters: Vec<SearchFilter>) -> (response:
    FilterResponse)
    ensures
        results@.len() == 0 ==> response is NoMatch,
        results@.len() > 0 ==> (response matches FilterResponse::Matches {
            data,
            count,
            filters_applied,
        } && data == results && count == results@.len() && filter_map_contents(filters_applied)
            == filters_as_object(filters@)),
{
    if results.len() == 0 {
        return FilterResponse::NoMatch;
    }
    let filters_applied = enum_to_string(&filters);
    let count = results.len();
    FilterResponse::Matches { data: results, count, filters_applied }
}

/// Without conditions every record is listed.
pub proof fn lemma_no_filters_keep_all(records: Seq<AnalysisView>)
    ensures
        filtered(records, Seq::empty()) == records,
{
    lemma_filter_all(records, passing_all(Seq::empty()));
}

/// Conditions compose as an intersection: filtering by one list and then by
/// another is filtering by both lists at once.
pub proof fn lemma_filters_compose(
    records: Seq<AnalysisView>,
    first: Seq<SearchFilter>,
    second: Seq<SearchFilter>,
)
    ensures
        filtered(filtered(records, first), second) == filtered(records, first + second),
{
    let joined = first + second;
    assert forall|record: AnalysisView| #[trigger]
        passing_all(joined)(record) == (passing_all(first)(record) && passing_all(second)(
            record,
        )) by {
        if passes_all(joined, record) {
            assert forall|j: int| 0 <= j < first.len() implies passes(
                #[trigger] first[j],
                record,
            ) by {
                assert(first[j] == joined[j]);
            }
            assert forall|j: int| 0 <= j < second.len() implies passes(
                #[trigger] second[j],
                record,
            ) by {
                assert(second[j] == joined[first.len() + j]);
            }
        }
        if passes_all(first, record) && passes_all(second, record) {
            assert forall|j: int| 0 <= j < joined.len() implies passes(
                #[trigger] joined[j],
                record,
            ) by {
                if j < first.len() {
                    assert(joined[j] == first[j]);
                } else {
                    assert(joined[j] == second[j - first.len()]);
                }
            }
        }
    }
    lemma_filter_narrow(records, passing_all(first), passing_all(second), passing_all(joined));
}

/// A least length and a greatest length of the same value keep exactly the
/// records of that length.
pub proof fn lemma_min_then_max_is_exact_length(records: Seq<AnalysisView>, length: usize)
    ensures
        filtered(
            records,
            seq![SearchFilter::MinLength(length), SearchFilter::MaxLength(length)],
        ) == records.filter(|record: AnalysisView| record.length == length),
{
    let filters = seq![SearchFilter::MinLength(length), SearchFilter::MaxLength(length)];
    let exact = |record: AnalysisView| record.length == length;
    assert forall|i: int| 0 <= i < records.len() implies passing_all(filters)(
        #[trigger] records[i],
    ) == exact(records[i]) by {
        let record = records[i];
        if passes_all(filters, record) {
            assert(passes(filters[0], record));
            assert(passes(filters[1], record));
        }
    }
    lemma_filter_same(records, passing_all(filters), exact);
}

} // verus!
