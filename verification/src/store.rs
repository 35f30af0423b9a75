//! The store of analyses, keyed by content hash, and its operations.

use crate::digest::{content_hash, hash_text};
use crate::record::{analyse_string, analysis_of, AnalysisResult, AnalysisView};
use vstd::prelude::*;

verus! {

/// The records of a store, in the order in which they were added. No two of
/// them have the same content hash.
pub struct TempDatabase {
    processed_strings_hash: Vec<String>,
    processed_results: Vec<AnalysisResult>,
}

/// Why a text cannot be served, or what the store holds of it.
#[derive(Debug, PartialEq, Eq)]
pub enum ProcessStringError {
    /// The text has no scalar value.
    EmptyInput,
    /// The store holds no record with the text's content hash.
    NotFound,
    /// The store holds this record with the text's content hash.
    Found(AnalysisResult),
}

/// The mathematical form of a `ProcessStringError`.
pub enum CheckView {
    EmptyInput,
    NotFound,
    Found(AnalysisView),
}

impl View for ProcessStringError {
    type V = CheckView;

    open spec fn view(&self) -> CheckView {
        match self {
            ProcessStringError::EmptyInput => CheckView::EmptyInput,
            ProcessStringError::NotFound => CheckView::NotFound,
            ProcessStringError::Found(record) => CheckView::Found(record@),
        }
    }
}

/// The mathematical forms of a sequence of records.
pub open spec fn views(records: Seq<AnalysisResult>) -> Seq<AnalysisView> {
    records.map_values(|record: AnalysisResult| record@)
}

/// The mathematical form of what an operation gives back.
pub open spec fn outcome_view<T>(outcome: Result<T, ProcessStringError>) -> Result<
    T,
    CheckView,
> {
    match outcome {
        Ok(value) => Ok(value),
        Err(error) => Err(error@),
    }
}

/// The mathematical form of a record or an error.
pub open spec fn record_outcome_view(outcome: Result<AnalysisResult, ProcessStringError>) -> Result<
    AnalysisView,
    CheckView,
> {
    match outcome {
        Ok(record) => Ok(record@),
        Err(error) => Err(error@),
    }
}

/// No two records have the same content hash.
pub open spec fn distinct_hashes(records: Seq<AnalysisView>) -> bool {
    forall|i: int, j: int|
        0 <= i < j < records.len() ==> (#[trigger] records[i]).sha256_hash != (
        #[trigger] records[j]).sha256_hash
}

/// The record is the analysis of its own text, made at its own time.
pub open spec fn is_analysis(record: AnalysisView) -> bool {
    record == analysis_of(record.word, record.created_at)
}

/// What holds of the records of every store: each is the analysis of its
/// text, and no two have the same content hash.
pub open spec fn well_kept(records: Seq<AnalysisView>) -> bool {
    &&& forall|i: int| 0 <= i < records.len() ==> is_analysis(#[trigger] records[i])
    &&& distinct_hashes(records)
}

/// The record at `index` is the first with the content hash `hash`.
pub open spec fn is_first_with_hash(records: Seq<AnalysisView>, hash: Seq<char>, index: int) -> bool {
    &&& 0 <= index < records.len()
    &&& records[index].sha256_hash == hash
    &&& forall|j: int| 0 <= j < index ==> (#[trigger] records[j]).sha256_hash != hash
}

/// The place of the first record with the content hash `hash`, if there is one.
pub open spec fn find_by_hash(records: Seq<AnalysisView>, hash: Seq<char>) -> Option<int> {
    if exists|index: int| is_first_with_hash(records, hash, index) {
        Some(choose|index: int| is_first_with_hash(records, hash, index))
    } else {
        None
    }
}

/// What the store says of a text: that it is empty, or the record with its
/// content hash, or that there is none.
pub open spec fn check_of(text: Seq<char>, records: Seq<AnalysisView>) -> CheckView {
    if text.len() == 0 {
        CheckView::EmptyInput
    } else {
        match find_by_hash(records, content_hash(text)) {
            Some(index) => CheckView::Found(records[index]),
            None => CheckView::NotFound,
        }
    }
}

/// Submitting a text at the time `created_at`: a text that is not empty and
/// whose content hash the store does not hold is analysed and added at the
/// end; any other text leaves the store as it is.
pub open spec fn submitted(records: Seq<AnalysisView>, text: Seq<char>, created_at: Seq<char>) -> (
    Seq<AnalysisView>,
    Result<AnalysisView, CheckView>,
) {
    match check_of(text, records) {
        CheckView::NotFound => (
            records.push(analysis_of(text, created_at)),
            Ok(analysis_of(text, created_at)),
        ),
        other => (records, Err(other)),
    }
}

/// Looking a text up: the record with its content hash, if the store holds it.
pub open spec fn looked_up(records: Seq<AnalysisView>, text: Seq<char>) -> Result<
    AnalysisView,
    CheckView,
> {
    match check_of(text, records) {
        CheckView::Found(record) => Ok(record),
        other => Err(other),
    }
}

/// Deleting a text: the record with its content hash leaves the store, the
/// others keep their order.
pub open spec fn deleted(records: Seq<AnalysisView>, text: Seq<char>) -> (
    Seq<AnalysisView>,
    Result<(), CheckView>,
) {
    if text.len() == 0 {
        (records, Err(CheckView::EmptyInput))
    } else {
        match find_by_hash(records, content_hash(text)) {
            Some(index) => (records.remove(index), Ok(())),
            None => (records, Err(CheckView::NotFound)),
        }
    }
}

/// The first record with a hash, as a search from the front finds it.
pub proof fn lemma_find_by_hash(records: Seq<AnalysisView>, hash: Seq<char>)
    ensures
        match find_by_hash(records, hash) {
            Some(index) => is_first_with_hash(records, hash, index),
            None => forall|j: int|
                0 <= j < records.len() ==> (#[trigger] records[j]).sha256_hash != hash,
        },
        forall|index: int|
            is_first_with_hash(records, hash, index) ==> find_by_hash(records, hash) == Some(index),
{
    if exists|index: int| is_first_with_hash(records, hash, index) {
        let chosen = choose|index: int| is_first_with_hash(records, hash, index);
        assert forall|index: int| is_first_with_hash(records, hash, index) implies index
            == chosen by {
            if index < chosen {
                assert(records[index].sha256_hash == hash);
            } else if chosen < index {
                assert(records[chosen].sha256_hash == hash);
            }
        }
    } else {
        assert forall|j: int| 0 <= j < records.len() implies (#[trigger] records[j]).sha256_hash
            != hash by {
            lemma_no_first_no_record(records, hash, j);
        }
    }
}

proof fn lemma_no_first_no_record(records: Seq<AnalysisView>, hash: Seq<char>, upto: int)
    requires
        0 <= upto < records.len(),
        !exists|index: int| is_first_with_hash(records, hash, index),
    ensures
        forall|j: int| 0 <= j <= upto ==> (#[trigger] records[j]).sha256_hash != hash,
    decreases upto,
{
    if upto > 0 {
        lemma_no_first_no_record(records, hash, upto - 1);
    }
    if records[upto].sha256_hash == hash {
        assert(is_first_with_hash(records, hash, upto));
    }
}

/// A record whose content hash the records do not hold is found at the end
/// once it is added.
pub proof fn lemma_added_is_found_last(records: Seq<AnalysisView>, record: AnalysisView)
    requires
        find_by_hash(records, record.sha256_hash) is None,
    ensures
        find_by_hash(records.push(record), record.sha256_hash) == Some(records.len() as int),
{
    let hash = record.sha256_hash;
    let after = records.push(record);
    lemma_find_by_hash(records, hash);
    lemma_find_by_hash(after, hash);
    assert forall|j: int| 0 <= j < records.len() implies (#[trigger] after[j]).sha256_hash
        != hash by {
        assert(after[j] == records[j]);
    }
    assert(is_first_with_hash(after, hash, records.len() as int));
}

/// Submitting keeps the records well kept.
pub proof fn lemma_submitted_keeps(records: Seq<AnalysisView>, text: Seq<char>, created_at: Seq<char>)
    requires
        well_kept(records),
    ensures
        well_kept(submitted(records, text, created_at).0),
{
    lemma_find_by_hash(records, content_hash(text));
    let after = submitted(records, text, created_at).0;
    if check_of(text, records) is NotFound {
        assert forall|i: int| 0 <= i < after.len() implies is_analysis(#[trigger] after[i]) by {
            if i < records.len() {
                assert(after[i] == records[i]);
            }
        }
        assert forall|i: int, j: int| 0 <= i < j < after.len() implies (
        #[trigger] after[i]).sha256_hash != (#[trigger] after[j]).sha256_hash by {
            assert(after[i] == records[i]);
            if j < records.len() {
                assert(after[j] == records[j]);
            }
        }
    }
}

/// Deleting keeps the records well kept, and leaves no record with the
/// content hash of the deleted text.
pub proof fn lemma_deleted_is_absent(records: Seq<AnalysisView>, text: Seq<char>)
    requires
        well_kept(records),
        text.len() > 0,
    ensures
        well_kept(deleted(records, text).0),
        find_by_hash(deleted(records, text).0, content_hash(text)) is None,
{
    let hash = content_hash(text);
    let after = deleted(records, text).0;
    lemma_find_by_hash(records, hash);
    lemma_find_by_hash(after, hash);
    match find_by_hash(records, hash) {
        Some(index) => {
            assert forall|k: int| 0 <= k < after.len() implies is_analysis(#[trigger] after[k])
                && after[k].sha256_hash != hash by {
                let from = if k < index { k } else { k + 1 };
                assert(after[k] == records[from]);
                if from < index {
                    assert(records[from].sha256_hash != records[index].sha256_hash);
                } else {
                    assert(records[index].sha256_hash != records[from].sha256_hash);
                }
            }
            assert forall|i: int, j: int| 0 <= i < j < after.len() implies (
            #[trigger] after[i]).sha256_hash != (#[trigger] after[j]).sha256_hash by {
                let from = if i < index { i } else { i + 1 };
                let to = if j < index { j } else { j + 1 };
                assert(after[i] == records[from]);
                assert(after[j] == records[to]);
            }
        },
        None => {},
    }
    if find_by_hash(after, hash) is Some {
        let at = find_by_hash(after, hash)->0;
        assert(after[at].sha256_hash == hash);
    }
}

/// Well kept records hold at most one record of any text.
pub proof fn lemma_one_record_per_text(records: Seq<AnalysisView>)
    requires
        well_kept(records),
    ensures
        forall|i: int, j: int|
            0 <= i < j < records.len() ==> (#[trigger] records[i]).word != (
            #[trigger] records[j]).word,
{
    assert forall|i: int, j: int| 0 <= i < j < records.len() implies (#[trigger] records[i]).word
        != (#[trigger] records[j]).word by {
        assert(is_analysis(records[i]) && is_analysis(records[j]));
        assert(records[i].sha256_hash != records[j].sha256_hash);
    }
}

/// After a text was submitted, looking it up gives a record of that very
/// text, provided that no record of another text has its content hash.
pub proof fn lemma_lookup_after_submit(
    records: Seq<AnalysisView>,
    text: Seq<char>,
    created_at: Seq<char>,
)
    requires
        text.len() > 0,
        forall|i: int|
            0 <= i < records.len() && (#[trigger] records[i]).sha256_hash == content_hash(text)
                ==> records[i].word == text,
    ensures
        looked_up(submitted(records, text, created_at).0, text) matches Ok(record) && record.word
            == text && record.sha256_hash == content_hash(text),
{
    let hash = content_hash(text);
    lemma_find_by_hash(records, hash);
    if check_of(text, records) is NotFound {
        lemma_added_is_found_last(records, analysis_of(text, created_at));
    } else {
        let at = find_by_hash(records, hash)->0;
        assert(records[at].sha256_hash == hash);
    }
}

/// A second submission of a text whose first submission was accepted is
/// refused with the record of the first, and changes nothing.
pub proof fn lemma_second_submit_is_refused(
    records: Seq<AnalysisView>,
    text: Seq<char>,
    first_time: Seq<char>,
    second_time: Seq<char>,
)
    requires
        submitted(records, text, first_time).1 is Ok,
    ensures
        submitted(submitted(records, text, first_time).0, text, second_time) == (
            submitted(records, text, first_time).0,
            Err::<AnalysisView, CheckView>(CheckView::Found(analysis_of(text, first_time))),
        ),
{
    lemma_added_is_found_last(records, analysis_of(text, first_time));
}

/// After a text that is not empty was submitted, deleting it is accepted,
/// and so is submitting it once more. The store then holds exactly one
/// record of the text, the new one, at its end.
pub proof fn lemma_submit_after_delete(
    records: Seq<AnalysisView>,
    text: Seq<char>,
    first_time: Seq<char>,
    second_time: Seq<char>,
)
    requires
        well_kept(records),
        text.len() > 0,
    ensures
        deleted(submitted(records, text, first_time).0, text).1 is Ok,
        ({
            let emptied = deleted(submitted(records, text, first_time).0, text).0;
            let again = submitted(emptied, text, second_time);
            &&& again.1 == Ok::<AnalysisView, CheckView>(analysis_of(text, second_time))
            &&& again.0 == emptied.push(analysis_of(text, second_time))
            &&& forall|i: int|
                0 <= i < again.0.len() && (#[trigger] again.0[i]).word == text ==> i
                    == again.0.len() - 1
        }),
{
    let hash = content_hash(text);
    let first = submitted(records, text, first_time).0;
    lemma_submitted_keeps(records, text, first_time);
    lemma_find_by_hash(records, hash);
    if check_of(text, records) is NotFound {
        lemma_added_is_found_last(records, analysis_of(text, first_time));
    }
    lemma_deleted_is_absent(first, text);
    let emptied = deleted(first, text).0;
    lemma_find_by_hash(emptied, hash);
    let again = submitted(emptied, text, second_time).0;
    assert forall|i: int| 0 <= i < again.len() && (#[trigger] again[i]).word == text implies i
        == again.len() - 1 by {
        if i < emptied.len() {
            assert(again[i] == emptied[i]);
            assert(is_analysis(emptied[i]));
            assert(emptied[i].sha256_hash != hash);
        }
    }
}

/// After a text was deleted, looking it up finds nothing.
pub proof fn lemma_lookup_after_delete(records: Seq<AnalysisView>, text: Seq<char>)
    requires
        well_kept(records),
        text.len() > 0,
    ensures
        looked_up(deleted(records, text).0, text) == Err::<AnalysisView, CheckView>(
            CheckView::NotFound,
        ),
{
    lemma_deleted_is_absent(records, text);
}

impl View for TempDatabase {
    type V = Seq<AnalysisView>;

    closed spec fn view(&self) -> Seq<AnalysisView> {
        views(self.processed_results@)
    }
}

impl TempDatabase {
    #[verifier::type_invariant]
    spec fn well_formed(self) -> bool {
        &&& self.processed_strings_hash@.len() == self.processed_results@.len()
        &&& forall|i: int|
            0 <= i < self.processed_results@.len() ==> (#[trigger] self.processed_strings_hash@[i])@
                == self.processed_results@[i].sha256_hash@
        &&& well_kept(views(self.processed_results@))
    }

    /// A store without records.
    pub fn new() -> (db: Self)
        ensures
            db@ == Seq::<AnalysisView>::empty(),
    {
        let db = Self { processed_strings_hash: Vec::new(), processed_results: Vec::new() };
        assert(db@ =~= Seq::<AnalysisView>::empty());
        db
    }

    /// The number of records.
    pub fn len(&self) -> (count: usize)
        ensures
            count == self@.len(),
    {
        self.processed_results.len()
    }

    /// A copy of all records, in the store's order.
    pub fn all_records(&self) -> (records: Vec<AnalysisResult>)
        ensures
            views(records@) == self@,
            well_kept(self@),
    {
        proof {
            use_type_invariant(self);
        }
        let mut records: Vec<AnalysisResult> = Vec::new();
        let mut i: usize = 0;
        while i < self.processed_results.len()
            invariant
                i <= self.processed_results.len(),
                views(records@) == views(self.processed_results@).take(i as int),
            decreases self.processed_results.len() - i,
        {
            let copy = self.processed_results[i].clone();
            proof {
                let next = records@.push(copy);
                let wanted = views(self.processed_results@).take(i + 1);
                assert(views(records@).len() == i);
                assert forall|j: int| 0 <= j < next.len() implies views(next)[j] == wanted[j] by {
                    if j < i {
                        assert(views(records@)[j] == views(self.processed_results@).take(
                            i as int,
                        )[j]);
                    }
                }
                assert(views(next) =~= wanted);
            }
            records.push(copy);
            i += 1;
        }
        assert(views(self.processed_results@).take(self.processed_results@.len() as int)
            =~= views(self.processed_results@));
        records
    }

    fn position_of(&self, hash: &String) -> (found: Option<usize>)
        ensures
            match found {
                Some(index) => find_by_hash(self@, hash@) == Some(index as int),
                None => find_by_hash(self@, hash@).is_none(),
            },
            found matches Some(index) ==> index < self.processed_results@.len(),
    {
        proof {
            use_type_invariant(self);
            lemma_find_by_hash(self@, hash@);
        }
        let mut i: usize = 0;
        while i < self.processed_strings_hash.len()
            invariant
                self.well_formed(),
                i <= self.processed_strings_hash.len(),
                forall|j: int| 0 <= j < i ==> (#[trigger] self@[j]).sha256_hash != hash@,
            decreases self.processed_strings_hash.len() - i,
        {
            if self.processed_strings_hash[i] == *hash {
                assert(self@[i as int] == self.processed_results@[i as int]@);
                assert(is_first_with_hash(self@, hash@, i as int));
                return Some(i);
            }
            assert(self@[i as int] == self.processed_results@[i as int]@);
            i += 1;
        }
        proof {
            if find_by_hash(self@, hash@) is Some {
                let at = find_by_hash(self@, hash@)->0;
                assert(self@[at].sha256_hash == hash@);
            }
        }
        None
    }

    fn record_at(&self, index: usize) -> (record: AnalysisResult)
        requires
            index < self@.len(),
        ensures
            record@ == self@[index as int],
    {
        proof {
            use_type_invariant(self);
        }
        self.processed_results[index].clone()
    }

    fn push_record(&mut self, record: AnalysisResult)
        requires
            is_analysis(record@),
            forall|j: int|
                0 <= j < old(self)@.len() ==> (#[trigger] old(self)@[j]).sha256_hash
                    != record@.sha256_hash,
        ensures
            final(self)@ == old(self)@.push(record@),
    {
        proof {
            use_type_invariant(&*self);
        }
        let mut taken = TempDatabase::new();
        std::mem::swap(self, &mut taken);
        let TempDatabase { processed_strings_hash: mut hashes, processed_results: mut results } =
            taken;
        let ghost before = views(results@);
        let ghost old_hashes = hashes@;
        let ghost old_results = results@;
        assert(before == old(self)@);
        hashes.push(record.sha256_hash.clone());
        results.push(record);
        proof {
            assert(views(results@) =~= before.push(record@));
            assert forall|k: int| 0 <= k < results@.len() implies (#[trigger] hashes@[k])@
                == results@[k].sha256_hash@ by {
                if k < old_results.len() {
                    assert(hashes@[k] == old_hashes[k] && results@[k] == old_results[k]);
                }
            }
            assert forall|k: int| 0 <= k < views(results@).len() implies is_analysis(
                #[trigger] views(results@)[k],
            ) by {
                if k < before.len() {
                    assert(views(results@)[k] == before[k]);
                }
            }
            assert forall|i: int, j: int| 0 <= i < j < views(results@).len() implies (
            #[trigger] views(results@)[i]).sha256_hash != (#[trigger] views(
                results@,
            )[j]).sha256_hash by {
                assert(views(results@)[i] == before[i]);
                if j < before.len() {
                    assert(views(results@)[j] == before[j]);
                } else {
                    assert(views(results@)[j] == record@);
                }
            }
        }
        *self = TempDatabase { processed_strings_hash: hashes, processed_results: results };
    }

    fn remove_at(&mut self, index: usize)
        requires
            index < old(self)@.len(),
        ensures
            final(self)@ == old(self)@.remove(index as int),
    {
        proof {
            use_type_invariant(&*self);
        }
        let mut taken = TempDatabase::new();
        std::mem::swap(self, &mut taken);
        let TempDatabase { processed_strings_hash: mut hashes, processed_results: mut results } =
            taken;
        let ghost before = views(results@);
        let ghost old_hashes = hashes@;
        let ghost old_results = results@;
        hashes.remove(index);
        results.remove(index);
        proof {
            assert(views(results@) =~= before.remove(index as int));
            assert forall|k: int| 0 <= k < results@.len() implies (#[trigger] hashes@[k])@
                == results@[k].sha256_hash@ by {
                if k < index {
                    assert(hashes@[k] == old_hashes[k] && results@[k] == old_results[k]);
                } else {
                    assert(hashes@[k] == old_hashes[k + 1] && results@[k] == old_results[k + 1]);
                }
            }
            assert forall|k: int| 0 <= k < views(results@).len() implies is_analysis(
                #[trigger] views(results@)[k],
            ) by {
                let from = if k < index { k } else { k + 1 };
                assert(views(results@)[k] == before[from]);
            }
            assert forall|i: int, j: int| 0 <= i < j < views(results@).len() implies (
            #[trigger] views(results@)[i]).sha256_hash != (#[trigger] views(
                results@,
            )[j]).sha256_hash by {
                let from = if i < index { i } else { i + 1 };
                let to = if j < index { j } else { j + 1 };
                assert(views(results@)[i] == before[from]);
                assert(views(results@)[j] == before[to]);
            }
        }
        *self = TempDatabase { processed_strings_hash: hashes, processed_results: results };
    }
}

/// Looks a text up before anything is done with it.
pub fn pre_analysis_check(input: &String, db: &TempDatabase) -> (outcome: ProcessStringError)
    ensures
        outcome@ == check_of(input@, db@),
        well_kept(db@),
{
    proof {
        use_type_invariant(db);
    }
    if input.as_str().is_empty() {
        return ProcessStringError::EmptyInput;
    }
    let input_hash = hash_text(input.as_str());
    match db.position_of(&input_hash) {
        Some(index) => ProcessStringError::Found(db.record_at(index)),
        None => ProcessStringError::NotFound,
    }
}

/// Submits a text at the time `created_at`. The record of a new text is
/// added and given back; a text that the store holds already gives the
/// record that it holds.
pub fn process_string(db: &mut TempDatabase, value: String, created_at: String) -> (outcome:
    Result<AnalysisResult, ProcessStringError>)
    ensures
        (final(db)@, record_outcome_view(outcome)) == submitted(old(db)@, value@, created_at@),
        well_kept(old(db)@),
        well_kept(final(db)@),
{
    proof {
        use_type_invariant(&*db);
        lemma_submitted_keeps(db@, value@, created_at@);
    }
    match pre_analysis_check(&value, db) {
        ProcessStringError::NotFound => {
            proof {
                lemma_find_by_hash(db@, content_hash(value@));
            }
            let record = analyse_string(value, created_at);
            let copy = record.clone();
            db.push_record(record);
            Ok(copy)
        },
        other => Err(other),
    }
}

/// Gives the record of a text.
pub fn get_string_details(db: &TempDatabase, input: &String) -> (outcome: Result<
    AnalysisResult,
    ProcessStringError,
>)
    ensures
        record_outcome_view(outcome) == looked_up(db@, input@),
        well_kept(db@),
{
    match pre_analysis_check(input, db) {
        ProcessStringError::Found(record) => Ok(record),
        other => Err(other),
    }
}

/// Takes the record of a text out of the store.
pub fn delete_string(db: &mut TempDatabase, input: &String) -> (outcome: Result<
    (),
    ProcessStringError,
>)
    ensures
        (final(db)@, outcome_view(outcome)) == deleted(old(db)@, input@),
        well_kept(old(db)@),
        well_kept(final(db)@),
{
    proof {
        use_type_invariant(&*db);
        if input@.len() > 0 {
            lemma_deleted_is_absent(db@, input@);
        }
    }
    if input.as_str().is_empty() {
        return Err(ProcessStringError::EmptyInput);
    }
    let input_hash = hash_text(input.as_str());
    match db.position_of(&input_hash) {
        Some(index) => {
            db.remove_at(index);
            Ok(())
        },
        None => Err(ProcessStringError::NotFound),
    }
}

} // verus!
