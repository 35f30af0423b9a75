//! The analysis of one text: what is recorded of it, and how it is computed.

use crate::digest::{content_hash, hash_text, is_lower_hex};
use crate::text::{check_palindrome, chars_of, is_palindrome, split_whitespace, word_count};
use std::collections::HashMap;
use vstd::prelude::*;
use vstd::std_specs::hash::*;

verus! {

broadcast use vstd::std_specs::hash::group_hash_axioms;

/// What the store keeps of one analysed text. The keys of
/// `character_frequency_map` are Unicode scalar values, as numbers.
#[derive(Debug, PartialEq, Eq)]
pub struct AnalysisResult {
    pub length: usize,
    pub is_palindrome: bool,
    pub unique_characters: usize,
    pub word: String,
    pub word_count: usize,
    pub sha256_hash: String,
    pub character_frequency_map: HashMap<u32, usize>,
    pub created_at: String,
}

/// The mathematical form of an `AnalysisResult`.
pub struct AnalysisView {
    pub length: nat,
    pub is_palindrome: bool,
    pub unique_characters: nat,
    pub word: Seq<char>,
    pub word_count: nat,
    pub sha256_hash: Seq<char>,
    pub character_frequency: Map<u32, nat>,
    pub created_at: Seq<char>,
}

/// A table of counts with its counts as natural numbers.
pub open spec fn frequency_view(counts: Map<u32, usize>) -> Map<u32, nat> {
    counts.map_values(|count: usize| count as nat)
}

impl View for AnalysisResult {
    type V = AnalysisView;

    open spec fn view(&self) -> AnalysisView {
        AnalysisView {
            length: self.length as nat,
            is_palindrome: self.is_palindrome,
            unique_characters: self.unique_characters as nat,
            word: self.word@,
            word_count: self.word_count as nat,
            sha256_hash: self.sha256_hash@,
            character_frequency: frequency_view(self.character_frequency_map@),
            created_at: self.created_at@,
        }
    }
}

impl Clone for AnalysisResult {
    fn clone(&self) -> (copy: Self)
        ensures
            copy@ == self@,
    {
        AnalysisResult {
            length: self.length,
            is_palindrome: self.is_palindrome,
            unique_characters: self.unique_characters,
            word: self.word.clone(),
            word_count: self.word_count,
            sha256_hash: self.sha256_hash.clone(),
            character_frequency_map: self.character_frequency_map.clone(),
            created_at: self.created_at.clone(),
        }
    }
}

impl AnalysisResult {
    /// A record with the given fields.
    pub fn new(
        length: usize,
        is_palindrome: bool,
        unique_characters: usize,
        word: String,
        word_count: usize,
        sha256_hash: String,
        character_frequency_map: HashMap<u32, usize>,
        created_at: String,
    ) -> (result: Self)
        ensures
            result.length == length,
            result.is_palindrome == is_palindrome,
            result.unique_characters == unique_characters,
            result.word == word,
            result.word_count == word_count,
            result.sha256_hash == sha256_hash,
            result.character_frequency_map == character_frequency_map,
            result.created_at == created_at,
    {
        Self {
            length,
            is_palindrome,
            unique_characters,
            word,
            word_count,
            sha256_hash,
            character_frequency_map,
            created_at,
        }
    }
}

/// How often the scalar value with the number `code` stands in `text`.
pub open spec fn occurrences(text: Seq<char>, code: u32) -> nat
    decreases text.len(),
{
    if text.len() == 0 {
        0
    } else {
        occurrences(text.drop_last(), code) + if text.last() as u32 == code {
            1nat
        } else {
            0nat
        }
    }
}

/// The frequency table of a text: the scalar values that stand in it, each
/// with the number of its occurrences.
pub open spec fn char_counts(text: Seq<char>) -> Map<u32, nat> {
    Map::new(|code: u32| occurrences(text, code) > 0, |code: u32| occurrences(text, code))
}

/// The analysis of `text`, made at the time `created_at`.
pub open spec fn analysis_of(text: Seq<char>, created_at: Seq<char>) -> AnalysisView {
    AnalysisView {
        length: text.len(),
        is_palindrome: is_palindrome(text),
        unique_characters: char_counts(text).dom().len(),
        word: text,
        word_count: word_count(text),
        sha256_hash: content_hash(text),
        character_frequency: char_counts(text),
        created_at,
    }
}

/// No scalar value stands in a text more often than the text is long.
pub proof fn lemma_occurrences_bound(text: Seq<char>, code: u32)
    ensures
        occurrences(text, code) <= text.len(),
    decreases text.len(),
{
    if text.len() > 0 {
        lemma_occurrences_bound(text.drop_last(), code);
    }
}

/// Counts the occurrences of each scalar value.
pub fn count_chars(text: &Vec<char>) -> (counts: HashMap<u32, usize>)
    ensures
        frequency_view(counts@) == char_counts(text@),
{
    let mut counts: HashMap<u32, usize> = HashMap::new();
    let mut i: usize = 0;
    assert(text@.take(0) =~= Seq::empty());
    while i < text.len()
        invariant
            i <= text.len(),
            forall|code: u32| #[trigger]
                counts@.contains_key(code) <==> occurrences(text@.take(i as int), code) > 0,
            forall|code: u32| #[trigger]
                counts@.contains_key(code) ==> counts@[code] == occurrences(
                    text@.take(i as int),
                    code,
                ),
        decreases text.len() - i,
    {
        let code: u32 = text[i] as u32;
        let seen: usize = match counts.get(&code) {
            Some(count) => *count,
            None => 0,
        };
        proof {
            lemma_occurrences_bound(text@.take(i as int), code);
            assert(text@.take(i + 1).drop_last() =~= text@.take(i as int));
            assert(text@.take(i + 1).last() == text@[i as int]);
        }
        counts.insert(code, seen + 1);
        i += 1;
    }
    assert(text@.take(text@.len() as int) =~= text@);
    assert(frequency_view(counts@) =~= char_counts(text@));
    counts
}

/// Analyses `input`. The time of the analysis, `created_at`, is the caller's
/// to give: the analysis reads no clock.
pub fn analyse_string(input: String, created_at: String) -> (result: AnalysisResult)
    ensures
        result@ == analysis_of(input@, created_at@),
        result@.sha256_hash.len() == 64,
        forall|i: int| 0 <= i < 64 ==> is_lower_hex(#[trigger] result@.sha256_hash[i]),
{
    let chars = chars_of(input.as_str());
    let length = chars.len();
    let is_palindrome = check_palindrome(&chars);
    let character_frequency_map = count_chars(&chars);
    let unique_characters = character_frequency_map.len();
    let word_count = split_whitespace(input.as_str()).len();
    let sha256_hash = hash_text(input.as_str());
    assert(frequency_view(character_frequency_map@).dom() =~= character_frequency_map@.dom());
    AnalysisResult::new(
        length,
        is_palindrome,
        unique_characters,
        input,
        word_count,
        sha256_hash,
        character_frequency_map,
        created_at,
    )
}

/// The sum of the counts that a table holds for the scalar values below `bound`.
pub open spec fn counted_below(counts: Map<u32, nat>, bound: nat) -> nat
    decreases bound,
{
    if bound == 0 {
        0
    } else {
        let code = (bound - 1) as u32;
        counted_below(counts, (bound - 1) as nat) + if counts.contains_key(code) {
            counts[code]
        } else {
            0nat
        }
    }
}

/// The sum of all counts of a table.
pub open spec fn total_count(counts: Map<u32, nat>) -> nat {
    counted_below(counts, 0x1_0000_0000)
}

proof fn lemma_counted_step(text: Seq<char>, bound: nat)
    requires
        text.len() > 0,
        bound <= 0x1_0000_0000,
    ensures
        counted_below(char_counts(text), bound) == counted_below(
            char_counts(text.drop_last()),
            bound,
        ) + if (text.last() as u32) < bound {
            1nat
        } else {
            0nat
        },
    decreases bound,
{
    if bound > 0 {
        lemma_counted_step(text, (bound - 1) as nat);
    }
}

proof fn lemma_counted_empty(bound: nat)
    ensures
        counted_below(char_counts(Seq::empty()), bound) == 0,
    decreases bound,
{
    if bound > 0 {
        lemma_counted_empty((bound - 1) as nat);
    }
}

/// The counts of a text's frequency table add up to the text's length.
pub proof fn lemma_total_count(text: Seq<char>)
    ensures
        total_count(char_counts(text)) == text.len(),
    decreases text.len(),
{
    if text.len() == 0 {
        assert(text =~= Seq::empty());
        lemma_counted_empty(0x1_0000_0000);
    } else {
        lemma_total_count(text.drop_last());
        lemma_counted_step(text, 0x1_0000_0000);
    }
}

/// A text's frequency table has finitely many keys.
pub proof fn lemma_char_counts_finite(text: Seq<char>)
    ensures
        char_counts(text).dom().finite(),
    decreases text.len(),
{
    if text.len() == 0 {
        assert(char_counts(text).dom() =~= Set::empty());
    } else {
        lemma_char_counts_finite(text.drop_last());
        assert(char_counts(text).dom() =~= char_counts(text.drop_last()).dom().insert(
            text.last() as u32,
        ));
    }
}

/// The analysis of a text depends on the text and the time alone: two
/// analyses of the same text differ in nothing but `created_at`.
pub proof fn lemma_analysis_determined_by_text(
    first: Seq<char>,
    second: Seq<char>,
    first_time: Seq<char>,
    second_time: Seq<char>,
)
    requires
        first == second,
    ensures
        analysis_of(first, first_time).sha256_hash == analysis_of(second, second_time).sha256_hash,
        analysis_of(first, first_time) == (AnalysisView {
            created_at: first_time,
            ..analysis_of(second, second_time)
        }),
{
}

/// In the analysis of a text the counts of the frequency table add up to the
/// length, and the number of distinct scalar values is the number of the
/// table's keys, which is finite.
pub proof fn lemma_analysis_counts(text: Seq<char>, created_at: Seq<char>)
    ensures
        analysis_of(text, created_at).length == total_count(
            analysis_of(text, created_at).character_frequency,
        ),
        analysis_of(text, created_at).character_frequency.dom().finite(),
        analysis_of(text, created_at).unique_characters == analysis_of(
            text,
            created_at,
        ).character_frequency.dom().len(),
{
    lemma_total_count(text);
    lemma_char_counts_finite(text);
}

} // verus!
