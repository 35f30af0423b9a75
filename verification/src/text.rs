//! Texts as sequences of Unicode scalar values: substring search, whitespace
//! tokens and decimal numbers.

use vstd::prelude::*;
use vstd::string::*;

verus! {

/// The scalar values of a text, in order.
pub fn chars_of(text: &str) -> (chars: Vec<char>)
    ensures
        chars@ == text@,
{
    let mut chars: Vec<char> = Vec::new();
    for c in it: text.chars()
        invariant
            it.seq() == text@,
            chars@ == it.seq().take(it.index() as int),
    {
        chars.push(c);
    }
    chars
}

/// `std::string::String::push` appends one scalar value to the end of the string.
pub assume_specification[ String::push ](text: &mut String, c: char)
    ensures
        final(text)@ == old(text)@.push(c),
;

/// The text that consists of the single scalar value `c`.
pub fn single_char_text(c: char) -> (text: String)
    ensures
        text@ == seq![c],
{
    let mut text = String::new();
    text.push(c);
    assert(text@ =~= seq![c]);
    text
}

/// `pattern` stands in `text` at offset `at`.
pub open spec fn occurs_at(text: Seq<char>, pattern: Seq<char>, at: int) -> bool {
    &&& 0 <= at
    &&& at + pattern.len() <= text.len()
    &&& text.subrange(at, at + pattern.len()) == pattern
}

/// `pattern` is a contiguous part of `text`. The empty pattern is part of every text.
pub open spec fn contains_text(text: Seq<char>, pattern: Seq<char>) -> bool {
    exists|at: int| occurs_at(text, pattern, at)
}

fn matches_at(text: &Vec<char>, pattern: &Vec<char>, at: usize) -> (found: bool)
    requires
        at + pattern.len() <= text.len(),
    ensures
        found == occurs_at(text@, pattern@, at as int),
{
    let mut k: usize = 0;
    while k < pattern.len()
        invariant
            k <= pattern.len(),
            at + pattern.len() <= text.len(),
            forall|j: int| 0 <= j < k ==> text@[at + j] == #[trigger] pattern@[j],
        decreases pattern.len() - k,
    {
        if text[at + k] != pattern[k] {
            assert(text@.subrange(at as int, at + pattern@.len())[k as int] == text@[at + k]);
            return false;
        }
        k += 1;
    }
    assert(text@.subrange(at as int, at + pattern@.len()) =~= pattern@);
    true
}

/// Substring search, scalar value by scalar value.
pub fn contains(text: &Vec<char>, pattern: &Vec<char>) -> (found: bool)
    ensures
        found == contains_text(text@, pattern@),
{
    if pattern.len() > text.len() {
        assert(forall|at: int| !occurs_at(text@, pattern@, at));
        return false;
    }
    let last: usize = text.len() - pattern.len();
    let mut at: usize = 0;
    loop
        invariant
            pattern.len() <= text.len(),
            last == text.len() - pattern.len(),
            at <= last,
            forall|j: int| 0 <= j < at ==> !occurs_at(text@, pattern@, j),
        decreases last - at,
    {
        if matches_at(text, pattern, at) {
            return true;
        }
        if at == last {
            assert(forall|j: int| !occurs_at(text@, pattern@, j));
            return false;
        }
        at += 1;
    }
}

/// `text` holds the scalar value `c`.
pub fn contains_char(text: &Vec<char>, c: char) -> (found: bool)
    ensures
        found == text@.contains(c),
{
    let mut i: usize = 0;
    while i < text.len()
        invariant
            i <= text.len(),
            forall|j: int| 0 <= j < i ==> text@[j] != c,
        decreases text.len() - i,
    {
        if text[i] == c {
            return true;
        }
        i += 1;
    }
    false
}

/// Two texts hold the same scalar values in the same order.
pub fn same_text(left: &str, right: &str) -> (same: bool)
    ensures
        same == (left@ == right@),
{
    let a = chars_of(left);
    let b = chars_of(right);
    if a.len() != b.len() {
        return false;
    }
    let mut i: usize = 0;
    while i < a.len()
        invariant
            a@ == left@,
            b@ == right@,
            a.len() == b.len(),
            i <= a.len(),
            forall|j: int| 0 <= j < i ==> a@[j] == b@[j],
        decreases a.len() - i,
    {
        if a[i] != b[i] {
            assert(left@[i as int] != right@[i as int]);
            return false;
        }
        i += 1;
    }
    assert(a@ =~= b@);
    true
}

/// A text reads the same in both directions.
pub open spec fn is_palindrome(text: Seq<char>) -> bool {
    text == text.reverse()
}

/// Compares the text with its reverse, scalar value by scalar value.
pub fn check_palindrome(text: &Vec<char>) -> (same: bool)
    ensures
        same == is_palindrome(text@),
{
    let n = text.len();
    let mut i: usize = 0;
    while i < n
        invariant
            n == text.len(),
            i <= n,
            forall|j: int| 0 <= j < i ==> #[trigger] text@[j] == text@[n - 1 - j],
        decreases n - i,
    {
        if text[i] != text[n - 1 - i] {
            assert(text@.reverse()[i as int] == text@[n - 1 - i]);
            return false;
        }
        i += 1;
    }
    assert(text@ =~= text@.reverse());
    true
}

/// `c` has the Unicode property `White_Space`: it is one of the controls
/// U+0009 to U+000D, the space, U+0085, U+00A0, U+1680, U+2000 to U+200A,
/// U+2028, U+2029, U+202F, U+205F or U+3000.
pub open spec fn is_whitespace(c: char) -> bool {
    let code = c as u32;
    ||| 0x09 <= code <= 0x0D
    ||| code == 0x20
    ||| code == 0x85
    ||| code == 0xA0
    ||| code == 0x1680
    ||| 0x2000 <= code <= 0x200A
    ||| code == 0x2028
    ||| code == 0x2029
    ||| code == 0x202F
    ||| code == 0x205F
    ||| code == 0x3000
}

/// Calls `char::is_whitespace`, which tells whether a scalar value has the
/// Unicode property `White_Space`.
#[verifier::external_body]
fn char_is_whitespace(c: char) -> (white: bool)
    ensures
        white == is_whitespace(c),
{
    c.is_whitespace()
}

/// What `str::to_lowercase` of the standard library returns for a text: its
/// lowercase equivalent by the Unicode property `Lowercase`.
pub uninterp spec fn lowercase_of(text: Seq<char>) -> Seq<char>;

/// Calls `str::to_lowercase`.
#[verifier::external_body]
pub(crate) fn to_lowercase(text: &str) -> (lower: String)
    ensures
        lower@ == lowercase_of(text@),
{
    text.to_lowercase()
}

/// The length of the longest prefix of `text` that holds no whitespace.
pub open spec fn leading_word_len(text: Seq<char>) -> nat
    decreases text.len(),
{
    if text.len() == 0 || is_whitespace(text[0]) {
        0
    } else {
        1 + leading_word_len(text.drop_first())
    }
}

/// The leading word lies within the text, holds no whitespace, is not empty
/// where the text begins without whitespace, and ends at the text's end or
/// before a whitespace.
pub proof fn lemma_leading_word_len(text: Seq<char>)
    ensures
        leading_word_len(text) <= text.len(),
        text.len() > 0 && !is_whitespace(text[0]) ==> leading_word_len(text) >= 1,
        forall|i: int| 0 <= i < leading_word_len(text) ==> !is_whitespace(#[trigger] text[i]),
        leading_word_len(text) < text.len() ==> is_whitespace(
            text[leading_word_len(text) as int],
        ),
    decreases text.len(),
{
    if text.len() == 0 || is_whitespace(text[0]) {
    } else {
        let rest = text.drop_first();
        lemma_leading_word_len(rest);
        assert forall|i: int| 0 <= i < leading_word_len(text) implies !is_whitespace(
            #[trigger] text[i],
        ) by {
            if i > 0 {
                assert(text[i] == rest[i - 1]);
            }
        }
        if leading_word_len(text) < text.len() {
            assert(text[leading_word_len(text) as int] == rest[leading_word_len(rest) as int]);
        }
    }
}

/// A prefix without whitespace that ends at the text's end or before a
/// whitespace is the leading word.
proof fn lemma_word_extent(text: Seq<char>, len: int)
    requires
        0 <= len <= text.len(),
        forall|k: int| 0 <= k < len ==> !is_whitespace(#[trigger] text[k]),
        len == text.len() || is_whitespace(text[len]),
    ensures
        leading_word_len(text) == len,
    decreases len,
{
    if len > 0 {
        let rest = text.drop_first();
        assert forall|k: int| 0 <= k < len - 1 implies !is_whitespace(#[trigger] rest[k]) by {
            assert(rest[k] == text[k + 1]);
        }
        lemma_word_extent(rest, len - 1);
    }
}

/// The words of a text: its maximal runs of scalar values that are not
/// whitespace, from left to right. Whitespace separates words and belongs to
/// none, so no word is empty.
pub open spec fn split_words(text: Seq<char>) -> Seq<Seq<char>>
    decreases text.len(),
{
    if text.len() == 0 {
        Seq::empty()
    } else if is_whitespace(text[0]) {
        split_words(text.drop_first())
    } else {
        let n = leading_word_len(text);
        proof {
            lemma_leading_word_len(text);
        }
        seq![text.take(n as int)] + split_words(text.skip(n as int))
    }
}

/// The number of words of a text.
pub open spec fn word_count(text: Seq<char>) -> nat {
    split_words(text).len()
}

/// The texts that a sequence of string slices holds.
pub open spec fn texts(words: Seq<&str>) -> Seq<Seq<char>> {
    words.map_values(|word: &str| word@)
}

/// Splits a text at whitespace, as `str::split_whitespace` does.
pub fn split_whitespace<'a>(text: &'a str) -> (words: Vec<&'a str>)
    ensures
        texts(words@) == split_words(text@),
{
    let chars = chars_of(text);
    let n = chars.len();
    let mut words: Vec<&'a str> = Vec::new();
    let mut i: usize = 0;
    assert(text@.skip(0) =~= text@);
    assert(texts(words@) =~= Seq::empty());
    while i < n
        invariant
            n == chars.len(),
            chars@ == text@,
            i <= n,
            split_words(text@) == texts(words@) + split_words(text@.skip(i as int)),
        decreases n - i,
    {
        let ghost rest = text@.skip(i as int);
        if char_is_whitespace(chars[i]) {
            assert(rest.drop_first() =~= text@.skip(i + 1));
            i += 1;
        } else {
            let start = i;
            let mut end = i + 1;
            while end < n && !char_is_whitespace(chars[end])
                invariant
                    n == chars.len(),
                    chars@ == text@,
                    start < end <= n,
                    forall|k: int| start <= k < end ==> !is_whitespace(#[trigger] text@[k]),
                decreases n - end,
            {
                end += 1;
            }
            let word = text.substring_char(start, end);
            proof {
                assert forall|k: int| 0 <= k < end - start implies !is_whitespace(
                    #[trigger] rest[k],
                ) by {
                    assert(rest[k] == text@[start + k]);
                }
                lemma_word_extent(rest, end - start);
                assert(rest.take(end - start) =~= text@.subrange(start as int, end as int));
                assert(rest.skip(end - start) =~= text@.skip(end as int));
                assert(texts(words@.push(word)) =~= texts(words@).push(word@));
                assert(texts(words@) + (seq![word@] + split_words(text@.skip(end as int)))
                    =~= texts(words@).push(word@) + split_words(text@.skip(end as int)));
            }
            words.push(word);
            i = end;
        }
    }
    assert(texts(words@) + Seq::<Seq<char>>::empty() =~= texts(words@));
    words
}

/// `c` is one of the ASCII digits `0` to `9`.
pub open spec fn is_digit(c: char) -> bool {
    48 <= c as u32 <= 57
}

/// Every scalar value of `text` is an ASCII digit.
pub open spec fn all_digits(text: Seq<char>) -> bool {
    forall|i: int| 0 <= i < text.len() ==> is_digit(#[trigger] text[i])
}

/// The number that a sequence of decimal digits denotes.
pub open spec fn decimal_value(digits: Seq<char>) -> nat
    decreases digits.len(),
{
    if digits.len() == 0 {
        0
    } else {
        (decimal_value(digits.drop_last()) * 10 + (digits.last() as u32 - 48)) as nat
    }
}

/// A word without its one optional leading `+`.
pub open spec fn unsigned_digits(word: Seq<char>) -> Seq<char> {
    if word.len() > 0 && word[0] == '+' {
        word.drop_first()
    } else {
        word
    }
}

/// The `usize` that a word denotes: an optional `+`, then one or more ASCII
/// digits and nothing else, with a value that fits. This is the notation that
/// `str::parse::<usize>` accepts.
pub open spec fn parse_unsigned(word: Seq<char>) -> Option<usize> {
    let digits = unsigned_digits(word);
    if digits.len() > 0 && all_digits(digits) && decimal_value(digits) <= usize::MAX {
        Some(decimal_value(digits) as usize)
    } else {
        None
    }
}

proof fn lemma_decimal_prefix(digits: Seq<char>, len: int)
    requires
        0 <= len <= digits.len(),
        all_digits(digits),
    ensures
        decimal_value(digits.take(len)) <= decimal_value(digits),
    decreases digits.len(),
{
    if len == digits.len() {
        assert(digits.take(len) =~= digits);
    } else {
        let front = digits.drop_last();
        assert(front.take(len) =~= digits.take(len));
        assert(is_digit(digits.last()));
        lemma_decimal_prefix(front, len);
    }
}

/// Reads a word as a `usize`.
pub fn parse_unsigned_word(word: &str) -> (number: Option<usize>)
    ensures
        number == parse_unsigned(word@),
{
    let chars = chars_of(word);
    let n = chars.len();
    let start: usize = if n > 0 && chars[0] == '+' {
        1
    } else {
        0
    };
    if start == n {
        return None;
    }
    let ghost digits = unsigned_digits(word@);
    assert(digits =~= chars@.skip(start as int));
    let mut value: usize = 0;
    let mut i: usize = start;
    assert(digits.take(0) =~= Seq::empty());
    while i < n
        invariant
            n == chars.len(),
            start <= i <= n,
            start < n,
            digits == chars@.skip(start as int),
            digits == unsigned_digits(word@),
            all_digits(digits.take(i - start)),
            value == decimal_value(digits.take(i - start)),
        decreases n - i,
    {
        let code: u32 = chars[i] as u32;
        if code < 48 || code > 57 {
            assert(!is_digit(digits[i - start]));
            return None;
        }
        let digit: usize = (code - 48) as usize;
        let ghost longer = digits.take(i - start + 1);
        proof {
            assert(longer.drop_last() =~= digits.take(i - start));
            assert(longer.last() == chars@[i as int]);
            assert(decimal_value(longer) == value * 10 + digit);
            assert forall|k: int| 0 <= k < longer.len() implies is_digit(#[trigger] longer[k]) by {
                if k < i - start {
                    assert(longer[k] == digits.take(i - start)[k]);
                }
            }
            if all_digits(digits) {
                lemma_decimal_prefix(digits, i - start + 1);
            }
        }
        let scaled = match value.checked_mul(10) {
            Some(scaled) => scaled,
            None => {
                return None;
            },
        };
        value = match scaled.checked_add(digit) {
            Some(sum) => sum,
            None => {
                return None;
            },
        };
        i += 1;
    }
    assert(digits.take(n - start) =~= digits);
    Some(value)
}

} // verus!
