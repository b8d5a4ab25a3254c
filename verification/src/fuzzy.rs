//! Fuzzy matching: the scores of the two matchers that the launchers use.

use crate::text::{chars_of, code_point};
use fuzzy_matcher::skim::SkimMatcherV2;
use fuzzy_matcher::FuzzyMatcher;
use nucleo_matcher::pattern::{CaseMatching, Normalization, Pattern};
use nucleo_matcher::{Config, Matcher, Utf32Str};
use vstd::prelude::*;

verus! {

/// The score that a pattern has on a text, as `nucleo_matcher` gives it.
pub uninterp spec fn pattern_score(pattern: Seq<char>, text: Seq<char>) -> Option<u32>;

/// The longest pattern for which the points of all its words fit in 32 bits. A
/// character brings at most 26 points, the first of a word ten more, and a
/// backslash can count twice.
pub const MAX_PATTERN: usize = 50_000_000;

/// The most characters that can match with the points of one word still
/// fitting in 16 bits.
pub const MAX_MATCHED: usize = 2519;

/// Whether a place in a pattern is between two words: a space there that does
/// not follow a backslash.
pub open spec fn between_words(pattern: Seq<char>, i: int) -> bool {
    pattern[i] == ' ' && !(i > 0 && pattern[i - 1] == '\\')
}

/// The most characters for which one of a pattern can stand: the matcher
/// doubles some backslashes.
pub open spec fn weight(c: char) -> nat {
    if c == '\\' {
        2
    } else {
        1
    }
}

/// The weight of the characters of a pattern's last word.
pub open spec fn last_word(pattern: Seq<char>) -> nat
    decreases pattern.len(),
{
    if pattern.len() == 0 || between_words(pattern, pattern.len() - 1) {
        0
    } else {
        last_word(pattern.drop_last()) + weight(pattern.last())
    }
}

/// The weight of a pattern's heaviest word.
pub open spec fn heaviest_word(pattern: Seq<char>) -> nat
    decreases pattern.len(),
{
    if pattern.len() == 0 {
        0
    } else if heaviest_word(pattern.drop_last()) < last_word(pattern) {
        last_word(pattern)
    } else {
        heaviest_word(pattern.drop_last())
    }
}

/// Whether a character may be the variant of a letter of the Latin alphabet for
/// which the matcher compares the whole word with its accents. This holds of
/// every such variant and of its neighbours.
pub open spec fn accented(c: int) -> bool {
    ||| 0xc0 <= c <= 0x36f
    ||| 0x1d00 <= c <= 0x1eff
    ||| 0x2071 <= c <= 0x2184
    ||| 0x2c60 <= c <= 0x2c7f
    ||| 0xa780 <= c <= 0xa7ff
}

/// Whether a character is a Greek lower-case letter that case folding changes,
/// such as the final sigma.
pub open spec fn greek_variant(c: int) -> bool {
    ||| c == 0xb5
    ||| c == 0x345
    ||| c == 0x3c2
    ||| c == 0x3d0
    ||| c == 0x3d1
    ||| c == 0x3d5
    ||| c == 0x3d6
    ||| c == 0x3f0
    ||| c == 0x3f1
    ||| c == 0x3f5
    ||| c == 0x1fbe
}

/// Whether a character of a text is a lower-case letter that case folding
/// changes, and a character of a pattern may fold to the same letter. The first
/// holds of some Greek and Cyrillic letters, the long s and the Cherokee small
/// letters; the second is taken to hold of every letter of the same script.
pub open spec fn folds_onto(c: int, p: int) -> bool {
    ||| greek_variant(c) && (p == 0xb5 || p == 0x345 || 0x370 <= p <= 0x3ff || p == 0x1fbe)
    ||| c == 0x17f && (p == 0x53 || p == 0x73 || p == 0x17f)
    ||| c == 0x1e9b && 0x1e60 <= p <= 0x1e9b
    ||| 0x1c80 <= c <= 0x1c88 && (0x400 <= p <= 0x4ff || 0x1c80 <= p <= 0x1c8f || 0xa640 <= p
        <= 0xa69f)
    ||| (0x13f8 <= c <= 0x13fd || 0xab70 <= c <= 0xabbf) && (0x13a0 <= p <= 0x13ff || 0xab70 <= p
        <= 0xabbf)
}

/// Whether some character of a pattern may be an accented one.
pub open spec fn has_accent(pattern: Seq<char>) -> bool {
    exists|i: int| 0 <= i < pattern.len() && accented(#[trigger] pattern[i] as int)
}

/// Whether some character of a text may fold onto one of a pattern.
pub open spec fn some_fold(pattern: Seq<char>, text: Seq<char>) -> bool {
    exists|i: int, j: int|
        0 <= i < text.len() && 0 <= j < pattern.len() && folds_onto(
            #[trigger] text[i] as int,
            #[trigger] pattern[j] as int,
        )
}

/// Whether a pattern can be scored on a text: the matcher's sums do not
/// overflow, the text is not too long for it, and its two ways to fold a
/// character's case, which differ for an accented word, agree on the pair.
pub open spec fn can_score(pattern: Seq<char>, text: Seq<char>) -> bool {
    &&& pattern.len() <= MAX_PATTERN
    &&& vstd::utf8::encode_utf8(text).len() <= u32::MAX
    &&& vstd::utf8::encode_utf8(text).len() * MAX_MATCHED <= usize::MAX
    &&& heaviest_word(pattern) <= MAX_MATCHED || text.len() <= MAX_MATCHED
    &&& !has_accent(pattern) || !some_fold(pattern, text)
}

/// Calls `nucleo_matcher::pattern::Pattern::score` on a pattern from
/// `Pattern::parse`, whatever the case and with smart normalization, with a
/// matcher of the default configuration made for the call. The result depends
/// on the pattern and the text alone and is named `pattern_score`. The score of
/// a single word, one without spaces, is a 16-bit number.
#[verifier::external_body]
fn score_pattern(pattern: &str, text: &str) -> (r: Option<u32>)
    requires
        can_score(pattern@, text@),
    ensures
        r == pattern_score(pattern@, text@),
        r matches Some(s) ==> (!pattern@.contains(' ') ==> s <= u16::MAX),
{
    let mut matcher = Matcher::new(Config::DEFAULT);
    let mut buf = Vec::new();
    let parsed = Pattern::parse(pattern, CaseMatching::Ignore, Normalization::Smart);
    parsed.score(Utf32Str::new(text, &mut buf), &mut matcher)
}

/// The score of a pattern on a text. A pair that cannot be scored does not
/// match.
pub open spec fn score_of(pattern: Seq<char>, text: Seq<char>) -> Option<u32> {
    if can_score(pattern, text) {
        pattern_score(pattern, text)
    } else {
        None
    }
}

/// Finds the weight of a pattern's heaviest word.
fn find_heaviest(pattern: &[char]) -> (r: usize)
    requires
        pattern@.len() <= MAX_PATTERN,
    ensures
        r == heaviest_word(pattern@),
{
    let mut best: usize = 0;
    let mut last: usize = 0;
    let mut i: usize = 0;
    while i < pattern.len()
        invariant
            i <= pattern.len() <= MAX_PATTERN,
            last == last_word(pattern@.take(i as int)),
            best == heaviest_word(pattern@.take(i as int)),
            last <= 2 * i,
        decreases pattern.len() - i,
    {
        let c = pattern[i];
        assert(pattern@.take(i + 1).drop_last() == pattern@.take(i as int));
        assert(between_words(pattern@.take(i + 1), i as int) == between_words(
            pattern@,
            i as int,
        ));
        if c == ' ' && !(i > 0 && pattern[i - 1] == '\\') {
            last = 0;
        } else if c == '\\' {
            last = last + 2;
        } else {
            last = last + 1;
        }
        if best < last {
            best = last;
        }
        i = i + 1;
    }
    assert(pattern@.take(pattern@.len() as int) == pattern@);
    best
}

fn is_accented(c: char) -> (r: bool)
    ensures
        r == accented(c as int),
{
    let n: u32 = code_point(c);
    (0xc0 <= n && n <= 0x36f) || (0x1d00 <= n && n <= 0x1eff) || (0x2071 <= n && n <= 0x2184) || (
    0x2c60 <= n && n <= 0x2c7f) || (0xa780 <= n && n <= 0xa7ff)
}

fn is_greek_variant(n: u32) -> (r: bool)
    ensures
        r == greek_variant(n as int),
{
    n == 0xb5 || n == 0x345 || n == 0x3c2 || n == 0x3d0 || n == 0x3d1 || n == 0x3d5 || n == 0x3d6
        || n == 0x3f0 || n == 0x3f1 || n == 0x3f5 || n == 0x1fbe
}

fn does_fold_onto(c: char, p: char) -> (r: bool)
    ensures
        r == folds_onto(c as int, p as int),
{
    let a: u32 = code_point(c);
    let b: u32 = code_point(p);
    if is_greek_variant(a) {
        b == 0xb5 || b == 0x345 || (0x370 <= b && b <= 0x3ff) || b == 0x1fbe
    } else if a == 0x17f {
        b == 0x53 || b == 0x73 || b == 0x17f
    } else if a == 0x1e9b {
        0x1e60 <= b && b <= 0x1e9b
    } else if 0x1c80 <= a && a <= 0x1c88 {
        (0x400 <= b && b <= 0x4ff) || (0x1c80 <= b && b <= 0x1c8f) || (0xa640 <= b && b <= 0xa69f)
    } else if (0x13f8 <= a && a <= 0x13fd) || (0xab70 <= a && a <= 0xabbf) {
        (0x13a0 <= b && b <= 0x13ff) || (0xab70 <= b && b <= 0xabbf)
    } else {
        false
    }
}

fn find_accent(pattern: &[char]) -> (r: bool)
    ensures
        r == has_accent(pattern@),
{
    let mut i: usize = 0;
    while i < pattern.len()
        invariant
            i <= pattern.len(),
            forall|k: int| 0 <= k < i ==> !accented(#[trigger] pattern@[k] as int),
        decreases pattern.len() - i,
    {
        if is_accented(pattern[i]) {
            assert(accented(pattern@[i as int] as int));
            return true;
        }
        i = i + 1;
    }
    false
}

fn find_fold(pattern: &[char], text: &[char]) -> (r: bool)
    ensures
        r == some_fold(pattern@, text@),
{
    let mut i: usize = 0;
    while i < text.len()
        invariant
            i <= text.len(),
            forall|k: int, j: int|
                0 <= k < i && 0 <= j < pattern@.len() ==> !folds_onto(
                    #[trigger] text@[k] as int,
                    #[trigger] pattern@[j] as int,
                ),
        decreases text.len() - i,
    {
        let mut j: usize = 0;
        while j < pattern.len()
            invariant
                i < text.len(),
                j <= pattern.len(),
                forall|k: int|
                    0 <= k < j ==> !folds_onto(
                        text@[i as int] as int,
                        #[trigger] pattern@[k] as int,
                    ),
            decreases pattern.len() - j,
        {
            if does_fold_onto(text[i], pattern[j]) {
                assert(folds_onto(text@[i as int] as int, pattern@[j as int] as int));
                return true;
            }
            j = j + 1;
        }
        i = i + 1;
    }
    false
}

fn scorable(pattern: &str, text: &str) -> (r: bool)
    ensures
        r == can_score(pattern@, text@),
{
    let bytes: u128 = text.as_bytes().len() as u128;
    if bytes > u32::MAX as u128 {
        return false;
    }
    let most: u128 = MAX_MATCHED as u128;
    assert(bytes * most <= 0xffff_ffff * 2519) by (nonlinear_arith)
        requires
            bytes <= 0xffff_ffff,
            most == 2519,
    ;
    if bytes * most > usize::MAX as u128 {
        return false;
    }
    let p = chars_of(pattern);
    let t = chars_of(text);
    p.len() <= MAX_PATTERN && (find_heaviest(p.as_slice()) <= MAX_MATCHED || t.len()
        <= MAX_MATCHED) && (!find_accent(p.as_slice()) || !find_fold(p.as_slice(), t.as_slice()))
}

/// Finds the score of a pattern on a text.
pub(crate) fn find_score(pattern: &str, text: &str) -> (r: Option<u32>)
    ensures
        r == score_of(pattern@, text@),
        r matches Some(s) ==> (!pattern@.contains(' ') ==> s <= u16::MAX),
{
    if scorable(pattern, text) {
        score_pattern(pattern, text)
    } else {
        None
    }
}

/// What the skim matcher finds of a pattern in a text: a score and the
/// positions of the matched characters, as `fuzzy_matcher` gives them.
pub uninterp spec fn skim_match(text: Seq<char>, pattern: Seq<char>) -> Option<(i64, Seq<usize>)>;

/// The longest pattern for which the points fit in 31 bits: a character brings
/// at most 32.
pub const MAX_SKIMMED: usize = 0x3ff_ffff;

/// An upper bound of the bytes that a cell of the skim matcher's table takes.
pub const CELL_BYTES: usize = 24;

/// Whether the skim matcher's sums do not overflow, and its table is no larger
/// than a vector can be. It has no table for an empty pattern.
pub open spec fn can_skim(text: Seq<char>, pattern: Seq<char>) -> bool {
    ||| pattern.len() == 0
    ||| pattern.len() <= MAX_SKIMMED && (text.len() + 1) * (pattern.len() + 1) * CELL_BYTES
        <= isize::MAX
}

/// Calls `fuzzy_matcher::skim::SkimMatcherV2::fuzzy_indices` on a default
/// matcher made for the call. The result depends on the text and the pattern
/// alone and is named `skim_match`. The positions are those of characters of
/// the text, in ascending order. Nothing is said of a machine that has not the
/// memory for the table.
#[verifier::external_body]
fn skim(text: &str, pattern: &str) -> (r: Option<(i64, Vec<usize>)>)
    requires
        can_skim(text@, pattern@),
    ensures
        r is Some <==> skim_match(text@, pattern@) is Some,
        r matches Some(m) ==> skim_match(text@, pattern@) == Some((m.0, m.1@)),
        r matches Some(m) ==> forall|i: int|
            0 <= i < m.1@.len() ==> #[trigger] m.1@[i] < text@.len(),
        r matches Some(m) ==> forall|i: int, j: int|
            0 <= i < j < m.1@.len() ==> #[trigger] m.1@[i] < #[trigger] m.1@[j],
{
    SkimMatcherV2::default().fuzzy_indices(text, pattern)
}

/// What the skim matcher finds of a pattern in a text. A pair for which its
/// table would be too large does not match.
pub open spec fn skim_of(text: Seq<char>, pattern: Seq<char>) -> Option<(i64, Seq<usize>)> {
    if can_skim(text, pattern) {
        skim_match(text, pattern)
    } else {
        None
    }
}

fn skimmable(text: &str, pattern: &str) -> (r: bool)
    ensures
        r == can_skim(text@, pattern@),
{
    let a: usize = chars_of(text).len();
    let b: usize = chars_of(pattern).len();
    if b == 0 {
        return true;
    }
    if b > MAX_SKIMMED {
        return false;
    }
    let x: u128 = a as u128 + 1;
    let y: u128 = b as u128 + 1;
    assert(x * y <= 0x1_0000_0000_0000_0000 * 0x400_0000) by (nonlinear_arith)
        requires
            x <= 0x1_0000_0000_0000_0000,
            y <= 0x400_0000,
    ;
    let cells: u128 = x * y;
    let each: u128 = CELL_BYTES as u128;
    assert(cells * each <= 0x1_0000_0000_0000_0000 * 0x400_0000 * 24) by (nonlinear_arith)
        requires
            cells <= 0x1_0000_0000_0000_0000 * 0x400_0000,
            each == 24,
    ;
    cells * each <= isize::MAX as u128
}

/// Finds a pattern in a text with the skim matcher.
pub(crate) fn find_skim(text: &str, pattern: &str) -> (r: Option<(i64, Vec<usize>)>)
    ensures
        r is Some <==> skim_of(text@, pattern@) is Some,
        r matches Some(m) ==> skim_of(text@, pattern@) == Some((m.0, m.1@)),
        r matches Some(m) ==> forall|i: int|
            0 <= i < m.1@.len() ==> #[trigger] m.1@[i] < text@.len(),
        r matches Some(m) ==> forall|i: int, j: int|
            0 <= i < j < m.1@.len() ==> #[trigger] m.1@[i] < #[trigger] m.1@[j],
{
    if skimmable(text, pattern) {
        skim(text, pattern)
    } else {
        None
    }
}

proof fn words_weigh_little(pattern: Seq<char>)
    ensures
        last_word(pattern) <= 2 * pattern.len(),
        heaviest_word(pattern) <= 2 * pattern.len(),
    decreases pattern.len(),
{
    if pattern.len() > 0 {
        words_weigh_little(pattern.drop_last());
    }
}

/// Whatever is typed is scored by the matcher: a pattern of no more than a
/// thousand characters and without accents, on any text of no more than a
/// million bytes.
pub proof fn usual_patterns_are_scored(pattern: Seq<char>, text: Seq<char>)
    requires
        pattern.len() <= 1000,
        vstd::utf8::encode_utf8(text).len() <= 1_000_000,
        forall|i: int| 0 <= i < pattern.len() ==> (#[trigger] pattern[i] as int) < 0xc0,
    ensures
        score_of(pattern, text) == pattern_score(pattern, text),
{
    words_weigh_little(pattern);
    assert(!has_accent(pattern));
    let n = vstd::utf8::encode_utf8(text).len();
    assert(n * MAX_MATCHED <= 0xffff_ffff);
}

/// A text in which no character folds onto one of the pattern is scored
/// whatever accents the pattern has.
pub proof fn accents_are_scored(pattern: Seq<char>, text: Seq<char>)
    requires
        pattern.len() <= 1000,
        vstd::utf8::encode_utf8(text).len() <= 1_000_000,
        forall|i: int, j: int|
            0 <= i < text.len() && 0 <= j < pattern.len() ==> !folds_onto(
                #[trigger] text[i] as int,
                #[trigger] pattern[j] as int,
            ),
    ensures
        score_of(pattern, text) == pattern_score(pattern, text),
{
    words_weigh_little(pattern);
    let n = vstd::utf8::encode_utf8(text).len();
    assert(n * MAX_MATCHED <= 0xffff_ffff);
}

/// Whatever is typed is sought by the skim matcher, as long as its table has no
/// more than eighty million cells.
pub proof fn usual_patterns_are_skimmed(text: Seq<char>, pattern: Seq<char>)
    requires
        pattern.len() <= 1_000_000,
        (text.len() + 1) * (pattern.len() + 1) <= 80_000_000,
    ensures
        skim_of(text, pattern) == skim_match(text, pattern),
{
}

} // verus!
