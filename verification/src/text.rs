//! Text as sequences of characters: trimming, splitting, searching, decimals.

use vstd::prelude::*;
use vstd::slice::slice_subrange;
use vstd::utf8::{decode_utf8, valid_utf8};

verus! {

/// Appends one character, as `String::push` documents.
pub assume_specification[ String::push ](s: &mut String, c: char)
    ensures
        final(s)@ == old(s)@.push(c),
;

/// The lower-case form of a text, as `str::to_lowercase` gives it.
pub uninterp spec fn lowercase(s: Seq<char>) -> Seq<char>;

/// Whether `char::is_alphanumeric` holds of a character.
pub uninterp spec fn alphanumeric(c: char) -> bool;

/// Whether all characters of a text are ASCII.
pub open spec fn ascii(s: Seq<char>) -> bool {
    forall|i: int| 0 <= i < s.len() ==> (#[trigger] s[i] as int) < 0x80
}

/// A character with an upper-case letter's replaced by the lower-case one's,
/// for the letters A to Z alone.
pub open spec fn lower_char(c: char) -> char {
    if 65 <= c as int <= 90 {
        (c as int + 32) as char
    } else {
        c
    }
}

/// A text with the letters A to Z in lower case.
pub open spec fn ascii_lower(s: Seq<char>) -> Seq<char> {
    s.map_values(|c: char| lower_char(c))
}

/// Calls `str::to_lowercase`. The result depends on the text alone and is
/// named `lowercase`. Of ASCII text it is the text with the letters A to Z in
/// lower case; nothing more is said of Unicode's case mapping.
#[verifier::external_body]
pub(crate) fn to_lowercase(s: &str) -> (r: String)
    ensures
        r@ == lowercase(s@),
        ascii(s@) ==> r@ == ascii_lower(s@),
{
    s.to_lowercase()
}

/// Calls `char::is_alphanumeric`. The result depends on the character alone
/// and is named `alphanumeric`.
#[verifier::external_body]
fn is_alphanumeric(c: char) -> (r: bool)
    ensures
        r == alphanumeric(c),
{
    c.is_alphanumeric()
}

/// Bytes as text, as `String::from_utf8_lossy` reads them.
pub uninterp spec fn lossy(bytes: Seq<u8>) -> Seq<char>;

/// Calls `String::from_utf8_lossy`. The result depends on the bytes alone and
/// is named `lossy`; that of valid UTF-8 is the text that it encodes.
#[verifier::external_body]
pub(crate) fn from_utf8_lossy(bytes: &[u8]) -> (r: String)
    ensures
        r@ == lossy(bytes@),
        valid_utf8(bytes@) ==> r@ == decode_utf8(bytes@),
{
    String::from_utf8_lossy(bytes).into_owned()
}

/// Unicode's `White_Space` characters.
pub open spec fn whitespace(c: char) -> bool {
    let n = c as int;
    ||| 9 <= n <= 13
    ||| n == 32
    ||| n == 0x85
    ||| n == 0xa0
    ||| n == 0x1680
    ||| 0x2000 <= n <= 0x200a
    ||| n == 0x2028
    ||| n == 0x2029
    ||| n == 0x202f
    ||| n == 0x205f
    ||| n == 0x3000
}

/// Whether a character is white space.
pub fn is_whitespace(c: char) -> (r: bool)
    ensures
        r == whitespace(c),
{
    let n: u32 = c as u32;
    (9 <= n && n <= 13) || n == 32 || n == 0x85 || n == 0xa0 || n == 0x1680 || (0x2000 <= n && n
        <= 0x200a) || n == 0x2028 || n == 0x2029 || n == 0x202f || n == 0x205f || n == 0x3000
}

/// The characters of a text.
pub fn chars_of(s: &str) -> (r: Vec<char>)
    ensures
        r@ == s@,
{
    let mut r: Vec<char> = Vec::new();
    for c in it: s.chars()
        invariant
            r@ == it.seq().take(it.index() as int),
            it.seq() == s@,
    {
        r.push(c);
    }
    r
}

/// The text made of the given characters.
pub fn string_of(v: &[char]) -> (r: String)
    ensures
        r@ == v@,
{
    let mut r = String::new();
    let mut i: usize = 0;
    while i < v.len()
        invariant
            i <= v.len(),
            r@ == v@.take(i as int),
        decreases v.len() - i,
    {
        r.push(v[i]);
        i = i + 1;
    }
    r
}

/// The texts behind a list of strings.
pub open spec fn views(v: Seq<String>) -> Seq<Seq<char>> {
    v.map_values(|s: String| s@)
}

/// One text after another.
pub fn concat(a: &str, b: &str) -> (r: String)
    ensures
        r@ == a@ + b@,
{
    let mut r = a.to_owned();
    r.append(b);
    r
}

/// Whether two texts are the same.
pub fn same(a: &str, b: &str) -> (r: bool)
    ensures
        r == (a@ == b@),
{
    same_chars(chars_of(a).as_slice(), chars_of(b).as_slice())
}

/// Whether two character runs are the same.
pub fn same_chars(a: &[char], b: &[char]) -> (r: bool)
    ensures
        r == (a@ == b@),
{
    if a.len() != b.len() {
        return false;
    }
    let mut i: usize = 0;
    while i < a.len()
        invariant
            i <= a.len(),
            a.len() == b.len(),
            a@.take(i as int) == b@.take(i as int),
        decreases a.len() - i,
    {
        if a[i] != b[i] {
            return false;
        }
        assert(a@.take(i + 1) == a@.take(i as int).push(a@[i as int]));
        assert(b@.take(i + 1) == b@.take(i as int).push(b@[i as int]));
        i = i + 1;
    }
    assert(a@ == a@.take(a@.len() as int));
    assert(b@ == b@.take(b@.len() as int));
    true
}

/// A text without its leading white space.
pub open spec fn trim_start(s: Seq<char>) -> Seq<char>
    decreases s.len(),
{
    if s.len() > 0 && whitespace(s[0]) {
        trim_start(s.drop_first())
    } else {
        s
    }
}

/// A text without its trailing white space.
pub open spec fn trim_end(s: Seq<char>) -> Seq<char>
    decreases s.len(),
{
    if s.len() > 0 && whitespace(s.last()) {
        trim_end(s.drop_last())
    } else {
        s
    }
}

/// A text without white space at either end.
pub open spec fn trim(s: Seq<char>) -> Seq<char> {
    trim_end(trim_start(s))
}

/// Drops the leading white space.
pub fn trim_start_chars(s: &[char]) -> (r: &[char])
    ensures
        r@ == trim_start(s@),
{
    let mut i: usize = 0;
    assert(s@.skip(0) == s@);
    while i < s.len() && is_whitespace(s[i])
        invariant
            i <= s.len(),
            trim_start(s@) == trim_start(s@.skip(i as int)),
        decreases s.len() - i,
    {
        assert(s@.skip(i as int).drop_first() == s@.skip(i + 1));
        i = i + 1;
    }
    let r = slice_subrange(s, i, s.len());
    assert(r@ == s@.skip(i as int));
    r
}

/// Drops the trailing white space.
pub fn trim_end_chars(s: &[char]) -> (r: &[char])
    ensures
        r@ == trim_end(s@),
{
    let mut i: usize = s.len();
    assert(s@.take(s@.len() as int) == s@);
    while i > 0 && is_whitespace(s[i - 1])
        invariant
            i <= s.len(),
            trim_end(s@) == trim_end(s@.take(i as int)),
        decreases i,
    {
        assert(s@.take(i as int).drop_last() == s@.take(i - 1));
        i = i - 1;
    }
    let r = slice_subrange(s, 0, i);
    assert(r@ == s@.take(i as int));
    r
}

/// Drops the white space at both ends.
pub fn trim_chars(s: &[char]) -> (r: &[char])
    ensures
        r@ == trim(s@),
{
    trim_end_chars(trim_start_chars(s))
}

/// Which characters separate the pieces of a text.
#[derive(Clone, Copy)]
pub enum Separator {
    Char(char),
    Whitespace,
    NonAlphanumeric,
}

impl Separator {
    /// Whether the text is cut at this character.
    pub open spec fn cuts(self, c: char) -> bool {
        match self {
            Separator::Char(sep) => c == sep,
            Separator::Whitespace => whitespace(c),
            Separator::NonAlphanumeric => !alphanumeric(c),
        }
    }

    fn at(self, c: char) -> (r: bool)
        ensures
            r == self.cuts(c),
    {
        match self {
            Separator::Char(sep) => c == sep,
            Separator::Whitespace => is_whitespace(c),
            Separator::NonAlphanumeric => !is_alphanumeric(c),
        }
    }
}

/// The pieces of a text between separators, the empty ones included.
pub open spec fn split(s: Seq<char>, sep: Separator) -> Seq<Seq<char>>
    decreases s.len(),
{
    if s.len() == 0 {
        seq![Seq::<char>::empty()]
    } else {
        let before = split(s.drop_last(), sep);
        if sep.cuts(s.last()) {
            before.push(Seq::<char>::empty())
        } else {
            before.drop_last().push(before.last().push(s.last()))
        }
    }
}

/// The pieces of a text between separators, without the empty ones.
pub open spec fn words(s: Seq<char>, sep: Separator) -> Seq<Seq<char>> {
    split(s, sep).filter(|w: Seq<char>| w.len() > 0)
}

/// Cuts a text at every separator.
pub fn split_chars(s: &[char], sep: Separator) -> (r: Vec<String>)
    ensures
        views(r@) == split(s@, sep),
{
    let mut done: Vec<String> = Vec::new();
    let mut cur = String::new();
    let mut i: usize = 0;
    assert(views(done@).push(cur@) == split(s@.take(0), sep));
    while i < s.len()
        invariant
            i <= s.len(),
            views(done@).push(cur@) == split(s@.take(i as int), sep),
        decreases s.len() - i,
    {
        let ghost before = split(s@.take(i as int), sep);
        let ghost next = s@.take(i + 1);
        assert(next.drop_last() == s@.take(i as int));
        assert(before.drop_last() == views(done@));
        assert(before.last() == cur@);
        let c = s[i];
        if sep.at(c) {
            done.push(cur);
            cur = String::new();
            assert(views(done@) == before);
        } else {
            cur.push(c);
        }
        i = i + 1;
        assert(views(done@).push(cur@) == split(next, sep));
    }
    assert(s@.take(s@.len() as int) == s@);
    let ghost last = cur@;
    let ghost head = done@;
    done.push(cur);
    assert(views(done@) == views(head).push(last));
    done
}

/// Cuts a text at every separator and keeps the pieces that are not empty.
pub fn words_of(s: &[char], sep: Separator) -> (r: Vec<String>)
    ensures
        views(r@) == words(s@, sep),
{
    let pieces = split_chars(s, sep);
    let ghost all = split(s@, sep);
    let ghost keep = |w: Seq<char>| w.len() > 0;
    let mut r: Vec<String> = Vec::new();
    let mut i: usize = 0;
    assert(all.take(0).filter(keep) == Seq::<Seq<char>>::empty()) by {
        reveal(Seq::filter);
    }
    while i < pieces.len()
        invariant
            i <= pieces.len(),
            views(pieces@) == all,
            keep == (|w: Seq<char>| w.len() > 0),
            views(r@) == all.take(i as int).filter(keep),
        decreases pieces.len() - i,
    {
        proof {
            reveal(Seq::filter);
            assert(all.take(i + 1).drop_last() == all.take(i as int));
            assert(all[i as int] == pieces@[i as int]@);
        }
        if !pieces[i].as_str().is_empty() {
            let ghost head = r@;
            r.push(pieces[i].clone());
            assert(views(r@) == views(head).push(pieces@[i as int]@));
        }
        i = i + 1;
    }
    assert(all.take(all.len() as int) == all);
    r
}

/// The first position of a character, or the length if it does not occur.
pub open spec fn position(s: Seq<char>, c: char) -> int
    decreases s.len(),
{
    if s.len() == 0 || s[0] == c {
        0
    } else {
        1 + position(s.drop_first(), c)
    }
}

/// The first position of a character, or the length if it does not occur.
pub fn position_of(s: &[char], c: char) -> (r: usize)
    ensures
        r == position(s@, c),
        r <= s@.len(),
        r < s@.len() ==> s@[r as int] == c,
        forall|i: int| 0 <= i < r ==> #[trigger] s@[i] != c,
{
    let mut i: usize = 0;
    assert(s@.skip(0) == s@);
    while i < s.len() && s[i] != c
        invariant
            i <= s.len(),
            position(s@, c) == i + position(s@.skip(i as int), c),
            forall|j: int| 0 <= j < i ==> #[trigger] s@[j] != c,
        decreases s.len() - i,
    {
        assert(s@.skip(i as int).drop_first() == s@.skip(i + 1));
        i = i + 1;
    }
    i
}

/// The lines of a text, as split at line feeds. A carriage return before a
/// line feed belongs to the line's end, and an empty last line does not count.
pub open spec fn lines(s: Seq<char>) -> Seq<Seq<char>> {
    let pieces = split(s, Separator::Char('\n'));
    let ended = pieces.drop_last().map_values(|p: Seq<char>| without_return(p));
    if pieces.last().len() == 0 {
        ended
    } else {
        ended.push(pieces.last())
    }
}

/// A line without one carriage return at its end.
pub open spec fn without_return(p: Seq<char>) -> Seq<char> {
    if p.len() > 0 && p.last() == '\r' {
        p.drop_last()
    } else {
        p
    }
}

/// A text has at least one piece.
pub proof fn split_is_not_empty(s: Seq<char>, sep: Separator)
    ensures
        split(s, sep).len() > 0,
    decreases s.len(),
{
    if s.len() > 0 {
        split_is_not_empty(s.drop_last(), sep);
    }
}

/// Cuts a text into lines.
pub fn lines_of(s: &str) -> (r: Vec<String>)
    ensures
        views(r@) == lines(s@),
{
    let all = chars_of(s);
    let pieces = split_chars(all.as_slice(), Separator::Char('\n'));
    let ghost pv = split(s@, Separator::Char('\n'));
    proof {
        split_is_not_empty(s@, Separator::Char('\n'));
        assert(pv.len() == pieces@.len());
    }
    let last: usize = pieces.len() - 1;
    let mut r: Vec<String> = Vec::new();
    let mut i: usize = 0;
    while i < last
        invariant
            i <= last,
            last == pieces@.len() - 1,
            views(pieces@) == pv,
            r@.len() == i,
            forall|j: int| 0 <= j < i ==> (#[trigger] r@[j])@ == without_return(pv[j]),
        decreases last - i,
    {
        let p = chars_of(pieces[i].as_str());
        assert(p@ == pv[i as int]);
        let n: usize = p.len();
        if n > 0 && p[n - 1] == '\r' {
            let part = slice_subrange(p.as_slice(), 0, n - 1);
            assert(part@ == p@.drop_last());
            r.push(string_of(part));
        } else {
            r.push(string_of(p.as_slice()));
        }
        i = i + 1;
    }
    let ghost ended = pv.drop_last().map_values(|p: Seq<char>| without_return(p));
    assert(views(r@) == ended);
    assert(pieces@[last as int]@ == pv.last());
    if !pieces[last].as_str().is_empty() {
        let ghost head = r@;
        r.push(pieces[last].clone());
        assert(views(r@) == views(head).push(pv.last()));
    }
    r
}

/// Whether `needle` stands in `hay` at position `i`.
pub open spec fn occurs_at(hay: Seq<char>, needle: Seq<char>, i: int) -> bool {
    &&& 0 <= i
    &&& i + needle.len() <= hay.len()
    &&& hay.subrange(i, i + needle.len()) == needle
}

/// Whether `needle` stands in `hay` somewhere.
pub open spec fn contains(hay: Seq<char>, needle: Seq<char>) -> bool {
    exists|i: int| occurs_at(hay, needle, i)
}

/// Whether `needle` stands in `hay` at position `i`.
pub fn occurs(hay: &[char], needle: &[char], i: usize) -> (r: bool)
    ensures
        r == occurs_at(hay@, needle@, i as int),
{
    if i > hay.len() || needle.len() > hay.len() - i {
        return false;
    }
    same_chars(slice_subrange(hay, i, i + needle.len()), needle)
}

/// The first position at which `needle` stands in `hay`.
pub fn find_chars(hay: &[char], needle: &[char]) -> (r: Option<usize>)
    ensures
        r is None ==> !contains(hay@, needle@),
        r matches Some(p) ==> occurs_at(hay@, needle@, p as int) && forall|j: int|
            0 <= j < p ==> !#[trigger] occurs_at(hay@, needle@, j),
{
    if needle.len() > hay.len() {
        return None;
    }
    let last: usize = hay.len() - needle.len();
    let mut i: usize = 0;
    while i < last
        invariant
            i <= last,
            last == hay@.len() - needle@.len(),
            forall|j: int| 0 <= j < i ==> !#[trigger] occurs_at(hay@, needle@, j),
        decreases last - i,
    {
        if occurs(hay, needle, i) {
            return Some(i);
        }
        i = i + 1;
    }
    if occurs(hay, needle, last) {
        Some(last)
    } else {
        None
    }
}

/// Whether `needle` stands in `hay` somewhere.
pub fn contains_str(hay: &str, needle: &str) -> (r: bool)
    ensures
        r == contains(hay@, needle@),
{
    find_chars(chars_of(hay).as_slice(), chars_of(needle).as_slice()).is_some()
}

/// Whether `s` begins with `prefix`.
pub fn starts_with(s: &str, prefix: &str) -> (r: bool)
    ensures
        r == prefix@.is_prefix_of(s@),
{
    let sv = chars_of(s);
    let pv = chars_of(prefix);
    starts_with_chars(sv.as_slice(), pv.as_slice())
}

/// Whether `s` begins with `prefix`.
pub fn starts_with_chars(s: &[char], prefix: &[char]) -> (r: bool)
    ensures
        r == prefix@.is_prefix_of(s@),
{
    occurs(s, prefix, 0)
}

/// The number of a character.
pub fn code_point(c: char) -> (r: u32)
    ensures
        r as int == c as int,
{
    c as u32
}

/// Code-point order of two texts, which is also the order of their UTF-8 bytes.
pub open spec fn precedes(a: Seq<char>, b: Seq<char>) -> bool
    decreases a.len(),
{
    if b.len() == 0 {
        false
    } else if a.len() == 0 {
        true
    } else if a[0] == b[0] {
        precedes(a.drop_first(), b.drop_first())
    } else {
        (a[0] as int) < (b[0] as int)
    }
}

/// Whether one text comes before another.
pub fn comes_before(a: &[char], b: &[char]) -> (r: bool)
    ensures
        r == precedes(a@, b@),
{
    let mut i: usize = 0;
    assert(a@.skip(0) == a@ && b@.skip(0) == b@);
    while i < a.len() && i < b.len()
        invariant
            i <= a.len(),
            i <= b.len(),
            precedes(a@, b@) == precedes(a@.skip(i as int), b@.skip(i as int)),
        decreases a.len() - i,
    {
        let x: u32 = code_point(a[i]);
        let y: u32 = code_point(b[i]);
        if x < y {
            return true;
        }
        if y < x {
            return false;
        }
        assert(a@.skip(i as int).drop_first() == a@.skip(i + 1));
        assert(b@.skip(i as int).drop_first() == b@.skip(i + 1));
        i = i + 1;
    }
    i < b.len()
}

/// Texts are totally ordered: exactly one of `a` before `b`, `b` before `a`
/// and `a` equal to `b` holds.
pub proof fn order_is_total(a: Seq<char>, b: Seq<char>)
    ensures
        precedes(a, b) ==> !precedes(b, a) && a != b,
        a == b ==> !precedes(a, b),
        a != b ==> precedes(a, b) || precedes(b, a),
    decreases a.len(),
{
    if a.len() > 0 && b.len() > 0 && a[0] == b[0] {
        order_is_total(a.drop_first(), b.drop_first());
        assert(a == seq![a[0]] + a.drop_first());
        assert(b == seq![b[0]] + b.drop_first());
    } else if a.len() == 0 && b.len() == 0 {
        assert(a == b);
    }
}

/// The order of texts is transitive.
pub proof fn order_is_transitive(a: Seq<char>, b: Seq<char>, c: Seq<char>)
    requires
        precedes(a, b),
        precedes(b, c),
    ensures
        precedes(a, c),
    decreases a.len(),
{
    if a.len() > 0 && b.len() > 0 && c.len() > 0 && a[0] == b[0] && b[0] == c[0] {
        order_is_transitive(a.drop_first(), b.drop_first(), c.drop_first());
    }
}

/// The decimal digit for a value below ten.
pub open spec fn digit(d: nat) -> char {
    (48 + d) as char
}

/// A natural number in decimal.
pub open spec fn decimal(n: nat) -> Seq<char>
    decreases n,
{
    if n < 10 {
        seq![digit(n)]
    } else {
        decimal(n / 10).push(digit(n % 10))
    }
}

/// An integer in decimal, with a leading minus sign below zero.
pub open spec fn signed_decimal(n: int) -> Seq<char> {
    if n < 0 {
        seq!['-'] + decimal((-n) as nat)
    } else {
        decimal(n as nat)
    }
}

/// Writes a natural number in decimal.
pub fn decimal_string(n: u128) -> (r: String)
    ensures
        r@ == decimal(n as nat),
    decreases n,
{
    let mut r = if n < 10 {
        String::new()
    } else {
        decimal_string(n / 10)
    };
    let d: u8 = (n % 10) as u8;
    r.push((48 + d) as char);
    r
}

/// Writes an integer in decimal.
pub fn signed_decimal_string(n: i128) -> (r: String)
    requires
        n > i128::MIN,
    ensures
        r@ == signed_decimal(n as int),
{
    if n < 0 {
        let mut r = String::new();
        r.push('-');
        let digits = decimal_string((-n) as u128);
        r.append(digits.as_str());
        r
    } else {
        decimal_string(n as u128)
    }
}

/// No piece of a text holds a separator.
pub proof fn pieces_hold_no_separator(s: Seq<char>, sep: Separator)
    ensures
        split(s, sep).len() > 0,
        forall|i: int, j: int|
            0 <= i < split(s, sep).len() && 0 <= j < split(s, sep)[i].len() ==> !sep.cuts(
                #[trigger] split(s, sep)[i][j],
            ),
    decreases s.len(),
{
    if s.len() > 0 {
        let front = s.drop_last();
        pieces_hold_no_separator(front, sep);
        let before = split(front, sep);
        let all = split(s, sep);
        assert forall|i: int, j: int| 0 <= i < all.len() && 0 <= j < all[i].len() implies !sep.cuts(
            #[trigger] all[i][j],
        ) by {
            if sep.cuts(s.last()) {
                if i < before.len() {
                    assert(all[i] == before[i]);
                    assert(!sep.cuts(before[i][j]));
                }
            } else if i < before.len() - 1 {
                assert(all[i] == before[i]);
                assert(!sep.cuts(before[i][j]));
            } else {
                assert(all[i] == before.last().push(s.last()));
                if j < before.last().len() {
                    assert(!sep.cuts(before[before.len() - 1][j]));
                }
            }
        }
    }
}

/// The words of a text are not empty and hold no separator.
pub proof fn words_hold_no_separator(s: Seq<char>, sep: Separator, i: int)
    requires
        0 <= i < words(s, sep).len(),
    ensures
        words(s, sep)[i].len() > 0,
        forall|j: int| 0 <= j < words(s, sep)[i].len() ==> !sep.cuts(#[trigger] words(s, sep)[i][j]),
{
    let keep = |w: Seq<char>| w.len() > 0;
    let all = split(s, sep);
    let some = all.filter(keep);
    all.lemma_filter_pred(keep, i);
    assert(some.contains(some[i]));
    all.lemma_filter_contains_rev(keep, some[i]);
    let k = choose|k: int| 0 <= k < all.len() && all[k] == some[i];
    pieces_hold_no_separator(s, sep);
    assert forall|j: int| 0 <= j < some[i].len() implies !sep.cuts(#[trigger] some[i][j]) by {
        assert(all[k][j] == some[i][j]);
    }
}

/// Texts one after the other with a separator between them.
pub open spec fn joined_by(parts: Seq<Seq<char>>, sep: Seq<char>) -> Seq<char>
    decreases parts.len(),
{
    if parts.len() == 0 {
        Seq::empty()
    } else if parts.len() == 1 {
        parts[0]
    } else {
        joined_by(parts.drop_last(), sep) + sep + parts.last()
    }
}

/// Joins texts with a separator between them.
pub fn join_texts(parts: &Vec<String>, sep: &str) -> (r: String)
    ensures
        r@ == joined_by(views(parts@), sep@),
{
    let ghost pv = views(parts@);
    let mut r = String::new();
    let mut i: usize = 0;
    assert(r@ == joined_by(pv.take(0), sep@));
    while i < parts.len()
        invariant
            i <= parts@.len(),
            pv == views(parts@),
            r@ == joined_by(pv.take(i as int), sep@),
        decreases parts.len() - i,
    {
        proof {
            assert(pv.take(i + 1).drop_last() == pv.take(i as int));
            assert(pv.take(i + 1).last() == parts@[i as int]@);
        }
        if i > 0 {
            r.append(sep);
        } else {
            assert(pv.take(1)[0] == parts@[0]@);
        }
        r.append(parts[i].as_str());
        i = i + 1;
    }
    assert(pv.take(pv.len() as int) == pv);
    r
}

/// The value of a decimal digit.
pub open spec fn digit_value(c: char) -> Option<int> {
    if 48 <= c as int <= 57 {
        Some(c as int - 48)
    } else {
        None
    }
}

/// The number that digits stand for; none if there are none or something else
/// stands among them.
pub open spec fn digits_value(s: Seq<char>) -> Option<int>
    decreases s.len(),
{
    if s.len() == 0 {
        None
    } else if s.len() == 1 {
        digit_value(s[0])
    } else {
        match (digits_value(s.drop_last()), digit_value(s.last())) {
            (Some(n), Some(d)) => Some(n * 10 + d),
            _ => None,
        }
    }
}

/// The 32-bit number that a text stands for: digits, a plus sign in front of
/// them or not.
pub open spec fn number_in(s: Seq<char>) -> Option<u32> {
    let digits = if s.len() > 0 && s[0] == '+' {
        s.drop_first()
    } else {
        s
    };
    match digits_value(digits) {
        Some(n) => if n <= u32::MAX {
            Some(n as u32)
        } else {
            None
        },
        None => None,
    }
}

/// Digits stand for a number that grows with each of them.
proof fn digits_grow(s: Seq<char>, n: int)
    requires
        0 < n <= s.len(),
        digits_value(s) is Some,
    ensures
        digits_value(s.take(n)) is Some,
        0 <= digits_value(s.take(n))->0 <= digits_value(s)->0,
    decreases s.len(),
{
    if n == s.len() {
        assert(s.take(n) == s);
        if s.len() > 1 {
            digits_grow(s.drop_last(), s.len() - 1);
            assert(s.drop_last().take(s.len() - 1) == s.drop_last());
        }
    } else {
        assert(s.drop_last().take(n) == s.take(n));
        digits_grow(s.drop_last(), n);
    }
}

/// Reads a 32-bit number.
pub fn parse_number(text: &str) -> (r: Option<u32>)
    ensures
        r == number_in(text@),
{
    let all = chars_of(text);
    let from: usize = if all.len() > 0 && all[0] == '+' {
        1
    } else {
        0
    };
    let s = slice_subrange(all.as_slice(), from, all.len());
    let ghost sv = s@;
    assert(from == 1 ==> sv == text@.drop_first());
    assert(from == 0 ==> sv == text@);
    if s.len() == 0 {
        return None;
    }
    let mut n: u64 = 0;
    let mut i: usize = 0;
    while i < s.len()
        invariant
            i <= s@.len(),
            s@ == sv,
            sv == (if text@.len() > 0 && text@[0] == '+' {
                text@.drop_first()
            } else {
                text@
            }),
            n <= u32::MAX,
            i > 0 ==> digits_value(sv.take(i as int)) == Some(n as int),
            i == 0 ==> n == 0,
        decreases s.len() - i,
    {
        let c: u32 = code_point(s[i]);
        proof {
            let part = sv.take(i + 1);
            assert(part.drop_last() == sv.take(i as int));
            assert(part.last() == sv[i as int]);
            assert(part[0] == sv[0]);
        }
        if c < 48 || c > 57 {
            proof {
                if digits_value(sv) is Some {
                    digits_grow(sv, i + 1);
                }
            }
            return None;
        }
        n = n * 10 + (c - 48) as u64;
        assert(digits_value(sv.take(i + 1)) == Some(n as int));
        if n > 0xffff_ffff {
            proof {
                if digits_value(sv) is Some {
                    digits_grow(sv, i + 1);
                }
            }
            return None;
        }
        i = i + 1;
    }
    assert(sv.take(sv.len() as int) == sv);
    Some(n as u32)
}

/// The position of a character is the first at which it stands, or the length.
pub proof fn position_is_first(s: Seq<char>, c: char)
    ensures
        0 <= position(s, c) <= s.len(),
        position(s, c) < s.len() ==> s[position(s, c)] == c,
        forall|i: int| 0 <= i < position(s, c) ==> #[trigger] s[i] != c,
    decreases s.len(),
{
    if s.len() > 0 && s[0] != c {
        let rest = s.drop_first();
        position_is_first(rest, c);
        assert forall|i: int| 0 <= i < position(s, c) implies #[trigger] s[i] != c by {
            if i > 0 {
                assert(rest[i - 1] == s[i]);
            }
        }
    }
}

/// A text holds whatever stands between two others in it.
pub proof fn middle_is_contained(a: Seq<char>, needle: Seq<char>, b: Seq<char>)
    ensures
        contains(a + needle + b, needle),
{
    let hay = a + needle + b;
    assert(hay.subrange(a.len() as int, (a.len() + needle.len()) as int) =~= needle);
    assert(occurs_at(hay, needle, a.len() as int));
}

/// What a text holds stands between two others in it.
pub proof fn contained_is_middle(hay: Seq<char>, needle: Seq<char>)
    requires
        contains(hay, needle),
    ensures
        exists|a: Seq<char>, b: Seq<char>| hay == #[trigger] (a + needle + b),
{
    let i = choose|i: int| occurs_at(hay, needle, i);
    let a = hay.take(i);
    let b = hay.skip(i + needle.len());
    assert(hay =~= a + needle + b);
}

proof fn trim_start_is_rest(s: Seq<char>) -> (i: int)
    ensures
        0 <= i <= s.len(),
        trim_start(s) == s.skip(i),
        forall|k: int| 0 <= k < i ==> whitespace(#[trigger] s[k]),
        i < s.len() ==> !whitespace(s[i]),
    decreases s.len(),
{
    if s.len() > 0 && whitespace(s[0]) {
        let rest = s.drop_first();
        let i = trim_start_is_rest(rest);
        assert(rest.skip(i) =~= s.skip(i + 1));
        assert forall|k: int| 0 <= k < i + 1 implies whitespace(#[trigger] s[k]) by {
            if k > 0 {
                assert(rest[k - 1] == s[k]);
            }
        }
        i + 1
    } else {
        assert(s.skip(0) =~= s);
        0
    }
}

proof fn trim_end_is_front(s: Seq<char>) -> (j: int)
    ensures
        0 <= j <= s.len(),
        trim_end(s) == s.take(j),
        forall|k: int| j <= k < s.len() ==> whitespace(#[trigger] s[k]),
        j > 0 ==> !whitespace(s[j - 1]),
    decreases s.len(),
{
    if s.len() > 0 && whitespace(s.last()) {
        let front = s.drop_last();
        let j = trim_end_is_front(front);
        assert(front.take(j) =~= s.take(j));
        assert forall|k: int| j <= k < s.len() implies whitespace(#[trigger] s[k]) by {
            if k < front.len() {
                assert(front[k] == s[k]);
            }
        }
        j
    } else {
        assert(s.take(s.len() as int) =~= s);
        s.len() as int
    }
}

/// Trimming takes off all white space at both ends of a text and nothing else.
pub proof fn trim_takes_off_white_space(s: Seq<char>)
    ensures
        exists|i: int, j: int|
            0 <= i <= j <= s.len() && trim(s) == #[trigger] s.subrange(i, j) && (forall|k: int|
                (0 <= k < i || j <= k < s.len()) ==> whitespace(#[trigger] s[k])),
        trim(s).len() > 0 ==> !whitespace(trim(s)[0]) && !whitespace(trim(s).last()),
{
    let i = trim_start_is_rest(s);
    let rest = s.skip(i);
    let n = trim_end_is_front(rest);
    let j = i + n;
    assert(rest.take(n) =~= s.subrange(i, j));
    assert forall|k: int| (0 <= k < i || j <= k < s.len()) implies whitespace(#[trigger] s[k]) by {
        if k >= j {
            assert(rest[k - i] == s[k]);
        }
    }
    assert(trim(s) == s.subrange(i, j));
    if n > 0 {
        assert(trim(s)[0] == s[i]);
        assert(trim(s).last() == rest[n - 1]);
    }
}

/// The pieces of a text with their separator between them are the text.
pub proof fn pieces_make_the_text(s: Seq<char>, c: char)
    ensures
        joined_by(split(s, Separator::Char(c)), seq![c]) == s,
    decreases s.len(),
{
    let sep = Separator::Char(c);
    if s.len() > 0 {
        let before = split(s.drop_last(), sep);
        let all = split(s, sep);
        split_is_not_empty(s.drop_last(), sep);
        pieces_make_the_text(s.drop_last(), c);
        if s.last() == c {
            assert(all.drop_last() =~= before);
            assert(joined_by(all, seq![c]) =~= s.drop_last().push(c));
        } else {
            assert(all.drop_last() =~= before.drop_last());
            if before.len() == 1 {
                assert(joined_by(before, seq![c]) == before[0]);
                assert(joined_by(all, seq![c]) =~= s);
            } else {
                assert(joined_by(all, seq![c]) =~= joined_by(before, seq![c]).push(s.last()));
            }
        }
        assert(s.drop_last().push(s.last()) =~= s);
    } else {
        assert(joined_by(split(s, sep), seq![c]) =~= s);
    }
}

/// A separator cuts a text in two, each with its own pieces.
pub proof fn separator_cuts(a: Seq<char>, c: char, b: Seq<char>, sep: Separator)
    requires
        sep.cuts(c),
    ensures
        split(a.push(c) + b, sep) == split(a, sep) + split(b, sep),
    decreases b.len(),
{
    let s = a.push(c) + b;
    split_is_not_empty(b, sep);
    if b.len() == 0 {
        assert(s.drop_last() =~= a);
        assert(split(s, sep) =~= split(a, sep) + split(b, sep));
    } else {
        let front = b.drop_last();
        separator_cuts(a, c, front, sep);
        split_is_not_empty(front, sep);
        assert(s.drop_last() =~= a.push(c) + front);
        assert(s.last() == b.last());
        let part = split(front, sep);
        let whole = split(a, sep) + part;
        if sep.cuts(b.last()) {
            assert(whole.push(Seq::<char>::empty()) =~= split(a, sep) + part.push(
                Seq::<char>::empty(),
            ));
        } else {
            assert(whole.last() == part.last());
            assert(whole.drop_last().push(whole.last().push(b.last())) =~= split(a, sep)
                + part.drop_last().push(part.last().push(b.last())));
        }
    }
}

/// A text without separators is one piece.
pub proof fn whole_is_one_piece(s: Seq<char>, sep: Separator)
    requires
        forall|i: int| 0 <= i < s.len() ==> !sep.cuts(#[trigger] s[i]),
    ensures
        split(s, sep) == seq![s],
    decreases s.len(),
{
    if s.len() > 0 {
        let front = s.drop_last();
        assert forall|i: int| 0 <= i < front.len() implies !sep.cuts(#[trigger] front[i]) by {
            assert(front[i] == s[i]);
        }
        whole_is_one_piece(front, sep);
        assert(front.push(s.last()) =~= s);
        assert(seq![front].drop_last().push(s) =~= seq![s]);
    } else {
        assert(s =~= Seq::<char>::empty());
    }
}

/// The words of a text cut in two by a separator are those of its two parts.
pub proof fn words_are_those_of_parts(a: Seq<char>, c: char, b: Seq<char>, sep: Separator)
    requires
        sep.cuts(c),
    ensures
        words(a.push(c) + b, sep) == words(a, sep) + words(b, sep),
{
    let keep = |w: Seq<char>| w.len() > 0;
    separator_cuts(a, c, b, sep);
    Seq::filter_distributes_over_add(split(a, sep), split(b, sep), keep);
}

/// A text without separators is its own only word, unless it is empty.
pub proof fn word_is_its_own(s: Seq<char>, sep: Separator)
    requires
        forall|i: int| 0 <= i < s.len() ==> !sep.cuts(#[trigger] s[i]),
    ensures
        s.len() > 0 ==> words(s, sep) == seq![s],
        s.len() == 0 ==> words(s, sep).len() == 0,
{
    reveal(Seq::filter);
    whole_is_one_piece(s, sep);
    let keep = |w: Seq<char>| w.len() > 0;
    assert(seq![s].drop_last() =~= Seq::<Seq<char>>::empty());
    assert(seq![s].last() == s);
    assert(seq![s].filter(keep) == if keep(s) {
        Seq::<Seq<char>>::empty().filter(keep).push(s)
    } else {
        Seq::<Seq<char>>::empty().filter(keep)
    });
    assert(s.len() > 0 ==> words(s, sep) =~= seq![s]);
}

/// A line feed ends a line: the line before it, without a carriage return at
/// its end, comes first, and those of the rest follow.
pub proof fn line_feed_ends_a_line(a: Seq<char>, b: Seq<char>)
    requires
        !a.contains('\n'),
    ensures
        lines(a.push('\n') + b) == seq![without_return(a)] + lines(b),
{
    let sep = Separator::Char('\n');
    assert forall|i: int| 0 <= i < a.len() implies !sep.cuts(#[trigger] a[i]) by {
        assert(a.contains(a[i]));
    }
    whole_is_one_piece(a, sep);
    separator_cuts(a, '\n', b, sep);
    split_is_not_empty(b, sep);
    let rest = split(b, sep);
    let all = seq![a] + rest;
    assert(all.last() == rest.last());
    assert(all.drop_last() =~= seq![a] + rest.drop_last());
    let f = |p: Seq<char>| without_return(p);
    assert(all.drop_last().map_values(f) =~= seq![without_return(a)]
        + rest.drop_last().map_values(f));
    assert(lines(a.push('\n') + b) =~= seq![without_return(a)] + lines(b));
}

/// What follows the last line feed is a line unless it is empty.
pub proof fn last_line_needs_no_end(a: Seq<char>)
    requires
        !a.contains('\n'),
    ensures
        a.len() > 0 ==> lines(a) == seq![a],
        a.len() == 0 ==> lines(a).len() == 0,
{
    let sep = Separator::Char('\n');
    assert forall|i: int| 0 <= i < a.len() implies !sep.cuts(#[trigger] a[i]) by {
        assert(a.contains(a[i]));
    }
    whole_is_one_piece(a, sep);
    assert(a.len() > 0 ==> lines(a) =~= seq![a]);
}

/// One text comes before another exactly if it is a front part of it and
/// shorter, or if at the first place where they differ its character is the
/// smaller one.
pub proof fn order_goes_by_first_difference(a: Seq<char>, b: Seq<char>, i: int)
    requires
        0 <= i <= a.len(),
        i <= b.len(),
        a.take(i) == b.take(i),
    ensures
        i == a.len() ==> precedes(a, b) == (i < b.len()),
        i == b.len() ==> !precedes(a, b),
        i < a.len() && i < b.len() && a[i] != b[i] ==> precedes(a, b) == ((a[i] as int) < (
        b[i] as int)),
    decreases i,
{
    if i > 0 {
        assert(a.take(i)[0] == a[0] && b.take(i)[0] == b[0]);
        let (x, y) = (a.drop_first(), b.drop_first());
        assert(x.take(i - 1) =~= a.take(i).drop_first());
        assert(y.take(i - 1) =~= b.take(i).drop_first());
        order_goes_by_first_difference(x, y, i - 1);
    }
}

/// Reading a number in decimal gives the number back, and it has no leading
/// zero.
pub proof fn decimal_is_read_back(n: nat)
    ensures
        digits_value(decimal(n)) == Some(n as int),
        decimal(n).len() > 0,
        decimal(n).len() > 1 ==> decimal(n)[0] != '0',
        forall|i: int| 0 <= i < decimal(n).len() ==> '0' <= #[trigger] decimal(n)[i] <= '9',
    decreases n,
{
    if n >= 10 {
        decimal_is_read_back(n / 10);
        let d = decimal(n);
        assert(d.drop_last() =~= decimal(n / 10));
        assert(d[0] == decimal(n / 10)[0]);
        assert(d.last() == digit(n % 10));
        assert(digit_value(d.last()) == Some((n % 10) as int));
        if n / 10 < 10 {
            assert(decimal(n / 10) == seq![digit(n / 10)]);
        }
        assert forall|i: int| 0 <= i < d.len() implies '0' <= #[trigger] d[i] <= '9' by {
            if i < d.len() - 1 {
                assert(d[i] == decimal(n / 10)[i]);
            }
        }
    }
}

/// A 32-bit number in decimal, with a plus sign in front or without, is read
/// back, and a larger one is refused.
pub proof fn number_is_read_back(n: nat)
    ensures
        n <= u32::MAX ==> number_in(decimal(n)) == Some(n as u32) && number_in(
            seq!['+'] + decimal(n),
        ) == Some(n as u32),
        n > u32::MAX ==> number_in(decimal(n)) is None,
{
    decimal_is_read_back(n);
    assert(decimal(n)[0] >= '0');
    assert((seq!['+'] + decimal(n)).drop_first() =~= decimal(n));
}

/// A text in which something else than digits stands, or nothing, is no number.
pub proof fn other_text_is_no_number(s: Seq<char>, i: int)
    requires
        0 <= i < s.len(),
        s[i] < '0' || s[i] > '9',
        i > 0 || s[0] != '+',
    ensures
        number_in(s) is None,
{
    let digits = if s[0] == '+' {
        s.drop_first()
    } else {
        s
    };
    let k = if s[0] == '+' {
        i - 1
    } else {
        i
    };
    assert(digits[k] == s[i]);
    if digits_value(digits) is Some {
        digits_grow(digits, k + 1);
        assert(digits.take(k + 1).last() == s[i]);
    }
}

/// The letters A to Z lose their case, every other character stays.
pub proof fn letters_lose_their_case(s: Seq<char>, i: int)
    requires
        0 <= i < s.len(),
    ensures
        ascii_lower(s).len() == s.len(),
        'A' <= s[i] <= 'Z' ==> ascii_lower(s)[i] as int == s[i] as int + ('a' as int - 'A' as int),
        !('A' <= s[i] <= 'Z') ==> ascii_lower(s)[i] == s[i],
{
}

/// A carriage return at the end of a line is taken off once, and nothing else.
pub proof fn one_return_is_taken_off(a: Seq<char>)
    ensures
        without_return(a.push('\r')) == a,
        a.len() == 0 || a.last() != '\r' ==> without_return(a) == a,
{
    assert(a.push('\r').drop_last() =~= a);
}

/// A negative number is written with a minus sign before its digits, any other
/// without a sign.
pub proof fn negative_numbers_have_a_sign(n: nat)
    ensures
        signed_decimal(n as int) == decimal(n),
        n > 0 ==> signed_decimal(-n) == seq!['-'] + decimal(n),
{
}

/// A text is cut at a given character, at white space, or at what is neither a
/// letter nor a digit.
pub proof fn separators_cut_their_characters(c: char, d: char)
    ensures
        Separator::Char(d).cuts(c) <==> c == d,
        Separator::Whitespace.cuts(c) <==> whitespace(c),
        Separator::NonAlphanumeric.cuts(c) <==> !alphanumeric(c),
{
}

/// White space are the space, the no-break, the line and paragraph and all wide
/// spaces, tabs and line ends; no printing ASCII character is.
pub proof fn spaces_and_line_ends_are_white_space(c: char)
    ensures
        c == ' ' || c == '\t' || c == '\n' || c == '\r' || c == '\u{b}' || c == '\u{c}' || c
            == '\u{85}' || c == '\u{a0}' || c == '\u{1680}' || c == '\u{2028}' || c == '\u{2029}'
            || c == '\u{202f}' || c == '\u{205f}' || c == '\u{3000}' || '\u{2000}' <= c <= '\u{200a}'
            ==> whitespace(c),
        '!' <= c <= '~' ==> !whitespace(c),
        c < '\t' || '\r' < c < ' ' || c > '\u{3000}' ==> !whitespace(c),
{
}

} // verus!
