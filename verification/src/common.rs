//! Shared by launcher and clipboard: matching, display lines, keys, lists.

use crate::keyfile::text_of;
use crate::order::ints;
use crate::text::{
    ascii, ascii_lower, chars_of, code_point, contains, find_chars, from_utf8_lossy, is_whitespace,
    lossy, lowercase, occurs_at, same, separator_cuts, split, split_chars, split_is_not_empty,
    string_of, to_lowercase, trim, trim_chars, trim_start, trim_start_chars, views, whitespace,
    whole_is_one_piece, word_is_its_own, words, words_are_those_of_parts, Separator,
};
use vstd::prelude::*;
use vstd::slice::slice_subrange;
use vstd::utf8::{encode_scalar, encode_utf8};

verus! {

/// Number of bytes of a character in UTF-8.
pub open spec fn width(c: char) -> nat {
    if (c as int) < 0x80 {
        1
    } else if (c as int) < 0x800 {
        2
    } else if (c as int) < 0x10000 {
        3
    } else {
        4
    }
}

/// Number of bytes of a text in UTF-8.
pub open spec fn byte_len(s: Seq<char>) -> nat
    decreases s.len(),
{
    if s.len() == 0 {
        0
    } else {
        byte_len(s.drop_last()) + width(s.last())
    }
}

/// The byte at which the character at position `k` begins.
pub open spec fn offset(s: Seq<char>, k: int) -> nat {
    byte_len(s.take(k))
}

proof fn byte_len_from_front(s: Seq<char>)
    requires
        s.len() > 0,
    ensures
        byte_len(s) == width(s[0]) + byte_len(s.drop_first()),
    decreases s.len(),
{
    if s.len() == 1 {
        assert(s.drop_last() == Seq::<char>::empty());
        assert(s.drop_first() == Seq::<char>::empty());
    } else {
        byte_len_from_front(s.drop_last());
        assert(s.drop_last().drop_first() == s.drop_first().drop_last());
    }
}

/// The bytes of a text are as many as its encoding has.
pub proof fn byte_len_is_encoded_len(s: Seq<char>)
    ensures
        byte_len(s) == encode_utf8(s).len(),
    decreases s.len(),
{
    if s.len() > 0 {
        byte_len_from_front(s);
        byte_len_is_encoded_len(s.drop_first());
        encoded_width(s[0]);
    }
}

proof fn encoded_width(c: char)
    ensures
        encode_scalar(c as u32).len() == width(c),
{
}

/// Characters begin at ascending bytes, all before the end of the text.
pub proof fn offsets_ascend(s: Seq<char>, i: int, j: int)
    requires
        0 <= i <= j <= s.len(),
    ensures
        offset(s, i) + (j - i) <= offset(s, j),
        offset(s, j) <= byte_len(s),
    decreases s.len() - i,
{
    if i < j {
        assert(s.take(i + 1).drop_last() == s.take(i));
        offsets_ascend(s, i + 1, j);
    } else if j < s.len() {
        assert(s.take(j + 1).drop_last() == s.take(j));
        offsets_ascend(s, j + 1, j + 1);
    } else {
        assert(s.take(j) == s);
    }
}

fn char_width(c: char) -> (r: usize)
    ensures
        r == width(c),
{
    let n: u32 = code_point(c);
    if n < 0x80 {
        1
    } else if n < 0x800 {
        2
    } else if n < 0x10000 {
        3
    } else {
        4
    }
}

/// The bytes at which the characters of a text begin.
fn offsets_of(s: &str) -> (r: Vec<usize>)
    ensures
        r@.len() == s@.len(),
        forall|k: int| 0 <= k < r@.len() ==> #[trigger] r@[k] == offset(s@, k),
        byte_len(s@) <= usize::MAX,
{
    let chars = chars_of(s);
    let bytes = s.as_bytes();
    let total: usize = bytes.len();
    proof {
        byte_len_is_encoded_len(s@);
    }
    let mut r: Vec<usize> = Vec::new();
    let mut at: usize = 0;
    let mut i: usize = 0;
    assert(s@.take(0) == Seq::<char>::empty());
    while i < chars.len()
        invariant
            i <= chars@.len(),
            chars@ == s@,
            byte_len(s@) == total,
            at == offset(s@, i as int),
            r@.len() == i,
            forall|k: int| 0 <= k < i ==> #[trigger] r@[k] == offset(s@, k),
        decreases chars.len() - i,
    {
        proof {
            offsets_ascend(s@, i + 1, i + 1);
            assert(s@.take(i + 1).drop_last() == s@.take(i as int));
        }
        r.push(at);
        at = at + char_width(chars[i]);
        i = i + 1;
    }
    r
}

/// The positions at which the characters of `query` stand in `text` in
/// sequence, each as early as it can after the one before; as many as fit.
pub open spec fn sequential(text: Seq<char>, query: Seq<char>) -> Seq<int>
    decreases text.len(),
{
    if text.len() == 0 {
        Seq::empty()
    } else {
        let before = sequential(text.drop_last(), query);
        if before.len() < query.len() && text.last() == query[before.len() as int] {
            before.push(text.len() - 1)
        } else {
            before
        }
    }
}

/// Whether `p` is the first position at which `needle` stands in `hay`.
pub open spec fn first_occurrence(hay: Seq<char>, needle: Seq<char>, p: int) -> bool {
    occurs_at(hay, needle, p) && forall|j: int| 0 <= j < p ==> !#[trigger] occurs_at(hay, needle, j)
}

/// The positions of the characters of `text` that a query picks: those of its
/// first occurrence, else those of its characters in sequence if all are there.
pub open spec fn picked(text: Seq<char>, query: Seq<char>) -> Seq<int> {
    if contains(text, query) {
        let start = choose|p: int| first_occurrence(text, query, p);
        Seq::new(query.len(), |i: int| start + i)
    } else if sequential(text, query).len() == query.len() {
        sequential(text, query)
    } else {
        Seq::empty()
    }
}

/// Positions in a text as the bytes at which they begin.
pub open spec fn as_offsets(text: Seq<char>, positions: Seq<int>) -> Seq<int> {
    positions.map_values(|k: int| offset(text, k) as int)
}

proof fn lower_stays_ascii(s: Seq<char>)
    requires
        ascii(s),
    ensures
        ascii(ascii_lower(s)),
{
    assert forall|i: int| 0 <= i < s.len() implies (#[trigger] ascii_lower(s)[i] as int)
        < 0x80 by {
        assert((s[i] as int) < 0x80);
    }
}

/// The characters of ASCII text begin at the bytes of their positions.
proof fn ascii_offset(s: Seq<char>, k: int)
    requires
        ascii(s),
        0 <= k <= s.len(),
    ensures
        offset(s, k) == k,
    decreases k,
{
    if k > 0 {
        ascii_offset(s, k - 1);
        assert(s.take(k).drop_last() == s.take(k - 1));
        assert((s[k - 1] as int) < 0x80);
    }
}

proof fn ascii_offsets(s: Seq<char>, positions: Seq<int>)
    requires
        ascii(s),
        forall|i: int| 0 <= i < positions.len() ==> 0 <= #[trigger] positions[i] < s.len(),
    ensures
        as_offsets(s, positions) == positions,
{
    assert forall|i: int| 0 <= i < positions.len() implies as_offsets(s, positions)[i]
        == #[trigger] positions[i] by {
        ascii_offset(s, positions[i]);
    }
    assert(as_offsets(s, positions) =~= positions);
}

proof fn first_occurrence_is_unique(hay: Seq<char>, needle: Seq<char>, p: int)
    requires
        first_occurrence(hay, needle, p),
    ensures
        (choose|q: int| first_occurrence(hay, needle, q)) == p,
        contains(hay, needle),
{
    let q = choose|q: int| first_occurrence(hay, needle, q);
    assert(first_occurrence(hay, needle, q));
    assert(occurs_at(hay, needle, p) && occurs_at(hay, needle, q));
}

/// Finds the characters where the query matches, as a substring or else in
/// sequence, whatever the case. The result holds the bytes at which they begin
/// in the lower-case text, one for each character of the lower-case query, or
/// nothing where the query is empty or does not match.
pub fn match_indices(text: &str, query: &str) -> (r: Vec<usize>)
    ensures
        ints(r@) == (if query@.len() == 0 {
            Seq::empty()
        } else {
            as_offsets(lowercase(text@), picked(lowercase(text@), lowercase(query@)))
        }),
        query@.len() > 0 && ascii(text@) && ascii(query@) ==> ints(r@) == picked(
            ascii_lower(text@),
            ascii_lower(query@),
        ),
{
    let mut r: Vec<usize> = Vec::new();
    if query.is_empty() {
        assert(ints(r@) == Seq::<int>::empty());
        return r;
    }
    let text_lower = to_lowercase(text);
    let query_lower = to_lowercase(query);
    let t = chars_of(text_lower.as_str());
    let q = chars_of(query_lower.as_str());
    let offsets = offsets_of(text_lower.as_str());
    let ghost tv = lowercase(text@);
    let ghost qv = lowercase(query@);
    proof {
        if ascii(text@) {
            lower_stays_ascii(text@);
            picked_spells_query(tv, qv);
            ascii_offsets(tv, picked(tv, qv));
        }
    }
    match find_chars(t.as_slice(), q.as_slice()) {
        Some(start) => {
            proof {
                assert(first_occurrence(tv, qv, start as int));
                first_occurrence_is_unique(tv, qv, start as int);
            }
            let total: usize = offsets.len();
            let mut i: usize = 0;
            while i < q.len()
                invariant
                    i <= q@.len(),
                    start + q@.len() <= total == offsets@.len(),
                    offsets@.len() == tv.len(),
                    forall|k: int| 0 <= k < offsets@.len() ==> #[trigger] offsets@[k] == offset(tv, k),
                    r@.len() == i,
                    forall|k: int| 0 <= k < i ==> #[trigger] r@[k] == offset(tv, start + k),
                decreases q.len() - i,
            {
                r.push(offsets[start + i]);
                i = i + 1;
            }
            assert(ints(r@) =~= as_offsets(tv, picked(tv, qv)));
            return r;
        },
        None => {},
    }
    let mut positions: Vec<usize> = Vec::new();
    let mut i: usize = 0;
    assert(ints(positions@) == sequential(tv.take(0), qv));
    while i < t.len()
        invariant
            i <= t@.len(),
            t@ == tv,
            q@ == qv,
            ints(positions@) == sequential(tv.take(i as int), qv),
        decreases t.len() - i,
    {
        proof {
            assert(tv.take(i + 1).drop_last() == tv.take(i as int));
            assert(positions@.len() == sequential(tv.take(i as int), qv).len());
        }
        let ghost head = positions@;
        if positions.len() < q.len() && t[i] == q[positions.len()] {
            positions.push(i);
            assert(ints(positions@) == ints(head).push(i as int));
        }
        i = i + 1;
    }
    assert(tv.take(tv.len() as int) == tv);
    assert(positions@.len() == sequential(tv, qv).len());
    if positions.len() == q.len() {
        proof {
            sequential_is_in_range(tv, qv);
        }
        let mut k: usize = 0;
        while k < positions.len()
            invariant
                k <= positions@.len(),
                ints(positions@) == sequential(tv, qv),
                forall|j: int|
                    0 <= j < sequential(tv, qv).len() ==> 0 <= #[trigger] sequential(tv, qv)[j]
                        < tv.len(),
                offsets@.len() == tv.len(),
                forall|j: int| 0 <= j < offsets@.len() ==> #[trigger] offsets@[j] == offset(tv, j),
                r@.len() == k,
                forall|j: int|
                    0 <= j < k ==> #[trigger] r@[j] == offset(tv, positions@[j] as int),
            decreases positions.len() - k,
        {
            assert(sequential(tv, qv)[k as int] == positions@[k as int] as int);
            r.push(offsets[positions[k]]);
            k = k + 1;
        }
        assert(ints(r@) =~= as_offsets(tv, sequential(tv, qv)));
    } else {
        assert(ints(r@) =~= as_offsets(tv, Seq::empty()));
    }
    r
}

/// Characters in sequence stand at ascending positions of the text and are
/// those of the query.
pub proof fn sequential_is_in_range(text: Seq<char>, query: Seq<char>)
    ensures
        sequential(text, query).len() <= query.len(),
        forall|j: int|
            0 <= j < sequential(text, query).len() ==> 0 <= #[trigger] sequential(text, query)[j]
                < text.len() && text[sequential(text, query)[j]] == query[j],
        forall|i: int, j: int|
            0 <= i < j < sequential(text, query).len() ==> #[trigger] sequential(text, query)[i]
                < #[trigger] sequential(text, query)[j],
    decreases text.len(),
{
    if text.len() > 0 {
        let front = text.drop_last();
        sequential_is_in_range(front, query);
        let before = sequential(front, query);
        let s = sequential(text, query);
        assert forall|j: int| 0 <= j < s.len() implies 0 <= #[trigger] s[j] < text.len()
            && text[s[j]] == query[j] by {
            if j < before.len() {
                assert(s[j] == before[j]);
                assert(front[before[j]] == text[before[j]]);
            }
        }
        assert forall|i: int, j: int| 0 <= i < j < s.len() implies #[trigger] s[i]
            < #[trigger] s[j] by {
            assert(s[i] == before[i]);
            if j < before.len() {
                assert(s[j] == before[j]);
            }
        }
    }
}

/// What a query picks are its own characters, at ascending positions.
pub proof fn picked_spells_query(text: Seq<char>, query: Seq<char>)
    ensures
        picked(text, query).len() == 0 || picked(text, query).len() == query.len(),
        forall|i: int|
            0 <= i < picked(text, query).len() ==> 0 <= #[trigger] picked(text, query)[i]
                < text.len() && text[picked(text, query)[i]] == query[i],
        forall|i: int, j: int|
            0 <= i < j < picked(text, query).len() ==> #[trigger] picked(text, query)[i]
                < #[trigger] picked(text, query)[j],
{
    if contains(text, query) {
        let w = choose|i: int| occurs_at(text, query, i);
        first_occurrence_exists(text, query, w);
        let p = choose|p: int| first_occurrence(text, query, p);
        assert forall|i: int| 0 <= i < query.len() implies 0 <= #[trigger] picked(text, query)[i]
            < text.len() && text[picked(text, query)[i]] == query[i] by {
            assert(text.subrange(p, p + query.len())[i] == query[i]);
        }
    } else {
        sequential_is_in_range(text, query);
    }
}

proof fn first_occurrence_exists(text: Seq<char>, query: Seq<char>, w: int)
    requires
        occurs_at(text, query, w),
    ensures
        exists|p: int| first_occurrence(text, query, p),
    decreases w,
{
    if forall|j: int| 0 <= j < w ==> !#[trigger] occurs_at(text, query, j) {
        assert(first_occurrence(text, query, w));
    } else {
        let j = choose|j: int| 0 <= j < w && #[trigger] occurs_at(text, query, j);
        first_occurrence_exists(text, query, j);
    }
}

/// A piece of a text to be painted in one style.
pub struct Span {
    pub text: String,
    pub highlighted: bool,
}

/// What a span shows.
pub struct SpanView {
    pub text: Seq<char>,
    pub highlighted: bool,
}

impl View for Span {
    type V = SpanView;

    open spec fn view(&self) -> SpanView {
        SpanView { text: self.text@, highlighted: self.highlighted }
    }
}

/// What a list of spans shows.
pub open spec fn span_views(v: Seq<Span>) -> Seq<SpanView> {
    v.map_values(|s: Span| s@)
}

/// Whether positions ascend within a text.
pub open spec fn ascending_in(positions: Seq<int>, text: Seq<char>) -> bool {
    &&& forall|i: int| 0 <= i < positions.len() ==> 0 <= #[trigger] positions[i] < text.len()
    &&& forall|i: int, j: int|
        0 <= i < j < positions.len() ==> #[trigger] positions[i] < #[trigger] positions[j]
}

/// The position after the first `n` highlighted characters.
pub open spec fn reached(positions: Seq<int>, n: int) -> int {
    if n == 0 {
        0
    } else {
        positions[n - 1] + 1
    }
}

/// The spans up to the first `n` highlighted characters: each character by
/// itself, and what stands before it if there is anything.
pub open spec fn spans_to(text: Seq<char>, positions: Seq<int>, n: nat) -> Seq<SpanView>
    decreases n,
{
    if n == 0 {
        Seq::empty()
    } else {
        let from = reached(positions, n - 1);
        let at = positions[n - 1];
        let before = spans_to(text, positions, (n - 1) as nat);
        let gap = if from < at {
            before.push(SpanView { text: text.subrange(from, at), highlighted: false })
        } else {
            before
        };
        gap.push(SpanView { text: seq![text[at]], highlighted: true })
    }
}

/// The spans of a text whose characters at the given positions are highlighted.
pub open spec fn spans(text: Seq<char>, positions: Seq<int>) -> Seq<SpanView> {
    let from = reached(positions, positions.len() as int);
    let front = spans_to(text, positions, positions.len());
    if from < text.len() {
        front.push(SpanView { text: text.skip(from), highlighted: false })
    } else {
        front
    }
}

/// The texts of spans, one after the other.
pub open spec fn joined_text(s: Seq<SpanView>) -> Seq<char>
    decreases s.len(),
{
    if s.len() == 0 {
        Seq::empty()
    } else {
        joined_text(s.drop_last()) + s.last().text
    }
}

proof fn spans_to_keep_text(text: Seq<char>, positions: Seq<int>, n: nat)
    requires
        ascending_in(positions, text),
        n <= positions.len(),
    ensures
        joined_text(spans_to(text, positions, n)) == text.take(reached(positions, n as int)),
        0 <= reached(positions, n as int) <= text.len(),
    decreases n,
{
    if n == 0 {
        assert(text.take(0) == Seq::<char>::empty());
    } else {
        let m = (n - 1) as nat;
        spans_to_keep_text(text, positions, m);
        let from = reached(positions, m as int);
        let at = positions[m as int];
        if m > 0 {
            assert(positions[m - 1] < positions[m as int]);
        }
        let before = spans_to(text, positions, m);
        let piece = SpanView { text: text.subrange(from, at), highlighted: false };
        let one = SpanView { text: seq![text[at]], highlighted: true };
        assert(before.push(piece).drop_last() == before);
        assert(before.push(piece).push(one).drop_last() == before.push(piece));
        assert(before.push(one).drop_last() == before);
        assert(joined_text(before.push(piece)) == joined_text(before) + piece.text);
        assert(text.take(from) + text.subrange(from, at) == text.take(at));
        assert(text.take(at) + seq![text[at]] == text.take(at + 1));
    }
}

/// Highlighting leaves the text as it is.
pub proof fn spans_keep_text(text: Seq<char>, positions: Seq<int>)
    requires
        ascending_in(positions, text),
    ensures
        joined_text(spans(text, positions)) == text,
{
    let n = positions.len();
    spans_to_keep_text(text, positions, n);
    let from = reached(positions, n as int);
    let front = spans_to(text, positions, n);
    if from < text.len() {
        let rest = SpanView { text: text.skip(from), highlighted: false };
        assert(front.push(rest).drop_last() == front);
        assert(text.take(from) + text.skip(from) == text);
    } else {
        assert(text.take(from) == text);
    }
}

/// Cuts a text into spans, the characters at the given positions highlighted.
pub fn highlight(text: &str, positions: &Vec<usize>) -> (r: Vec<Span>)
    requires
        ascending_in(ints(positions@), text@),
    ensures
        span_views(r@) == spans(text@, ints(positions@)),
{
    let chars = chars_of(text);
    let total: usize = chars.len();
    let ghost ps = ints(positions@);
    let mut r: Vec<Span> = Vec::new();
    let mut last: usize = 0;
    let mut i: usize = 0;
    assert(span_views(r@) == spans_to(text@, ps, 0));
    while i < positions.len()
        invariant
            i <= positions@.len(),
            chars@ == text@,
            ps == ints(positions@),
            ascending_in(ps, text@),
            last == reached(ps, i as int),
            last <= total == chars@.len(),
            span_views(r@) == spans_to(text@, ps, i as nat),
        decreases positions.len() - i,
    {
        let at: usize = positions[i];
        assert(ps[i as int] == at);
        proof {
            if i > 0 {
                assert(ps[i - 1] < ps[i as int]);
            }
        }
        let ghost head = r@;
        if at > last {
            let part = slice_subrange(chars.as_slice(), last, at);
            r.push(Span { text: string_of(part), highlighted: false });
            assert(span_views(r@) == span_views(head).push(r@.last()@));
        }
        let ghost gap = r@;
        let one = slice_subrange(chars.as_slice(), at, at + 1);
        assert(one@ == seq![text@[at as int]]);
        r.push(Span { text: string_of(one), highlighted: true });
        assert(span_views(r@) == span_views(gap).push(r@.last()@));
        last = at + 1;
        i = i + 1;
    }
    if last < chars.len() {
        let ghost head = r@;
        let part = slice_subrange(chars.as_slice(), last, chars.len());
        assert(part@ == text@.skip(last as int));
        r.push(Span { text: string_of(part), highlighted: false });
        assert(span_views(r@) == span_views(head).push(r@.last()@));
    }
    r
}

/// Finds the positions of the characters that begin at the given bytes of a
/// text. Nothing is found unless the bytes ascend and each is the first of a
/// character.
pub fn char_positions(text: &str, offsets: &Vec<usize>) -> (r: Option<Vec<usize>>)
    ensures
        r matches Some(p) ==> ascending_in(ints(p@), text@) && as_offsets(
            text@,
            ints(p@),
        ) == ints(offsets@),
        r is None ==> forall|ps: Seq<int>|
            !(#[trigger] ascending_in(ps, text@) && as_offsets(text@, ps) == ints(offsets@)),
{
    let starts = offsets_of(text);
    let mut r: Vec<usize> = Vec::new();
    let mut k: usize = 0;
    let mut i: usize = 0;
    while i < offsets.len()
        invariant
            i <= offsets@.len(),
            k <= starts@.len(),
            starts@.len() == text@.len(),
            forall|j: int| 0 <= j < starts@.len() ==> #[trigger] starts@[j] == offset(text@, j),
            r@.len() == i,
            k == (if i == 0 {
                0
            } else {
                r@[i - 1] + 1
            }),
            forall|j: int| 0 <= j < i ==> #[trigger] r@[j] < k,
            forall|j: int| 0 <= j < i ==> offset(text@, #[trigger] r@[j] as int) == offsets@[j],
            forall|a: int, b: int| 0 <= a < b < i ==> #[trigger] r@[a] < #[trigger] r@[b],
        decreases offsets.len() - i,
    {
        let from: usize = k;
        while k < starts.len() && starts[k] != offsets[i]
            invariant
                from <= k <= starts@.len(),
                i < offsets@.len(),
                starts@.len() == text@.len(),
                forall|j: int| 0 <= j < starts@.len() ==> #[trigger] starts@[j] == offset(text@, j),
                forall|j: int| from <= j < k ==> #[trigger] starts@[j] != offsets@[i as int],
            decreases starts.len() - k,
        {
            k = k + 1;
        }
        if k >= starts.len() {
            proof {
                assert forall|ps: Seq<int>|
                    !(#[trigger] ascending_in(ps, text@) && as_offsets(text@, ps) == ints(
                        offsets@,
                    )) by {
                    if ascending_in(ps, text@) && as_offsets(text@, ps) == ints(offsets@) {
                        assert(as_offsets(text@, ps).len() == ps.len());
                        assert(as_offsets(text@, ps)[i as int] == offsets@[i as int]);
                        assert(starts@[ps[i as int]] == offsets@[i as int]);
                        if i > 0 {
                            assert(as_offsets(text@, ps)[i - 1] == ints(offsets@)[i - 1]);
                            same_offset(text@, ps[i - 1], r@[i - 1] as int);
                            assert(ps[i - 1] < ps[i as int]);
                        }
                    }
                }
            }
            return None;
        }
        r.push(k);
        k = k + 1;
        i = i + 1;
    }
    assert(as_offsets(text@, ints(r@)) =~= ints(offsets@));
    Some(r)
}

proof fn same_offset(s: Seq<char>, i: int, j: int)
    requires
        0 <= i <= s.len(),
        0 <= j <= s.len(),
        offset(s, i) == offset(s, j),
    ensures
        i == j,
{
    if i < j {
        offsets_ascend(s, i, j);
    } else {
        offsets_ascend(s, j, i);
    }
}

/// Whether positions of a text are those of the characters that begin at some
/// bytes.
pub open spec fn lands(text: Seq<char>, offsets: Seq<int>, positions: Seq<int>) -> bool {
    ascending_in(positions, text) && as_offsets(text, positions) == offsets
}

/// The positions of the characters that begin at some bytes, if each of these is
/// the first of a character.
pub open spec fn landing(text: Seq<char>, offsets: Seq<int>) -> Option<Seq<int>> {
    if exists|p: Seq<int>| lands(text, offsets, p) {
        Some(choose|p: Seq<int>| lands(text, offsets, p))
    } else {
        None
    }
}

/// Bytes lead to one list of positions only.
pub proof fn landing_is(text: Seq<char>, offsets: Seq<int>, positions: Seq<int>)
    requires
        lands(text, offsets, positions),
    ensures
        landing(text, offsets) == Some(positions),
{
    let p = choose|p: Seq<int>| lands(text, offsets, p);
    assert(lands(text, offsets, p));
    assert(as_offsets(text, p).len() == p.len());
    assert(as_offsets(text, positions).len() == positions.len());
    assert forall|i: int| 0 <= i < p.len() implies p[i] == positions[i] by {
        assert(as_offsets(text, p)[i] == as_offsets(text, positions)[i]);
        same_offset(text, p[i], positions[i]);
    }
    assert(p =~= positions);
}

/// The bytes of a text that a query picks.
pub open spec fn query_offsets(text: Seq<char>, query: Seq<char>) -> Seq<int> {
    if query.len() == 0 {
        Seq::empty()
    } else {
        as_offsets(lowercase(text), picked(lowercase(text), lowercase(query)))
    }
}

/// Cuts a text into spans, the characters that a query picks highlighted. The
/// query picks bytes of the lower-case text: None where one of these is not the
/// first of a character of the text itself.
pub fn highlight_query(text: &str, query: &str) -> (r: Option<Vec<Span>>)
    ensures
        r is Some <==> landing(text@, query_offsets(text@, query@)) is Some,
        r matches Some(s) ==> span_views(s@) == spans(
            text@,
            landing(text@, query_offsets(text@, query@))->0,
        ),
        ascii(text@) && ascii(query@) ==> (r matches Some(s) && span_views(s@) == spans(
            text@,
            if query@.len() == 0 {
                Seq::empty()
            } else {
                picked(ascii_lower(text@), ascii_lower(query@))
            },
        )),
{
    let offsets = match_indices(text, query);
    proof {
        if ascii(text@) && ascii(query@) {
            let low = ascii_lower(text@);
            let ps = if query@.len() == 0 {
                Seq::empty()
            } else {
                picked(low, ascii_lower(query@))
            };
            picked_ascends(low, ascii_lower(query@));
            ascii_offsets(text@, ps);
            landing_is(text@, ints(offsets@), ps);
        }
    }
    match char_positions(text, &offsets) {
        Some(positions) => {
            proof {
                landing_is(text@, ints(offsets@), ints(positions@));
            }
            Some(highlight(text, &positions))
        },
        None => {
            proof {
                assert forall|p: Seq<int>| !#[trigger] lands(text@, ints(offsets@), p) by {
                    assert(ascending_in(p, text@) || !ascending_in(p, text@));
                }
            }
            None
        },
    }
}

/// A text whose lower-case form has its characters at the same bytes is
/// highlighted where its lower-case form is.
pub proof fn same_bytes_land(text: Seq<char>, query: Seq<char>)
    requires
        lowercase(text).len() == text.len(),
        forall|i: int| 0 <= i < text.len() ==> width(#[trigger] lowercase(text)[i]) == width(text[i]),
    ensures
        landing(text, query_offsets(text, query)) == Some(
            if query.len() == 0 {
                Seq::empty()
            } else {
                picked(lowercase(text), lowercase(query))
            },
        ),
{
    let low = lowercase(text);
    if query.len() == 0 {
        let none = Seq::<int>::empty();
        assert(as_offsets(text, none) =~= none);
        landing_is(text, none, none);
    } else {
        let q = lowercase(query);
        let ps = picked(low, q);
        picked_ascends(low, q);
        assert forall|k: int| 0 <= k <= text.len() implies offset(low, k) == offset(text, k) by {
            same_widths(low, text, k);
        }
        assert(as_offsets(low, ps) =~= as_offsets(text, ps));
        assert(ascending_in(ps, text));
        landing_is(text, query_offsets(text, query), ps);
    }
}

proof fn picked_ascends(text: Seq<char>, query: Seq<char>)
    ensures
        ascending_in(picked(text, query), text),
{
    if contains(text, query) {
        let p0 = choose|p: int| occurs_at(text, query, p);
        assert(occurs_at(text, query, p0));
        first_occurrence_exists(text, query, p0);
        let start = choose|p: int| first_occurrence(text, query, p);
        assert(first_occurrence(text, query, start));
    } else {
        sequential_is_in_range(text, query);
    }
}

proof fn same_widths(a: Seq<char>, b: Seq<char>, k: int)
    requires
        a.len() == b.len(),
        0 <= k <= a.len(),
        forall|i: int| 0 <= i < a.len() ==> width(#[trigger] a[i]) == width(b[i]),
    ensures
        offset(a, k) == offset(b, k),
    decreases k,
{
    if k > 0 {
        same_widths(a, b, k - 1);
        assert(a.take(k).drop_last() == a.take(k - 1));
        assert(b.take(k).drop_last() == b.take(k - 1));
    }
}

/// A text on one line: line feeds and tabs are spaces.
pub open spec fn on_one_line(s: Seq<char>) -> Seq<char> {
    s.map_values(
        |c: char|
            if c == '\n' || c == '\t' {
                ' '
            } else {
                c
            },
    )
}

/// A text on one line, at most `max` characters long; what is cut off shows as
/// an ellipsis.
pub open spec fn truncated(s: Seq<char>, max: int) -> Seq<char> {
    if max == 0 {
        Seq::empty()
    } else if s.len() > max {
        on_one_line(s).take(max - 1).push('…')
    } else {
        on_one_line(s)
    }
}

/// Truncates a text to at most `max` characters on one line; what is cut off
/// shows as an ellipsis.
pub fn truncate(s: &str, max: usize) -> (r: String)
    ensures
        r@ == truncated(s@, max as int),
{
    if max == 0 {
        return String::new();
    }
    let chars = chars_of(s);
    let n: usize = if chars.len() > max {
        max - 1
    } else {
        chars.len()
    };
    let mut r = String::new();
    let mut i: usize = 0;
    while i < n
        invariant
            i <= n <= chars@.len(),
            chars@ == s@,
            r@ == on_one_line(s@).take(i as int),
        decreases n - i,
    {
        let c = chars[i];
        r.push(
            if c == '\n' || c == '\t' {
                ' '
            } else {
                c
            },
        );
        assert(on_one_line(s@).take(i + 1) == on_one_line(s@).take(i as int).push(
            on_one_line(s@)[i as int],
        ));
        i = i + 1;
    }
    if chars.len() > max {
        r.push('…');
    } else {
        assert(on_one_line(s@).take(n as int) == on_one_line(s@));
    }
    r
}

/// A text whose runs of white space are single spaces.
pub open spec fn collapsed(s: Seq<char>) -> Seq<char>
    decreases s.len(),
{
    if s.len() == 0 {
        Seq::empty()
    } else if !whitespace(s.last()) {
        collapsed(s.drop_last()).push(s.last())
    } else if s.len() > 1 && whitespace(s[s.len() - 2]) {
        collapsed(s.drop_last())
    } else {
        collapsed(s.drop_last()).push(' ')
    }
}

/// The display line of a clipboard text.
pub open spec fn display_line(s: Seq<char>) -> Seq<char> {
    collapsed(trim_start(s))
}

/// Normalizes clipboard text for list-row display: strips leading white space
/// and collapses runs of white space, line ends and tabs among them, to a
/// single space.
pub fn clip_display_line(s: &str) -> (r: String)
    ensures
        r@ == display_line(s@),
{
    let all = chars_of(s);
    let trimmed = trim_start_chars(all.as_slice());
    let mut out = String::new();
    let mut in_ws = false;
    let mut i: usize = 0;
    while i < trimmed.len()
        invariant
            i <= trimmed@.len(),
            out@ == collapsed(trimmed@.take(i as int)),
            in_ws == (i > 0 && whitespace(trimmed@[i - 1])),
        decreases trimmed.len() - i,
    {
        let ghost part = trimmed@.take(i + 1);
        assert(part.drop_last() == trimmed@.take(i as int));
        let c = trimmed[i];
        if is_whitespace(c) {
            if !in_ws {
                out.push(' ');
                in_ws = true;
            }
        } else {
            out.push(c);
            in_ws = false;
        }
        i = i + 1;
    }
    assert(trimmed@.take(trimmed@.len() as int) == trimmed@);
    out
}

proof fn collapsed_shape(s: Seq<char>)
    ensures
        s.len() > 0 ==> collapsed(s).len() > 0,
        s.len() > 0 ==> whitespace(collapsed(s).last()) == whitespace(s.last()),
        s.len() > 0 ==> whitespace(collapsed(s)[0]) == whitespace(s[0]),
        forall|i: int|
            0 <= i < collapsed(s).len() && whitespace(#[trigger] collapsed(s)[i])
                ==> collapsed(s)[i] == ' ',
        forall|i: int|
            0 < i < collapsed(s).len() ==> !(whitespace(#[trigger] collapsed(s)[i]) && whitespace(
                collapsed(s)[i - 1],
            )),
    decreases s.len(),
{
    if s.len() > 0 {
        let front = s.drop_last();
        collapsed_shape(front);
        let c = collapsed(s);
        let b = collapsed(front);
        if front.len() == 0 {
            assert(b.len() == 0);
        } else {
            assert(front.last() == s[s.len() - 2]);
            assert(front[0] == s[0]);
            assert(c[0] == b[0]);
        }
        assert forall|i: int| 0 <= i < c.len() && whitespace(#[trigger] c[i]) implies c[i] == ' ' by {
            if i < b.len() {
                assert(c[i] == b[i]);
            }
        }
        assert forall|i: int| 0 < i < c.len() implies !(whitespace(#[trigger] c[i]) && whitespace(
            c[i - 1],
        )) by {
            assert(c[i - 1] == b[i - 1]);
            if i < b.len() {
                assert(c[i] == b[i]);
            }
        }
    }
}

proof fn collapsed_fixpoint(s: Seq<char>)
    requires
        forall|i: int| 0 <= i < s.len() && whitespace(#[trigger] s[i]) ==> s[i] == ' ',
        forall|i: int| 0 < i < s.len() ==> !(whitespace(#[trigger] s[i]) && whitespace(s[i - 1])),
    ensures
        collapsed(s) == s,
    decreases s.len(),
{
    if s.len() > 0 {
        let front = s.drop_last();
        assert forall|i: int| 0 < i < front.len() implies !(whitespace(#[trigger] front[i])
            && whitespace(front[i - 1])) by {
            assert(front[i] == s[i] && front[i - 1] == s[i - 1]);
        }
        assert forall|i: int| 0 <= i < front.len() && whitespace(
            #[trigger] front[i],
        ) implies front[i] == ' ' by {
            assert(front[i] == s[i]);
        }
        collapsed_fixpoint(front);
        assert(front.push(s.last()) == s);
    }
}

proof fn trim_start_shape(s: Seq<char>)
    ensures
        trim_start(s).len() == 0 || !whitespace(trim_start(s)[0]),
    decreases s.len(),
{
    if s.len() > 0 && whitespace(s[0]) {
        trim_start_shape(s.drop_first());
    }
}

/// A display line neither begins with white space nor holds two white-space
/// characters in a row, and the only white space in it is the space.
pub proof fn display_line_is_tidy(s: Seq<char>)
    ensures
        display_line(s).len() == 0 || !whitespace(display_line(s)[0]),
        forall|i: int|
            0 <= i < display_line(s).len() && whitespace(#[trigger] display_line(s)[i])
                ==> display_line(s)[i] == ' ',
        forall|i: int|
            0 < i < display_line(s).len() ==> !(whitespace(#[trigger] display_line(s)[i])
                && whitespace(display_line(s)[i - 1])),
{
    collapsed_shape(trim_start(s));
    trim_start_shape(s);
}

/// A display line is its own display line.
pub proof fn display_line_is_idempotent(s: Seq<char>)
    ensures
        display_line(display_line(s)) == display_line(s),
{
    display_line_is_tidy(s);
    collapsed_fixpoint(display_line(s));
}

/// The part of a mime type in front of its parameters.
pub open spec fn mime_base(mime: Seq<char>) -> Seq<char> {
    trim(split(mime, Separator::Char(';'))[0])
}

/// Whether the mime label should be rendered next to a clipboard row: common
/// types are obvious from the content itself.
pub fn should_show_mime_label(mime: &str) -> (r: bool)
    ensures
        r == !(mime_base(mime@) == "text/plain"@ || mime_base(mime@) == "image/png"@ || mime_base(
            mime@,
        ) == "image/jpeg"@ || mime_base(mime@) == "text/uri-list"@),
{
    let all = chars_of(mime);
    let parts = split_chars(all.as_slice(), Separator::Char(';'));
    proof {
        split_is_not_empty(mime@, Separator::Char(';'));
        assert(parts@.len() == views(parts@).len());
        assert(parts@[0]@ == views(parts@)[0]);
    }
    let first = chars_of(parts[0].as_str());
    let base = string_of(trim_chars(first.as_slice()));
    !(same(base.as_str(), "text/plain") || same(base.as_str(), "image/png") || same(
        base.as_str(),
        "image/jpeg",
    ) || same(base.as_str(), "text/uri-list"))
}

/// Reads the path of a font file from what the font matcher printed; none if it
/// printed nothing.
pub fn font_file(printed: &[u8]) -> (r: Option<String>)
    ensures
        text_of(r) == (if lossy(printed@).len() > 0 {
            Some(lossy(printed@))
        } else {
            None
        }),
{
    let path = from_utf8_lossy(printed);
    if path.as_str().is_empty() {
        None
    } else {
        Some(path)
    }
}

/// A query that stands in a text picks the characters of its first occurrence,
/// one after the other.
pub proof fn occurrence_is_picked(text: Seq<char>, query: Seq<char>)
    requires
        contains(text, query),
        query.len() > 0,
    ensures
        picked(text, query).len() == query.len(),
        text.subrange(picked(text, query)[0], picked(text, query)[0] + query.len()) == query,
        forall|i: int|
            0 <= i < query.len() ==> #[trigger] picked(text, query)[i] == picked(text, query)[0]
                + i,
        forall|j: int| 0 <= j < picked(text, query)[0] ==> !#[trigger] occurs_at(text, query, j),
{
    let w = choose|i: int| occurs_at(text, query, i);
    first_occurrence_exists(text, query, w);
    let p = choose|p: int| first_occurrence(text, query, p);
    assert(picked(text, query)[0] == p);
}

proof fn sequential_grows(text: Seq<char>, query: Seq<char>, n: int)
    requires
        0 <= n <= text.len(),
    ensures
        sequential(text.take(n), query).len() <= sequential(text, query).len(),
    decreases text.len(),
{
    if n < text.len() {
        sequential_grows(text.drop_last(), query, n);
        assert(text.drop_last().take(n) =~= text.take(n));
    } else {
        assert(text.take(n) =~= text);
    }
}

proof fn sequence_reaches(text: Seq<char>, query: Seq<char>, at: Seq<int>, k: int)
    requires
        at.len() == query.len(),
        ascending_in(at, text),
        forall|i: int| 0 <= i < at.len() ==> text[#[trigger] at[i]] == query[i],
        0 <= k < at.len(),
    ensures
        sequential(text.take(at[k] + 1), query).len() > k,
    decreases k,
{
    let part = text.take(at[k] + 1);
    let front = part.drop_last();
    assert(part.last() == text[at[k]]);
    assert(front =~= text.take(at[k]));
    if k > 0 {
        sequence_reaches(text, query, at, k - 1);
        assert(at[k - 1] < at[k]);
        sequential_grows(front, query, at[k - 1] + 1);
        assert(front.take(at[k - 1] + 1) =~= text.take(at[k - 1] + 1));
    }
    assert(sequential(front, query).len() >= k);
}

/// A query whose characters stand in a text in sequence, however far apart,
/// picks one character for each of them.
pub proof fn sequence_is_picked(text: Seq<char>, query: Seq<char>, at: Seq<int>)
    requires
        at.len() == query.len(),
        ascending_in(at, text),
        forall|i: int| 0 <= i < at.len() ==> text[#[trigger] at[i]] == query[i],
    ensures
        picked(text, query).len() == query.len(),
{
    if query.len() > 0 {
        let k = query.len() - 1;
        sequence_reaches(text, query, at, k);
        sequential_grows(text, query, at[k] + 1);
    }
    sequential_is_in_range(text, query);
    picked_spells_query(text, query);
}

proof fn spans_to_highlight(text: Seq<char>, positions: Seq<int>, n: nat)
    requires
        n <= positions.len(),
    ensures
        spans_to(text, positions, n).filter(|s: SpanView| s.highlighted).map_values(
            |s: SpanView| s.text,
        ) == positions.take(n as int).map_values(|p: int| seq![text[p]]),
    decreases n,
{
    reveal(Seq::filter);
    let lit = |s: SpanView| s.highlighted;
    let own = |s: SpanView| s.text;
    let one = |p: int| seq![text[p]];
    if n == 0 {
        assert(spans_to(text, positions, n).filter(lit).map_values(own) =~= positions.take(
            0,
        ).map_values(one));
    } else {
        let m = (n - 1) as nat;
        let from = reached(positions, m as int);
        let at = positions[m as int];
        spans_to_highlight(text, positions, m);
        let before = spans_to(text, positions, m);
        let all = spans_to(text, positions, n);
        let piece = SpanView { text: text.subrange(from, at), highlighted: false };
        let last = SpanView { text: seq![text[at]], highlighted: true };
        assert(before.push(piece).drop_last() =~= before);
        assert(before.push(piece).filter(lit) == before.filter(lit));
        assert(all.drop_last() =~= if from < at {
            before.push(piece)
        } else {
            before
        });
        assert(all.filter(lit) == before.filter(lit).push(last));
        assert(before.filter(lit).push(last).map_values(own) =~= before.filter(lit).map_values(
            own,
        ).push(last.text));
        assert(positions.take(n as int).map_values(one) =~= positions.take(m as int).map_values(
            one,
        ).push(seq![text[at]]));
    }
}

/// What is highlighted of a text are the characters at the given positions, each
/// in a span of its own, and nothing else.
pub proof fn positions_are_highlighted(text: Seq<char>, positions: Seq<int>)
    ensures
        spans(text, positions).filter(|s: SpanView| s.highlighted).map_values(
            |s: SpanView| s.text,
        ) == positions.map_values(|p: int| seq![text[p]]),
{
    reveal(Seq::filter);
    let lit = |s: SpanView| s.highlighted;
    let n = positions.len();
    spans_to_highlight(text, positions, n);
    assert(positions.take(n as int) =~= positions);
    let from = reached(positions, n as int);
    let front = spans_to(text, positions, n);
    let rest = SpanView { text: text.skip(from), highlighted: false };
    assert(front.push(rest).drop_last() =~= front);
    assert(front.push(rest).filter(lit) == front.filter(lit));
}

/// A truncated text is not longer than asked for. One that fits is kept, one
/// that does not keeps its front and ends with an ellipsis; line feeds and tabs
/// become spaces.
pub proof fn truncation_keeps_the_front(s: Seq<char>, max: int)
    requires
        max > 0,
    ensures
        s.len() <= max ==> truncated(s, max).len() == s.len(),
        s.len() > max ==> truncated(s, max).len() == max && truncated(s, max).last() == '…',
        forall|i: int|
            0 <= i < s.len() && (i < max - 1 || s.len() <= max) ==> #[trigger] truncated(s, max)[i]
                == (if s[i] == '\n' || s[i] == '\t' {
                ' '
            } else {
                s[i]
            }),
        truncated(s, 0).len() == 0,
{
}

proof fn collapsing_keeps_words(s: Seq<char>)
    ensures
        ({
            let sep = Separator::Whitespace;
            let keep = |w: Seq<char>| w.len() > 0;
            let (a, b) = (split(collapsed(s), sep), split(s, sep));
            &&& a.len() > 0 && b.len() > 0
            &&& a.last() == b.last()
            &&& a.drop_last().filter(keep) == b.drop_last().filter(keep)
        }),
    decreases s.len(),
{
    reveal(Seq::filter);
    let sep = Separator::Whitespace;
    let keep = |w: Seq<char>| w.len() > 0;
    let none = Seq::<char>::empty();
    if s.len() > 0 {
        let front = s.drop_last();
        collapsing_keeps_words(front);
        let c = collapsed(front);
        let (a, b) = (split(c, sep), split(front, sep));
        let (x, y) = (split(collapsed(s), sep), split(s, sep));
        assert(a.drop_last().push(a.last()) =~= a);
        assert(b.drop_last().push(b.last()) =~= b);
        assert(a.filter(keep) == b.filter(keep));
        if !whitespace(s.last()) {
            assert(c.push(s.last()).drop_last() =~= c);
            assert(x.drop_last() =~= a.drop_last());
            assert(y.drop_last() =~= b.drop_last());
        } else if s.len() > 1 && whitespace(s[s.len() - 2]) {
            assert(front.last() == s[s.len() - 2]);
            assert(b.last() == none);
            assert(y.drop_last() =~= b);
            assert(b.filter(keep) == b.drop_last().filter(keep));
        } else {
            assert(c.push(' ').drop_last() =~= c);
            assert(x.drop_last() =~= a);
            assert(y.drop_last() =~= b);
        }
    }
}

proof fn leading_space_holds_no_words(s: Seq<char>)
    ensures
        words(trim_start(s), Separator::Whitespace) == words(s, Separator::Whitespace),
    decreases s.len(),
{
    let sep = Separator::Whitespace;
    if s.len() > 0 && whitespace(s[0]) {
        let rest = s.drop_first();
        let none = Seq::<char>::empty();
        leading_space_holds_no_words(rest);
        assert(none.push(s[0]) + rest =~= s);
        words_are_those_of_parts(none, s[0], rest, sep);
        word_is_its_own(none, sep);
        assert(words(none, sep) + words(rest, sep) =~= words(rest, sep));
    }
}

/// A display line has the words of its text, in order.
pub proof fn display_line_keeps_words(s: Seq<char>)
    ensures
        words(display_line(s), Separator::Whitespace) == words(s, Separator::Whitespace),
{
    reveal(Seq::filter);
    let t = trim_start(s);
    let keep = |w: Seq<char>| w.len() > 0;
    collapsing_keeps_words(t);
    leading_space_holds_no_words(s);
    let (a, b) = (split(collapsed(t), Separator::Whitespace), split(t, Separator::Whitespace));
    assert(a.drop_last().push(a.last()) =~= a);
    assert(b.drop_last().push(b.last()) =~= b);
    assert(a.filter(keep) == b.filter(keep));
}

/// A mime type is named by what stands before its parameters, without the white
/// space around it.
pub proof fn parameters_do_not_name(a: Seq<char>, b: Seq<char>)
    requires
        !a.contains(';'),
    ensures
        mime_base(a) == trim(a),
        mime_base(a.push(';') + b) == trim(a),
{
    let sep = Separator::Char(';');
    assert forall|i: int| 0 <= i < a.len() implies !sep.cuts(#[trigger] a[i]) by {
        assert(a.contains(a[i]));
    }
    whole_is_one_piece(a, sep);
    separator_cuts(a, ';', b, sep);
    assert((seq![a] + split(b, sep))[0] == a);
}

} // verus!
