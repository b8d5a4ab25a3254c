//! Slash-separated paths as text: joining, file names, stems and extensions.

use crate::text::{
    chars_of, concat, same_chars, separator_cuts, split, split_chars, split_is_not_empty, string_of,
    whole_is_one_piece, Separator,
};
use vstd::prelude::*;
use vstd::slice::slice_subrange;

verus! {

/// Whether a path starts at the root.
pub open spec fn absolute(p: Seq<char>) -> bool {
    p.len() > 0 && p[0] == '/'
}

/// A path extended by another: an absolute one replaces it, any other follows
/// after one slash.
pub open spec fn joined(a: Seq<char>, b: Seq<char>) -> Seq<char> {
    if absolute(b) {
        b
    } else if a.len() == 0 || a.last() == '/' {
        a + b
    } else {
        a.push('/') + b
    }
}

/// A path without the slashes and `/.` parts at its end.
pub open spec fn strip_tail(p: Seq<char>) -> Seq<char>
    decreases p.len(),
{
    if p.len() > 0 && p.last() == '/' {
        strip_tail(p.drop_last())
    } else if p.len() > 1 && p.last() == '.' && p[p.len() - 2] == '/' {
        strip_tail(p.drop_last())
    } else {
        p
    }
}

/// Whether the last part of a path names a file: it is not empty, `.` or `..`.
pub open spec fn names_a_file(n: Seq<char>) -> bool {
    n.len() > 0 && n != seq!['.'] && n != seq!['.', '.']
}

/// The last part of a path, if it names a file.
pub open spec fn file_name(p: Seq<char>) -> Option<Seq<char>> {
    let n = split(strip_tail(p), Separator::Char('/')).last();
    if names_a_file(n) {
        Some(n)
    } else {
        None
    }
}

/// The last position of a character, or -1.
pub open spec fn last_at(s: Seq<char>, c: char) -> int
    decreases s.len(),
{
    if s.len() == 0 {
        -1
    } else if s.last() == c {
        s.len() - 1
    } else {
        last_at(s.drop_last(), c)
    }
}

/// A file name up to its last dot; all of it if the only dot is in front.
pub open spec fn stem(n: Seq<char>) -> Seq<char> {
    let d = last_at(n, '.');
    if d > 0 {
        n.take(d)
    } else {
        n
    }
}

/// What follows the last dot of a file name, unless the only dot is in front.
pub open spec fn extension(n: Seq<char>) -> Option<Seq<char>> {
    let d = last_at(n, '.');
    if d > 0 {
        Some(n.skip(d + 1))
    } else {
        None
    }
}

/// A path whose file name has its extension replaced.
pub open spec fn with_extension(p: Seq<char>, ext: Seq<char>) -> Seq<char> {
    match file_name(p) {
        None => p,
        Some(n) => {
            let base = strip_tail(p);
            base.take(base.len() - n.len()) + stem(n) + seq!['.'] + ext
        },
    }
}

/// Whether a path starts at the root.
pub fn is_absolute(p: &str) -> (r: bool)
    ensures
        r == absolute(p@),
{
    let v = chars_of(p);
    v.len() > 0 && v[0] == '/'
}

/// Extends a path by another.
pub fn join(a: &str, b: &str) -> (r: String)
    ensures
        r@ == joined(a@, b@),
{
    if is_absolute(b) {
        return b.to_owned();
    }
    let v = chars_of(a);
    if v.len() == 0 || v[v.len() - 1] == '/' {
        concat(a, b)
    } else {
        let mut dir = a.to_owned();
        dir.push('/');
        concat(dir.as_str(), b)
    }
}

fn strip_tail_chars(p: &[char]) -> (r: &[char])
    ensures
        r@ == strip_tail(p@),
{
    let mut n: usize = p.len();
    assert(p@.take(p@.len() as int) == p@);
    while n > 0 && (p[n - 1] == '/' || (n > 1 && p[n - 1] == '.' && p[n - 2] == '/'))
        invariant
            n <= p.len(),
            strip_tail(p@) == strip_tail(p@.take(n as int)),
        decreases n,
    {
        assert(p@.take(n as int).drop_last() == p@.take(n - 1));
        n = n - 1;
    }
    let r = slice_subrange(p, 0, n);
    assert(r@ == p@.take(n as int));
    r
}

/// The last part of a path, if it names a file.
pub fn file_name_of(p: &str) -> (r: Option<String>)
    ensures
        r.is_some() == file_name(p@).is_some(),
        r matches Some(n) ==> n@ == file_name(p@).unwrap(),
{
    let v = chars_of(p);
    let base = strip_tail_chars(v.as_slice());
    let mut parts = split_chars(base, Separator::Char('/'));
    proof {
        split_is_not_empty(base@, Separator::Char('/'));
        assert(parts@.len() == crate::text::views(parts@).len());
    }
    let ghost all = parts@;
    match parts.pop() {
        None => None,
        Some(n) => {
            assert(n@ == crate::text::views(all).last());
            let c = chars_of(n.as_str());
            if c.len() == 0 || same_chars(c.as_slice(), &['.']) || same_chars(
                c.as_slice(),
                &['.', '.'],
            ) {
                assert(['.']@ == seq!['.']);
                assert(['.', '.']@ == seq!['.', '.']);
                None
            } else {
                assert(['.']@ == seq!['.']);
                assert(['.', '.']@ == seq!['.', '.']);
                Some(n)
            }
        },
    }
}

fn last_dot(n: &[char]) -> (r: Option<usize>)
    ensures
        r is None ==> last_at(n@, '.') == -1,
        r matches Some(d) ==> d < n@.len() && d == last_at(n@, '.'),
{
    let mut i: usize = n.len();
    assert(n@.take(n@.len() as int) == n@);
    while i > 0
        invariant
            i <= n.len(),
            last_at(n@, '.') == last_at(n@.take(i as int), '.'),
        decreases i,
    {
        assert(n@.take(i as int).drop_last() == n@.take(i - 1));
        if n[i - 1] == '.' {
            return Some(i - 1);
        }
        i = i - 1;
    }
    None
}

/// A file name up to its last dot.
pub fn stem_of(n: &str) -> (r: String)
    ensures
        r@ == stem(n@),
{
    let v = chars_of(n);
    match last_dot(v.as_slice()) {
        Some(d) if d > 0 => {
            let part = slice_subrange(v.as_slice(), 0, d);
            assert(part@ == v@.take(d as int));
            string_of(part)
        },
        _ => n.to_owned(),
    }
}

/// What follows the last dot of a file name.
pub fn extension_of(n: &str) -> (r: Option<String>)
    ensures
        r.is_some() == extension(n@).is_some(),
        r matches Some(e) ==> e@ == extension(n@).unwrap(),
{
    let v = chars_of(n);
    let len: usize = v.len();
    match last_dot(v.as_slice()) {
        Some(d) if d > 0 => {
            let part = slice_subrange(v.as_slice(), d + 1, len);
            assert(part@ == v@.skip(d + 1));
            Some(string_of(part))
        },
        _ => None,
    }
}

/// Replaces the extension of a path's file name.
pub fn set_extension(p: &str, ext: &str) -> (r: String)
    ensures
        r@ == with_extension(p@, ext@),
{
    match file_name_of(p) {
        None => p.to_owned(),
        Some(n) => {
            let v = chars_of(p);
            let base = strip_tail_chars(v.as_slice());
            let name = chars_of(n.as_str());
            proof {
                last_piece_fits(base@, Separator::Char('/'));
            }
            let dir = slice_subrange(base, 0, base.len() - name.len());
            assert(dir@ == base@.take(base@.len() - n@.len()));
            let s = stem_of(n.as_str());
            let mut r = concat(string_of(dir).as_str(), s.as_str());
            r.push('.');
            let out = concat(r.as_str(), ext);
            assert(out@ == dir@ + s@ + seq!['.'] + ext@);
            out
        },
    }
}

/// The last piece of a text is no longer than the text.
pub proof fn last_piece_fits(s: Seq<char>, sep: Separator)
    ensures
        split(s, sep).len() > 0,
        split(s, sep).last().len() <= s.len(),
    decreases s.len(),
{
    if s.len() > 0 {
        last_piece_fits(s.drop_last(), sep);
    }
}

/// The last position of a character is one at which it stands, and none follows.
pub proof fn last_at_is_last(s: Seq<char>, c: char)
    ensures
        -1 <= last_at(s, c) < s.len(),
        last_at(s, c) >= 0 ==> s[last_at(s, c)] == c,
        forall|i: int| last_at(s, c) < i < s.len() ==> #[trigger] s[i] != c,
    decreases s.len(),
{
    if s.len() > 0 && s.last() != c {
        let front = s.drop_last();
        last_at_is_last(front, c);
        assert forall|i: int| last_at(s, c) < i < s.len() implies #[trigger] s[i] != c by {
            if i < front.len() {
                assert(front[i] == s[i]);
            }
        }
    }
}

/// A file name is its stem, a dot and its extension, in which no dot stands; one
/// without an extension is its own stem, and has no dot but in front.
pub proof fn name_is_stem_and_extension(n: Seq<char>)
    ensures
        extension(n) matches Some(e) ==> n == stem(n) + seq!['.'] + e && !e.contains('.') && stem(
            n,
        ).len() > 0,
        extension(n) is None ==> stem(n) == n && forall|i: int|
            0 < i < n.len() ==> #[trigger] n[i] != '.',
{
    last_at_is_last(n, '.');
    let d = last_at(n, '.');
    if d > 0 {
        let e = n.skip(d + 1);
        assert(n =~= n.take(d) + seq!['.'] + e);
        if e.contains('.') {
            let i = choose|i: int| 0 <= i < e.len() && e[i] == '.';
            assert(n[d + 1 + i] == '.');
        }
    }
}

/// A path that is extended by a relative one begins with the first, ends with
/// the second, and has a slash between them; an absolute one replaces it.
pub proof fn joining_puts_one_slash(a: Seq<char>, b: Seq<char>)
    ensures
        absolute(b) ==> joined(a, b) == b,
        !absolute(b) && a.len() == 0 ==> joined(a, b) == b,
        !absolute(b) && a.len() > 0 && a.last() == '/' ==> joined(a, b) == a + b,
        !absolute(b) && a.len() > 0 && a.last() != '/' ==> joined(a, b) == a + seq!['/'] + b,
{
    assert(a.push('/') + b =~= a + seq!['/'] + b);
    if a.len() == 0 {
        assert(a + b =~= b);
    }
}

proof fn plain_name_ends_a_path(dir: Seq<char>, n: Seq<char>)
    requires
        names_a_file(n),
        !n.contains('/'),
    ensures
        strip_tail(joined(dir, n)) == joined(dir, n),
        split(joined(dir, n), Separator::Char('/')).last() == n,
        !absolute(n),
{
    let p = joined(dir, n);
    let sep = Separator::Char('/');
    assert(n.contains(n[0]) && n.contains(n.last()));
    assert(p.last() == n.last());
    if p.len() > 1 && p.last() == '.' && p[p.len() - 2] == '/' {
        if n.len() > 1 {
            assert(n[n.len() - 2] == p[p.len() - 2]);
        } else {
            assert(n =~= seq!['.']);
        }
    }
    assert forall|i: int| 0 <= i < n.len() implies !sep.cuts(#[trigger] n[i]) by {
        assert(n.contains(n[i]));
    }
    whole_is_one_piece(n, sep);
    if dir.len() == 0 {
        assert(p =~= n);
    } else if dir.last() == '/' {
        assert(dir + n =~= dir.drop_last().push('/') + n);
        separator_cuts(dir.drop_last(), '/', n, sep);
    } else {
        separator_cuts(dir, '/', n, sep);
    }
}

/// The file name of a path that was extended by a name is that name.
pub proof fn joined_name_is_the_file_name(dir: Seq<char>, n: Seq<char>)
    requires
        n.len() > 0,
        n != seq!['.'],
        n != seq!['.', '.'],
        !n.contains('/'),
    ensures
        file_name(joined(dir, n)) == Some(n),
{
    plain_name_ends_a_path(dir, n);
}

/// Replacing the extension of a path changes the file name's alone.
pub proof fn extension_is_replaced(dir: Seq<char>, n: Seq<char>, ext: Seq<char>)
    requires
        n.len() > 0,
        n != seq!['.'],
        n != seq!['.', '.'],
        !n.contains('/'),
    ensures
        with_extension(joined(dir, n), ext) == joined(dir, stem(n) + seq!['.'] + ext),
{
    plain_name_ends_a_path(dir, n);
    let p = joined(dir, n);
    let front = p.take(p.len() - n.len());
    let new = stem(n) + seq!['.'] + ext;
    last_at_is_last(n, '.');
    assert(new[0] == n[0]);
    assert(n.contains(n[0]));
    assert(!absolute(new));
    assert(front + stem(n) + seq!['.'] + ext =~= front + new);
    assert(joined(dir, new) =~= front + new);
}

/// A slash at the end of a path, and a dot behind it, do not count.
pub proof fn trailing_slashes_do_not_count(p: Seq<char>)
    ensures
        file_name(p.push('/')) == file_name(p),
        file_name(p.push('/').push('.')) == file_name(p),
{
    assert(p.push('/').drop_last() =~= p);
    assert(p.push('/').push('.').drop_last() =~= p.push('/'));
    assert(strip_tail(p.push('/')) == strip_tail(p));
    assert(strip_tail(p.push('/').push('.')) == strip_tail(p.push('/')));
}

} // verus!
