//! Characters, substrings and string equality.
//!
//! The match predicate of the whole library is literal substring containment,
//! specified here over `Seq<char>` and implemented by character comparison.

use vstd::prelude::*;
use vstd::string::StrSliceExecFns;

verus! {

/// The characters of `needle` occur contiguously in `hay` starting at `i`.
pub open spec fn contains_at(hay: Seq<char>, needle: Seq<char>, i: int) -> bool {
    &&& 0 <= i
    &&& i + needle.len() <= hay.len()
    &&& hay.subrange(i, i + needle.len() as int) == needle
}

/// `needle` occurs somewhere in `hay` as a contiguous substring.
pub open spec fn contains_substr(hay: Seq<char>, needle: Seq<char>) -> bool {
    exists|i: int| contains_at(hay, needle, i)
}

/// Do `hay` and `needle` agree on the window of `needle.len()` characters
/// starting at position `i` of `hay`?
fn match_at(hay: &str, needle: &str, i: usize, n: usize, m: usize) -> (r: bool)
    requires
        n == hay@.len(),
        m == needle@.len(),
        i + m <= n,
    ensures
        r == contains_at(hay@, needle@, i as int),
{
    let mut j: usize = 0;
    while j < m
        invariant
            n == hay@.len(),
            m == needle@.len(),
            i + m <= n,
            0 <= j <= m,
            forall|t: int| 0 <= t < j ==> hay@[i + t] == needle@[t],
        decreases m - j,
    {
        if hay.get_char(i + j) != needle.get_char(j) {
            assert(hay@.subrange(i as int, i + m) != needle@) by {
                assert(hay@.subrange(i as int, i + m)[j as int] == hay@[i + j]);
            }
            return false;
        }
        j += 1;
    }
    assert(hay@.subrange(i as int, i + m) =~= needle@);
    true
}

/// Literal substring containment: does `hay` contain `needle`?
///
/// An empty `needle` is contained in every string.
pub fn str_contains(hay: &str, needle: &str) -> (r: bool)
    ensures
        r == contains_substr(hay@, needle@),
{
    let n: usize = hay.unicode_len();
    let m: usize = needle.unicode_len();
    if m == 0 {
        assert(contains_at(hay@, needle@, 0)) by {
            assert(hay@.subrange(0, 0) =~= needle@);
        }
        return true;
    }
    if m > n {
        assert(forall|i: int| !contains_at(hay@, needle@, i));
        return false;
    }
    let mut i: usize = 0;
    while i <= n - m
        invariant
            n == hay@.len(),
            m == needle@.len(),
            1 <= m <= n,
            0 <= i <= n - m + 1,
            forall|k: int| 0 <= k < i ==> !contains_at(hay@, needle@, k),
        decreases n - m - i + 1,
    {
        if match_at(hay, needle, i, n, m) {
            return true;
        }
        i += 1;
    }
    assert(forall|k: int| !contains_at(hay@, needle@, k));
    false
}

/// Position of the first occurrence of `c` in `s`, or `s.len()` if `c` does
/// not occur.
pub open spec fn find_char(s: Seq<char>, c: char) -> int
    decreases s.len(),
{
    if s.len() == 0 {
        0
    } else if s[0] == c {
        0
    } else {
        1 + find_char(s.drop_first(), c)
    }
}

/// `find_char` points at the first occurrence: everything before it differs
/// from `c`, and it lies on `c` unless `c` does not occur at all.
pub proof fn lemma_find_char(s: Seq<char>, c: char)
    ensures
        0 <= find_char(s, c) <= s.len(),
        find_char(s, c) < s.len() ==> s[find_char(s, c)] == c,
        forall|j: int| 0 <= j < find_char(s, c) ==> s[j] != c,
    decreases s.len(),
{
    if s.len() == 0 {
    } else if s[0] == c {
    } else {
        lemma_find_char(s.drop_first(), c);
        assert forall|j: int| 0 <= j < find_char(s, c) implies s[j] != c by {
            if j > 0 {
                assert(s.drop_first()[j - 1] == s[j]);
            }
        }
    }
}

/// The characterization of `lemma_find_char` determines `find_char` uniquely.
pub proof fn lemma_find_char_is(s: Seq<char>, c: char, k: int)
    requires
        0 <= k <= s.len(),
        forall|j: int| 0 <= j < k ==> s[j] != c,
        k < s.len() ==> s[k] == c,
    ensures
        find_char(s, c) == k,
{
    lemma_find_char(s, c);
    let f = find_char(s, c);
    if f < k {
        assert(s[f] != c);
        assert(false);
    } else if k < f {
        assert(s[k] != c);
        assert(false);
    }
}

/// `s` split at every occurrence of `c`.  The separators are not kept and
/// empty pieces are: the result has one piece more than `s` has separators.
pub open spec fn split_char(s: Seq<char>, c: char) -> Seq<Seq<char>>
    decreases s.len(),
    via split_char_decreases
{
    if find_char(s, c) == s.len() {
        seq![s]
    } else {
        seq![s.take(find_char(s, c))] + split_char(s.skip(find_char(s, c) + 1), c)
    }
}

#[via_fn]
proof fn split_char_decreases(s: Seq<char>, c: char) {
    lemma_find_char(s, c);
}

/// One trailing carriage return removed, as a `"\r\n"` line terminator leaves
/// one before the newline.
pub open spec fn strip_cr(l: Seq<char>) -> Seq<char> {
    if l.len() > 0 && l[l.len() - 1] == '\r' {
        l.drop_last()
    } else {
        l
    }
}

/// The lines of `s`: the pieces between newlines, each stripped of one
/// trailing carriage return, with no empty artifact after a final newline.
pub open spec fn spec_lines(s: Seq<char>) -> Seq<Seq<char>>
    decreases s.len(),
    via spec_lines_decreases
{
    if s.len() == 0 {
        Seq::empty()
    } else if find_char(s, '\n') == s.len() {
        seq![s]
    } else {
        seq![strip_cr(s.take(find_char(s, '\n')))] + spec_lines(s.skip(find_char(s, '\n') + 1))
    }
}

#[via_fn]
proof fn spec_lines_decreases(s: Seq<char>) {
    lemma_find_char(s, '\n');
}

/// The lowercase equivalent of a string, as `str::to_lowercase` computes it:
/// a function of the characters alone.
pub uninterp spec fn lower_of(s: Seq<char>) -> Seq<char>;

/// Relies on `str::to_lowercase`: the returned string is the lowercase
/// equivalent of `s`, determined by the characters of `s` alone, and an empty
/// string stays empty.
#[verifier::external_body]
pub(crate) fn lowercase(s: &str) -> (r: String)
    ensures
        r@ == lower_of(s@),
        s@.len() == 0 ==> r@.len() == 0,
{
    s.to_lowercase()
}

/// Character-for-character string equality.
pub fn str_eq(a: &str, b: &str) -> (r: bool)
    ensures
        r == (a@ == b@),
{
    let n: usize = a.unicode_len();
    if n != b.unicode_len() {
        return false;
    }
    let mut i: usize = 0;
    while i < n
        invariant
            n == a@.len(),
            n == b@.len(),
            0 <= i <= n,
            forall|t: int| 0 <= t < i ==> a@[t] == b@[t],
        decreases n - i,
    {
        if a.get_char(i) != b.get_char(i) {
            return false;
        }
        i += 1;
    }
    assert(a@ =~= b@);
    true
}

/// The lines of `contents`, in order: split at `'\n'`, one trailing `'\r'`
/// removed from each line, and a final piece after the last newline only if
/// it is non-empty.
pub fn split_lines<'a>(contents: &'a str) -> (r: Vec<&'a str>)
    ensures
        r@.map_values(|l: &str| l@) == spec_lines(contents@),
{
    let n: usize = contents.unicode_len();
    let mut out: Vec<&'a str> = Vec::new();
    let mut pos: usize = 0;
    let mut i: usize = 0;
    proof {
        assert(out@.map_values(|l: &str| l@) + spec_lines(contents@.skip(0)) =~= spec_lines(
            contents@.skip(0),
        ));
        assert(contents@.skip(0) =~= contents@);
    }
    while i < n
        invariant
            n == contents@.len(),
            0 <= pos <= i <= n,
            forall|j: int| pos <= j < i ==> contents@[j] != '\n',
            out@.map_values(|l: &str| l@) + spec_lines(contents@.skip(pos as int)) == spec_lines(
                contents@,
            ),
        decreases n - i,
    {
        if contents.get_char(i) == '\n' {
            let end: usize = if i > pos && contents.get_char(i - 1) == '\r' {
                i - 1
            } else {
                i
            };
            let ghost prev = out@.map_values(|l: &str| l@);
            let ghost suf = contents@.skip(pos as int);
            let line: &'a str = contents.substring_char(pos, end);
            out.push(line);
            proof {
                assert forall|j: int| 0 <= j < i - pos implies suf[j] != '\n' by {
                    assert(suf[j] == contents@[pos + j]);
                }
                assert(suf[i - pos] == contents@[i as int]);
                lemma_find_char_is(suf, '\n', i - pos);
                assert(suf.take(i - pos) =~= contents@.subrange(pos as int, i as int));
                assert(strip_cr(suf.take(i - pos)) =~= line@);
                assert(suf.skip(i - pos + 1) =~= contents@.skip(i + 1));
                assert(spec_lines(suf) == seq![line@] + spec_lines(contents@.skip(i + 1)));
                assert(out@.map_values(|l: &str| l@) =~= prev.push(line@));
                assert(prev.push(line@) + spec_lines(contents@.skip(i + 1)) =~= prev + spec_lines(
                    suf,
                ));
            }
            pos = i + 1;
        }
        i += 1;
    }
    if pos < n {
        let ghost prev = out@.map_values(|l: &str| l@);
        let ghost suf = contents@.skip(pos as int);
        let line: &'a str = contents.substring_char(pos, n);
        out.push(line);
        proof {
            assert forall|j: int| 0 <= j < suf.len() implies suf[j] != '\n' by {
                assert(suf[j] == contents@[pos + j]);
            }
            lemma_find_char_is(suf, '\n', suf.len() as int);
            assert(suf =~= line@);
            assert(spec_lines(suf) == seq![line@]);
            assert(out@.map_values(|l: &str| l@) =~= prev.push(line@));
            assert(prev.push(line@) =~= prev + seq![line@]);
        }
    } else {
        proof {
            assert(contents@.skip(pos as int) =~= Seq::<char>::empty());
            assert(out@.map_values(|l: &str| l@) + spec_lines(Seq::<char>::empty())
                =~= out@.map_values(|l: &str| l@));
        }
    }
    out
}

/// The words of `line`: the pieces between single space characters, empty
/// pieces included, exactly one piece more than `line` has spaces.
pub fn split_words<'a>(line: &'a str) -> (r: Vec<&'a str>)
    ensures
        r@.map_values(|w: &str| w@) == split_char(line@, ' '),
{
    let n: usize = line.unicode_len();
    let mut out: Vec<&'a str> = Vec::new();
    let mut pos: usize = 0;
    let mut i: usize = 0;
    proof {
        assert(out@.map_values(|w: &str| w@) + split_char(line@.skip(0), ' ') =~= split_char(
            line@.skip(0),
            ' ',
        ));
        assert(line@.skip(0) =~= line@);
    }
    while i < n
        invariant
            n == line@.len(),
            0 <= pos <= i <= n,
            forall|j: int| pos <= j < i ==> line@[j] != ' ',
            out@.map_values(|w: &str| w@) + split_char(line@.skip(pos as int), ' ') == split_char(
                line@,
                ' ',
            ),
        decreases n - i,
    {
        if line.get_char(i) == ' ' {
            let ghost prev = out@.map_values(|w: &str| w@);
            let ghost suf = line@.skip(pos as int);
            let word: &'a str = line.substring_char(pos, i);
            out.push(word);
            proof {
                assert forall|j: int| 0 <= j < i - pos implies suf[j] != ' ' by {
                    assert(suf[j] == line@[pos + j]);
                }
                assert(suf[i - pos] == line@[i as int]);
                lemma_find_char_is(suf, ' ', i - pos);
                assert(suf.take(i - pos) =~= word@);
                assert(suf.skip(i - pos + 1) =~= line@.skip(i + 1));
                assert(split_char(suf, ' ') == seq![word@] + split_char(line@.skip(i + 1), ' '));
                assert(out@.map_values(|w: &str| w@) =~= prev.push(word@));
                assert(prev.push(word@) + split_char(line@.skip(i + 1), ' ') =~= prev + split_char(
                    suf,
                    ' ',
                ));
            }
            pos = i + 1;
        }
        i += 1;
    }
    let ghost prev = out@.map_values(|w: &str| w@);
    let ghost suf = line@.skip(pos as int);
    let word: &'a str = line.substring_char(pos, n);
    out.push(word);
    proof {
        assert forall|j: int| 0 <= j < suf.len() implies suf[j] != ' ' by {
            assert(suf[j] == line@[pos + j]);
        }
        lemma_find_char_is(suf, ' ', suf.len() as int);
        assert(suf =~= word@);
        assert(split_char(suf, ' ') == seq![word@]);
        assert(out@.map_values(|w: &str| w@) =~= prev.push(word@));
        assert(prev.push(word@) =~= prev + seq![word@]);
    }
    out
}

} // verus!
