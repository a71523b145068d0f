//! The line filter: which lines of the contents match the query.

use vstd::prelude::*;
use crate::text::contains_substr;
use crate::text::lower_of;
use crate::text::lowercase;
use crate::text::spec_lines;
use crate::text::split_lines;
use crate::text::str_contains;

verus! {

/// Does `line` match `query` in case-sensitive mode: literal containment.
pub open spec fn line_matches(line: Seq<char>, query: Seq<char>) -> bool {
    contains_substr(line, query)
}

/// Does `line` match `query` in case-insensitive mode: containment after
/// lowercasing both sides.
pub open spec fn line_matches_ci(line: Seq<char>, query: Seq<char>) -> bool {
    contains_substr(lower_of(line), lower_of(query))
}

/// The elements of `lines` that satisfy `p`, in their original order.
pub open spec fn filtered(lines: Seq<Seq<char>>, p: spec_fn(Seq<char>) -> bool) -> Seq<Seq<char>>
    decreases lines.len(),
{
    if lines.len() == 0 {
        Seq::empty()
    } else if p(lines.last()) {
        filtered(lines.drop_last(), p).push(lines.last())
    } else {
        filtered(lines.drop_last(), p)
    }
}

/// `xs` occurs inside `ys` in order: deleting some elements of `ys` leaves
/// exactly `xs`.
pub open spec fn is_subsequence_of<T>(xs: Seq<T>, ys: Seq<T>) -> bool
    decreases ys.len(),
{
    if xs.len() == 0 {
        true
    } else if ys.len() == 0 {
        false
    } else if xs.last() == ys.last() {
        is_subsequence_of(xs.drop_last(), ys.drop_last())
    } else {
        is_subsequence_of(xs, ys.drop_last())
    }
}

/// A subsequence stays one after its own last element is removed.
proof fn lemma_subsequence_drop_last<T>(xs: Seq<T>, ys: Seq<T>)
    requires
        is_subsequence_of(xs, ys),
        xs.len() > 0,
    ensures
        is_subsequence_of(xs.drop_last(), ys),
    decreases ys.len(),
{
    let xd = xs.drop_last();
    let yd = ys.drop_last();
    if xs.last() == ys.last() {
        if xd.len() == 0 {
        } else if xd.last() == ys.last() {
            lemma_subsequence_drop_last(xd, yd);
        }
    } else {
        lemma_subsequence_drop_last(xs, yd);
        if xd.len() == 0 {
        } else if xd.last() == ys.last() {
            lemma_subsequence_drop_last(xd, yd);
        }
    }
}

/// A subsequence stays one when the longer sequence grows at the end.
proof fn lemma_subsequence_push<T>(xs: Seq<T>, ys: Seq<T>, z: T)
    requires
        is_subsequence_of(xs, ys),
    ensures
        is_subsequence_of(xs, ys.push(z)),
{
    assert(ys.push(z).drop_last() =~= ys);
    if xs.len() == 0 {
    } else if xs.last() == z {
        lemma_subsequence_drop_last(xs, ys);
    }
}

/// Everything `filtered` keeps satisfies `p` and is an element of `lines`.
pub proof fn lemma_filtered_sound(lines: Seq<Seq<char>>, p: spec_fn(Seq<char>) -> bool)
    ensures
        forall|i: int|
            0 <= i < filtered(lines, p).len() ==> p(#[trigger] filtered(lines, p)[i])
                && lines.contains(filtered(lines, p)[i]),
    decreases lines.len(),
{
    if lines.len() == 0 {
    } else {
        let dl = lines.drop_last();
        lemma_filtered_sound(dl, p);
        let fl = filtered(lines, p);
        let rest = filtered(dl, p);
        assert forall|i: int| 0 <= i < fl.len() implies p(#[trigger] fl[i]) && lines.contains(
            fl[i],
        ) by {
            if p(lines.last()) && i == fl.len() - 1 {
                assert(fl[i] == lines.last());
                assert(lines[lines.len() - 1] == lines.last());
                assert(lines.contains(fl[i]));
            } else {
                assert(fl[i] == filtered(dl, p)[i]);
                let w = choose|k: int| 0 <= k < dl.len() && dl[k] == rest[i];
                assert(lines[w] == fl[i]);
                assert(lines.contains(fl[i]));
            }
        }
    }
}

/// Every element of `lines` that satisfies `p` appears in `filtered`.
pub proof fn lemma_filtered_complete(lines: Seq<Seq<char>>, p: spec_fn(Seq<char>) -> bool)
    ensures
        forall|i: int|
            0 <= i < lines.len() && p(#[trigger] lines[i]) ==> filtered(lines, p).contains(
                lines[i],
            ),
    decreases lines.len(),
{
    if lines.len() == 0 {
    } else {
        let dl = lines.drop_last();
        lemma_filtered_complete(dl, p);
        let fl = filtered(lines, p);
        let rest = filtered(dl, p);
        assert forall|i: int| 0 <= i < lines.len() && p(#[trigger] lines[i]) implies fl.contains(
            lines[i],
        ) by {
            if i < lines.len() - 1 {
                assert(dl[i] == lines[i]);
                assert(rest.contains(lines[i]));
                let w = choose|k: int| 0 <= k < rest.len() && rest[k] == lines[i];
                assert(fl[w] == lines[i]);
                assert(fl.contains(lines[i]));
            } else {
                assert(lines[i] == lines.last());
                assert(fl[fl.len() - 1] == lines[i]);
                assert(fl.contains(lines[i]));
            }
        }
    }
}

/// `filtered` keeps the original order: it is an in-order subsequence.
pub proof fn lemma_filtered_subsequence(lines: Seq<Seq<char>>, p: spec_fn(Seq<char>) -> bool)
    ensures
        is_subsequence_of(filtered(lines, p), lines),
    decreases lines.len(),
{
    if lines.len() == 0 {
    } else {
        let dl = lines.drop_last();
        lemma_filtered_subsequence(dl, p);
        if p(lines.last()) {
            assert(filtered(lines, p).last() == lines.last());
            assert(filtered(lines, p).drop_last() =~= filtered(dl, p));
        } else {
            lemma_subsequence_push(filtered(dl, p), dl, lines.last());
            assert(dl.push(lines.last()) =~= lines);
        }
    }
}

/// A pointwise stronger predicate filters out an in-order subsequence of
/// what the weaker one keeps.
pub proof fn lemma_filtered_monotone(
    lines: Seq<Seq<char>>,
    p: spec_fn(Seq<char>) -> bool,
    q: spec_fn(Seq<char>) -> bool,
)
    requires
        forall|i: int| 0 <= i < lines.len() && p(#[trigger] lines[i]) ==> q(lines[i]),
    ensures
        is_subsequence_of(filtered(lines, p), filtered(lines, q)),
    decreases lines.len(),
{
    if lines.len() == 0 {
    } else {
        let dl = lines.drop_last();
        assert forall|i: int| 0 <= i < dl.len() && p(#[trigger] dl[i]) implies q(dl[i]) by {
            assert(dl[i] == lines[i]);
        }
        lemma_filtered_monotone(dl, p, q);
        let fp = filtered(dl, p);
        let fq = filtered(dl, q);
        assert(lines[lines.len() - 1] == lines.last());
        if p(lines.last()) {
            assert(filtered(lines, p).drop_last() =~= fp);
            assert(filtered(lines, q).drop_last() =~= fq);
        } else if q(lines.last()) {
            lemma_subsequence_push(fp, fq, lines.last());
        }
    }
}

/// Soundness and completeness of the case-sensitive filter: every returned
/// line is a line of the contents that contains the query as a literal
/// substring, and every such line of the contents is returned.
pub proof fn lemma_search_exact(query: Seq<char>, contents: Seq<char>)
    ensures
        forall|i: int|
            0 <= i < spec_search(query, contents).len() ==> contains_substr(
                #[trigger] spec_search(query, contents)[i],
                query,
            ) && spec_lines(contents).contains(spec_search(query, contents)[i]),
        forall|i: int|
            0 <= i < spec_lines(contents).len() && contains_substr(
                #[trigger] spec_lines(contents)[i],
                query,
            ) ==> spec_search(query, contents).contains(spec_lines(contents)[i]),
{
    lemma_filtered_sound(spec_lines(contents), |l: Seq<char>| line_matches(l, query));
    lemma_filtered_complete(spec_lines(contents), |l: Seq<char>| line_matches(l, query));
}

/// Widening to case-insensitive mode: wherever lowercasing preserves a
/// matched line's containment of the query, every line the case-sensitive
/// filter returns is also returned by the case-insensitive filter, in the
/// same relative order.
pub proof fn lemma_case_insensitive_superset(query: Seq<char>, contents: Seq<char>)
    requires
        forall|i: int|
            0 <= i < spec_lines(contents).len() && contains_substr(
                #[trigger] spec_lines(contents)[i],
                query,
            ) ==> contains_substr(lower_of(spec_lines(contents)[i]), lower_of(query)),
    ensures
        is_subsequence_of(
            spec_search(query, contents),
            spec_search_case_insensitive(query, contents),
        ),
{
    lemma_filtered_monotone(
        spec_lines(contents),
        |l: Seq<char>| line_matches(l, query),
        |l: Seq<char>| line_matches_ci(l, query),
    );
}

/// Order preservation: both filters return the matched lines in the order in
/// which they stand in the contents.
pub proof fn lemma_search_preserves_order(query: Seq<char>, contents: Seq<char>)
    ensures
        is_subsequence_of(spec_search(query, contents), spec_lines(contents)),
        is_subsequence_of(spec_search_case_insensitive(query, contents), spec_lines(contents)),
{
    lemma_filtered_subsequence(spec_lines(contents), |l: Seq<char>| line_matches(l, query));
    lemma_filtered_subsequence(spec_lines(contents), |l: Seq<char>| line_matches_ci(l, query));
}

/// Idempotence: either filter is a function of the query and the contents
/// alone, so two runs on identical inputs return identical results.
pub proof fn lemma_search_idempotent(
    query: Seq<char>,
    contents: Seq<char>,
    case_sensitive: bool,
    r1: Seq<Seq<char>>,
    r2: Seq<Seq<char>>,
)
    requires
        r1 == (if case_sensitive {
            spec_search(query, contents)
        } else {
            spec_search_case_insensitive(query, contents)
        }),
        r2 == (if case_sensitive {
            spec_search(query, contents)
        } else {
            spec_search_case_insensitive(query, contents)
        }),
    ensures
        r1 == r2,
{
}

/// The lines of `contents` that contain `query` as a literal substring.
pub open spec fn spec_search(query: Seq<char>, contents: Seq<char>) -> Seq<Seq<char>> {
    filtered(spec_lines(contents), |l: Seq<char>| line_matches(l, query))
}

/// The lines of `contents` whose lowercased form contains the lowercased
/// `query` as a substring.
pub open spec fn spec_search_case_insensitive(query: Seq<char>, contents: Seq<char>) -> Seq<
    Seq<char>,
> {
    filtered(spec_lines(contents), |l: Seq<char>| line_matches_ci(l, query))
}

/// The lines of `contents` that contain `query`, in their original order.
pub fn search<'a>(query: &str, contents: &'a str) -> (results: Vec<&'a str>)
    ensures
        results@.map_values(|l: &str| l@) == spec_search(query@, contents@),
{
    let lines: Vec<&'a str> = split_lines(contents);
    let ghost lns = spec_lines(contents@);
    let mut results: Vec<&'a str> = Vec::new();
    let mut idx: usize = 0;
    proof {
        assert(lns.take(0) =~= Seq::<Seq<char>>::empty());
        assert(results@.map_values(|l: &str| l@) =~= filtered(
            lns.take(0),
            |l: Seq<char>| line_matches(l, query@),
        ));
    }
    while idx < lines.len()
        invariant
            lines@.map_values(|l: &str| l@) == lns,
            lns == spec_lines(contents@),
            0 <= idx <= lines.len(),
            results@.map_values(|l: &str| l@) == filtered(
                lns.take(idx as int),
                |l: Seq<char>| line_matches(l, query@),
            ),
        decreases lines.len() - idx,
    {
        let ghost prev = results@.map_values(|l: &str| l@);
        let line: &'a str = lines[idx];
        proof {
            assert(lns[idx as int] == line@);
            assert(lns.take(idx + 1).drop_last() =~= lns.take(idx as int));
            assert(lns.take(idx + 1).last() == line@);
        }
        if str_contains(line, query) {
            results.push(line);
            proof {
                assert(results@.map_values(|l: &str| l@) =~= prev.push(line@));
            }
        }
        idx += 1;
    }
    proof {
        assert(lns.take(lines@.len() as int) =~= lns);
    }
    results
}

/// The lines of `contents` that contain `query` up to case, in their
/// original order.
pub fn search_case_insensitive<'a>(query: &str, contents: &'a str) -> (results: Vec<&'a str>)
    ensures
        results@.map_values(|l: &str| l@) == spec_search_case_insensitive(query@, contents@),
{
    let lquery: String = lowercase(query);
    let lines: Vec<&'a str> = split_lines(contents);
    let ghost lns = spec_lines(contents@);
    let mut results: Vec<&'a str> = Vec::new();
    let mut idx: usize = 0;
    proof {
        assert(lns.take(0) =~= Seq::<Seq<char>>::empty());
        assert(results@.map_values(|l: &str| l@) =~= filtered(
            lns.take(0),
            |l: Seq<char>| line_matches_ci(l, query@),
        ));
    }
    while idx < lines.len()
        invariant
            lines@.map_values(|l: &str| l@) == lns,
            lns == spec_lines(contents@),
            lquery@ == lower_of(query@),
            0 <= idx <= lines.len(),
            results@.map_values(|l: &str| l@) == filtered(
                lns.take(idx as int),
                |l: Seq<char>| line_matches_ci(l, query@),
            ),
        decreases lines.len() - idx,
    {
        let ghost prev = results@.map_values(|l: &str| l@);
        let line: &'a str = lines[idx];
        proof {
            assert(lns[idx as int] == line@);
            assert(lns.take(idx + 1).drop_last() =~= lns.take(idx as int));
            assert(lns.take(idx + 1).last() == line@);
        }
        let lline: String = lowercase(line);
        if str_contains(lline.as_str(), lquery.as_str()) {
            results.push(line);
            proof {
                assert(results@.map_values(|l: &str| l@) =~= prev.push(line@));
            }
        }
        idx += 1;
    }
    proof {
        assert(lns.take(lines@.len() as int) =~= lns);
    }
    results
}

} // verus!
