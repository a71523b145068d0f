//! Preparing matched lines for display.
//!
//! A matched line is split into its space-separated words, and each word is
//! judged for emphasis: does it contain the query under the active
//! case-sensitivity rule?  How an emphasized word is shown (a colour, a
//! style) is left to the caller.

use vstd::prelude::*;
use vstd::string::StringExecFns;
use crate::config::Config;
use crate::search::search;
use crate::search::search_case_insensitive;
use crate::search::spec_search;
use crate::search::spec_search_case_insensitive;
use crate::text::contains_substr;
use crate::text::lower_of;
use crate::text::lowercase;
use crate::text::split_char;
use crate::text::split_words;
use crate::text::str_contains;

verus! {

/// One word of a rendered line, with the verdict whether it contains the
/// query and is to be shown emphasized.
pub struct RenderedWord {
    pub text: String,
    pub is_match: bool,
}

/// Is `word` shown emphasized: it contains `query` as given, or, in
/// case-insensitive mode, contains it up to case.
pub open spec fn word_highlighted(word: Seq<char>, query: Seq<char>, case_sensitive: bool) -> bool {
    contains_substr(word, query) || (!case_sensitive && contains_substr(
        lower_of(word),
        lower_of(query),
    ))
}

/// `rw` is the rendering of `line` for `query`: the words of `line` in
/// order, each with its highlight verdict.
pub open spec fn renders_line(
    rw: Seq<RenderedWord>,
    line: Seq<char>,
    query: Seq<char>,
    case_sensitive: bool,
) -> bool {
    &&& rw.len() == split_char(line, ' ').len()
    &&& forall|j: int|
        0 <= j < rw.len() ==> (#[trigger] rw[j]).text@ == split_char(line, ' ')[j] && rw[j].is_match
            == word_highlighted(split_char(line, ' ')[j], query, case_sensitive)
}

/// The matched lines of `contents` for `query` under the given mode.
pub open spec fn spec_matches(query: Seq<char>, contents: Seq<char>, case_sensitive: bool) -> Seq<
    Seq<char>,
> {
    if case_sensitive {
        spec_search(query, contents)
    } else {
        spec_search_case_insensitive(query, contents)
    }
}

/// Splits `line` into its words and judges each for emphasis.
pub fn render_line(line: &str, query: &str, case_sensitive: bool) -> (r: Vec<RenderedWord>)
    ensures
        renders_line(r@, line@, query@, case_sensitive),
{
    let lquery: String = lowercase(query);
    let words: Vec<&str> = split_words(line);
    let mut out: Vec<RenderedWord> = Vec::new();
    let mut idx: usize = 0;
    while idx < words.len()
        invariant
            words@.map_values(|w: &str| w@) == split_char(line@, ' '),
            lquery@ == lower_of(query@),
            0 <= idx <= words@.len(),
            out@.len() == idx,
            forall|j: int|
                0 <= j < idx ==> (#[trigger] out@[j]).text@ == split_char(line@, ' ')[j]
                    && out@[j].is_match == word_highlighted(
                    split_char(line@, ' ')[j],
                    query@,
                    case_sensitive,
                ),
        decreases words@.len() - idx,
    {
        let word: &str = words[idx];
        proof {
            assert(words@.map_values(|w: &str| w@)[idx as int] == word@);
        }
        let mut m: bool = str_contains(word, query);
        if !m && !case_sensitive {
            let lword: String = lowercase(word);
            m = str_contains(lword.as_str(), lquery.as_str());
        }
        out.push(RenderedWord { text: String::from_str(word), is_match: m });
        idx += 1;
    }
    out
}

/// The whole display decision of a search: the matched lines of `contents`
/// under the mode of `config`, in order, each rendered as words with their
/// highlight verdicts.
pub fn render_matches(config: &Config, contents: &str) -> (r: Vec<Vec<RenderedWord>>)
    ensures
        r@.len() == spec_matches(config.query@, contents@, config.case_sensitive).len(),
        forall|i: int|
            0 <= i < r@.len() ==> renders_line(
                (#[trigger] r@[i])@,
                spec_matches(config.query@, contents@, config.case_sensitive)[i],
                config.query@,
                config.case_sensitive,
            ),
{
    let results: Vec<&str> = if config.case_sensitive {
        search(config.query.as_str(), contents)
    } else {
        search_case_insensitive(config.query.as_str(), contents)
    };
    let ghost matched = spec_matches(config.query@, contents@, config.case_sensitive);
    let mut out: Vec<Vec<RenderedWord>> = Vec::new();
    let mut idx: usize = 0;
    while idx < results.len()
        invariant
            results@.map_values(|l: &str| l@) == matched,
            matched == spec_matches(config.query@, contents@, config.case_sensitive),
            0 <= idx <= results@.len(),
            out@.len() == idx,
            forall|i: int|
                0 <= i < idx ==> renders_line(
                    (#[trigger] out@[i])@,
                    matched[i],
                    config.query@,
                    config.case_sensitive,
                ),
        decreases results@.len() - idx,
    {
        let line: &str = results[idx];
        proof {
            assert(results@.map_values(|l: &str| l@)[idx as int] == line@);
        }
        let rline: Vec<RenderedWord> = render_line(line, config.query.as_str(), config.case_sensitive);
        out.push(rline);
        idx += 1;
    }
    out
}

} // verus!
