//! Line search over a text.
//!
//! `search` returns, in order, exactly the lines of the text that
//! contain the query; `search_case_insensitive` compares after case
//! folding both sides. Reading the file and the environment stays with
//! the caller; the functions here work on plain strings.

use vstd::prelude::*;

verus! {

/// Search settings: what to look for, where, and how.
#[derive(Debug)]
pub struct Config {
    pub query: String,
    pub filename: String,
    pub case_sensitive: bool,
}

impl Config {
    /// Reads the query and filename from an argument list whose first
    /// entry is the program name; rejects short lists.
    pub fn new(args: &Vec<String>, case_sensitive: bool) -> (r: Result<Config, &'static str>)
        ensures
            args@.len() < 3 ==> (r is Err && r->Err_0@ == "not enough arguments"@),
            args@.len() >= 3 ==> (r is Ok && r->Ok_0.query@ == args@[1]@ && r->Ok_0.filename@
                == args@[2]@ && r->Ok_0.case_sensitive == case_sensitive),
    {
        if args.len() < 3 {
            return Err("not enough arguments");
        }
        let query = args[1].clone();
        let filename = args[2].clone();
        Ok(Config { query, filename, case_sensitive })
    }
}

/// Does `needle` occur contiguously inside `hay`?
pub open spec fn spec_contains(hay: Seq<char>, needle: Seq<char>) -> bool {
    exists|k: int|
        0 <= k <= hay.len() - needle.len() && #[trigger] hay.subrange(k, k + needle.len() as int)
            == needle
}

/// The lines of a text, as `str::lines` splits them: terminated by
/// `\n`, with a `\r` directly before the `\n` stripped, and no empty
/// line after a final terminator.
pub open spec fn spec_lines(s: Seq<char>) -> Seq<Seq<char>> {
    spec_lines_from(s, 0)
}

/// The lines of `s[i..]`.
pub open spec fn spec_lines_from(s: Seq<char>, i: int) -> Seq<Seq<char>>
    decreases s.len() - i,
{
    if i < 0 || i >= s.len() {
        Seq::empty()
    } else {
        let j0 = spec_newline_at(s, i);
        let j = if j0 < i {
            s.len() as int
        } else {
            j0
        };
        if j < s.len() {
            let line = if j > i && s[j - 1] == '\r' {
                s.subrange(i, j - 1)
            } else {
                s.subrange(i, j)
            };
            seq![line] + spec_lines_from(s, j + 1)
        } else {
            seq![s.subrange(i, s.len() as int)]
        }
    }
}

/// The first index at or after `i` holding a newline, or the length.
pub open spec fn spec_newline_at(s: Seq<char>, i: int) -> int
    decreases s.len() - i,
{
    if i < 0 || i >= s.len() {
        s.len() as int
    } else if s[i] == '\n' {
        i
    } else {
        spec_newline_at(s, i + 1)
    }
}

/// What `str::to_lowercase` returns: a function of the characters
/// alone.
pub uninterp spec fn lower_of(s: Seq<char>) -> Seq<char>;

/// The lines from index `i` on that contain the query.
pub open spec fn spec_search_from(lines: Seq<Seq<char>>, query: Seq<char>, i: int) -> Seq<
    Seq<char>,
>
    decreases lines.len() - i,
{
    if i < 0 || i >= lines.len() {
        Seq::empty()
    } else if spec_contains(lines[i], query) {
        seq![lines[i]] + spec_search_from(lines, query, i + 1)
    } else {
        spec_search_from(lines, query, i + 1)
    }
}

/// The lines from index `i` on whose case-folded text contains the
/// already-folded query.
pub open spec fn spec_search_ci_from(lines: Seq<Seq<char>>, folded_query: Seq<char>, i: int) -> Seq<
    Seq<char>,
>
    decreases lines.len() - i,
{
    if i < 0 || i >= lines.len() {
        Seq::empty()
    } else if spec_contains(lower_of(lines[i]), folded_query) {
        seq![lines[i]] + spec_search_ci_from(lines, folded_query, i + 1)
    } else {
        spec_search_ci_from(lines, folded_query, i + 1)
    }
}

/// Relies on `str::contains` with a `&str` pattern: true exactly when
/// the pattern matches a sub-slice of the string.
#[verifier::external_body]
fn contains_str(hay: &str, needle: &str) -> (r: bool)
    ensures
        r == spec_contains(hay@, needle@),
{
    hay.contains(needle)
}

/// Relies on `str::to_lowercase`: the result depends on the characters
/// alone, and an empty string stays empty.
#[verifier::external_body]
fn lowercase(s: &str) -> (r: String)
    ensures
        r@ == lower_of(s@),
        s@.len() == 0 ==> r@.len() == 0,
{
    s.to_lowercase()
}

/// Relies on `str::lines`: the text split at line endings, with a
/// `\r\n` ending stripped and no empty line after a final terminator.
#[verifier::external_body]
fn split_lines<'a>(s: &'a str) -> (r: Vec<&'a str>)
    ensures
        r@.len() == spec_lines(s@).len(),
        forall|i: int| 0 <= i < r@.len() ==> #[trigger] r@[i]@ == spec_lines(s@)[i],
{
    s.lines().collect()
}

/// Keeps the lines from index `i` on that contain the query.
fn search_from<'a>(lines: &Vec<&'a str>, query: &str, i: usize) -> (r: Vec<&'a str>)
    ensures
        ({
            let m = spec_search_from(lines@.map_values(|l: &str| l@), query@, i as int);
            r@.len() == m.len() && forall|j: int| 0 <= j < r@.len() ==> #[trigger] r@[j]@ == m[j]
        }),
    decreases lines@.len() - i,
{
    if i >= lines.len() {
        return Vec::new();
    }
    let mut rest = search_from(lines, query, i + 1);
    if contains_str(lines[i], query) {
        let mut out: Vec<&'a str> = Vec::new();
        out.push(lines[i]);
        out.append(&mut rest);
        out
    } else {
        rest
    }
}

/// Keeps the lines from index `i` on whose case-folded text contains
/// the already-folded query.
fn search_ci_from<'a>(lines: &Vec<&'a str>, folded_query: &String, i: usize) -> (r: Vec<&'a str>)
    ensures
        ({
            let m = spec_search_ci_from(lines@.map_values(|l: &str| l@), folded_query@, i as int);
            r@.len() == m.len() && forall|j: int| 0 <= j < r@.len() ==> #[trigger] r@[j]@ == m[j]
        }),
    decreases lines@.len() - i,
{
    if i >= lines.len() {
        return Vec::new();
    }
    let mut rest = search_ci_from(lines, folded_query, i + 1);
    let folded = lowercase(lines[i]);
    if contains_str(folded.as_str(), folded_query.as_str()) {
        let mut out: Vec<&'a str> = Vec::new();
        out.push(lines[i]);
        out.append(&mut rest);
        out
    } else {
        rest
    }
}

/// The lines of `contents` that contain `query`, in order.
pub fn search<'a>(query: &str, contents: &'a str) -> (r: Vec<&'a str>)
    ensures
        ({
            let m = spec_search_from(spec_lines(contents@), query@, 0);
            r@.len() == m.len() && forall|j: int| 0 <= j < r@.len() ==> #[trigger] r@[j]@ == m[j]
        }),
{
    let lines = split_lines(contents);
    proof {
        assert(lines@.map_values(|l: &str| l@) =~= spec_lines(contents@));
    }
    search_from(&lines, query, 0)
}

/// The lines of `contents` that contain `query` when both sides are
/// case folded, in order.
pub fn search_case_insensitive<'a>(query: &str, contents: &'a str) -> (r: Vec<&'a str>)
    ensures
        ({
            let m = spec_search_ci_from(spec_lines(contents@), lower_of(query@), 0);
            r@.len() == m.len() && forall|j: int| 0 <= j < r@.len() ==> #[trigger] r@[j]@ == m[j]
        }),
{
    let query = lowercase(query);
    let lines = split_lines(contents);
    proof {
        assert(lines@.map_values(|l: &str| l@) =~= spec_lines(contents@));
    }
    search_ci_from(&lines, &query, 0)
}

} // verus!
