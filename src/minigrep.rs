//! Line search: the lines of a text that contain a query.
use vstd::prelude::*;

verus! {

/// The lines of `s` as `str::lines` splits them.
pub uninterp spec fn lines_of(s: Seq<char>) -> Seq<Seq<char>>;

/// `needle` occurs in `hay` as a contiguous run.
pub open spec fn is_infix(needle: Seq<char>, hay: Seq<char>) -> bool {
    exists|i: int| 0 <= i <= hay.len() - needle.len() && #[trigger] hay.subrange(i, i + needle.len()) == needle
}

/// The lines of `lines` that contain `query`, in order.
pub open spec fn matching_lines(query: Seq<char>, lines: Seq<Seq<char>>) -> Seq<Seq<char>>
    decreases lines.len(),
{
    if lines.len() == 0 {
        Seq::empty()
    } else {
        let rest = matching_lines(query, lines.drop_last());
        if is_infix(query, lines.last()) {
            rest.push(lines.last())
        } else {
            rest
        }
    }
}

/// The views of a sequence of string slices.
pub open spec fn views<'a>(v: Seq<&'a str>) -> Seq<Seq<char>> {
    v.map_values(|l: &'a str| l@)
}

/// Relies on `str::lines`: the lines of `s`, split at `\n` (with a `\r` before it
/// dropped), as a function of the characters of `s` alone.
#[verifier::external_body]
fn str_lines<'a>(s: &'a str) -> (r: Vec<&'a str>)
    ensures
        views(r@) == lines_of(s@),
{
    s.lines().collect()
}

/// Relies on `str::contains` with a `&str` pattern: whether `needle` occurs in `hay`.
#[verifier::external_body]
fn str_contains(hay: &str, needle: &str) -> (r: bool)
    ensures
        r == is_infix(needle@, hay@),
{
    hay.contains(needle)
}

/// The lines among `lines` that contain `query`, in order.
pub fn filter_lines<'a>(query: &str, lines: &Vec<&'a str>) -> (r: Vec<&'a str>)
    ensures
        views(r@) == matching_lines(query@, views(lines@)),
{
    let mut results: Vec<&'a str> = Vec::new();
    let mut i: usize = 0;
    while i < lines.len()
        invariant
            i <= lines.len(),
            views(results@) == matching_lines(query@, views(lines@.take(i as int))),
        decreases lines.len() - i,
    {
        let line = lines[i];
        assert(views(lines@.take(i + 1)).drop_last() =~= views(lines@.take(i as int)));
        assert(views(lines@.take(i + 1)).last() == line@);
        if str_contains(line, query) {
            results.push(line);
            assert(views(results@) =~= views(results@.drop_last()).push(line@));
        }
        i += 1;
    }
    assert(lines@.take(i as int) =~= lines@);
    results
}

/// The lines of `contents` that contain `query`, in order.
pub fn search<'a>(query: &str, contents: &'a str) -> (r: Vec<&'a str>)
    ensures
        views(r@) == matching_lines(query@, lines_of(contents@)),
{
    let lines = str_lines(contents);
    filter_lines(query, &lines)
}

/// The query and the file path of a search.
pub struct Config {
    pub q: String,
    pub fp: String,
}

impl Config {
    /// Reads the query and the file path from the arguments after the program
    /// name; fails when fewer than two follow it.
    pub fn build(args: &[String]) -> (r: Result<Config, &'static str>)
        ensures
            args@.len() < 3 <==> r is Err,
            r matches Err(e) ==> e == "not enough arguments",
            r matches Ok(c) ==> c.q@ == args@[1]@ && c.fp@ == args@[2]@,
    {
        if args.len() < 3 {
            return Err("not enough arguments");
        }
        let q = args[1].clone();
        let fp = args[2].clone();
        Ok(Config { q, fp })
    }
}

} // verus!
