//! The run configuration: the query, the file name and the case toggle,
//! resolved from the plain argument list and environment toggle that the
//! surrounding program hands in, and the dispatch that runs the search the
//! configuration asks for.

use vstd::prelude::*;

use crate::search::search;
use crate::search::search_case_insensitive;
use crate::search::spec_search;
use crate::search::spec_search_case_insensitive;

verus! {

/// What one invocation searches for and where: built once, never changed.
pub struct Config {
    pub query: String,
    pub filename: String,
    pub case_sensitive: bool,
}

impl Config {
    /// Resolves the argument list into a configuration. `args[0]` is the
    /// program name and is discarded; the query and the file name follow.
    /// `case_insensitive` says whether the environment toggle that disables
    /// exact-case matching was set; the caller reads it from the process
    /// environment. A missing argument is reported by a fixed message naming
    /// the first one absent.
    pub fn new(args: Vec<String>, case_insensitive: bool) -> (result: Result<
        Config,
        &'static str,
    >)
        ensures
            result is Ok <==> args@.len() >= 3,
            args@.len() >= 3 ==> {
                let config = result->Ok_0;
                &&& config.query == args@[1]
                &&& config.filename == args@[2]
                &&& config.case_sensitive == !case_insensitive
            },
            args@.len() < 2 ==> result->Err_0@ == "Didn't get a query string"@,
            args@.len() == 2 ==> result->Err_0@ == "Didn't get a file name"@,
    {
        if args.len() < 2 {
            return Err("Didn't get a query string");
        }
        if args.len() < 3 {
            return Err("Didn't get a file name");
        }
        let query = args[1].clone();
        let filename = args[2].clone();
        Ok(Config { query, filename, case_sensitive: !case_insensitive })
    }
}

/// Runs the search that `config` asks for over `contents`, the text of the
/// configured file: exact-case when `case_sensitive` holds, case-insensitive
/// otherwise. The caller reads the file beforehand and prints the returned
/// lines, in order, one per line.
pub fn run<'a>(config: &Config, contents: &'a str) -> (result: Vec<&'a str>)
    ensures
        config.case_sensitive ==> result.deep_view() == spec_search(config.query@, contents@),
        !config.case_sensitive ==> result.deep_view() == spec_search_case_insensitive(
            config.query@,
            contents@,
        ),
{
    if config.case_sensitive {
        search(config.query.as_str(), contents)
    } else {
        search_case_insensitive(config.query.as_str(), contents)
    }
}

} // verus!
