use vstd::prelude::*;
use std::str::FromStr;

use crate::search::{search, search_insensitive, search_insensitive_result, search_result};
use crate::text::views_of;

verus! {

/// What one run searches for, and where.
pub struct Config {
    pub query: String,
    pub file_name: String,
    pub case_sensitive: bool,
}

/// The boolean that `s` spells, if it spells one.
pub open spec fn bool_spelled(s: Seq<char>) -> Option<bool> {
    if s == "true"@ {
        Some(true)
    } else if s == "false"@ {
        Some(false)
    } else {
        None
    }
}

/// Relies on `bool::from_str`: it accepts exactly "true" and "false".
#[verifier::external_body]
fn parse_bool(s: &str) -> (r: Option<bool>)
    ensures
        r == bool_spelled(s@),
{
    bool::from_str(s).ok()
}

impl Config {
    /// Builds a configuration from the whole argument list, program name first:
    /// query, file name, then `true` or `false` for a case-sensitive search.
    pub fn new(args: Vec<String>) -> (r: Result<Config, &'static str>)
        ensures
            args.len() < 4 ==> (r matches Err(e) && e@ == "Not enough arguments"@),
            args.len() >= 4 && bool_spelled(args[3]@) is None ==> (r matches Err(e) && e@
                == "Failed to parse bool"@),
            args.len() >= 4 && bool_spelled(args[3]@) is Some ==> (r matches Ok(c) && c.query@
                == args[1]@ && c.file_name@ == args[2]@ && Some(c.case_sensitive) == bool_spelled(
                args[3]@,
            )),
    {
        if args.len() < 4 {
            return Err("Not enough arguments");
        }
        let query = args[1].clone();
        let file_name = args[2].clone();
        match parse_bool(args[3].as_str()) {
            Some(case_sensitive) => Ok(Config { query, file_name, case_sensitive }),
            None => Err("Failed to parse bool"),
        }
    }
}

/// The lines of `contents` that the configuration asks for: exact matches of
/// its query, or matches that ignore case.
pub fn find_matches<'a>(config: &Config, contents: &'a str) -> (r: Vec<&'a str>)
    ensures
        views_of(r@) == if config.case_sensitive {
            search_result(config.query@, contents@)
        } else {
            search_insensitive_result(config.query@, contents@)
        },
{
    if config.case_sensitive {
        search(config.query.as_str(), contents)
    } else {
        search_insensitive(config.query.as_str(), contents)
    }
}

} // verus!
