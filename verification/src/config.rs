//! Resolving the command line into a configuration.

use vstd::prelude::*;
use vstd::slice::slice_index_get;
use crate::text::str_eq;

verus! {

/// The resolved command line: what to search for, in which file, and whether
/// case matters.
pub struct Config {
    pub query: String,
    pub fname: String,
    pub case_sensitive: bool,
}

impl Config {
    /// Validates the command line `args` (program name included) and builds
    /// the configuration.
    ///
    /// Exactly the invocations `prog query fname` and `prog query fname -s`
    /// are accepted; the trailing `-s`, and no other fourth token, turns
    /// case-sensitive matching on.
    pub fn new(args: &[String]) -> (r: Result<Config, &'static str>)
        ensures
            match r {
                Ok(c) => {
                    &&& 3 <= args@.len() <= 4
                    &&& c.query@ == args@[1]@
                    &&& c.fname@ == args@[2]@
                    &&& c.case_sensitive == (args@.len() == 4)
                    &&& (args@.len() == 4 ==> args@[3]@ == "-s"@)
                },
                Err(e) => {
                    &&& (args@.len() < 3 || args@.len() > 4 || (args@.len() == 4 && args@[3]@
                        != "-s"@))
                    &&& (args@.len() < 3 ==> e@ == "not enough arguments"@)
                    &&& (args@.len() > 4 ==> e@ == "too many arguments"@)
                    &&& ((args@.len() == 4 && args@[3]@ != "-s"@) ==> e@ == "wrong flag"@)
                },
            },
    {
        if args.len() < 3 {
            return Err("not enough arguments");
        } else if args.len() > 4 {
            return Err("too many arguments");
        }
        let query: String = slice_index_get(args, 1).clone();
        let fname: String = slice_index_get(args, 2).clone();
        let case_sensitive: bool = if args.len() == 4 {
            if !str_eq(slice_index_get(args, 3).as_str(), "-s") {
                return Err("wrong flag");
            } else {
                true
            }
        } else {
            false
        };
        Ok(Config { query, fname, case_sensitive })
    }
}

} // verus!
