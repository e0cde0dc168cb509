use vstd::prelude::*;
use crate::pattern::{chars_of, SearchFlags};
use crate::render::OutputFlags;

verus! {

/// The path that stands for standard input.
pub open spec fn stdin_path() -> Seq<char> {
    seq!['-']
}

/// Everything one search needs: the query, where to look, and how to match
/// and display.
pub struct Config {
    pub query: String,
    pub path: String,
    pub search_flags: SearchFlags,
    pub output_flags: OutputFlags,
}

impl Config {
    /// A configuration; with no path given, the search reads standard input.
    pub fn new(query: String, path: Option<String>, search_flags: SearchFlags, output_flags: OutputFlags) -> (r: Config)
        ensures
            r.query@ == query@,
            r.path@ == match path {
                Some(p) => p@,
                None => stdin_path(),
            },
            r.search_flags == search_flags,
            r.output_flags == output_flags,
    {
        let path = match path {
            Some(p) => p,
            None => {
                proof {
                    reveal_strlit("-");
                }
                String::from_str("-")
            },
        };
        Config { query, path, search_flags, output_flags }
    }

    /// Whether the search reads standard input rather than a path.
    pub fn reads_stdin(&self) -> (r: bool)
        ensures
            r == (self.path@ == stdin_path()),
    {
        let chars = chars_of(self.path.as_str());
        let r = chars.len() == 1 && chars[0] == '-';
        proof {
            if chars@.len() == 1 {
                assert(r ==> chars@ =~= stdin_path());
            }
        }
        r
    }
}

} // verus!
