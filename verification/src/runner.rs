//! One run of the search over the contents of a file.

use vstd::prelude::*;
use vstd::string::*;
use crate::config::Config;
use crate::search::{search, search_case_insensitive, selected_lines};

verus! {

/// The lines to print for `contents`, the text of the file that `config`
/// names: the lines that contain the query of `config`, found with or
/// without regard to letter case as `config` says, in the order of the text.
pub fn run<'a>(config: &Config, contents: &'a str) -> (lines: Vec<&'a str>)
    ensures
        lines.deep_view() == selected_lines(config@.query, contents@, config@.ignore_case),
{
    if config.ignore_case {
        search_case_insensitive(config.query.as_str(), contents)
    } else {
        search(config.query.as_str(), contents)
    }
}

} // verus!
