//! What to search for, where, and how: resolved from the tokens of a command
//! line and one flag of the environment.

use vstd::prelude::*;
use vstd::string::*;

verus! {

/// The settings of one run.
#[derive(Debug)]
pub struct Config {
    /// The text to look for. It may be empty.
    pub query: String,
    /// The name of the file to search. Nothing is known of the file.
    pub file_path: String,
    /// Whether the search leaves letter case out of account.
    pub ignore_case: bool,
}

/// The settings of one run, as plain values.
pub struct Settings {
    pub query: Seq<char>,
    pub file_path: Seq<char>,
    pub ignore_case: bool,
}

impl View for Config {
    type V = Settings;

    open spec fn view(&self) -> Settings {
        Settings { query: self.query@, file_path: self.file_path@, ignore_case: self.ignore_case }
    }
}

/// The token that a command line lacks.
#[derive(Debug, Clone, Copy, PartialEq, Eq, Structural)]
pub enum MissingArgument {
    /// No token follows the program's name.
    Query,
    /// One token follows the program's name, and no second.
    FilePath,
}

impl MissingArgument {
    /// The words that tell a user of `self`.
    pub open spec fn words(self) -> Seq<char> {
        match self {
            MissingArgument::Query => "Did not get a query string!"@,
            MissingArgument::FilePath => "Did not get a file path!"@,
        }
    }

    /// A message for the user that names the token that is missing.
    pub fn message(&self) -> (text: &'static str)
        ensures
            text@ == self.words(),
    {
        match self {
            MissingArgument::Query => "Did not get a query string!",
            MissingArgument::FilePath => "Did not get a file path!",
        }
    }
}

/// The settings that the tokens `args` of a command line ask for, or the
/// token that they lack. The first token is the program's name and counts
/// for nothing; the second is the query, the third the file's path, and
/// further tokens are passed over. `flag_set` tells whether the environment
/// holds the flag that switches letter case off.
pub open spec fn resolve(args: Seq<Seq<char>>, flag_set: bool) -> Result<
    Settings,
    MissingArgument,
> {
    if args.len() < 2 {
        Err(MissingArgument::Query)
    } else if args.len() < 3 {
        Err(MissingArgument::FilePath)
    } else {
        Ok(Settings { query: args[1], file_path: args[2], ignore_case: flag_set })
    }
}

impl Config {
    /// Resolves the settings of a run from the tokens `args` of the command
    /// line and from `ignore_case_flag`, the value of the environment's flag
    /// for a search without regard to letter case, or `None` where the
    /// environment has no such flag. That the flag is set is all that
    /// counts: its value may be anything, the empty text too.
    ///
    /// Neither the query nor the file's path is looked at.
    pub fn build(args: &[String], ignore_case_flag: Option<&str>) -> (built: Result<
        Config,
        MissingArgument,
    >)
        ensures
            match built {
                Ok(config) => resolve(args.deep_view(), ignore_case_flag is Some) == Ok::<
                    Settings,
                    MissingArgument,
                >(config@),
                Err(missing) => resolve(args.deep_view(), ignore_case_flag is Some) == Err::<
                    Settings,
                    MissingArgument,
                >(missing),
            },
    {
        if args.len() < 2 {
            return Err(MissingArgument::Query);
        }
        if args.len() < 3 {
            return Err(MissingArgument::FilePath);
        }
        let query = args[1].clone();
        let file_path = args[2].clone();
        Ok(Config { query, file_path, ignore_case: ignore_case_flag.is_some() })
    }
}

} // verus!
