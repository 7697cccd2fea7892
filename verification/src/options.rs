//! The command options and the configuration every orchestrator receives.
//!
//! Argument parsing and defaulting belong to the surrounding program; the
//! types here carry the parsed values, and resolving the configured paths
//! against the working directory is plain text work done verified.

use vstd::prelude::*;

verus! {

use crate::extend::Extend;
use crate::graph::Graph;
use crate::nearby::Nearby;
use crate::remove_useless_words::Ruw;
use crate::solve::Solve;
use vstd::string::StrSliceExecFns;
use vstd::string::StringExecFns;

/// How loud a log line is.
pub enum LogLevel {
    Warn,
    Error,
    Info,
}

impl LogLevel {
    /// The level's name as written into the log.
    pub fn to_string(&self) -> (r: String)
        ensures
            self is Warn ==> r@ == "WARN"@,
            self is Error ==> r@ == "ERROR"@,
            self is Info ==> r@ == "INFO"@,
    {
        let s = match self {
            LogLevel::Warn => "WARN",
            LogLevel::Error => "ERROR",
            LogLevel::Info => "INFO",
        };
        s.to_owned()
    }
}

/// The options of one sort command.
pub struct Sort {
    pub words_list_file: String,
    pub found_word_filename: String,
}

/// One parsed command.
pub enum Commands {
    Solve(Solve),
    Ruw(Ruw),
    Nearby(Nearby),
    Extend(Extend),
    Sort(Sort),
    Graph(Graph),
}

impl Commands {
    /// The command's name.
    pub fn describe(&self) -> (r: &'static str)
        ensures
            self is Solve ==> r@ == "Solve"@,
            self is Ruw ==> r@ == "Remove useless words"@,
            self is Nearby ==> r@ == "Nearby"@,
            self is Extend ==> r@ == "Extend"@,
            self is Sort ==> r@ == "Sort"@,
            self is Graph ==> r@ == "Graph"@,
    {
        match self {
            Commands::Solve(_) => "Solve",
            Commands::Ruw(_) => "Remove useless words",
            Commands::Nearby(_) => "Nearby",
            Commands::Extend(_) => "Extend",
            Commands::Sort(_) => "Sort",
            Commands::Graph(_) => "Graph",
        }
    }
}

/// What joining a relative path onto a base directory yields: the path
/// itself when it is absolute or the base is empty, else the two with
/// exactly one separator between them.
pub open spec fn spec_join_path(base: Seq<char>, rel: Seq<char>) -> Seq<char> {
    if rel.len() > 0 && rel[0] == '/' {
        rel
    } else if base.len() == 0 {
        rel
    } else if base.last() == '/' {
        base + rel
    } else {
        base + seq!['/'] + rel
    }
}

/// Joins a relative path onto a base directory.
pub fn join_path(base: &String, rel: &String) -> (r: String)
    ensures
        r@ == spec_join_path(base@, rel@),
{
    proof {
        reveal_strlit("/");
    }
    let rel_str = rel.as_str();
    let base_str = base.as_str();
    let base_len = base_str.unicode_len();
    if (!rel_str.is_empty() && rel_str.get_char(0) == '/') || base_len == 0 {
        return rel.clone();
    }
    let mut out = base.clone();
    if base_str.get_char(base_len - 1) != '/' {
        out.append("/");
    }
    out.append(rel_str);
    proof {
        assert(out@ =~= spec_join_path(base@, rel@));
    }
    out
}

/// The whole configuration of one run: the command and where the candidate
/// words, the history and the log live.
pub struct Cli {
    pub command: Commands,
    pub verbose: bool,
    pub words_directory: String,
    pub word_history: String,
    pub working_directory: String,
    pub log: Option<String>,
}

impl Cli {
    /// Resolves the configured file names against the working directory.
    pub fn init(&mut self)
        ensures
            final(self).word_history@ == spec_join_path(
                old(self).working_directory@,
                old(self).word_history@,
            ),
            final(self).words_directory@ == spec_join_path(
                old(self).working_directory@,
                old(self).words_directory@,
            ),
            old(self).log is None ==> final(self).log is None,
            old(self).log matches Some(l) ==> (final(self).log matches Some(m) && m@
                == spec_join_path(old(self).working_directory@, l@)),
            final(self).working_directory == old(self).working_directory,
            final(self).command == old(self).command,
            final(self).verbose == old(self).verbose,
    {
        self.word_history = join_path(&self.working_directory, &self.word_history);
        self.words_directory = join_path(&self.working_directory, &self.words_directory);
        let new_log = match &self.log {
            Some(l) => Some(join_path(&self.working_directory, l)),
            None => None,
        };
        self.log = new_log;
    }
}

} // verus!
