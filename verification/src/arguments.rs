//! The options that steer a run, and how they are decided from what the command
//! line gave.

use crate::modes::Mode;
use crate::text::{parse_usize, text_equals, usize_of};
use std::str::FromStr;
use vstd::prelude::*;

verus! {

/// What a value that is neither a number nor `all` is answered with.
pub open spec fn not_a_count() -> Seq<char> {
    "Not a positive integer or \"all\""@
}

/// How many levels below the root are explored.
#[derive(Debug, PartialEq, Eq, Clone, Copy, Structural)]
pub enum Depth {
    /// Every level is explored.
    Unlimited,
    /// Only the entries above this level have their children explored.
    Limited(usize),
}

impl Depth {
    /// Whether the children of an entry at `level` are explored.
    pub open spec fn accepts_spec(self, level: nat) -> bool {
        match self {
            Depth::Unlimited => true,
            Depth::Limited(size) => level < size,
        }
    }

    /// The depth that a count stands for: zero stands for no limit.
    pub open spec fn of_count(count: usize) -> Depth {
        if count > 0 {
            Depth::Limited(count)
        } else {
            Depth::Unlimited
        }
    }

    /// The depth that a text stands for: `all`, or a count in decimal.
    pub open spec fn of_text(s: Seq<char>) -> Result<Depth, Seq<char>> {
        if s == "all"@ {
            Ok(Depth::Unlimited)
        } else {
            match usize_of(s) {
                Some(count) => Ok(Depth::of_count(count)),
                None => Err(not_a_count()),
            }
        }
    }

    /// Whether the children of an entry at `level` are explored.
    pub fn accepts(&self, level: usize) -> (accepted: bool)
        ensures
            accepted == self.accepts_spec(level as nat),
    {
        match *self {
            Depth::Unlimited => true,
            Depth::Limited(size) => size > level,
        }
    }

    /// Reads a depth: `all` or `0` for no limit, or the number of levels.
    pub fn parse(s: &str) -> (depth: Result<Depth, String>)
        ensures
            match Depth::of_text(s@) {
                Ok(d) => depth == Ok::<Depth, String>(d),
                Err(reason) => depth matches Err(e) && e@ == reason,
            },
    {
        if text_equals(s, "all") {
            return Ok(Depth::Unlimited);
        }
        let number: usize = match parse_usize(s) {
            Some(number) => number,
            None => {
                return Err("Not a positive integer or \"all\"".to_owned());
            },
        };
        if number > 0 {
            Ok(Depth::Limited(number))
        } else {
            Ok(Depth::Unlimited)
        }
    }
}

impl FromStr for Depth {
    type Err = String;

    /// Reads a depth: `all` or `0` for no limit, or the number of levels.
    fn from_str(s: &str) -> (depth: Result<Self, String>)
        ensures
            match Depth::of_text(s@) {
                Ok(d) => depth == Ok::<Depth, String>(d),
                Err(reason) => depth matches Err(e) && e@ == reason,
            },
    {
        Depth::parse(s)
    }
}

/// How many entries are shown side by side.
#[derive(Debug, PartialEq, Eq, Clone, Copy, Structural)]
pub enum Limit {
    /// Every entry is shown.
    Unlimited,
    /// Showing stops once this many entries have been shown.
    Limited(usize),
}

impl Limit {
    /// Whether showing stops after `shown` entries.
    pub open spec fn reached_spec(self, shown: nat) -> bool {
        match self {
            Limit::Unlimited => false,
            Limit::Limited(max) => max <= shown,
        }
    }

    /// How many of `available` entries are shown: one is shown before the limit
    /// is first asked, so a limit below one shows one.
    pub open spec fn shown_of(self, available: nat) -> nat {
        match self {
            Limit::Unlimited => available,
            Limit::Limited(max) => if available == 0 {
                0
            } else if max <= 1 {
                1
            } else if (max as nat) < available {
                max as nat
            } else {
                available
            },
        }
    }

    /// The limit that a count stands for: zero stands for no limit.
    pub open spec fn of_count(count: usize) -> Limit {
        if count > 0 {
            Limit::Limited(count)
        } else {
            Limit::Unlimited
        }
    }

    /// The limit that a text stands for: `all`, or a count in decimal.
    pub open spec fn of_text(s: Seq<char>) -> Result<Limit, Seq<char>> {
        if s == "all"@ {
            Ok(Limit::Unlimited)
        } else {
            match usize_of(s) {
                Some(count) => Ok(Limit::of_count(count)),
                None => Err(not_a_count()),
            }
        }
    }

    /// Whether showing stops after `shown` entries.
    pub fn reached(&self, shown: usize) -> (stop: bool)
        ensures
            stop == self.reached_spec(shown as nat),
    {
        match *self {
            Limit::Unlimited => false,
            Limit::Limited(max) => max <= shown,
        }
    }

    /// Reads a limit: `all` or `0` for no limit, or the number of entries.
    pub fn parse(s: &str) -> (limit: Result<Limit, String>)
        ensures
            match Limit::of_text(s@) {
                Ok(l) => limit == Ok::<Limit, String>(l),
                Err(reason) => limit matches Err(e) && e@ == reason,
            },
    {
        if text_equals(s, "all") {
            return Ok(Limit::Unlimited);
        }
        let number: usize = match parse_usize(s) {
            Some(number) => number,
            None => {
                return Err("Not a positive integer or \"all\"".to_owned());
            },
        };
        if number > 0 {
            Ok(Limit::Limited(number))
        } else {
            Ok(Limit::Unlimited)
        }
    }
}

impl FromStr for Limit {
    type Err = String;

    /// Reads a limit: `all` or `0` for no limit, or the number of entries.
    fn from_str(s: &str) -> (limit: Result<Self, String>)
        ensures
            match Limit::of_text(s@) {
                Ok(l) => limit == Ok::<Limit, String>(l),
                Err(reason) => limit matches Err(e) && e@ == reason,
            },
    {
        Limit::parse(s)
    }
}

/// A count of zero and the word `all` both stand for no limit, for a depth as for
/// a limit, and any other count stands for itself.
pub proof fn lemma_zero_means_unlimited(count: usize)
    ensures
        Depth::of_count(0) == Depth::Unlimited,
        Limit::of_count(0) == Limit::Unlimited,
        Depth::of_text("all"@) == Ok::<Depth, Seq<char>>(Depth::Unlimited),
        Limit::of_text("all"@) == Ok::<Limit, Seq<char>>(Limit::Unlimited),
        count > 0 ==> Depth::of_count(count) == Depth::Limited(count),
        count > 0 ==> Limit::of_count(count) == Limit::Limited(count),
{
}

/// The settings of one run.
pub struct Options {
    /// The paths to summarize, in the order in which they are processed.
    pub roots: Vec<String>,
    /// How many entries are shown in one directory, or in the ranking of files.
    pub limit: Limit,
    /// How many levels below each root are explored.
    pub depth: Depth,
    /// What is printed for each root.
    pub mode: Mode,
    /// Whether hidden entries are shown.
    pub show_all: bool,
}

impl Options {
    /// The paths to summarize.
    pub fn roots(&self) -> (roots: &Vec<String>)
        ensures
            *roots == self.roots,
    {
        &self.roots
    }

    /// What is printed for each root.
    pub fn mode(&self) -> (mode: &Mode)
        ensures
            *mode == self.mode,
    {
        &self.mode
    }

    /// Whether the children of an entry at `level` are explored.
    pub fn depth_accepts(&self, level: usize) -> (accepted: bool)
        ensures
            accepted == self.depth.accepts_spec(level as nat),
    {
        self.depth.accepts(level)
    }

    /// Whether showing stops after `shown_entries` entries.
    pub fn limit_reached(&self, shown_entries: usize) -> (stop: bool)
        ensures
            stop == self.limit.reached_spec(shown_entries as nat),
    {
        match self.limit {
            Limit::Unlimited => false,
            Limit::Limited(max) => max <= shown_entries,
        }
    }

    /// Whether hidden entries are shown.
    pub fn should_show_hidden(&self) -> (shown: bool)
        ensures
            shown == self.show_all,
    {
        self.show_all
    }
}

/// What the command line gave, argument by argument, before any of it is judged.
pub struct Matches {
    /// The positional arguments, if there were any.
    pub dirs: Option<Vec<String>>,
    /// The value given for the limit, if one was given.
    pub limit: Option<String>,
    /// The value given for the depth, if one was given.
    pub depth: Option<String>,
    /// Whether the whole tree was asked for.
    pub recursive: bool,
    /// Whether hidden entries were asked for.
    pub all: bool,
    /// Whether the ranking of files was asked for.
    pub files: bool,
}

impl Matches {
    /// The roots that are summarized: the positional arguments, or the current
    /// directory where there are none.
    pub open spec fn chosen_roots(self) -> Seq<Seq<char>> {
        match self.dirs {
            Some(dirs) => dirs.deep_view(),
            None => seq!["."@],
        }
    }

    /// The depth that applies: the one given or, where none is given, one level,
    /// or no limit where the whole tree was asked for.
    pub open spec fn chosen_depth(self) -> Result<Depth, Seq<char>> {
        match self.depth {
            Some(value) => Depth::of_text(value@),
            None => Ok(
                if self.recursive {
                    Depth::Unlimited
                } else {
                    Depth::Limited(1)
                },
            ),
        }
    }

    /// The limit that applies: the one given or, where none is given, one entry.
    pub open spec fn chosen_limit(self) -> Result<Limit, Seq<char>> {
        match self.limit {
            Some(value) => Limit::of_text(value@),
            None => Ok(Limit::Limited(1)),
        }
    }

    /// The mode that applies.
    pub open spec fn chosen_mode(self) -> Mode {
        if self.files {
            Mode::Files
        } else {
            Mode::Tree
        }
    }
}

/// The message that refuses a depth or a limit for the given reason.
pub open spec fn refusal(reason: Seq<char>) -> Seq<char> {
    "Could not determine depth: "@ + reason
}

/// The message that refuses a depth or a limit for the given reason.
pub fn refuse(reason: String) -> (message: String)
    ensures
        message@ == refusal(reason@),
{
    "Could not determine depth: ".to_owned().concat(reason.as_str())
}

/// Decides the options of a run from what the command line gave.
///
/// The depth is judged before the limit; the first of the two that is neither a
/// count nor `all` is refused with a message, and no options are made.
pub fn parse_from(matches: Matches) -> (parsed: Result<Options, String>)
    ensures
        match (matches.chosen_depth(), matches.chosen_limit()) {
            (Err(reason), _) => parsed matches Err(message) && message@ == refusal(reason),
            (Ok(_), Err(reason)) => parsed matches Err(message) && message@ == refusal(reason),
            (Ok(depth), Ok(limit)) => parsed matches Ok(options) && {
                &&& options.roots.deep_view() == matches.chosen_roots()
                &&& options.depth == depth
                &&& options.limit == limit
                &&& options.mode == matches.chosen_mode()
                &&& options.show_all == matches.all
            },
        },
{
    let default_depth = if matches.recursive {
        Depth::Unlimited
    } else {
        Depth::Limited(1)
    };
    let depth = match matches.depth {
        Some(value) => match Depth::parse(value.as_str()) {
            Ok(depth) => depth,
            Err(error) => {
                return Err(refuse(error));
            },
        },
        None => default_depth,
    };
    let limit = match matches.limit {
        Some(value) => match Limit::parse(value.as_str()) {
            Ok(limit) => limit,
            Err(error) => {
                return Err(refuse(error));
            },
        },
        None => Limit::Limited(1),
    };
    let mode = if matches.files {
        Mode::Files
    } else {
        Mode::Tree
    };
    let roots = match matches.dirs {
        Some(dirs) => dirs,
        None => {
            let mut roots: Vec<String> = Vec::new();
            roots.push(".".to_owned());
            assert(roots.deep_view() =~= seq!["."@]);
            roots
        },
    };
    Ok(Options { roots, limit, depth, mode, show_all: matches.all })
}

/// What a limit that is neither a count nor `all` is answered with when it is given.
pub open spec fn limit_complaint() -> Seq<char> {
    "Limit needs to be a non-negative integer or \"all\"."@
}

/// What a depth that is neither a count nor `all` is answered with when it is given.
pub open spec fn depth_complaint() -> Seq<char> {
    "Depth must be a non-negative integer or \"all\"."@
}

/// Whether `s` is `all` or a count in decimal.
pub open spec fn is_count_or_all(s: Seq<char>) -> bool {
    s == "all"@ || usize_of(s) is Some
}

/// Judges the value given for the limit: `all` or a count is accepted.
pub fn validate_limit(value: &str) -> (verdict: Result<(), String>)
    ensures
        verdict is Ok <==> is_count_or_all(value@),
        verdict matches Err(e) ==> e@ == limit_complaint(),
{
    if text_equals(value, "all") {
        return Ok(());
    }
    if parse_usize(value).is_some() {
        Ok(())
    } else {
        Err("Limit needs to be a non-negative integer or \"all\".".to_owned())
    }
}

/// Judges the value given for the depth: `all` or a count is accepted.
pub fn validate_depth(value: &str) -> (verdict: Result<(), String>)
    ensures
        verdict is Ok <==> is_count_or_all(value@),
        verdict matches Err(e) ==> e@ == depth_complaint(),
{
    if text_equals(value, "all") {
        return Ok(());
    }
    if parse_usize(value).is_some() {
        Ok(())
    } else {
        Err("Depth must be a non-negative integer or \"all\".".to_owned())
    }
}

/// A value that is accepted when it is given is never refused when the options
/// are decided, and one that is not accepted always is.
pub proof fn lemma_accepted_values_parse(s: Seq<char>)
    ensures
        is_count_or_all(s) <==> Depth::of_text(s) is Ok,
        is_count_or_all(s) <==> Limit::of_text(s) is Ok,
{
}

} // verus!
