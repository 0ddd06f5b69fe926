//! How a program is traced: which profile is taken, and which messages are shown.
use vstd::prelude::*;

use crate::text::{cat, cat_text, decimal, decimal_text, same_text, text, texts};

verus! {

/// What `str::to_lowercase` gives.
pub uninterp spec fn lowercase(s: Seq<char>) -> Seq<char>;

/// `str::to_lowercase`: the result depends on the characters alone.
#[verifier::external_body]
fn to_lowercase(s: &str) -> (r: String)
    ensures
        r@ == lowercase(s@),
{
    s.to_lowercase()
}

/// Which profile is taken.
#[derive(Debug, Clone, Copy, PartialEq, Eq, Structural)]
pub enum Profile {
    Off,
    Flame,
    Console,
    Both,
}

/// The name of a profile.
pub open spec fn profile_name(p: Profile) -> Seq<char> {
    match p {
        Profile::Off => "none"@,
        Profile::Flame => "flame"@,
        Profile::Console => "console"@,
        Profile::Both => "both"@,
    }
}

/// The profile of this name, or none if no other has it.
pub open spec fn profile_named(s: Seq<char>) -> Profile {
    if s == "flame"@ {
        Profile::Flame
    } else if s == "console"@ {
        Profile::Console
    } else if s == "both"@ {
        Profile::Both
    } else {
        Profile::Off
    }
}

/// Every profile is found under its name.
pub proof fn law_profile_names(p: Profile)
    ensures
        profile_named(profile_name(p)) == p,
{
    reveal_strlit("none");
    reveal_strlit("flame");
    reveal_strlit("console");
    reveal_strlit("both");
    assert("none"@[0] == 'n' && "flame"@[0] == 'f' && "console"@[0] == 'c' && "both"@[0] == 'b');
}

impl Profile {
    /// The name of the profile.
    pub fn as_str(&self) -> (s: &'static str)
        ensures
            s@ == profile_name(*self),
    {
        match self {
            Profile::Off => "none",
            Profile::Flame => "flame",
            Profile::Console => "console",
            Profile::Both => "both",
        }
    }

    /// The profile of this name, or none if no other has it.
    pub fn from_str(s: &str) -> (r: Self)
        ensures
            r == profile_named(s@),
    {
        if same_text(s, "flame") {
            Profile::Flame
        } else if same_text(s, "console") {
            Profile::Console
        } else if same_text(s, "both") {
            Profile::Both
        } else {
            Profile::Off
        }
    }
}

impl Default for Profile {
    fn default() -> (r: Self)
        ensures
            r == Profile::Off,
    {
        Profile::Off
    }
}

/// Which messages are shown.
#[derive(Debug, Clone, Copy, PartialEq, Eq, Structural)]
pub enum LogLevel {
    Off,
    Error,
    Warn,
    Info,
    Debug,
    Trace,
}

/// The level of this name, or the usual one if none has it.
pub open spec fn level_named(s: Seq<char>) -> LogLevel {
    if s == "off"@ {
        LogLevel::Off
    } else if s == "error"@ {
        LogLevel::Error
    } else if s == "warn"@ {
        LogLevel::Warn
    } else if s == "debug"@ {
        LogLevel::Debug
    } else if s == "trace"@ {
        LogLevel::Trace
    } else {
        LogLevel::Info
    }
}

/// The level of a name in small letters, or the usual one if none has it.
pub fn level_of(s: &str) -> (r: LogLevel)
    ensures
        r == level_named(s@),
{
    if same_text(s, "off") {
        LogLevel::Off
    } else if same_text(s, "error") {
        LogLevel::Error
    } else if same_text(s, "warn") {
        LogLevel::Warn
    } else if same_text(s, "debug") {
        LogLevel::Debug
    } else if same_text(s, "trace") {
        LogLevel::Trace
    } else {
        LogLevel::Info
    }
}

/// The level of a name in large or small letters, or the usual one if none has it.
pub fn parse_level(s: &str) -> (r: LogLevel)
    ensures
        r == level_named(lowercase(s@)),
{
    let lower = to_lowercase(s);
    level_of(lower.as_str())
}

/// How a program is traced.
#[derive(Debug)]
pub struct Config {
    pub profile: Profile,
    pub flame_output: Option<String>,
    pub log_level: LogLevel,
}

impl Config {
    /// How a program is traced that was started with these arguments.
    pub fn from_cli(profile: &str, flame_output: Option<String>, log_level: &str) -> (r: Self)
        ensures
            r.profile == profile_named(profile@),
            r.flame_output == flame_output,
            r.log_level == level_named(lowercase(log_level@)),
    {
        Config {
            profile: Profile::from_str(profile),
            flame_output,
            log_level: parse_level(log_level),
        }
    }
}

impl Default for Config {
    fn default() -> (r: Self)
        ensures
            r.profile == Profile::Off,
            r.flame_output is None,
            r.log_level == LogLevel::Info,
    {
        Config { profile: Profile::Off, flame_output: None, log_level: LogLevel::Info }
    }
}

/// The path of a profile that is taken at `ts` milliseconds.
pub open spec fn flame_path(ts: u64) -> Seq<char> {
    cat(seq!["prof/tracing/"@, decimal(ts as nat), ".folded"@])
}

/// The path of a profile that is taken at `ts` milliseconds, if no other is given.
pub fn default_flame_path(ts: u64) -> (r: String)
    ensures
        r@ == flame_path(ts),
{
    let parts = vec![text("prof/tracing/"), decimal_text(ts), text(".folded")];
    assert(texts(parts@) =~= seq!["prof/tracing/"@, decimal(ts as nat), ".folded"@]);
    cat_text(&parts)
}

/// A name that is none of the profiles turns them off, and one that is none of the levels is
/// the usual one. Each level has its own name.
pub proof fn law_names_known(s: Seq<char>)
    ensures
        profile_named(s) is Flame <==> s == "flame"@,
        profile_named(s) is Console <==> s == "console"@,
        profile_named(s) is Both <==> s == "both"@,
        level_named(s) is Off <==> s == "off"@,
        level_named(s) is Error <==> s == "error"@,
        level_named(s) is Warn <==> s == "warn"@,
        level_named(s) is Debug <==> s == "debug"@,
        level_named(s) is Trace <==> s == "trace"@,
{
    reveal_strlit("flame");
    reveal_strlit("console");
    reveal_strlit("both");
    reveal_strlit("off");
    reveal_strlit("error");
    reveal_strlit("warn");
    reveal_strlit("debug");
    reveal_strlit("trace");
    assert("flame"@[0] == 'f' && "console"@[0] == 'c' && "both"@[0] == 'b');
    assert("off"@[0] == 'o' && "error"@[0] == 'e' && "warn"@[0] == 'w' && "debug"@[0] == 'd'
        && "trace"@[0] == 't');
}

/// A profile is kept under its time.
pub proof fn law_flame_path(ts: u64)
    ensures
        flame_path(ts) == "prof/tracing/"@ + decimal(ts as nat) + ".folded"@,
{
    reveal_with_fuel(cat, 5);
    let a = seq!["prof/tracing/"@, decimal(ts as nat), ".folded"@];
    assert(cat(a) =~= a[0] + a[1] + a[2]);
}

} // verus!
