//! Colored and bold text on a terminal.
use owo_colors::OwoColorize;
use vstd::prelude::*;

verus! {

/// `OwoColorize::cyan`, displayed: the text between the sequences that switch the color on and
/// back to the default.
#[verifier::external_body]
pub(crate) fn cyan(s: &str) -> (r: String)
    ensures
        r@ == in_color("36"@, s@),
{
    s.cyan().to_string()
}

/// `OwoColorize::yellow`, displayed.
#[verifier::external_body]
pub(crate) fn yellow(s: &str) -> (r: String)
    ensures
        r@ == in_color("33"@, s@),
{
    s.yellow().to_string()
}

/// `OwoColorize::red`, displayed.
#[verifier::external_body]
pub(crate) fn red(s: &str) -> (r: String)
    ensures
        r@ == in_color("31"@, s@),
{
    s.red().to_string()
}

/// `OwoColorize::green`, displayed.
#[verifier::external_body]
pub(crate) fn green(s: &str) -> (r: String)
    ensures
        r@ == in_color("32"@, s@),
{
    s.green().to_string()
}

/// `OwoColorize::bold`, displayed: the text between the sequences that switch bold type on and
/// all styles off.
#[verifier::external_body]
pub(crate) fn bold(s: &str) -> (r: String)
    ensures
        r@ == in_bold(s@),
{
    s.bold().to_string()
}

/// The text in the color with the given code.
pub open spec fn in_color(code: Seq<char>, s: Seq<char>) -> Seq<char> {
    "\u{1b}["@ + code + "m"@ + s + "\u{1b}[39m"@
}

/// The text in bold type.
pub open spec fn in_bold(s: Seq<char>) -> Seq<char> {
    "\u{1b}[1m"@ + s + "\u{1b}[0m"@
}

} // verus!
