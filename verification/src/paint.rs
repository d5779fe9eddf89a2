//! Text that a terminal draws in color.

use owo_colors::OwoColorize;
use vstd::prelude::*;

verus! {

/// A text between the code that sets a foreground color and the one that sets it back.
pub open spec fn painted(code: Seq<char>, s: Seq<char>) -> Seq<char> {
    code + s + "\u{1b}[39m"@
}

/// Calls `owo_colors::OwoColorize::red` and displays the result: the text between the code of red
/// and that of the default color.
#[verifier::external_body]
pub(crate) fn red(s: &str) -> (r: String)
    ensures
        r@ == painted("\u{1b}[31m"@, s@),
{
    s.red().to_string()
}

/// Calls `owo_colors::OwoColorize::green` and displays the result: the text between the code of
/// green and that of the default color.
#[verifier::external_body]
pub(crate) fn green(s: &str) -> (r: String)
    ensures
        r@ == painted("\u{1b}[32m"@, s@),
{
    s.green().to_string()
}

/// Calls `owo_colors::OwoColorize::bright_yellow` and displays the result: the text between the
/// code of bright yellow and that of the default color.
#[verifier::external_body]
pub(crate) fn bright_yellow(s: &str) -> (r: String)
    ensures
        r@ == painted("\u{1b}[93m"@, s@),
{
    s.bright_yellow().to_string()
}

} // verus!
