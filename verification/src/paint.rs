//! Colour for what is put on the terminal. The colouring itself is done by
//! the `console` crate, which decides from the terminal and the environment
//! whether to colour at all. What the library relies on is only that a
//! coloured text still shows the text.

use vstd::prelude::*;

verus! {

/// `painted` shows `plain`: it is `plain`, possibly with something before it
/// and something after it.
pub open spec fn shows(painted: Seq<char>, plain: Seq<char>) -> bool {
    exists|lead: Seq<char>, trail: Seq<char>| painted == #[trigger] (lead + plain + trail)
}

/// `text` as `console::style(text).red()` displays it. Where `console` finds
/// that colours are off, that is `text` itself; where they are on, escape
/// codes for the colour stand before it and the reset code after it.
#[verifier::external_body]
pub(crate) fn red(text: &str) -> (painted: String)
    ensures
        shows(painted@, text@),
{
    format!("{}", console::style(text).red())
}

/// `text` as `console::style(text).green()` displays it: `text`, between
/// escape codes where colours are on.
#[verifier::external_body]
pub(crate) fn green(text: &str) -> (painted: String)
    ensures
        shows(painted@, text@),
{
    format!("{}", console::style(text).green())
}

/// `text` as `console::style(text).cyan()` displays it: `text`, between
/// escape codes where colours are on.
#[verifier::external_body]
pub(crate) fn cyan(text: &str) -> (painted: String)
    ensures
        shows(painted@, text@),
{
    format!("{}", console::style(text).cyan())
}

/// `text` as `console::style(text).cyan().bold()` displays it: `text`,
/// between escape codes where colours are on.
#[verifier::external_body]
pub(crate) fn cyan_bold(text: &str) -> (painted: String)
    ensures
        shows(painted@, text@),
{
    format!("{}", console::style(text).cyan().bold())
}

/// `text` as `console::style(text).magenta()` displays it: `text`, between
/// escape codes where colours are on.
#[verifier::external_body]
pub(crate) fn magenta(text: &str) -> (painted: String)
    ensures
        shows(painted@, text@),
{
    format!("{}", console::style(text).magenta())
}

/// `text` as `console::style(text).on_cyan().black()` displays it: `text`,
/// between escape codes where colours are on.
#[verifier::external_body]
pub(crate) fn black_on_cyan(text: &str) -> (painted: String)
    ensures
        shows(painted@, text@),
{
    format!("{}", console::style(text).on_cyan().black())
}

} // verus!
