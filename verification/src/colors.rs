use vstd::prelude::*;
use colored::Colorize;

verus! {

/// The escape sequence that switches the foreground to bright black.
pub open spec fn bright_black_start() -> Seq<char> {
    seq!['\x1b', '[', '9', '0', 'm']
}

/// The escape sequence that switches the foreground to green.
pub open spec fn green_start() -> Seq<char> {
    seq!['\x1b', '[', '3', '2', 'm']
}

/// The escape sequence that resets all styles.
pub open spec fn style_reset() -> Seq<char> {
    seq!['\x1b', '[', '0', 'm']
}

/// Whether `s` holds the reset sequence somewhere.
pub open spec fn holds_style_reset(s: Seq<char>) -> bool {
    exists|i: int| 0 <= i && i + 4 <= s.len() && #[trigger] s.subrange(i, i + 4) == style_reset()
}

/// What `s` looks like in the colour that `start` switches on: unchanged when
/// colouring is off, otherwise between `start` and the reset sequence (the
/// middle part being `s` itself unless `s` holds a reset sequence of its own).
pub open spec fn is_styled_form(start: Seq<char>, s: Seq<char>, r: Seq<char>) -> bool {
    ||| r == s
    ||| {
        &&& r.len() >= start.len() + 4
        &&& r.take(start.len() as int) == start
        &&& r.skip(r.len() - 4) == style_reset()
        &&& !holds_style_reset(s) ==> r == start + s + style_reset()
    }
}

pub open spec fn is_bright_black_form(s: Seq<char>, r: Seq<char>) -> bool {
    is_styled_form(bright_black_start(), s, r)
}

pub open spec fn is_green_form(s: Seq<char>, r: Seq<char>) -> bool {
    is_styled_form(green_start(), s, r)
}

/// Calls `colored::Colorize::bright_black` on `s` and formats the result.
/// Whether colours are written depends on the environment and the terminal
/// (`colored`'s `SHOULD_COLORIZE`), so only the two possible forms are stated.
#[verifier::external_body]
pub(crate) fn bright_black(s: &str) -> (r: String)
    ensures
        is_bright_black_form(s@, r@),
{
    format!("{}", s.bright_black())
}

/// Calls `colored::Colorize::green` on `s` and formats the result. Whether
/// colours are written depends on the environment and the terminal, so only
/// the two possible forms are stated.
#[verifier::external_body]
pub(crate) fn green(s: &str) -> (r: String)
    ensures
        is_green_form(s@, r@),
{
    format!("{}", s.green())
}

}
