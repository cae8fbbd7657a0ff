//! Highlighting with escape sequences given as they are: the plain
//! forerunner of the styler.

use vstd::prelude::*;
use crate::pattern::{compile_pattern, regex_replaced, replace_all, Pattern, PatternError};
use crate::text::{from_chars, push_str, same_text, to_chars};

verus! {

/// The escape sequence that ends every highlight.
pub const RESET: &'static str = "\x1b[0m";

/// The escape sequence of a colour name, for the names that have one.
pub open spec fn color_of(name: Seq<char>) -> Option<Seq<char>> {
    if name == "grey"@ {
        Some("\x1b[90m"@)
    } else if name == "red"@ {
        Some("\x1b[32m"@)
    } else if name == "cyan"@ {
        Some("\x1b[96m"@)
    } else if name == "default"@ {
        Some("\x1b[0m"@)
    } else {
        None
    }
}

/// The escape sequence of a colour name: `grey`, `red`, `cyan` or `default`.
pub fn color(name: &str) -> (r: Option<&'static str>)
    ensures
        match r {
            Some(code) => color_of(name@) == Some(code@),
            None => color_of(name@) is None,
        },
{
    if same_text(name, "grey") {
        Some("\x1b[90m")
    } else if same_text(name, "red") {
        Some("\x1b[32m")
    } else if same_text(name, "cyan") {
        Some("\x1b[96m")
    } else if same_text(name, "default") {
        Some("\x1b[0m")
    } else {
        None
    }
}

/// The escape sequence `color` with underlining added: its last character,
/// the closing `m`, gives way to `;4m`.
pub open spec fn underlined(color: Seq<char>) -> Seq<char> {
    (if color.len() > 0 {
        color.drop_last()
    } else {
        color
    }) + ";4m"@
}

/// `s` between the escape sequence `color`, underlined or not, and the reset.
pub open spec fn highlighted(s: Seq<char>, color: Seq<char>, underline: bool) -> Seq<char> {
    (if underline {
        underlined(color)
    } else {
        color
    }) + s + RESET@
}

/// `s` highlighted: the escape sequence `color` before it, with underlining
/// added where asked for, and the reset after it.
pub fn highlight_string(s: &str, color: &str, underline: bool) -> (out: String)
    ensures
        out@ == highlighted(s@, color@, underline),
{
    let mut highlight = to_chars(color);
    if underline {
        let _last = highlight.pop();
        push_str(&mut highlight, ";4m");
    }
    push_str(&mut highlight, s);
    push_str(&mut highlight, RESET);
    from_chars(&highlight)
}

/// `string` with the first group of every match of `re` highlighted.
pub fn color_matches(re: &Pattern, string: &str, color: &str, underline: bool) -> (out: String)
    ensures
        out@ == regex_replaced(re@, string@, highlighted("$1"@, color@, underline)),
{
    let replacement = highlight_string("$1", color, underline);
    replace_all(re, string, replacement.as_str())
}

/// `string` with every match of `pattern` highlighted. The pattern is
/// compiled in brackets; where it does not compile, the error says so.
pub fn color_substring(string: &str, pattern: &str, color: &str, underline: bool) -> (r: Result<
    String,
    PatternError,
>)
    ensures
        match r {
            Ok(out) => out@ == regex_replaced(
                "("@ + pattern@ + ")"@,
                string@,
                highlighted("$1"@, color@, underline),
            ),
            Err(e) => e.pattern@ == "("@ + pattern@ + ")"@,
        },
{
    let mut group = to_chars("(");
    push_str(&mut group, pattern);
    push_str(&mut group, ")");
    let group = from_chars(&group);
    match compile_pattern(group.as_str()) {
        Ok(re) => Ok(color_matches(&re, string, color, underline)),
        Err(e) => Err(e),
    }
}

} // verus!
