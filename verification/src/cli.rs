//! What the terminal shows: ANSI styling, sizes in readable units, and the
//! answer to "shall I go on?".

use vstd::prelude::*;
use crate::pattern::{compile_pattern, regex_replaced, replace_all, Pattern, PatternError};
use crate::text::{
    decimal, decimal_chars, digit_char, digit_of, from_chars, push_all, push_str, same_chars,
    same_text, to_chars, trim, trimmed,
};

verus! {

/// The indentation of an annotation that follows a message.
pub const INDENT: &'static str = "    ";

/// A colour name that asks for no colour.
pub open spec fn is_default(color: Seq<char>) -> bool {
    color == ""@ || color == "default"@
}

/// A colour name that has a code.
pub open spec fn is_named(color: Seq<char>) -> bool {
    color == "cyan"@ || color == "green"@ || color == "gray"@ || color == "red"@ || color
        == "yellow"@
}

/// A colour name that a styler accepts.
pub open spec fn color_known(color: Seq<char>) -> bool {
    is_default(color) || is_named(color)
}

/// The code that sets the foreground to a named colour.
pub open spec fn fg_code(color: Seq<char>) -> Seq<char> {
    if color == "cyan"@ {
        "96"@
    } else if color == "green"@ {
        "32"@
    } else if color == "gray"@ {
        "90"@
    } else if color == "red"@ {
        "31"@
    } else {
        "33"@
    }
}

/// The code that sets the background to a named colour.
pub open spec fn bg_code(color: Seq<char>) -> Seq<char> {
    if color == "cyan"@ {
        "46"@
    } else if color == "green"@ {
        "42"@
    } else if color == "gray"@ {
        "100"@
    } else if color == "red"@ {
        "41"@
    } else {
        "43"@
    }
}

/// Whether the four options ask for no styling at all.
pub open spec fn is_plain(fg: Seq<char>, bg: Seq<char>, bold: bool, underline: bool) -> bool {
    is_default(fg) && is_default(bg) && !bold && !underline
}

/// The codes of a style, in the order in which they are written: bold,
/// underline, foreground, background.
pub open spec fn style_codes(fg: Seq<char>, bg: Seq<char>, bold: bool, underline: bool) -> Seq<
    Seq<char>,
> {
    let a: Seq<Seq<char>> = if bold {
        seq!["1"@]
    } else {
        seq![]
    };
    let b: Seq<Seq<char>> = if underline {
        a.push("4"@)
    } else {
        a
    };
    let c: Seq<Seq<char>> = if is_named(fg) {
        b.push(fg_code(fg))
    } else {
        b
    };
    if is_named(bg) {
        c.push(bg_code(bg))
    } else {
        c
    }
}

/// The parts with `sep` between each two neighbours.
pub open spec fn joined(parts: Seq<Seq<char>>, sep: Seq<char>) -> Seq<char>
    decreases parts.len(),
{
    if parts.len() == 0 {
        Seq::empty()
    } else if parts.len() == 1 {
        parts[0]
    } else {
        joined(parts.drop_last(), sep) + sep + parts.last()
    }
}

/// The escape sequence that switches a style on.
pub open spec fn style_sequence(fg: Seq<char>, bg: Seq<char>, bold: bool, underline: bool) -> Seq<
    char,
> {
    "\x1b["@ + joined(style_codes(fg, bg, bold, underline), ";"@) + "m"@
}

/// Why a styler could not be built.
#[derive(Debug)]
pub enum StyleError {
    /// A colour name that has no code.
    UnsupportedColor { color: String },
    /// A pattern that did not compile.
    BadPattern(PatternError),
}

impl StyleError {
    /// What the user is told.
    pub open spec fn text(self) -> Seq<char> {
        match self {
            StyleError::UnsupportedColor { color } => "Chosen color is not supported:"@ + color@,
            StyleError::BadPattern(e) => "Problem when compiling the regex pattern: "@ + e.reason@,
        }
    }

    /// The message for the user.
    pub fn message(&self) -> (out: String)
        ensures
            out@ == self.text(),
    {
        match self {
            StyleError::UnsupportedColor { color } => {
                let mut out = to_chars("Chosen color is not supported:");
                push_str(&mut out, color.as_str());
                from_chars(&out)
            },
            StyleError::BadPattern(e) => {
                let mut out = to_chars("Problem when compiling the regex pattern: ");
                push_str(&mut out, e.reason.as_str());
                from_chars(&out)
            },
        }
    }
}

/// What a styler holds.
pub struct Style {
    /// Written before what is styled.
    pub style_seq: Seq<char>,
    /// Written after it.
    pub reset_seq: Seq<char>,
    /// Where set, only the matches of this pattern are styled.
    pub regex: Option<Seq<char>>,
}

impl Style {
    /// `text` as the style renders it: wrapped as a whole, or with each match
    /// of the pattern wrapped.
    pub open spec fn styled(self, text: Seq<char>) -> Seq<char> {
        match self.regex {
            None => self.style_seq + text + self.reset_seq,
            Some(re) => regex_replaced(re, text, self.style_seq + "$1"@ + self.reset_seq),
        }
    }
}

/// Wraps text, or the matches of a pattern in it, in ANSI escape sequences.
pub struct Styler {
    style_seq: String,
    reset_seq: String,
    regex: Option<Pattern>,
}

impl View for Styler {
    type V = Style;

    closed spec fn view(&self) -> Style {
        Style {
            style_seq: self.style_seq@,
            reset_seq: self.reset_seq@,
            regex: match self.regex {
                Some(pattern) => Some(pattern@),
                None => None,
            },
        }
    }
}

fn named_code(color: &str, background: bool) -> (r: Option<&'static str>)
    ensures
        r is Some == is_named(color@),
        r matches Some(code) ==> code@ == if background {
            bg_code(color@)
        } else {
            fg_code(color@)
        },
{
    if same_text(color, "cyan") {
        Some(if background { "46" } else { "96" })
    } else if same_text(color, "green") {
        Some(if background { "42" } else { "32" })
    } else if same_text(color, "gray") {
        Some(if background { "100" } else { "90" })
    } else if same_text(color, "red") {
        Some(if background { "41" } else { "31" })
    } else if same_text(color, "yellow") {
        Some(if background { "43" } else { "33" })
    } else {
        None
    }
}

/// No colour name both asks for nothing and has a code.
pub proof fn lemma_default_is_unnamed(color: Seq<char>)
    ensures
        is_default(color) ==> !is_named(color),
{
    reveal_strlit("");
    reveal_strlit("default");
    reveal_strlit("cyan");
    reveal_strlit("green");
    reveal_strlit("gray");
    reveal_strlit("red");
    reveal_strlit("yellow");
    assert(""@.len() == 0);
    assert("default"@.len() == 7);
}

fn asks_nothing(color: &str) -> (r: bool)
    ensures
        r == is_default(color@),
{
    same_text(color, "") || same_text(color, "default")
}

fn push_code(out: &mut Vec<char>, code: &str, first: bool, Ghost(codes): Ghost<Seq<Seq<char>>>)
    requires
        old(out)@ == "\x1b["@ + joined(codes, ";"@),
        first == (codes.len() == 0),
    ensures
        final(out)@ == "\x1b["@ + joined(codes.push(code@), ";"@),
{
    proof {
        reveal_strlit(";");
        assert(codes.push(code@).drop_last() == codes);
    }
    if !first {
        out.push(';');
    }
    push_str(out, code);
}

impl Styler {
    /// A styler for the given colours and weights. With a pattern, it styles
    /// the matches of the pattern only; without one, whatever it is given.
    ///
    /// Where no colour and no weight is asked for, the styler changes
    /// nothing, and the pattern is not looked at. Otherwise the foreground is
    /// checked before the background, and the colours before the pattern.
    pub fn build(color_fg: &str, color_bg: &str, bold: bool, underline: bool, pattern: &str) -> (r:
        Result<Styler, StyleError>)
        ensures
            match r {
                Ok(s) => {
                    &&& color_known(color_fg@)
                    &&& color_known(color_bg@)
                    &&& if is_plain(color_fg@, color_bg@, bold, underline) {
                        &&& s@.style_seq == ""@
                        &&& s@.reset_seq == ""@
                        &&& s@.regex is None
                    } else {
                        &&& s@.style_seq == style_sequence(color_fg@, color_bg@, bold, underline)
                        &&& s@.reset_seq == "\x1b[0m"@
                        &&& s@.regex == if pattern@.len() > 0 {
                            Some("("@ + pattern@ + ")"@)
                        } else {
                            None
                        }
                    }
                },
                Err(StyleError::UnsupportedColor { color }) => if color_known(color_fg@) {
                    !color_known(color_bg@) && color@ == color_bg@
                } else {
                    color@ == color_fg@
                },
                Err(StyleError::BadPattern(e)) => {
                    &&& color_known(color_fg@)
                    &&& color_known(color_bg@)
                    &&& !is_plain(color_fg@, color_bg@, bold, underline)
                    &&& pattern@.len() > 0
                    &&& e.pattern@ == "("@ + pattern@ + ")"@
                },
            },
    {
        proof {
            reveal_strlit("");
            lemma_default_is_unnamed(color_fg@);
            lemma_default_is_unnamed(color_bg@);
        }
        let no_fg = asks_nothing(color_fg);
        let no_bg = asks_nothing(color_bg);
        if no_fg && no_bg && !bold && !underline {
            return Ok(Styler { style_seq: String::new(), reset_seq: String::new(), regex: None });
        }
        let mut seq = to_chars("\x1b[");
        let ghost mut codes: Seq<Seq<char>> = Seq::empty();
        let mut first = true;
        if bold {
            push_code(&mut seq, "1", first, Ghost(codes));
            proof {
                codes = codes.push("1"@);
            }
            first = false;
        }
        if underline {
            push_code(&mut seq, "4", first, Ghost(codes));
            proof {
                codes = codes.push("4"@);
            }
            first = false;
        }
        if !no_fg {
            match named_code(color_fg, false) {
                Some(code) => {
                    push_code(&mut seq, code, first, Ghost(codes));
                    proof {
                        codes = codes.push(code@);
                    }
                    first = false;
                },
                None => {
                    return Err(StyleError::UnsupportedColor { color: color_fg.to_owned() });
                },
            }
        }
        if !no_bg {
            match named_code(color_bg, true) {
                Some(code) => {
                    push_code(&mut seq, code, first, Ghost(codes));
                    proof {
                        codes = codes.push(code@);
                    }
                },
                None => {
                    return Err(StyleError::UnsupportedColor { color: color_bg.to_owned() });
                },
            }
        }
        seq.push('m');
        proof {
            reveal_strlit("m");
        }
        let style_seq = from_chars(&seq);
        let reset_seq = "\x1b[0m".to_owned();
        if pattern.unicode_len() > 0 {
            let mut group = to_chars("(");
            push_str(&mut group, pattern);
            push_str(&mut group, ")");
            let group = from_chars(&group);
            match compile_pattern(group.as_str()) {
                Ok(re) => Ok(Styler { style_seq, reset_seq, regex: Some(re) }),
                Err(e) => Err(StyleError::BadPattern(e)),
            }
        } else {
            Ok(Styler { style_seq, reset_seq, regex: None })
        }
    }

    /// `text` in this style.
    pub fn style(&self, text: &str) -> (out: String)
        ensures
            out@ == self@.styled(text@),
    {
        match &self.regex {
            None => {
                let mut out = to_chars(self.style_seq.as_str());
                push_str(&mut out, text);
                push_str(&mut out, self.reset_seq.as_str());
                from_chars(&out)
            },
            Some(re) => {
                let mut rep = to_chars(self.style_seq.as_str());
                push_str(&mut rep, "$1");
                push_str(&mut rep, self.reset_seq.as_str());
                let rep = from_chars(&rep);
                replace_all(re, text, rep.as_str())
            },
        }
    }
}

/// `text` in the foreground colour `color`, with nothing else set.
pub open spec fn colored(color: Seq<char>, text: Seq<char>) -> Seq<char> {
    style_sequence(color, ""@, false, false) + text + "\x1b[0m"@
}

/// A styler that sets the foreground colour and nothing else.
pub(crate) fn foreground(color: &str) -> (s: Styler)
    requires
        is_named(color@),
    ensures
        s@.regex is None,
        forall|text: Seq<char>| #[trigger] s@.styled(text) == colored(color@, text),
{
    proof {
        reveal_strlit("");
        lemma_default_is_unnamed(color@);
    }
    match Styler::build(color, "", false, false, "") {
        Ok(s) => s,
        Err(_) => vstd::pervasive::unreached(),
    }
}

/// Which unit a size is shown in: 0 for bytes, then one more for each
/// factor of 1000, up to 5.
pub open spec fn unit_index(size: nat) -> nat {
    if size < 1_000 {
        0
    } else if size < 1_000_000 {
        1
    } else if size < 1_000_000_000 {
        2
    } else if size < 1_000_000_000_000 {
        3
    } else if size < 1_000_000_000_000_000 {
        4
    } else {
        5
    }
}

/// How many bytes one of a unit holds.
pub open spec fn unit_bytes(unit: nat) -> nat {
    if unit == 0 {
        1
    } else if unit == 1 {
        1_000
    } else if unit == 2 {
        1_000_000
    } else if unit == 3 {
        1_000_000_000
    } else if unit == 4 {
        1_000_000_000_000
    } else {
        1_000_000_000_000_000
    }
}

/// What a unit is called.
pub open spec fn unit_name(unit: nat) -> Seq<char> {
    if unit == 0 {
        "B"@
    } else if unit == 1 {
        "KB"@
    } else if unit == 2 {
        "MB"@
    } else if unit == 3 {
        "GB"@
    } else if unit == 4 {
        "TB"@
    } else {
        "PB"@
    }
}

/// `total / scale` rounded to the nearest whole number, a tie going to the
/// even neighbour.
pub open spec fn rounded(total: nat, scale: nat) -> nat {
    let q = total / scale;
    let r = total % scale;
    if 2 * r > scale || (2 * r == scale && q % 2 == 1) {
        q + 1
    } else {
        q
    }
}

/// A size in hundredths of its unit.
pub open spec fn hundredths(size: nat) -> nat {
    rounded(size * 100, unit_bytes(unit_index(size)))
}

/// A number of hundredths with two decimal places: `1.02` for 102.
pub open spec fn amount_text(h: nat) -> Seq<char> {
    decimal(h / 100) + seq!['.', digit_char(h % 100 / 10), digit_char(h % 10)]
}

/// `s` with blanks in front, as many as it takes to reach `width`.
pub open spec fn padded(s: Seq<char>, width: nat) -> Seq<char> {
    Seq::new(
        if s.len() < width {
            (width - s.len()) as nat
        } else {
            0
        },
        |i: int| ' ',
    ) + s
}

/// A size as the user reads it: the amount in its unit with two decimal
/// places, right-justified in seven columns, a blank and the unit's name.
pub open spec fn size_text(size: nat) -> Seq<char> {
    padded(amount_text(hundredths(size)), 7) + seq![' '] + unit_name(unit_index(size))
}

fn round_div(total: u128, scale: u128) -> (h: u64)
    requires
        0 < scale <= 1_000_000_000_000_000,
        total / scale < 10_000_000,
    ensures
        h == rounded(total as nat, scale as nat),
{
    let q = total / scale;
    let r = total % scale;
    if 2 * r > scale || (2 * r == scale && q % 2 == 1) {
        (q + 1) as u64
    } else {
        q as u64
    }
}

fn pad_left(s: &Vec<char>, width: usize) -> (out: Vec<char>)
    ensures
        out@ == padded(s@, width as nat),
{
    let mut out: Vec<char> = Vec::new();
    let blanks: usize = if s.len() < width {
        width - s.len()
    } else {
        0
    };
    let mut i: usize = 0;
    while i < blanks
        invariant
            i <= blanks,
            out@ == Seq::new(i as nat, |i: int| ' '),
        decreases blanks - i,
    {
        out.push(' ');
        i += 1;
    }
    push_all(&mut out, s);
    out
}

fn size_chars(size: u64) -> (out: Vec<char>)
    ensures
        out@ == size_text(size as nat),
{
    let total: u128 = (size as u128) * 100;
    let (h, unit): (u64, &'static str) = if size < 1_000 {
        (round_div(total, 1), "B")
    } else if size < 1_000_000 {
        (round_div(total, 1_000), "KB")
    } else if size < 1_000_000_000 {
        (round_div(total, 1_000_000), "MB")
    } else if size < 1_000_000_000_000 {
        (round_div(total, 1_000_000_000), "GB")
    } else if size < 1_000_000_000_000_000 {
        (round_div(total, 1_000_000_000_000), "TB")
    } else {
        (round_div(total, 1_000_000_000_000_000), "PB")
    };
    let mut amount = decimal_chars(h / 100);
    amount.push('.');
    amount.push(digit_of(h % 100 / 10));
    amount.push(digit_of(h % 10));
    let mut out = pad_left(&amount, 7);
    out.push(' ');
    push_str(&mut out, unit);
    out
}

/// A size in bytes as the user reads it, in the style of `styler`: in units
/// of 1000, from B to PB, with two decimal places.
pub fn bites2str(size: u64, styler: &Styler) -> (out: String)
    ensures
        out@ == styler@.styled(size_text(size as nat)),
{
    let text = from_chars(&size_chars(size));
    styler.style(text.as_str())
}

/// Whether an answer says yes: `yes` or `y`, in lower case, white space at
/// either end set aside.
pub open spec fn is_yes(answer: Seq<char>) -> bool {
    trimmed(answer) == "yes"@ || trimmed(answer) == "y"@
}

/// Whether the user's answer says to go on.
pub fn proceed_answer(answer: &str) -> (r: bool)
    ensures
        r == is_yes(answer@),
{
    let given = trim(&to_chars(answer));
    same_chars(&given, &to_chars("yes")) || same_chars(&given, &to_chars("y"))
}

} // verus!
