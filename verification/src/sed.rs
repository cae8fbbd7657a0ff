//! Substitution in chosen lines of a text.
//!
//! Which lines are chosen is written as nothing at all (every line), as a
//! list of line numbers with commas between them (`1,3`), or as a range with
//! both ends (`2-3`). Numbers are written in ASCII digits and count lines
//! from 1.

use vstd::prelude::*;
use crate::cli::{lemma_default_is_unnamed, style_sequence, Style, StyleError, Styler};
use crate::paths::{
    dir_part, extension_of, file_name, find_last, last_index_of, lemma_last_index_of, split_name,
    split_path, stem_of,
};
use crate::pattern::{compile_pattern, regex_replaced, replace_all, Pattern, PatternError};
use crate::text::{
    all_digits, decimal, decimal_chars, decimal_value, from_chars, is_digit, parse_decimal,
    push_all, push_str, to_chars,
};

verus! {

/// Which lines are chosen.
pub enum Selection {
    /// Those from `first` to `last`, both included.
    Range { first: nat, last: nat },
    /// Those listed.
    Numbers(Seq<nat>),
    /// Every line.
    All,
}

impl Selection {
    /// Whether line `number` is chosen.
    pub open spec fn selects(self, number: nat) -> bool {
        match self {
            Selection::Range { first, last } => first <= number <= last,
            Selection::Numbers(list) => list.contains(number),
            Selection::All => true,
        }
    }
}

/// Which lines are chosen.
#[derive(Debug)]
pub enum LineSelection {
    /// Those from `first` to `last`, both included.
    LRange { first: usize, last: usize },
    /// Those listed.
    Numbers(Vec<usize>),
    /// Every line.
    All,
}

impl View for LineSelection {
    type V = Selection;

    open spec fn view(&self) -> Selection {
        match self {
            LineSelection::LRange { first, last } => Selection::Range {
                first: *first as nat,
                last: *last as nat,
            },
            LineSelection::Numbers(list) => Selection::Numbers(
                Seq::new(list@.len(), |i: int| list@[i] as nat),
            ),
            LineSelection::All => Selection::All,
        }
    }
}

impl LineSelection {
    /// What is written for line `number`: `replaced` where the line is
    /// chosen, `line` as it is where not, and a line feed.
    pub fn written(&self, number: usize, line: &str, replaced: &str) -> (out: String)
        ensures
            out@ == (if self@.selects(number as nat) {
                replaced@
            } else {
                line@
            }) + seq!['\n'],
    {
        let mut out = if self.contains(&number) {
            to_chars(replaced)
        } else {
            to_chars(line)
        };
        out.push('\n');
        from_chars(&out)
    }

    /// Whether line `num` is chosen.
    pub fn contains(&self, num: &usize) -> (r: bool)
        ensures
            r == self@.selects(*num as nat),
    {
        match self {
            LineSelection::LRange { first, last } => *first <= *num && *num <= *last,
            LineSelection::Numbers(list) => {
                let ghost shown = Seq::new(list@.len(), |i: int| list@[i] as nat);
                let mut i: usize = 0;
                while i < list.len()
                    invariant
                        i <= list.len(),
                        shown == Seq::new(list@.len(), |i: int| list@[i] as nat),
                        self@ == Selection::Numbers(shown),
                        forall|j: int| 0 <= j < i ==> shown[j] != *num as nat,
                    decreases list.len() - i,
                {
                    if list[i] == *num {
                        assert(shown[i as int] == *num as nat);
                        return true;
                    }
                    i += 1;
                }
                false
            },
            LineSelection::All => true,
        }
    }
}

/// What is wrong with a line selection.
#[derive(Clone, Copy, Debug, PartialEq, Eq, Structural)]
pub enum Fault {
    /// It is neither a list of numbers nor a range.
    Malformed,
    /// It has the shape of a list or a range, but a number is missing: `-`,
    /// `3-`, `1,,2`.
    MissingNumber,
    /// A number in it is greater than `usize::MAX`.
    NumberTooLarge,
}

/// A line selection that could not be read.
#[derive(Debug)]
pub struct LineSpecError {
    /// The selection as it was given.
    pub input: String,
    /// What is wrong with it.
    pub fault: Fault,
}

/// What the message on a selection ends in: the two forms that are accepted.
pub const ACCEPTED_FORMS: &'static str =
    "'. Please either provide a list of line numbers separated by ',', or a range given as 'start-end'";

impl LineSpecError {
    /// What the user is told: the selection, and the two forms that are
    /// accepted.
    pub open spec fn text(self) -> Seq<char> {
        "Failed to parse line input '"@ + self.input@ + ACCEPTED_FORMS@
    }

    /// The message for the user.
    pub fn message(&self) -> (out: String)
        ensures
            out@ == self.text(),
    {
        let mut out = to_chars("Failed to parse line input '");
        push_str(&mut out, self.input.as_str());
        push_str(&mut out, ACCEPTED_FORMS);
        from_chars(&out)
    }
}

/// The shape of a range: digits or nothing, `-`, digits or nothing.
pub open spec fn is_range(s: Seq<char>) -> bool {
    let dash = last_index_of(s, '-');
    dash >= 0 && all_digits(s.subrange(0, dash)) && all_digits(s.subrange(dash + 1, s.len() as int))
}

/// The shape of a list: digits and commas.
pub open spec fn is_list(s: Seq<char>) -> bool {
    forall|i: int| 0 <= i < s.len() ==> is_digit(#[trigger] s[i]) || s[i] == ','
}

/// The pieces of `s` between its commas, in order; a text without a comma is
/// one piece.
pub open spec fn pieces(s: Seq<char>) -> Seq<Seq<char>>
    decreases s.len(),
{
    let comma = last_index_of(s, ',');
    if comma < 0 || comma >= s.len() {
        seq![s]
    } else {
        pieces(s.subrange(0, comma)).push(s.subrange(comma + 1, s.len() as int))
    }
}

/// What is wrong with a run of digits as a line number, if anything.
pub open spec fn number_fault(digits: Seq<char>) -> Option<Fault> {
    if digits.len() == 0 {
        Some(Fault::MissingNumber)
    } else if decimal_value(digits) > usize::MAX {
        Some(Fault::NumberTooLarge)
    } else {
        None
    }
}

/// What a selection of the shape of a list says. A missing number is
/// reported before one that is too large.
pub open spec fn parsed_list(s: Seq<char>) -> Result<Selection, Fault> {
    let parts = pieces(s);
    if exists|i: int| 0 <= i < parts.len() && (#[trigger] parts[i]).len() == 0 {
        Err(Fault::MissingNumber)
    } else if exists|i: int|
        0 <= i < parts.len() && decimal_value(#[trigger] parts[i]) > usize::MAX {
        Err(Fault::NumberTooLarge)
    } else {
        Ok(Selection::Numbers(Seq::new(parts.len(), |i: int| decimal_value(parts[i]))))
    }
}

/// What a selection of the shape of a range says. A missing number is
/// reported before one that is too large.
pub open spec fn parsed_range(s: Seq<char>) -> Result<Selection, Fault> {
    let dash = last_index_of(s, '-');
    let first = s.subrange(0, dash);
    let last = s.subrange(dash + 1, s.len() as int);
    if first.len() == 0 || last.len() == 0 {
        Err(Fault::MissingNumber)
    } else if decimal_value(first) > usize::MAX || decimal_value(last) > usize::MAX {
        Err(Fault::NumberTooLarge)
    } else {
        Ok(Selection::Range { first: decimal_value(first), last: decimal_value(last) })
    }
}

/// What a selection says: nothing chooses every line, a range its lines, a
/// list those that it names; anything else is malformed.
pub open spec fn parsed(s: Seq<char>) -> Result<Selection, Fault> {
    if s.len() == 0 {
        Ok(Selection::All)
    } else if is_range(s) {
        parsed_range(s)
    } else if is_list(s) {
        parsed_list(s)
    } else {
        Err(Fault::Malformed)
    }
}

/// What a parse came to.
pub open spec fn outcome(r: Result<LineSelection, LineSpecError>) -> Result<Selection, Fault> {
    match r {
        Ok(selection) => Ok(selection@),
        Err(e) => Err(e.fault),
    }
}

fn digits_only(v: &Vec<char>, from: usize, to: usize) -> (r: bool)
    requires
        from <= to <= v.len(),
    ensures
        r == all_digits(v@.subrange(from as int, to as int)),
{
    let mut i: usize = from;
    while i < to
        invariant
            from <= i <= to <= v.len(),
            forall|j: int| from <= j < i ==> is_digit(#[trigger] v@[j]),
        decreases to - i,
    {
        if !('0' <= v[i] && v[i] <= '9') {
            assert(!is_digit(v@.subrange(from as int, to as int)[i - from]));
            return false;
        }
        i += 1;
    }
    assert forall|j: int| 0 <= j < to - from implies is_digit(
        #[trigger] v@.subrange(from as int, to as int)[j],
    ) by {}
    true
}

fn line_number(v: &Vec<char>, from: usize, to: usize) -> (r: Result<usize, Fault>)
    requires
        from <= to <= v.len(),
        all_digits(v@.subrange(from as int, to as int)),
    ensures
        match r {
            Ok(n) => number_fault(v@.subrange(from as int, to as int)) is None && n
                == decimal_value(v@.subrange(from as int, to as int)),
            Err(fault) => number_fault(v@.subrange(from as int, to as int)) == Some(fault),
        },
{
    if from == to {
        return Err(Fault::MissingNumber);
    }
    match parse_decimal(v, from, to, usize::MAX as u64) {
        Some(n) => Ok(n as usize),
        None => Err(Fault::NumberTooLarge),
    }
}

/// Where a text ends in a piece that starts at `start`, its pieces are those
/// of what stands before the comma in front of `start`, and that piece.
proof fn lemma_last_piece(u: Seq<char>, start: int)
    requires
        start == last_index_of(u, ',') + 1,
    ensures
        0 <= start <= u.len(),
        pieces(u) == (if start == 0 {
            Seq::<Seq<char>>::empty()
        } else {
            pieces(u.subrange(0, start - 1))
        }).push(u.subrange(start, u.len() as int)),
{
    lemma_last_index_of(u, ',');
    if start == 0 {
        assert(u.subrange(0, u.len() as int) == u);
    }
}

/// What has been made of the pieces `done` so far: whether one of them is
/// empty, whether one is too large, and, where neither is so, their values.
spec fn tallied(done: Seq<Seq<char>>, values: Seq<usize>, missing: bool, too_large: bool) -> bool {
    &&& missing == exists|k: int| 0 <= k < done.len() && (#[trigger] done[k]).len() == 0
    &&& too_large == exists|k: int|
        0 <= k < done.len() && decimal_value(#[trigger] done[k]) > usize::MAX
    &&& !missing && !too_large ==> values.len() == done.len() && forall|k: int|
        0 <= k < done.len() ==> (#[trigger] values[k]) == decimal_value(done[k])
}

fn take_piece(
    v: &Vec<char>,
    from: usize,
    to: usize,
    values: &mut Vec<usize>,
    missing: &mut bool,
    too_large: &mut bool,
    Ghost(done): Ghost<Seq<Seq<char>>>,
)
    requires
        from <= to <= v.len(),
        all_digits(v@.subrange(from as int, to as int)),
        tallied(done, old(values)@, *old(missing), *old(too_large)),
    ensures
        tallied(
            done.push(v@.subrange(from as int, to as int)),
            final(values)@,
            *final(missing),
            *final(too_large),
        ),
{
    let ghost piece = v@.subrange(from as int, to as int);
    let ghost next = done.push(piece);
    match line_number(v, from, to) {
        Ok(n) => {
            values.push(n);
        },
        Err(Fault::MissingNumber) => {
            *missing = true;
        },
        Err(_) => {
            *too_large = true;
        },
    }
    proof {
        assert(next[done.len() as int] == piece);
        assert forall|k: int| 0 <= k < done.len() implies #[trigger] next[k] == done[k] by {}
        if *old(missing) {
            let k = choose|k: int| 0 <= k < done.len() && (#[trigger] done[k]).len() == 0;
            assert(next[k].len() == 0);
        }
        if *old(too_large) {
            let k = choose|k: int|
                0 <= k < done.len() && decimal_value(#[trigger] done[k]) > usize::MAX;
            assert(decimal_value(next[k]) > usize::MAX);
        }
        if !*missing {
            assert forall|k: int| 0 <= k < next.len() implies (#[trigger] next[k]).len() != 0 by {}
        }
        if !*too_large {
            assert forall|k: int| 0 <= k < next.len() implies decimal_value(#[trigger] next[k])
                <= usize::MAX by {}
        }
    }
}

fn parse_range(v: &Vec<char>, dash: usize) -> (r: Result<LineSelection, Fault>)
    requires
        dash < v.len(),
        dash == last_index_of(v@, '-'),
        is_range(v@),
    ensures
        match r {
            Ok(selection) => parsed_range(v@) == Ok::<Selection, Fault>(selection@),
            Err(fault) => parsed_range(v@) == Err::<Selection, Fault>(fault),
        },
{
    let first = line_number(v, 0, dash);
    let last = line_number(v, dash + 1, v.len());
    match (first, last) {
        (Ok(first), Ok(last)) => Ok(LineSelection::LRange { first, last }),
        (Err(Fault::MissingNumber), _) => Err(Fault::MissingNumber),
        (_, Err(Fault::MissingNumber)) => Err(Fault::MissingNumber),
        _ => Err(Fault::NumberTooLarge),
    }
}

fn parse_list(v: &Vec<char>) -> (r: Result<LineSelection, Fault>)
    ensures
        match r {
            Ok(selection) => is_list(v@) && parsed_list(v@) == Ok::<Selection, Fault>(selection@),
            Err(Fault::Malformed) => !is_list(v@),
            Err(fault) => is_list(v@) && parsed_list(v@) == Err::<Selection, Fault>(fault),
        },
{
    let n = v.len();
    let mut values: Vec<usize> = Vec::new();
    let mut missing = false;
    let mut too_large = false;
    let mut start: usize = 0;
    let mut i: usize = 0;
    let ghost mut done: Seq<Seq<char>> = Seq::empty();
    while i < n
        invariant
            n == v.len(),
            start <= i <= n,
            start == last_index_of(v@.subrange(0, i as int), ',') + 1,
            forall|j: int| 0 <= j < i ==> is_digit(#[trigger] v@[j]) || v@[j] == ',',
            forall|j: int| start <= j < i ==> is_digit(#[trigger] v@[j]),
            done == if start == 0 {
                Seq::<Seq<char>>::empty()
            } else {
                pieces(v@.subrange(0, start - 1))
            },
            tallied(done, values@, missing, too_large),
        decreases n - i,
    {
        let c = v[i];
        proof {
            assert(v@.subrange(0, i + 1).drop_last() == v@.subrange(0, i as int));
        }
        if c == ',' {
            proof {
                lemma_last_piece(v@.subrange(0, i as int), start as int);
                assert(v@.subrange(0, i as int).subrange(start as int, i as int) == v@.subrange(
                    start as int,
                    i as int,
                ));
                if start > 0 {
                    assert(v@.subrange(0, i as int).subrange(0, start - 1) == v@.subrange(
                        0,
                        start - 1,
                    ));
                }
                assert forall|j: int| 0 <= j < i - start implies is_digit(
                    #[trigger] v@.subrange(start as int, i as int)[j],
                ) by {}
            }
            take_piece(v, start, i, &mut values, &mut missing, &mut too_large, Ghost(done));
            proof {
                done = done.push(v@.subrange(start as int, i as int));
            }
            start = i + 1;
        } else if !('0' <= c && c <= '9') {
            return Err(Fault::Malformed);
        }
        i += 1;
    }
    proof {
        assert(v@.subrange(0, n as int) == v@);
        lemma_last_piece(v@, start as int);
        assert forall|j: int| 0 <= j < n - start implies is_digit(
            #[trigger] v@.subrange(start as int, n as int)[j],
        ) by {}
    }
    take_piece(v, start, n, &mut values, &mut missing, &mut too_large, Ghost(done));
    proof {
        done = done.push(v@.subrange(start as int, n as int));
    }
    if missing {
        Err(Fault::MissingNumber)
    } else if too_large {
        Err(Fault::NumberTooLarge)
    } else {
        let selection = LineSelection::Numbers(values);
        proof {
            let parts = pieces(v@);
            assert(Seq::new(values@.len(), |i: int| values@[i] as nat) =~= Seq::new(
                parts.len(),
                |i: int| decimal_value(parts[i]),
            ));
        }
        Ok(selection)
    }
}

/// A text, and what is to be done to which of its lines.
pub struct Edit {
    /// The pattern whose matches are replaced.
    pub regex: Seq<char>,
    /// What it is replaced by.
    pub substitute: Seq<char>,
    /// How matches are shown.
    pub style: Style,
    /// The lines in which it is replaced.
    pub lines: Selection,
}

impl Edit {
    /// Line `number` after the edit, its line end included: the substitution
    /// made where the line is chosen, the line as it is where not, and `\n`.
    pub open spec fn edited(self, number: nat, line: Seq<char>) -> Seq<char> {
        (if self.lines.selects(number) {
            regex_replaced(self.regex, line, self.substitute)
        } else {
            line
        }) + seq!['\n']
    }

    /// What the user is shown of line `number` as it was.
    pub open spec fn shown_old(self, number: nat, line: Seq<char>) -> Seq<char> {
        seq!['l'] + decimal(number) + " old: "@ + self.style.styled(line)
    }
}

/// What the user is shown of line `number` as it has become.
pub open spec fn shown_new(number: nat, line_new: Seq<char>) -> Seq<char> {
    seq!['l'] + decimal(number) + " new: "@ + line_new
}

/// The path of the edited copy of the file `path`: beside it, with `_edited`
/// between stem and extension.
pub open spec fn edited_path(path: Seq<char>) -> Seq<char> {
    dir_part(path) + stem_of(file_name(path)) + "_edited"@ + extension_of(file_name(path))
}

/// Why an editor could not be built.
#[derive(Debug)]
pub enum EditError {
    /// The pattern did not compile.
    BadPattern(PatternError),
    /// The style for matches could not be built.
    BadStyle(StyleError),
    /// The line selection could not be read.
    BadLines(LineSpecError),
}

impl EditError {
    /// What the user is told.
    pub open spec fn text(self) -> Seq<char> {
        match self {
            EditError::BadPattern(e) => "Error when trying to compile a regex from '"@ + e.pattern@
                + "':\n"@ + e.reason@,
            EditError::BadStyle(e) => e.text(),
            EditError::BadLines(e) => e.text(),
        }
    }

    /// The message for the user.
    pub fn message(&self) -> (out: String)
        ensures
            out@ == self.text(),
    {
        match self {
            EditError::BadPattern(e) => {
                let mut out = to_chars("Error when trying to compile a regex from '");
                push_str(&mut out, e.pattern.as_str());
                push_str(&mut out, "':\n");
                push_str(&mut out, e.reason.as_str());
                from_chars(&out)
            },
            EditError::BadStyle(e) => e.message(),
            EditError::BadLines(e) => e.message(),
        }
    }
}

/// Replaces a pattern in chosen lines, one line at a time.
pub struct StreamingEditor {
    regex: Pattern,
    substitute: String,
    styler_match: Styler,
    lines: LineSelection,
}

impl View for StreamingEditor {
    type V = Edit;

    closed spec fn view(&self) -> Edit {
        Edit {
            regex: self.regex@,
            substitute: self.substitute@,
            style: self.styler_match@,
            lines: self.lines@,
        }
    }
}

impl StreamingEditor {
    /// An editor that replaces `pattern` by `substitute` in the lines that
    /// `lines` chooses, and shows matches in cyan, underlined. The pattern is
    /// compiled, alone and in brackets for the style, and `assemble` makes the
    /// editor of what came back: a pattern that does not compile is reported
    /// whatever the selection; a selection that cannot be read never gives
    /// an editor.
    pub fn build(pattern: String, substitute: String, lines: String) -> (r: Result<
        StreamingEditor,
        EditError,
    >)
        ensures
            match r {
                Ok(editor) => {
                    &&& parsed(lines@) == Ok::<Selection, Fault>(editor@.lines)
                    &&& editor@.regex == pattern@
                    &&& editor@.substitute == substitute@
                    &&& editor@.style.style_seq == style_sequence("cyan"@, ""@, false, true)
                    &&& editor@.style.reset_seq == "\x1b[0m"@
                    &&& editor@.style.regex == if pattern@.len() > 0 {
                        Some("("@ + pattern@ + ")"@)
                    } else {
                        None
                    }
                },
                Err(EditError::BadLines(e)) => parsed(lines@) == Err::<Selection, Fault>(e.fault)
                    && e.input@ == lines@,
                Err(EditError::BadPattern(e)) => e.pattern@ == pattern@,
                Err(EditError::BadStyle(e)) => e matches StyleError::BadPattern(inner)
                    && inner.pattern@ == "("@ + pattern@ + ")"@,
            },
    {
        let regex = compile_pattern(pattern.as_str());
        proof {
            reveal_strlit("");
            reveal_strlit("cyan");
            lemma_default_is_unnamed("cyan"@);
        }
        let styler_match = Styler::build("cyan", "", false, true, pattern.as_str());
        StreamingEditor::assemble(regex, styler_match, substitute, lines)
    }

    /// The editor that comes of a compiled pattern, a style for its matches,
    /// a substitute and a line selection. What failed first is what is
    /// reported: the pattern, then the style, then the selection. Where
    /// nothing failed, the editor holds the four as they were given.
    pub fn assemble(
        regex: Result<Pattern, PatternError>,
        styler: Result<Styler, StyleError>,
        substitute: String,
        lines: String,
    ) -> (r: Result<StreamingEditor, EditError>)
        ensures
            match regex {
                Err(bad) => r matches Err(EditError::BadPattern(got)) && got == bad,
                Ok(compiled) => match styler {
                    Err(bad) => r matches Err(EditError::BadStyle(got)) && got == bad,
                    Ok(style) => match parsed(lines@) {
                        Err(fault) => r matches Err(EditError::BadLines(e)) && e.fault == fault
                            && e.input@ == lines@,
                        Ok(selection) => r matches Ok(editor) && editor@ == (Edit {
                            regex: compiled@,
                            substitute: substitute@,
                            style: style@,
                            lines: selection,
                        }),
                    },
                },
            },
    {
        match regex {
            Err(bad) => Err(EditError::BadPattern(bad)),
            Ok(regex) => match styler {
                Err(bad) => Err(EditError::BadStyle(bad)),
                Ok(styler_match) => match StreamingEditor::parse_lines(lines) {
                    Err(e) => Err(EditError::BadLines(e)),
                    Ok(lines) => Ok(StreamingEditor { regex, substitute, styler_match, lines }),
                },
            },
        }
    }

    /// Reads a line selection: nothing for every line, `first-last` for a
    /// range, numbers with commas between them for a list.
    pub fn parse_lines(input: String) -> (r: Result<LineSelection, LineSpecError>)
        ensures
            outcome(r) == parsed(input@),
            r matches Err(e) ==> e.input@ == input@,
    {
        let v = to_chars(input.as_str());
        if v.len() == 0 {
            return Ok(LineSelection::All);
        }
        proof {
            lemma_last_index_of(v@, '-');
        }
        let dash = find_last(&v, '-');
        let read = match dash {
            Some(d) => {
                if digits_only(&v, 0, d) && digits_only(&v, d + 1, v.len()) {
                    parse_range(&v, d)
                } else {
                    parse_list(&v)
                }
            },
            None => parse_list(&v),
        };
        match read {
            Ok(selection) => Ok(selection),
            Err(fault) => Err(LineSpecError { input, fault }),
        }
    }

    /// Line `number` after the edit, with its line end.
    pub fn edit_line(&self, number: usize, line: &str) -> (out: String)
        ensures
            out@ == self@.edited(number as nat, line@),
    {
        if self.lines.contains(&number) {
            let replaced = replace_all(&self.regex, line, self.substitute.as_str());
            self.lines.written(number, line, replaced.as_str())
        } else {
            self.lines.written(number, line, line)
        }
    }

    /// Every line after the edit, the first line counting as line 1.
    pub fn edit_lines(&self, lines: &Vec<String>) -> (out: Vec<String>)
        ensures
            out.len() == lines.len(),
            forall|i: int|
                0 <= i < lines.len() ==> (#[trigger] out[i])@ == self@.edited(
                    (i + 1) as nat,
                    lines[i]@,
                ),
    {
        let mut out: Vec<String> = Vec::new();
        let mut i: usize = 0;
        while i < lines.len()
            invariant
                i <= lines.len(),
                out.len() == i,
                forall|j: int|
                    0 <= j < i ==> (#[trigger] out[j])@ == self@.edited((j + 1) as nat, lines[j]@),
            decreases lines.len() - i,
        {
            out.push(self.edit_line(i + 1, lines[i].as_str()));
            i += 1;
        }
        out
    }

    /// What the user is shown of line `number` as it was: the matches styled.
    pub fn show_old(&self, number: usize, line: &str) -> (out: String)
        ensures
            out@ == self@.shown_old(number as nat, line@),
    {
        let mut out: Vec<char> = Vec::new();
        out.push('l');
        push_all(&mut out, &decimal_chars(number as u64));
        push_str(&mut out, " old: ");
        push_str(&mut out, self.styler_match.style(line).as_str());
        from_chars(&out)
    }

    /// What the user is shown of line `number` as it has become.
    pub fn show_new(number: usize, line_new: &str) -> (out: String)
        ensures
            out@ == shown_new(number as nat, line_new@),
    {
        let mut out: Vec<char> = Vec::new();
        out.push('l');
        push_all(&mut out, &decimal_chars(number as u64));
        push_str(&mut out, " new: ");
        push_str(&mut out, line_new);
        from_chars(&out)
    }

    /// The path to which the edited copy of `path` is written.
    pub fn output_path(path: &str) -> (out: String)
        ensures
            out@ == edited_path(path@),
    {
        let (dir, name) = split_path(&to_chars(path));
        let (stem, extension) = split_name(&name);
        let mut out = dir;
        push_all(&mut out, &stem);
        push_str(&mut out, "_edited");
        push_all(&mut out, &extension);
        from_chars(&out)
    }
}

} // verus!
