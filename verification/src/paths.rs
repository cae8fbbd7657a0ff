//! Paths as plain text, and the rule by which a file name is taken apart.
//!
//! A path is a string; two paths are the same path when they are the same
//! string. The rule, used wherever a name is split:
//!
//! * the directory part of a path runs up to and including its last `/`; the
//!   file name is what follows (the whole path where there is no `/`);
//! * the extension of a file name starts at its last `.`, dot included, unless
//!   that dot is the name's first character; a name without such a dot has no
//!   extension;
//! * the stem is the file name without its extension;
//! * a stem carries a number when it ends in `_` followed by one or more ASCII
//!   digits whose value is below `u64::MAX`.

use vstd::prelude::*;
use crate::text::{
    all_digits, decimal, decimal_chars, decimal_value, is_digit, lemma_decimal_round_trip,
    parse_decimal, push_all, slice,
};

verus! {

/// The index of the last `c` in `s`, or -1 where there is none.
pub open spec fn last_index_of(s: Seq<char>, c: char) -> int
    decreases s.len(),
{
    if s.len() == 0 {
        -1
    } else if s.last() == c {
        s.len() - 1
    } else {
        last_index_of(s.drop_last(), c)
    }
}

/// The last `c` of a text is a `c`, and no `c` follows it.
pub proof fn lemma_last_index_of(s: Seq<char>, c: char)
    ensures
        -1 <= last_index_of(s, c) < s.len(),
        last_index_of(s, c) >= 0 ==> s[last_index_of(s, c)] == c,
        forall|i: int| last_index_of(s, c) < i < s.len() ==> s[i] != c,
    decreases s.len(),
{
    if s.len() > 0 && s.last() != c {
        let t = s.drop_last();
        lemma_last_index_of(t, c);
        assert forall|i: int| last_index_of(s, c) < i < s.len() implies s[i] != c by {
            if i < t.len() {
                assert(s[i] == t[i]);
            }
        }
    }
}

/// The directory part of a path: everything up to and including its last `/`.
pub open spec fn dir_part(p: Seq<char>) -> Seq<char> {
    p.subrange(0, last_index_of(p, '/') + 1)
}

/// The file name of a path: what follows its last `/`.
pub open spec fn file_name(p: Seq<char>) -> Seq<char> {
    p.subrange(last_index_of(p, '/') + 1, p.len() as int)
}

/// Where the extension of a file name starts: at its last `.` unless that is
/// its first character, else at its end.
pub open spec fn extension_start(name: Seq<char>) -> int {
    if last_index_of(name, '.') > 0 {
        last_index_of(name, '.')
    } else {
        name.len() as int
    }
}

/// The file name without its extension.
pub open spec fn stem_of(name: Seq<char>) -> Seq<char> {
    name.subrange(0, extension_start(name))
}

/// The extension of a file name, its dot included; empty where it has none.
pub open spec fn extension_of(name: Seq<char>) -> Seq<char> {
    name.subrange(extension_start(name), name.len() as int)
}

/// How many decimal digits `s` ends in.
pub open spec fn digit_run(s: Seq<char>) -> nat
    decreases s.len(),
{
    if s.len() > 0 && is_digit(s.last()) {
        1 + digit_run(s.drop_last())
    } else {
        0
    }
}

/// The digits that a text ends in are digits, and what stands before them
/// is none.
pub proof fn lemma_digit_run(s: Seq<char>)
    ensures
        digit_run(s) <= s.len(),
        all_digits(s.subrange(s.len() - digit_run(s), s.len() as int)),
        digit_run(s) < s.len() ==> !is_digit(s[s.len() - digit_run(s) - 1]),
    decreases s.len(),
{
    if s.len() > 0 && is_digit(s.last()) {
        let t = s.drop_last();
        lemma_digit_run(t);
        let k = digit_run(t);
        assert forall|i: int| 0 <= i < k + 1 implies is_digit(
            #[trigger] s.subrange(s.len() - (k + 1), s.len() as int)[i],
        ) by {
            if i < k {
                assert(s.subrange(s.len() - (k + 1), s.len() as int)[i] == t.subrange(
                    t.len() - k,
                    t.len() as int,
                )[i]);
            }
        }
    }
}

/// The digits that `stem` ends in.
pub open spec fn number_digits(stem: Seq<char>) -> Seq<char> {
    stem.subrange(stem.len() - digit_run(stem), stem.len() as int)
}

/// Whether `stem` carries a number: it ends in `_` and one or more digits,
/// and the digits denote less than `u64::MAX`.
pub open spec fn has_number(stem: Seq<char>) -> bool {
    let k = digit_run(stem);
    &&& 0 < k < stem.len()
    &&& stem[stem.len() - k - 1] == '_'
    &&& decimal_value(number_digits(stem)) < u64::MAX
}

/// The stem without its number, where it carries one.
pub open spec fn bare_stem(stem: Seq<char>) -> Seq<char> {
    if has_number(stem) {
        stem.subrange(0, stem.len() - digit_run(stem) - 1)
    } else {
        stem
    }
}

/// The first number to try for a stem: one more than the number it carries,
/// or 1.
pub open spec fn next_number(stem: Seq<char>) -> nat {
    if has_number(stem) {
        decimal_value(number_digits(stem)) + 1
    } else {
        1
    }
}

/// The first number to try for a path.
pub open spec fn first_number(p: Seq<char>) -> nat {
    next_number(stem_of(file_name(p)))
}

/// What comes before the number in every numbered form of `p`: directory,
/// bare stem and `_`.
pub open spec fn numbered_head(p: Seq<char>) -> Seq<char> {
    dir_part(p) + bare_stem(stem_of(file_name(p))) + seq!['_']
}

/// The path `p` with the number `n`: directory, bare stem, `_`, `n` in
/// decimal, and the extension as it stands.
pub open spec fn numbered(p: Seq<char>, n: nat) -> Seq<char> {
    numbered_head(p) + decimal(n) + extension_of(file_name(p))
}

/// The path of a file called `name` in the directory of `p`.
pub open spec fn sibling(p: Seq<char>, name: Seq<char>) -> Seq<char> {
    dir_part(p) + name
}

/// A path is its directory part followed by its file name, and a file name is
/// its stem followed by its extension.
pub proof fn lemma_parts(p: Seq<char>)
    ensures
        dir_part(p) + file_name(p) == p,
        stem_of(file_name(p)) + extension_of(file_name(p)) == file_name(p),
        sibling(p, file_name(p)) == p,
{
    lemma_last_index_of(p, '/');
    lemma_last_index_of(file_name(p), '.');
}

/// No numbered form of a path, from its first number on, is the path itself.
pub proof fn lemma_numbered_differs(p: Seq<char>, n: nat)
    requires
        n >= first_number(p),
    ensures
        numbered(p, n) != p,
{
    lemma_parts(p);
    lemma_decimal_round_trip(n);
    let stem = stem_of(file_name(p));
    if has_number(stem) && numbered(p, n) == p {
        // The two agree up to the number, and in what follows it. So the
        // digits of the stem are `n` in decimal: the stem carries `n`.
        let a = numbered_head(p).len() as int;
        let k = digit_run(stem) as int;
        assert(numbered(p, n).subrange(a, a + k) == decimal(n));
        assert(p.subrange(a, a + k) == number_digits(stem));
    }
    // A path whose stem carries no number is shorter than its numbered forms.
}

/// Two numbered forms of a path with different numbers are different paths.
pub proof fn lemma_numbered_apart(p: Seq<char>, n: nat, m: nat)
    requires
        n != m,
    ensures
        numbered(p, n) != numbered(p, m),
{
    lemma_decimal_round_trip(n);
    lemma_decimal_round_trip(m);
    if numbered(p, n) == numbered(p, m) {
        let a = numbered_head(p).len() as int;
        let k = decimal(n).len() as int;
        let tail = extension_of(file_name(p));
        assert(numbered(p, n).len() == a + k + tail.len());
        assert(numbered(p, n).subrange(a, a + k) == decimal(n));
        assert(numbered(p, m).subrange(a, a + k) == decimal(m));
    }
}

/// The index of the last `c` in `v`.
pub fn find_last(v: &Vec<char>, c: char) -> (r: Option<usize>)
    ensures
        match r {
            Some(i) => i == last_index_of(v@, c),
            None => last_index_of(v@, c) == -1,
        },
{
    let mut i: usize = v.len();
    assert(v@.subrange(0, i as int) == v@);
    while i > 0
        invariant
            i <= v.len(),
            last_index_of(v@, c) == last_index_of(v@.subrange(0, i as int), c),
        decreases i,
    {
        if v[i - 1] == c {
            return Some(i - 1);
        }
        assert(v@.subrange(0, i as int).drop_last() == v@.subrange(0, i - 1));
        i -= 1;
    }
    None
}

/// The directory part and the file name of `path`.
pub fn split_path(path: &Vec<char>) -> (r: (Vec<char>, Vec<char>))
    ensures
        r.0@ == dir_part(path@),
        r.1@ == file_name(path@),
{
    proof {
        lemma_last_index_of(path@, '/');
    }
    let found = find_last(path, '/');
    let cut: usize = match found {
        Some(i) => {
            assert(i < path.len());
            i + 1
        },
        None => 0,
    };
    (slice(path, 0, cut), slice(path, cut, path.len()))
}

/// The stem and the extension of the file name `name`.
pub fn split_name(name: &Vec<char>) -> (r: (Vec<char>, Vec<char>))
    ensures
        r.0@ == stem_of(name@),
        r.1@ == extension_of(name@),
{
    proof {
        lemma_last_index_of(name@, '.');
    }
    let found = find_last(name, '.');
    let cut: usize = match found {
        Some(i) => if i > 0 {
            i
        } else {
            name.len()
        },
        None => name.len(),
    };
    (slice(name, 0, cut), slice(name, cut, name.len()))
}

fn count_digits(v: &Vec<char>) -> (k: usize)
    ensures
        k == digit_run(v@),
{
    let mut i: usize = v.len();
    assert(v@.subrange(0, i as int) == v@);
    while i > 0 && '0' <= v[i - 1] && v[i - 1] <= '9'
        invariant
            i <= v.len(),
            digit_run(v@) == (v.len() - i) + digit_run(v@.subrange(0, i as int)),
        decreases i,
    {
        assert(v@.subrange(0, i as int).drop_last() == v@.subrange(0, i - 1));
        i -= 1;
    }
    v.len() - i
}

/// The bare stem of `stem` and the first number to try for it.
pub fn split_stem(stem: &Vec<char>) -> (r: (Vec<char>, u64))
    ensures
        r.0@ == bare_stem(stem@),
        r.1 == next_number(stem@),
{
    proof {
        lemma_digit_run(stem@);
    }
    let k = count_digits(stem);
    let n = stem.len();
    if 0 < k && k < n && stem[n - k - 1] == '_' {
        match parse_decimal(stem, n - k, n, u64::MAX - 1) {
            Some(number) => {
                return (slice(stem, 0, n - k - 1), number + 1);
            },
            None => {},
        }
    }
    (slice(stem, 0, n), 1)
}

/// The parts of a path that its numbered forms share.
pub struct Numbering {
    /// Directory, bare stem and `_`.
    pub head: Vec<char>,
    /// The extension, dot included.
    pub tail: Vec<char>,
    /// The first number to try.
    pub first: u64,
}

impl Numbering {
    /// Whether these are the parts of `p`.
    pub open spec fn belongs_to(&self, p: Seq<char>) -> bool {
        &&& self.head@ == numbered_head(p)
        &&& self.tail@ == extension_of(file_name(p))
        &&& self.first == first_number(p)
    }

    /// Takes `path` apart.
    pub fn of(path: &Vec<char>) -> (r: Numbering)
        ensures
            r.belongs_to(path@),
    {
        let (dir, name) = split_path(path);
        let (stem, ext) = split_name(&name);
        let (bare, first) = split_stem(&stem);
        let mut head = dir;
        push_all(&mut head, &bare);
        head.push('_');
        assert(head@ == numbered_head(path@));
        Numbering { head, tail: ext, first }
    }

    /// The numbered form with the number `n`.
    pub fn form(&self, n: u64) -> (out: Vec<char>)
        ensures
            out@ == self.head@ + decimal(n as nat) + self.tail@,
    {
        let mut out = slice(&self.head, 0, self.head.len());
        let digits = decimal_chars(n);
        push_all(&mut out, &digits);
        push_all(&mut out, &self.tail);
        out
    }
}

} // verus!
