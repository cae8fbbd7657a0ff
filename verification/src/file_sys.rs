//! Paths that collide with nothing: the resolver behind every rename.
//!
//! A resolver never looks at the disk itself. Whoever calls it hands in a probe
//! that says whether a path exists; the resolver holds only the mock state of
//! one pass: the paths that pending renames will occupy (`taken`) and those
//! that they will vacate (`free`).
//!
//! The search for a free number stops at `u64::MAX`. Where every numbered form
//! up to there is occupied the resolver answers `None`.

use vstd::prelude::*;
use crate::paths::{first_number, lemma_numbered_differs, numbered, Numbering};
use crate::text::{from_chars, push_all, same_text, slice, to_chars};

verus! {

/// `base` with `more` joined to it as a path: `more` alone where it starts at
/// the root or `base` is empty; else the two with one `/` between them,
/// which `base` may bring itself.
pub open spec fn path_joined(base: Seq<char>, more: Seq<char>) -> Seq<char> {
    if (more.len() > 0 && more[0] == '/') || base.len() == 0 {
        more
    } else if base.last() == '/' {
        base + more
    } else {
        base + seq!['/'] + more
    }
}

/// The glob pattern for the files of `dir` that match `glob_pattern`; with
/// `recursive`, for those in `dir` and in every directory below it.
pub open spec fn glob_for(dir: Seq<char>, glob_pattern: Seq<char>, recursive: bool) -> Seq<char> {
    path_joined(
        if recursive {
            path_joined(dir, "**"@)
        } else {
            dir
        },
        glob_pattern,
    )
}

fn join_path(base: Vec<char>, more: &Vec<char>) -> (out: Vec<char>)
    ensures
        out@ == path_joined(base@, more@),
{
    if (more.len() > 0 && more[0] == '/') || base.len() == 0 {
        let out = slice(more, 0, more.len());
        out
    } else {
        let mut out = base;
        if out[out.len() - 1] != '/' {
            out.push('/');
        }
        push_all(&mut out, more);
        out
    }
}

/// The glob pattern that finds the files to work on.
pub fn full_glob_pattern(dir: &str, glob_pattern: &str, recursive: bool) -> (out: String)
    ensures
        out@ == glob_for(dir@, glob_pattern@, recursive),
{
    let mut base = to_chars(dir);
    if recursive {
        base = join_path(base, &to_chars("**"));
    }
    from_chars(&join_path(base, &to_chars(glob_pattern)))
}

/// The paths that a list of strings names.
pub open spec fn named(list: Seq<String>) -> Set<Seq<char>> {
    Set::new(|p: Seq<char>| exists|i: int| 0 <= i < list.len() && (#[trigger] list[i])@ == p)
}

/// The mock state of a pass, as two sets of paths.
#[verifier::ext_equal]
pub struct MockState {
    /// Paths that will exist once the pending renames are done.
    pub taken: Set<Seq<char>>,
    /// Paths that will no longer exist once the pending renames are done.
    pub free: Set<Seq<char>>,
}

/// The mock state at the start of a pass: nothing taken, nothing free.
pub open spec fn no_mock() -> MockState {
    MockState { taken: Set::empty(), free: Set::empty() }
}

/// Whether `p` is occupied: it is on disk or taken, and it is not free.
pub open spec fn occupied(disk: Set<Seq<char>>, mock: MockState, p: Seq<char>) -> bool {
    (disk.contains(p) || mock.taken.contains(p)) && !mock.free.contains(p)
}

/// The first number from `n` up to `u64::MAX` whose numbered form of `p` is
/// not occupied.
pub open spec fn first_free(disk: Set<Seq<char>>, mock: MockState, p: Seq<char>, n: nat) -> Option<
    nat,
>
    decreases u64::MAX + 1 - n,
{
    if n > u64::MAX {
        None
    } else if !occupied(disk, mock, numbered(p, n)) {
        Some(n)
    } else {
        first_free(disk, mock, p, n + 1)
    }
}

/// The path that `p` resolves to: `p` itself where it is not occupied, else
/// its first numbered form that is not.
pub open spec fn unique_path(disk: Set<Seq<char>>, mock: MockState, p: Seq<char>) -> Option<
    Seq<char>,
> {
    if !occupied(disk, mock, p) {
        Some(p)
    } else {
        match first_free(disk, mock, p, first_number(p)) {
            Some(n) => Some(numbered(p, n)),
            None => None,
        }
    }
}

/// The text of an optional string.
pub open spec fn text_of(o: Option<String>) -> Option<Seq<char>> {
    match o {
        Some(s) => Some(s@),
        None => None,
    }
}

/// Whether the probe `f` answers as a disk holding exactly `disk` would.
pub open spec fn reads_disk<F: Fn(&str) -> bool>(f: &F, disk: Set<Seq<char>>) -> bool {
    forall|p: &str, b: bool| #[trigger] f.ensures((p,), b) ==> b == disk.contains(p@)
}

/// Whether `p` is occupied, given whether it is on disk.
pub open spec fn occupied_if(mock: MockState, p: Seq<char>, there: bool) -> bool {
    (there || mock.taken.contains(p)) && !mock.free.contains(p)
}

/// Whether the probe `f` may answer `there` when asked for `p`.
pub open spec fn may_answer<F: Fn(&str) -> bool>(f: &F, p: Seq<char>, there: bool) -> bool {
    exists|s: &str| s@ == p && #[trigger] f.ensures((s,), there)
}

/// Whether `p` is occupied by some answer that the probe `f` may give.
pub open spec fn seen_occupied<F: Fn(&str) -> bool>(f: &F, mock: MockState, p: Seq<char>) -> bool {
    exists|there: bool| #[trigger] may_answer(f, p, there) && occupied_if(mock, p, there)
}

/// Whether `p` is not occupied by some answer that the probe `f` may give.
pub open spec fn seen_open<F: Fn(&str) -> bool>(f: &F, mock: MockState, p: Seq<char>) -> bool {
    exists|there: bool| #[trigger] may_answer(f, p, there) && !occupied_if(mock, p, there)
}

/// Whether the probe `f` accepts every path.
pub open spec fn probes_any<F: Fn(&str) -> bool>(f: &F) -> bool {
    forall|p: &str| #[trigger] f.requires((p,))
}

/// The mock state as it is kept: two lists, in the order of marking.
struct MockPaths {
    taken: Vec<String>,
    free: Vec<String>,
}

/// Resolves candidate paths against the disk and the mock state of one pass.
pub struct UniquePathGetter {
    mock_paths: MockPaths,
}

impl View for UniquePathGetter {
    type V = MockState;

    closed spec fn view(&self) -> MockState {
        MockState { taken: named(self.mock_paths.taken@), free: named(self.mock_paths.free@) }
    }
}

fn lists(list: &Vec<String>, path: &str) -> (r: bool)
    ensures
        r == named(list@).contains(path@),
{
    let mut i: usize = 0;
    while i < list.len()
        invariant
            i <= list.len(),
            forall|j: int| 0 <= j < i ==> (#[trigger] list@[j])@ != path@,
        decreases list.len() - i,
    {
        if same_text(list[i].as_str(), path) {
            return true;
        }
        i += 1;
    }
    false
}

impl UniquePathGetter {
    /// A resolver with nothing taken and nothing free.
    pub fn new() -> (r: UniquePathGetter)
        ensures
            r@ == no_mock(),
    {
        UniquePathGetter { mock_paths: MockPaths { taken: Vec::new(), free: Vec::new() } }
    }

    /// Marks `path` as taken by a pending rename.
    pub fn add_mock_taken(&mut self, path: String)
        ensures
            final(self)@.taken == old(self)@.taken.insert(path@),
            final(self)@.free == old(self)@.free,
    {
        let ghost before = self.mock_paths.taken@;
        self.mock_paths.taken.push(path);
        proof {
            let after = self.mock_paths.taken@;
            assert forall|p: Seq<char>| named(after).contains(p) <==> named(before).insert(
                path@,
            ).contains(p) by {
                if named(before).contains(p) {
                    let i = choose|i: int| 0 <= i < before.len() && (#[trigger] before[i])@ == p;
                    assert(after[i]@ == p);
                }
                if p == path@ {
                    assert(after[before.len() as int]@ == p);
                }
            }
        }
    }

    /// Marks `path` as vacated by a pending rename.
    pub fn add_mock_free(&mut self, path: String)
        ensures
            final(self)@.free == old(self)@.free.insert(path@),
            final(self)@.taken == old(self)@.taken,
    {
        let ghost before = self.mock_paths.free@;
        self.mock_paths.free.push(path);
        proof {
            let after = self.mock_paths.free@;
            assert forall|p: Seq<char>| named(after).contains(p) <==> named(before).insert(
                path@,
            ).contains(p) by {
                if named(before).contains(p) {
                    let i = choose|i: int| 0 <= i < before.len() && (#[trigger] before[i])@ == p;
                    assert(after[i]@ == p);
                }
                if p == path@ {
                    assert(after[before.len() as int]@ == p);
                }
            }
        }
    }

    /// Whether `path` is occupied, given whether it exists on disk.
    pub fn is_occupied(&self, path: &str, there: bool) -> (r: bool)
        ensures
            r == occupied_if(self@, path@, there),
    {
        (there || lists(&self.mock_paths.taken, path)) && !lists(&self.mock_paths.free, path)
    }

    /// Resolves `path_in` to a path that is not occupied: `path_in` itself
    /// where it is free to use, else its first numbered form that is. `None`
    /// where every numbered form up to `u64::MAX` is occupied.
    ///
    /// `on_disk` is asked once for each path tried, in order. Where it answers
    /// as a disk with a fixed set of paths would, the result is `unique_path`
    /// of that set. Whatever it answers, the result was seen open, and every
    /// path tried before it was seen occupied.
    pub fn get_unique<F: Fn(&str) -> bool>(&self, path_in: &str, on_disk: &F) -> (out: Option<
        String,
    >)
        requires
            probes_any(on_disk),
        ensures
            forall|disk: Set<Seq<char>>| #[trigger]
                reads_disk(on_disk, disk) ==> text_of(out) == unique_path(disk, self@, path_in@),
            self@.free.contains(path_in@) ==> text_of(out) == Some(path_in@),
            match out {
                Some(r) => seen_open(on_disk, self@, r@) && (r@ == path_in@ || (seen_occupied(
                    on_disk,
                    self@,
                    path_in@,
                ) && exists|n: nat|
                    first_number(path_in@) <= n <= u64::MAX && r@ == #[trigger] numbered(
                        path_in@,
                        n,
                    ) && forall|m: nat|
                        first_number(path_in@) <= m < n ==> seen_occupied(
                            on_disk,
                            self@,
                            #[trigger] numbered(path_in@, m),
                        ))),
                None => seen_occupied(on_disk, self@, path_in@) && forall|m: nat|
                    first_number(path_in@) <= m <= u64::MAX ==> seen_occupied(
                        on_disk,
                        self@,
                        #[trigger] numbered(path_in@, m),
                    ),
            },
    {
        let there = on_disk(path_in);
        assert(may_answer(on_disk, path_in@, there));
        if !self.is_occupied(path_in, there) {
            return Some(path_in.to_owned());
        }
        let chars = to_chars(path_in);
        let parts = Numbering::of(&chars);
        let mut n: u64 = parts.first;
        loop
            invariant
                probes_any(on_disk),
                parts.belongs_to(path_in@),
                parts.first <= n,
                !self@.free.contains(path_in@),
                seen_occupied(on_disk, self@, path_in@),
                forall|m: nat|
                    first_number(path_in@) <= m < n ==> seen_occupied(
                        on_disk,
                        self@,
                        #[trigger] numbered(path_in@, m),
                    ),
                forall|disk: Set<Seq<char>>| #[trigger]
                    reads_disk(on_disk, disk) ==> occupied(disk, self@, path_in@) && first_free(
                        disk,
                        self@,
                        path_in@,
                        n as nat,
                    ) == first_free(disk, self@, path_in@, first_number(path_in@)),
            decreases u64::MAX - n,
        {
            let candidate = from_chars(&parts.form(n));
            assert(candidate@ == numbered(path_in@, n as nat));
            let tried: &str = candidate.as_str();
            let there = on_disk(tried);
            let taken = self.is_occupied(tried, there);
            assert forall|disk: Set<Seq<char>>| #[trigger] reads_disk(on_disk, disk) implies taken
                == occupied(disk, self@, candidate@) && first_free(disk, self@, path_in@, n as nat)
                == if taken {
                first_free(disk, self@, path_in@, n as nat + 1)
            } else {
                Some(n as nat)
            } by {}
            assert(may_answer(on_disk, candidate@, there));
            if !taken {
                return Some(candidate);
            }
            if n == u64::MAX {
                return None;
            }
            n += 1;
        }
    }
}

/// A path that is neither on disk nor taken resolves to itself.
pub proof fn lemma_unused_path_stays(disk: Set<Seq<char>>, mock: MockState, p: Seq<char>)
    requires
        !disk.contains(p),
        !mock.taken.contains(p),
    ensures
        unique_path(disk, mock, p) == Some(p),
{
}

/// What the search finds is not occupied, every number below it is, and it
/// lies between the start and `u64::MAX`.
pub proof fn lemma_first_free(disk: Set<Seq<char>>, mock: MockState, p: Seq<char>, n: nat)
    ensures
        match first_free(disk, mock, p, n) {
            Some(m) => n <= m <= u64::MAX && !occupied(disk, mock, numbered(p, m)) && forall|k: nat|
                n <= k < m ==> occupied(disk, mock, #[trigger] numbered(p, k)),
            None => forall|k: nat|
                n <= k <= u64::MAX ==> occupied(disk, mock, #[trigger] numbered(p, k)),
        },
    decreases u64::MAX + 1 - n,
{
    if n <= u64::MAX && occupied(disk, mock, numbered(p, n)) {
        lemma_first_free(disk, mock, p, n + 1);
    }
}

/// A path that is taken and not free resolves, if at all, to one of its
/// numbered forms from its first number on: a path that is not occupied and is
/// not the path itself.
pub proof fn lemma_taken_path_is_numbered(disk: Set<Seq<char>>, mock: MockState, p: Seq<char>)
    requires
        mock.taken.contains(p),
        !mock.free.contains(p),
    ensures
        match unique_path(disk, mock, p) {
            Some(q) => q != p && !occupied(disk, mock, q) && exists|n: nat|
                first_number(p) <= n <= u64::MAX && q == #[trigger] numbered(p, n),
            None => forall|n: nat|
                first_number(p) <= n <= u64::MAX ==> occupied(
                    disk,
                    mock,
                    #[trigger] numbered(p, n),
                ),
        },
{
    lemma_first_free(disk, mock, p, first_number(p));
    match first_free(disk, mock, p, first_number(p)) {
        Some(n) => {
            lemma_numbered_differs(p, n);
        },
        None => {},
    }
}

/// Asking twice in one state gives one answer: two results of `get_unique`
/// for one resolver, one path and a probe that reads one disk are the same.
pub proof fn lemma_same_state_same_answer<F: Fn(&str) -> bool>(
    resolver: &UniquePathGetter,
    path: &str,
    on_disk: &F,
    disk: Set<Seq<char>>,
    first: Option<String>,
    second: Option<String>,
)
    requires
        reads_disk(on_disk, disk),
        call_ensures(UniquePathGetter::get_unique::<F>, (resolver, path, on_disk), first),
        call_ensures(UniquePathGetter::get_unique::<F>, (resolver, path, on_disk), second),
    ensures
        text_of(first) == text_of(second),
{
}

/// A path that is free resolves to itself, whether or not it is on disk or
/// taken.
pub proof fn lemma_free_overrides(disk: Set<Seq<char>>, mock: MockState, p: Seq<char>)
    requires
        mock.free.contains(p),
    ensures
        unique_path(disk, mock, p) == Some(p),
{
}

/// Marking a taken path free makes it resolve to itself again.
pub proof fn lemma_freed_after_taken(disk: Set<Seq<char>>, mock: MockState, p: Seq<char>)
    ensures
        unique_path(
            disk,
            MockState { taken: mock.taken.insert(p), free: mock.free.insert(p) },
            p,
        ) == Some(p),
{
}

/// The search finds `m` where `m` is not occupied and every number from `n`
/// up to it is.
pub proof fn lemma_first_free_is(
    disk: Set<Seq<char>>,
    mock: MockState,
    p: Seq<char>,
    n: nat,
    m: nat,
)
    requires
        n <= m <= u64::MAX,
        !occupied(disk, mock, numbered(p, m)),
        forall|k: nat| n <= k < m ==> occupied(disk, mock, #[trigger] numbered(p, k)),
    ensures
        first_free(disk, mock, p, n) == Some(m),
    decreases m - n,
{
    if n < m {
        lemma_first_free_is(disk, mock, p, n + 1, m);
    }
}

/// The search finds nothing where every number from `n` on is occupied.
pub proof fn lemma_first_free_none(disk: Set<Seq<char>>, mock: MockState, p: Seq<char>, n: nat)
    requires
        forall|k: nat| n <= k <= u64::MAX ==> occupied(disk, mock, #[trigger] numbered(p, k)),
    ensures
        first_free(disk, mock, p, n) is None,
    decreases u64::MAX + 1 - n,
{
    if n <= u64::MAX {
        lemma_first_free_none(disk, mock, p, n + 1);
    }
}

/// Two states resolve a path alike where whatever is occupied in the first is
/// occupied in the second, and what the first resolves to is free in the
/// second.
pub proof fn lemma_resolve_alike(
    disk: Set<Seq<char>>,
    mock: MockState,
    other_disk: Set<Seq<char>>,
    other_mock: MockState,
    p: Seq<char>,
)
    requires
        forall|q: Seq<char>| #[trigger]
            occupied(disk, mock, q) ==> occupied(other_disk, other_mock, q),
        unique_path(disk, mock, p) matches Some(r) ==> !occupied(other_disk, other_mock, r),
    ensures
        unique_path(other_disk, other_mock, p) == unique_path(disk, mock, p),
{
    if occupied(disk, mock, p) {
        let n = first_number(p);
        lemma_first_free(disk, mock, p, n);
        match first_free(disk, mock, p, n) {
            Some(m) => {
                assert forall|k: nat| n <= k < m implies occupied(
                    other_disk,
                    other_mock,
                    #[trigger] numbered(p, k),
                ) by {}
                lemma_first_free_is(other_disk, other_mock, p, n, m);
            },
            None => {
                assert forall|k: nat| n <= k <= u64::MAX implies occupied(
                    other_disk,
                    other_mock,
                    #[trigger] numbered(p, k),
                ) by {}
                lemma_first_free_none(other_disk, other_mock, p, n);
            },
        }
    }
}

/// What a path resolves to is not occupied.
pub proof fn lemma_resolved_is_free(disk: Set<Seq<char>>, mock: MockState, p: Seq<char>)
    ensures
        unique_path(disk, mock, p) matches Some(r) ==> !occupied(disk, mock, r),
{
    lemma_first_free(disk, mock, p, first_number(p));
}

} // verus!
