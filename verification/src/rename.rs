//! Bulk renaming in two passes: a preview that touches nothing, and the pass
//! that renames.
//!
//! Both passes go through the files in the order given and decide for each in
//! the same way. The preview keeps a mock state: once a file is to move, its
//! old path counts as free and its new path as taken for the files after it.
//! The real pass starts from an empty mock state, because each rename it makes
//! already shows on disk.

use vstd::prelude::*;
use crate::cli::{colored, foreground, is_yes, proceed_answer, Style, Styler, INDENT};
use crate::file_sys::{
    lemma_resolve_alike, lemma_resolved_is_free, no_mock, occupied, probes_any, reads_disk,
    seen_occupied, seen_open, unique_path, MockState, UniquePathGetter,
};
use crate::paths::{file_name, sibling, split_path};
use crate::pattern::{regex_replaced, replace_all, Pattern};
use crate::text::{from_chars, push_all, push_str, same_chars, same_text, to_chars};

verus! {

/// What is to happen to one file.
pub struct Decision {
    /// The file as it is now.
    pub source: Seq<char>,
    /// The path it would get if nothing were in the way.
    pub candidate: Seq<char>,
    /// The path it gets.
    pub resolved: Seq<char>,
    /// Whether the substitution changed its name.
    pub changed: bool,
}

/// What is to happen to one file. A file whose name the substitution leaves
/// as it is keeps its path in all three fields.
#[derive(Debug)]
pub struct RenameDecision {
    pub source: String,
    pub candidate: String,
    pub resolved: String,
    pub changed: bool,
}

impl View for RenameDecision {
    type V = Decision;

    open spec fn view(&self) -> Decision {
        Decision {
            source: self.source@,
            candidate: self.candidate@,
            resolved: self.resolved@,
            changed: self.changed,
        }
    }
}

/// Why a file got no decision.
#[derive(Debug)]
pub enum RenameError {
    /// Every numbered form of the candidate is occupied.
    NoFreeName { candidate: String },
}

impl RenameError {
    /// The message for the user.
    pub fn message(&self) -> (out: String)
        ensures
            self matches RenameError::NoFreeName { candidate } ==> out@
                == "No free name left for "@ + candidate@,
    {
        match self {
            RenameError::NoFreeName { candidate } => {
                let mut out = to_chars("No free name left for ");
                push_str(&mut out, candidate.as_str());
                from_chars(&out)
            },
        }
    }
}

/// The decision for the file `source` whose name the substitution turns into
/// `name_new`; `None` where no free path is left for it.
pub open spec fn decide(
    disk: Set<Seq<char>>,
    mock: MockState,
    source: Seq<char>,
    name_new: Seq<char>,
) -> Option<Decision> {
    if name_new == file_name(source) {
        Some(Decision { source, candidate: source, resolved: source, changed: false })
    } else {
        match unique_path(disk, mock, sibling(source, name_new)) {
            Some(resolved) => Some(
                Decision { source, candidate: sibling(source, name_new), resolved, changed: true },
            ),
            None => None,
        }
    }
}

/// The decision of one result.
pub open spec fn decision_of(r: Result<RenameDecision, RenameError>) -> Option<Decision> {
    match r {
        Ok(d) => Some(d@),
        Err(_) => None,
    }
}

/// Decides for the file `path_file`, given the name `name_new` that the
/// substitution made of its file name.
pub fn decide_rename<F: Fn(&str) -> bool>(
    path_file: &str,
    name_new: &str,
    path_getter: &UniquePathGetter,
    on_disk: &F,
) -> (r: Result<RenameDecision, RenameError>)
    requires
        probes_any(on_disk),
    ensures
        forall|disk: Set<Seq<char>>| #[trigger]
            reads_disk(on_disk, disk) ==> decision_of(r) == decide(
                disk,
                path_getter@,
                path_file@,
                name_new@,
            ),
        name_new@ == file_name(path_file@) ==> decision_of(r) == Some(
            Decision {
                source: path_file@,
                candidate: path_file@,
                resolved: path_file@,
                changed: false,
            },
        ),
        match r {
            Ok(d) => {
                &&& d.source@ == path_file@
                &&& d.changed == (name_new@ != file_name(path_file@))
                &&& d.changed ==> d.candidate@ == sibling(path_file@, name_new@) && seen_open(
                    on_disk,
                    path_getter@,
                    d.resolved@,
                )
            },
            Err(RenameError::NoFreeName { candidate }) => {
                &&& name_new@ != file_name(path_file@)
                &&& candidate@ == sibling(path_file@, name_new@)
                &&& seen_occupied(on_disk, path_getter@, candidate@)
            },
        },
{
    let (dir, name) = split_path(&to_chars(path_file));
    let wanted = to_chars(name_new);
    if same_chars(&wanted, &name) {
        return Ok(
            RenameDecision {
                source: path_file.to_owned(),
                candidate: path_file.to_owned(),
                resolved: path_file.to_owned(),
                changed: false,
            },
        );
    }
    let mut candidate = dir;
    push_all(&mut candidate, &wanted);
    let candidate = from_chars(&candidate);
    match path_getter.get_unique(candidate.as_str(), on_disk) {
        Some(resolved) => Ok(
            RenameDecision { source: path_file.to_owned(), candidate, resolved, changed: true },
        ),
        None => Err(RenameError::NoFreeName { candidate }),
    }
}

/// The name that the substitution makes of the file name of `source`.
pub open spec fn name_after(pattern: Seq<char>, substitute: Seq<char>, source: Seq<char>) -> Seq<
    char,
> {
    regex_replaced(pattern, file_name(source), substitute)
}

/// Decides for the file `path_file`: replaces every match of `regex` in its
/// file name by `substitute`, and resolves the path that this gives.
pub fn rename_file<F: Fn(&str) -> bool>(
    path_file: &str,
    regex: &Pattern,
    substitute: &str,
    path_getter: &UniquePathGetter,
    on_disk: &F,
) -> (r: Result<RenameDecision, RenameError>)
    requires
        probes_any(on_disk),
    ensures
        forall|disk: Set<Seq<char>>| #[trigger]
            reads_disk(on_disk, disk) ==> decision_of(r) == decide(
                disk,
                path_getter@,
                path_file@,
                name_after(regex@, substitute@, path_file@),
            ),
        name_after(regex@, substitute@, path_file@) == file_name(path_file@) ==> decision_of(r)
            == Some(
            Decision {
                source: path_file@,
                candidate: path_file@,
                resolved: path_file@,
                changed: false,
            },
        ),
        match r {
            Ok(d) => {
                &&& d.source@ == path_file@
                &&& d.changed == (name_after(regex@, substitute@, path_file@) != file_name(
                    path_file@,
                ))
                &&& d.changed ==> d.candidate@ == sibling(
                    path_file@,
                    name_after(regex@, substitute@, path_file@),
                ) && seen_open(on_disk, path_getter@, d.resolved@)
                &&& !d.changed ==> d.candidate@ == path_file@ && d.resolved@ == path_file@
            },
            Err(RenameError::NoFreeName { candidate }) => {
                &&& name_after(regex@, substitute@, path_file@) != file_name(path_file@)
                &&& candidate@ == sibling(path_file@, name_after(regex@, substitute@, path_file@))
                &&& seen_occupied(on_disk, path_getter@, candidate@)
            },
        },
{
    let (_dir, name) = split_path(&to_chars(path_file));
    let name = from_chars(&name);
    let name_new = replace_all(regex, name.as_str(), substitute);
    decide_rename(path_file, name_new.as_str(), path_getter, on_disk)
}

/// The mock state after the decisions `ds`: for each file that moves, its
/// new path is taken and its old path is free.
pub open spec fn mock_after(ds: Seq<Decision>) -> MockState
    decreases ds.len(),
{
    if ds.len() == 0 {
        no_mock()
    } else {
        let before = mock_after(ds.drop_last());
        let d = ds.last();
        if d.resolved != d.source {
            MockState { taken: before.taken.insert(d.resolved), free: before.free.insert(d.source) }
        } else {
            before
        }
    }
}

/// The disk after the renames that the decisions `ds` call for, made in
/// order: each changed file leaves its old path and appears at its new one.
pub open spec fn disk_after(disk: Set<Seq<char>>, ds: Seq<Decision>) -> Set<Seq<char>>
    decreases ds.len(),
{
    if ds.len() == 0 {
        disk
    } else {
        let before = disk_after(disk, ds.drop_last());
        let d = ds.last();
        if d.changed {
            before.remove(d.source).insert(d.resolved)
        } else {
            before
        }
    }
}

/// The decisions of a preview for the first `k` files: each decided against
/// the disk as it is and the mock state after the decisions before it. `None`
/// where one of them gets no decision.
pub open spec fn previewed(
    disk: Set<Seq<char>>,
    sources: Seq<Seq<char>>,
    names: Seq<Seq<char>>,
    k: nat,
) -> Option<Seq<Decision>>
    decreases k,
{
    if k == 0 {
        Some(Seq::empty())
    } else {
        match previewed(disk, sources, names, (k - 1) as nat) {
            None => None,
            Some(ds) => match decide(disk, mock_after(ds), sources[k - 1], names[k - 1]) {
                None => None,
                Some(d) => Some(ds.push(d)),
            },
        }
    }
}

/// The decisions of the real pass for the first `k` files: each decided with
/// an empty mock state against the disk as the renames before it left it.
pub open spec fn applied(
    disk: Set<Seq<char>>,
    sources: Seq<Seq<char>>,
    names: Seq<Seq<char>>,
    k: nat,
) -> Option<Seq<Decision>>
    decreases k,
{
    if k == 0 {
        Some(Seq::empty())
    } else {
        match applied(disk, sources, names, (k - 1) as nat) {
            None => None,
            Some(ds) => match decide(
                disk_after(disk, ds),
                no_mock(),
                sources[k - 1],
                names[k - 1],
            ) {
                None => None,
                Some(d) => Some(ds.push(d)),
            },
        }
    }
}

/// The paths that a list of files names, in order.
pub open spec fn sources_of(files: Seq<String>) -> Seq<Seq<char>> {
    Seq::new(files.len(), |i: int| files[i]@)
}

/// The names that the substitution makes of the file names of `sources`.
pub open spec fn names_after(
    pattern: Seq<char>,
    substitute: Seq<char>,
    sources: Seq<Seq<char>>,
) -> Seq<Seq<char>> {
    Seq::new(sources.len(), |i: int| name_after(pattern, substitute, sources[i]))
}

/// The decisions that a list holds.
pub open spec fn decisions_of(list: Seq<RenameDecision>) -> Seq<Decision> {
    Seq::new(list.len(), |i: int| list[i]@)
}

/// The decisions of a pass that came to its end.
pub open spec fn plan_of(r: Result<Vec<RenameDecision>, RenameError>) -> Option<Seq<Decision>> {
    match r {
        Ok(list) => Some(decisions_of(list@)),
        Err(_) => None,
    }
}

/// Once a preview has failed, it has failed for every longer list.
pub proof fn lemma_preview_stays_failed(
    disk: Set<Seq<char>>,
    sources: Seq<Seq<char>>,
    names: Seq<Seq<char>>,
    k: nat,
    n: nat,
)
    requires
        k <= n,
        previewed(disk, sources, names, k) is None,
    ensures
        previewed(disk, sources, names, n) is None,
    decreases n,
{
    if k < n {
        lemma_preview_stays_failed(disk, sources, names, k, (n - 1) as nat);
    }
}

/// The preview pass: decides for each file in order, the paths that earlier
/// decisions vacate counting as free and those that they fill as taken.
/// Nothing on disk changes. The first file that gets no decision ends the
/// pass with its error.
pub fn preview<F: Fn(&str) -> bool>(
    files: &Vec<String>,
    regex: &Pattern,
    substitute: &str,
    on_disk: &F,
) -> (r: Result<Vec<RenameDecision>, RenameError>)
    requires
        probes_any(on_disk),
    ensures
        forall|disk: Set<Seq<char>>| #[trigger]
            reads_disk(on_disk, disk) ==> plan_of(r) == previewed(
                disk,
                sources_of(files@),
                names_after(regex@, substitute@, sources_of(files@)),
                files.len() as nat,
            ),
        match r {
            Ok(list) => list.len() == files.len() && forall|i: int|
                0 <= i < list.len() ==> (#[trigger] list[i]).source@ == files[i]@
                    && list[i].changed == (name_after(regex@, substitute@, files[i]@)
                    != file_name(files[i]@)),
            Err(RenameError::NoFreeName { candidate }) => exists|i: int|
                0 <= i < files.len() && candidate@ == sibling(
                    (#[trigger] files[i])@,
                    name_after(regex@, substitute@, files[i]@),
                ),
        },
{
    let ghost sources = sources_of(files@);
    let ghost names = names_after(regex@, substitute@, sources);
    let mut path_getter = UniquePathGetter::new();
    let mut list: Vec<RenameDecision> = Vec::new();
    let mut i: usize = 0;
    while i < files.len()
        invariant
            probes_any(on_disk),
            i <= files.len(),
            list.len() == i,
            sources == sources_of(files@),
            names == names_after(regex@, substitute@, sources),
            path_getter@ == mock_after(decisions_of(list@)),
            forall|j: int|
                0 <= j < list.len() ==> (#[trigger] list[j]).source@ == files[j]@
                    && list[j].changed == (name_after(regex@, substitute@, files[j]@)
                    != file_name(files[j]@)),
            forall|disk: Set<Seq<char>>| #[trigger]
                reads_disk(on_disk, disk) ==> Some(decisions_of(list@)) == previewed(
                    disk,
                    sources,
                    names,
                    i as nat,
                ),
        decreases files.len() - i,
    {
        let ghost before = decisions_of(list@);
        let decided = rename_file(files[i].as_str(), regex, substitute, &path_getter, on_disk);
        match decided {
            Err(e) => {
                proof {
                    assert forall|disk: Set<Seq<char>>| #[trigger]
                        reads_disk(on_disk, disk) implies previewed(
                        disk,
                        sources,
                        names,
                        files.len() as nat,
                    ) is None by {
                        lemma_preview_stays_failed(
                            disk,
                            sources,
                            names,
                            (i + 1) as nat,
                            files.len() as nat,
                        );
                    }
                }
                return Err(e);
            },
            Ok(d) => {
                if !same_text(d.resolved.as_str(), d.source.as_str()) {
                    path_getter.add_mock_taken(d.resolved.clone());
                    path_getter.add_mock_free(d.source.clone());
                }
                list.push(d);
                proof {
                    let after = decisions_of(list@);
                    assert(after.drop_last() =~= before);
                    assert forall|disk: Set<Seq<char>>| #[trigger]
                        reads_disk(on_disk, disk) implies Some(after) == previewed(
                        disk,
                        sources,
                        names,
                        (i + 1) as nat,
                    ) by {}
                }
                i += 1;
            },
        }
    }
    Ok(list)
}

/// Whether no two files that move get the same path.
pub open spec fn distinct_targets(ds: Seq<Decision>) -> bool {
    forall|i: int, j: int|
        #![trigger ds[i], ds[j]]
        0 <= i < j < ds.len() && ds[i].changed && ds[j].changed ==> ds[i].resolved
            != ds[j].resolved
}

/// Whether the preview of the first `n` files, as far as it gets, hands no
/// path to two files.
pub open spec fn keeps_apart(
    disk: Set<Seq<char>>,
    sources: Seq<Seq<char>>,
    names: Seq<Seq<char>>,
    n: nat,
) -> bool {
    forall|k: nat|
        k <= n ==> (#[trigger] previewed(disk, sources, names, k) matches Some(ds)
            ==> distinct_targets(ds))
}

/// Whether the preview, as far as it gets, hands no path to two files.
pub open spec fn preview_keeps_apart(
    disk: Set<Seq<char>>,
    sources: Seq<Seq<char>>,
    names: Seq<Seq<char>>,
) -> bool {
    keeps_apart(disk, sources, names, sources.len())
}

/// Whether the files are on disk and no file is named twice.
pub open spec fn files_in_place(disk: Set<Seq<char>>, sources: Seq<Seq<char>>) -> bool {
    &&& forall|i: int| 0 <= i < sources.len() ==> disk.contains(#[trigger] sources[i])
    &&& forall|i: int, j: int|
        #![trigger sources[i], sources[j]]
        0 <= i < j < sources.len() ==> sources[i] != sources[j]
}

/// How the mock state after `ds` stands to the disk after `ds`, `k` files
/// into a pass over `sources`.
spec fn in_step(disk: Set<Seq<char>>, sources: Seq<Seq<char>>, ds: Seq<Decision>, k: nat) -> bool {
    let mock = mock_after(ds);
    let live = disk_after(disk, ds);
    &&& ds.len() == k
    &&& forall|p: Seq<char>| #[trigger]
        live.contains(p) <==> (disk.contains(p) && !mock.free.contains(p)) || mock.taken.contains(p)
    &&& forall|p: Seq<char>| #[trigger]
        mock.taken.contains(p) ==> exists|i: int|
            0 <= i < k && (#[trigger] ds[i]).changed && ds[i].resolved == p
    &&& forall|p: Seq<char>| #[trigger]
        mock.free.contains(p) ==> exists|i: int| 0 <= i < k && #[trigger] sources[i] == p
    &&& forall|j: int| k <= j < sources.len() ==> !mock.taken.contains(#[trigger] sources[j])
    &&& forall|i: int|
        0 <= i < k && (#[trigger] ds[i]).changed ==> mock.taken.contains(ds[i].resolved)
}

proof fn lemma_passes_agree(
    disk: Set<Seq<char>>,
    sources: Seq<Seq<char>>,
    names: Seq<Seq<char>>,
    k: nat,
)
    requires
        k <= sources.len() == names.len(),
        files_in_place(disk, sources),
        keeps_apart(disk, sources, names, k),
    ensures
        applied(disk, sources, names, k) == previewed(disk, sources, names, k),
        previewed(disk, sources, names, k) matches Some(ds) ==> in_step(disk, sources, ds, k),
    decreases k,
{
    if k > 0 {
        lemma_passes_agree(disk, sources, names, (k - 1) as nat);
        match previewed(disk, sources, names, (k - 1) as nat) {
            None => {},
            Some(ds) => {
                let mock = mock_after(ds);
                let live = disk_after(disk, ds);
                let source = sources[k - 1];
                let name = names[k - 1];
                // The file is where it was: no file before it had its path.
                assert(!mock.free.contains(source));
                if name != file_name(source) {
                    let candidate = sibling(source, name);
                    // What the preview takes for occupied is on disk by now.
                    assert forall|q: Seq<char>| #[trigger]
                        occupied(disk, mock, q) implies occupied(live, no_mock(), q) by {}
                    lemma_resolved_is_free(disk, mock, candidate);
                    match unique_path(disk, mock, candidate) {
                        None => {},
                        Some(r) => {
                            let d = Decision { source, candidate, resolved: r, changed: true };
                            let next = ds.push(d);
                            // No file before this one was given `r`, so nothing
                            // has moved there.
                            assert(!mock.taken.contains(r)) by {
                                if mock.taken.contains(r) {
                                    let i = choose|i: int|
                                        0 <= i < k - 1 && (#[trigger] ds[i]).changed
                                            && ds[i].resolved == r;
                                    assert(next[i].changed && next[k - 1].changed);
                                }
                            }
                        },
                    }
                    lemma_resolve_alike(disk, mock, live, no_mock(), candidate);
                    match unique_path(disk, mock, candidate) {
                        None => {},
                        Some(r) => {
                            let d = Decision { source, candidate, resolved: r, changed: true };
                            let next = ds.push(d);
                            assert(next.drop_last() == ds);
                            assert(in_step(disk, sources, next, k));
                        },
                    }
                } else {
                    let d = Decision {
                        source,
                        candidate: source,
                        resolved: source,
                        changed: false,
                    };
                    let next = ds.push(d);
                    assert(next.drop_last() == ds);
                    assert(in_step(disk, sources, next, k));
                }
            },
        }
    }
}

/// Preview and real pass decide alike. For files that are on disk and named
/// once each, and with nothing else changing the disk meanwhile, the real
/// pass gives every file the path that the preview showed for it, provided
/// the preview handed no path to two files.
///
/// Without the proviso the two can differ: a path that an earlier file
/// vacated counts as free in the preview for good, also after another file
/// has moved onto it.
pub proof fn lemma_preview_matches_apply(
    disk: Set<Seq<char>>,
    sources: Seq<Seq<char>>,
    names: Seq<Seq<char>>,
)
    requires
        sources.len() == names.len(),
        files_in_place(disk, sources),
        preview_keeps_apart(disk, sources, names),
    ensures
        applied(disk, sources, names, sources.len()) == previewed(
            disk,
            sources,
            names,
            sources.len(),
        ),
{
    lemma_passes_agree(disk, sources, names, sources.len());
}

/// What the user is told of a decision. A file that moves is shown as old
/// name, arrow, new name, the old name in `style`; where its path is not the
/// one that the substitution alone would give, a warning follows. A file that
/// stays is shown in gray.
pub open spec fn message_text(d: Decision, style: Style) -> Seq<char> {
    if d.changed {
        let shown = style.styled(file_name(d.source)) + " -> "@ + file_name(d.resolved);
        if d.resolved != d.candidate {
            shown + INDENT@ + colored("yellow"@, "Warning: Path already exists, adding suffix."@)
        } else {
            shown
        }
    } else {
        colored("gray"@, file_name(d.source) + " -> "@ + file_name(d.source))
    }
}

impl RenameDecision {
    /// The line that tells the user of this decision, the matches in the old
    /// name styled by `match_styler`.
    pub fn message(&self, match_styler: &Styler) -> (out: String)
        ensures
            out@ == message_text(self@, match_styler@),
    {
        let (_from, name) = split_path(&to_chars(self.source.as_str()));
        if self.changed {
            let (_to, name_new) = split_path(&to_chars(self.resolved.as_str()));
            let name = from_chars(&name);
            let mut out = to_chars(match_styler.style(name.as_str()).as_str());
            push_str(&mut out, " -> ");
            push_all(&mut out, &name_new);
            if !same_text(self.resolved.as_str(), self.candidate.as_str()) {
                push_str(&mut out, INDENT);
                let warning = foreground("yellow").style(
                    "Warning: Path already exists, adding suffix.",
                );
                push_str(&mut out, warning.as_str());
            }
            from_chars(&out)
        } else {
            let mut line = to_chars("");
            push_all(&mut line, &name);
            push_str(&mut line, " -> ");
            push_all(&mut line, &name);
            proof {
                reveal_strlit("");
            }
            let line = from_chars(&line);
            foreground("gray").style(line.as_str())
        }
    }

    /// Whether this decision calls for a rename in the phase `phase`: only a
    /// file that moves, and only while applying.
    pub fn is_due(&self, phase: Phase) -> (r: bool)
        ensures
            r == (self.changed && phase is Apply),
    {
        match phase {
            Phase::Apply => self.changed,
            _ => false,
        }
    }
}

/// Where a renaming session stands.
#[derive(Clone, Copy, Debug, PartialEq, Eq, Structural)]
pub enum Phase {
    /// Showing what would happen.
    Preview,
    /// Waiting for the user to say yes.
    Confirm,
    /// Renaming.
    Apply,
    /// Done, the files renamed.
    Finished,
    /// Done, the user having declined: nothing was renamed.
    Aborted,
}

/// The phase that follows `phase`, the user having answered `yes` or not.
/// The answer counts only while it is waited for.
pub open spec fn phase_after(phase: Phase, yes: bool) -> Phase {
    match phase {
        Phase::Preview => Phase::Confirm,
        Phase::Confirm => if yes {
            Phase::Apply
        } else {
            Phase::Aborted
        },
        Phase::Apply => Phase::Finished,
        Phase::Finished => Phase::Finished,
        Phase::Aborted => Phase::Aborted,
    }
}

/// The phase in which a session starts.
pub open spec fn phase_at_start(skip_preview: bool) -> Phase {
    if skip_preview {
        Phase::Apply
    } else {
        Phase::Preview
    }
}

/// The phase of a session after `steps` steps, the user answering `yes` or
/// not whenever asked.
pub open spec fn phase_at(skip_preview: bool, yes: bool, steps: nat) -> Phase
    decreases steps,
{
    if steps == 0 {
        phase_at_start(skip_preview)
    } else {
        phase_after(phase_at(skip_preview, yes, (steps - 1) as nat), yes)
    }
}

/// The phase in which a session starts: the preview, unless it is skipped.
pub fn first_phase(skip_preview: bool) -> (phase: Phase)
    ensures
        phase == phase_at_start(skip_preview),
{
    if skip_preview {
        Phase::Apply
    } else {
        Phase::Preview
    }
}

/// The phase that follows `phase`. `answer` is what the user typed when
/// asked; it is looked at only after the question.
pub fn next_phase(phase: Phase, answer: &str) -> (next: Phase)
    ensures
        next == phase_after(phase, is_yes(answer@)),
{
    match phase {
        Phase::Preview => Phase::Confirm,
        Phase::Confirm => if proceed_answer(answer) {
            Phase::Apply
        } else {
            Phase::Aborted
        },
        Phase::Apply => Phase::Finished,
        Phase::Finished => Phase::Finished,
        Phase::Aborted => Phase::Aborted,
    }
}

/// A session with a preview whose question is not answered with yes never
/// comes to apply anything: no rename is due in any of its phases.
pub proof fn lemma_declined_applies_nothing(steps: nat)
    ensures
        phase_at(false, false, steps) !is Apply,
        phase_at(false, false, steps) !is Finished,
    decreases steps,
{
    if steps > 0 {
        lemma_declined_applies_nothing((steps - 1) as nat);
    }
}

/// A session applies only after a yes, or where the preview is skipped.
pub proof fn lemma_applies_only_after_yes(skip_preview: bool, yes: bool, steps: nat)
    requires
        phase_at(skip_preview, yes, steps) is Apply,
    ensures
        skip_preview || yes,
{
    if !skip_preview && !yes {
        lemma_declined_applies_nothing(steps);
    }
}

/// A pass that has come through `n` files has come through every `k` of
/// them before, with the same decisions.
pub proof fn lemma_passes_grow(
    disk: Set<Seq<char>>,
    sources: Seq<Seq<char>>,
    names: Seq<Seq<char>>,
    k: nat,
    n: nat,
)
    requires
        k <= n,
    ensures
        previewed(disk, sources, names, n) matches Some(ds) ==> ds.len() == n && previewed(
            disk,
            sources,
            names,
            k,
        ) == Some(ds.subrange(0, k as int)),
        applied(disk, sources, names, n) matches Some(ds) ==> ds.len() == n && applied(
            disk,
            sources,
            names,
            k,
        ) == Some(ds.subrange(0, k as int)),
    decreases n,
{
    if k < n {
        lemma_passes_grow(disk, sources, names, k, (n - 1) as nat);
        if let Some(ds) = previewed(disk, sources, names, n) {
            assert(ds.subrange(0, k as int) == ds.drop_last().subrange(0, k as int));
        }
        if let Some(ds) = applied(disk, sources, names, n) {
            assert(ds.subrange(0, k as int) == ds.drop_last().subrange(0, k as int));
        }
    } else {
        if n > 0 {
            lemma_passes_grow(disk, sources, names, (n - 1) as nat, (n - 1) as nat);
        }
        if let Some(ds) = previewed(disk, sources, names, n) {
            assert(ds.subrange(0, n as int) == ds);
        }
        if let Some(ds) = applied(disk, sources, names, n) {
            assert(ds.subrange(0, n as int) == ds);
        }
    }
}

/// Among decisions that hand a path to two files, the first file to get a
/// path that was handed out before.
proof fn first_repeat(ds: Seq<Decision>, k: nat) -> (b: nat)
    requires
        k <= ds.len(),
        !distinct_targets(ds.subrange(0, k as int)),
    ensures
        b < k,
        distinct_targets(ds.subrange(0, b as int)),
        !distinct_targets(ds.subrange(0, b as int + 1)),
    decreases k,
{
    if k == 0 {
        0
    } else if distinct_targets(ds.subrange(0, k - 1)) {
        (k - 1) as nat
    } else {
        first_repeat(ds, (k - 1) as nat)
    }
}

/// The proviso of `lemma_preview_matches_apply` leaves out no more than it
/// must: where the preview does hand a path to two files, the real pass
/// decides otherwise, at the latest for the second of them.
pub proof fn lemma_repeated_target_shows(
    disk: Set<Seq<char>>,
    sources: Seq<Seq<char>>,
    names: Seq<Seq<char>>,
)
    requires
        sources.len() == names.len(),
        files_in_place(disk, sources),
        previewed(disk, sources, names, sources.len()) matches Some(ds) && !distinct_targets(ds),
    ensures
        applied(disk, sources, names, sources.len()) != previewed(
            disk,
            sources,
            names,
            sources.len(),
        ),
{
    let n = sources.len();
    let ds = previewed(disk, sources, names, n)->0;
    lemma_passes_grow(disk, sources, names, n, n);
    // File `b` is the first to get a path that was handed out before.
    let b = first_repeat(ds, n);
    let head = ds.subrange(0, b as int);
    let upto = ds.subrange(0, b as int + 1);
    lemma_passes_grow(disk, sources, names, b, n);
    lemma_passes_grow(disk, sources, names, b + 1, n);
    // Up to that file the two passes agree.
    assert forall|k: nat| k <= b implies (
    #[trigger] previewed(disk, sources, names, k) matches Some(part) ==> distinct_targets(
        part,
    )) by {
        lemma_passes_grow(disk, sources, names, k, n);
        assert(distinct_targets(ds.subrange(0, k as int))) by {
            assert(forall|i: int| 0 <= i < k ==> ds.subrange(0, k as int)[i] == head[i]);
        }
    }
    lemma_passes_agree(disk, sources, names, b);
    // Its path in the preview is one that a file has moved to, so on disk the
    // path is in use, and the real pass gives the file another.
    let (i, j) = choose|i: int, j: int|
        #![trigger upto[i], upto[j]]
        0 <= i < j < upto.len() && upto[i].changed && upto[j].changed && upto[i].resolved
            == upto[j].resolved;
    assert(j == b && head[i].changed && head[i].resolved == ds[b as int].resolved);
    assert(disk_after(disk, head).contains(ds[b as int].resolved));
    lemma_resolved_is_free(
        disk_after(disk, head),
        no_mock(),
        sibling(sources[b as int], names[b as int]),
    );
}

} // verus!
