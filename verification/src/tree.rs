//! A directory tree: built from what an enumeration found, sized from the
//! leaves up, and drawn with box-drawing connectors.
//!
//! Reading directories is the caller's part. The library decides what is
//! looked at, in which order the entries stand, what each is prefixed with,
//! and what a directory weighs.

use vstd::prelude::*;
use crate::cli::{bites2str, size_text, Style, Styler};
use crate::paths::{file_name, split_path};
use crate::text::{from_chars, push_all, push_str, same_text, slice, to_chars};

verus! {

/// The connector of the last entry of a directory.
pub const ELBOW: &'static str = "└── ";

/// The connector of every other entry.
pub const TEE: &'static str = "├── ";

/// What the entries under a `TEE` are prefixed with.
pub const PIPE_PREFIX: &'static str = "│   ";

/// What the entries under an `ELBOW` are prefixed with.
pub const SPACE_PREFIX: &'static str = "    ";

/// A file in the tree, as a plain value.
pub struct FileNode {
    pub path: Seq<char>,
    pub prefix: Seq<char>,
    pub connector: Seq<char>,
    pub show_size: bool,
    pub size: Option<u64>,
    pub style_size: Style,
}

/// A directory in the tree, as a plain value.
pub struct DirNode {
    pub path: Seq<char>,
    pub prefix: Seq<char>,
    pub connector: Seq<char>,
    pub depth: i32,
    pub th_depth: i32,
    pub show_size: bool,
    pub have_access: bool,
    pub children_file: Seq<FileNode>,
    pub children_dir: Seq<DirNode>,
    pub size: Option<u64>,
    pub style_size: Style,
    pub style_folder: Style,
}

/// A file in the tree.
pub struct FileEntry<'a> {
    pub path: String,
    pub prefix: String,
    pub connector: String,
    pub show_size: bool,
    pub size: Option<u64>,
    pub styler_size: &'a Styler,
}

/// A directory in the tree. Its size is `None` until it is computed, and
/// stays `None` where it cannot be known.
pub struct DirEntry<'a> {
    pub path: String,
    pub prefix: String,
    pub connector: String,
    pub depth: i32,
    pub th_depth: i32,
    pub show_size: bool,
    pub have_access: bool,
    pub children_file: Vec<FileEntry<'a>>,
    pub children_dir: Vec<DirEntry<'a>>,
    pub size: Option<u64>,
    pub styler_size: &'a Styler,
    pub styler_folder: &'a Styler,
}

impl<'a> View for FileEntry<'a> {
    type V = FileNode;

    open spec fn view(&self) -> FileNode {
        FileNode {
            path: self.path@,
            prefix: self.prefix@,
            connector: self.connector@,
            show_size: self.show_size,
            size: self.size,
            style_size: self.styler_size@,
        }
    }
}

/// The files of a list as plain values.
pub open spec fn file_nodes(list: Seq<FileEntry>) -> Seq<FileNode> {
    Seq::new(list.len(), |i: int| list[i]@)
}

/// The first `k` directories of a list as plain values.
pub open spec fn dir_nodes(list: Seq<DirEntry>, k: nat) -> Seq<DirNode>
    decreases list, k,
{
    if k == 0 || k > list.len() {
        Seq::empty()
    } else {
        dir_nodes(list, (k - 1) as nat).push(dir_node(list[k - 1]))
    }
}

/// A directory as a plain value.
pub open spec fn dir_node(dir: DirEntry) -> DirNode
    decreases dir,
{
    DirNode {
        path: dir.path@,
        prefix: dir.prefix@,
        connector: dir.connector@,
        depth: dir.depth,
        th_depth: dir.th_depth,
        show_size: dir.show_size,
        have_access: dir.have_access,
        children_file: file_nodes(dir.children_file@),
        children_dir: dir_nodes(dir.children_dir@, dir.children_dir@.len()),
        size: dir.size,
        style_size: dir.styler_size@,
        style_folder: dir.styler_folder@,
    }
}

impl<'a> View for DirEntry<'a> {
    type V = DirNode;

    open spec fn view(&self) -> DirNode {
        dir_node(*self)
    }
}

/// The plain values of a list of directories are those of its members, in
/// order.
pub proof fn lemma_dir_nodes(list: Seq<DirEntry>, k: nat)
    requires
        k <= list.len(),
    ensures
        dir_nodes(list, k).len() == k,
        forall|i: int| 0 <= i < k ==> (#[trigger] dir_nodes(list, k)[i]) == dir_node(list[i]),
    decreases k,
{
    if k > 0 {
        lemma_dir_nodes(list, (k - 1) as nat);
    }
}

impl FileNode {
    /// What a file adds to the size of its directory.
    pub open spec fn weight(self) -> nat {
        match self.size {
            Some(bytes) => bytes as nat,
            None => 0,
        }
    }
}

/// What the first `k` files of a list weigh together.
pub open spec fn files_weight(files: Seq<FileNode>, k: nat) -> nat
    decreases k,
{
    if k == 0 || k > files.len() {
        0
    } else {
        files_weight(files, (k - 1) as nat) + files[k - 1].weight()
    }
}

/// Whether one of the first `k` directories of a list is blocked.
pub open spec fn any_blocked(dirs: Seq<DirNode>, k: nat) -> bool
    decreases dirs, k,
{
    if k == 0 || k > dirs.len() {
        false
    } else {
        any_blocked(dirs, (k - 1) as nat) || dirs[k - 1].blocked()
    }
}

/// What the first `k` directories of a list weigh together.
pub open spec fn dirs_weight(dirs: Seq<DirNode>, k: nat) -> nat
    decreases dirs, k,
{
    if k == 0 || k > dirs.len() {
        0
    } else {
        dirs_weight(dirs, (k - 1) as nat) + dirs[k - 1].weight()
    }
}

/// The first `k` directories of a list, each with its sizes computed.
pub open spec fn all_sized(dirs: Seq<DirNode>, k: nat) -> Seq<DirNode>
    decreases dirs, k,
{
    if k == 0 || k > dirs.len() {
        Seq::empty()
    } else {
        all_sized(dirs, (k - 1) as nat).push(dirs[k - 1].sized())
    }
}

impl DirNode {
    /// Whether the size of this directory cannot be known: it could not be
    /// listed itself, or a directory below it could not.
    pub open spec fn blocked(self) -> bool
        decreases self,
    {
        !self.have_access || any_blocked(self.children_dir, self.children_dir.len())
    }

    /// The bytes of all files below this directory.
    pub open spec fn weight(self) -> nat
        decreases self,
    {
        dirs_weight(self.children_dir, self.children_dir.len()) + files_weight(
            self.children_file,
            self.children_file.len(),
        )
    }

    /// The size that this directory is given: unknown where it is blocked,
    /// else its weight, or `u64::MAX` where that is less.
    pub open spec fn measured(self) -> Option<u64> {
        if self.blocked() {
            None
        } else if self.weight() > u64::MAX {
            Some(u64::MAX)
        } else {
            Some(self.weight() as u64)
        }
    }

    /// This directory with its own size and those of the directories below
    /// it computed. Below a directory that could not be listed nothing is
    /// computed.
    pub open spec fn sized(self) -> DirNode
        decreases self,
    {
        if !self.have_access {
            DirNode { size: None, ..self }
        } else {
            DirNode {
                size: self.measured(),
                children_dir: all_sized(self.children_dir, self.children_dir.len()),
                ..self
            }
        }
    }
}

/// Sizing a list of directories sizes each of them, in order.
pub proof fn lemma_all_sized(dirs: Seq<DirNode>, k: nat)
    requires
        k <= dirs.len(),
    ensures
        all_sized(dirs, k).len() == k,
        forall|i: int| 0 <= i < k ==> (#[trigger] all_sized(dirs, k)[i]) == dirs[i].sized(),
    decreases k,
{
    if k > 0 {
        lemma_all_sized(dirs, (k - 1) as nat);
    }
}

fn add_saturating(a: u64, b: u64) -> (sum: u64)
    ensures
        sum == if a + b > u64::MAX {
            u64::MAX as int
        } else {
            a + b
        },
{
    if a > u64::MAX - b {
        u64::MAX
    } else {
        a + b
    }
}

impl<'a> DirEntry<'a> {
    /// Computes the size of this directory and of every directory below it,
    /// from the leaves up: the sum of what its files and directories weigh,
    /// or `None` where it or a directory below it could not be listed. A sum
    /// beyond `u64::MAX` is given as `u64::MAX`.
    pub fn get_size(&mut self)
        ensures
            final(self)@ == old(self)@.sized(),
        decreases *old(self),
    {
        if !self.have_access {
            self.size = None;
            return ;
        }
        let ghost before = *self;
        let ghost dirs = dir_nodes(before.children_dir@, before.children_dir@.len());
        let ghost files = file_nodes(before.children_file@);
        proof {
            lemma_dir_nodes(before.children_dir@, before.children_dir@.len());
        }
        let mut all_access = true;
        let mut size: u64 = 0;
        let n = self.children_dir.len();
        let mut i: usize = 0;
        while i < n
            invariant
                i <= n,
                n == before.children_dir@.len(),
                before == *old(self),
                self.children_dir@.len() == n,
                before.have_access,
                dirs == dir_nodes(before.children_dir@, before.children_dir@.len()),
                dirs.len() == n,
                forall|j: int|
                    0 <= j < n ==> (#[trigger] dirs[j]) == dir_node(before.children_dir@[j]),
                forall|j: int|
                    0 <= j < i ==> dir_node(#[trigger] self.children_dir@[j]) == dirs[j].sized(),
                forall|j: int|
                    i <= j < n ==> (#[trigger] self.children_dir@[j]) == before.children_dir@[j],
                self.path == before.path,
                self.prefix == before.prefix,
                self.connector == before.connector,
                self.depth == before.depth,
                self.th_depth == before.th_depth,
                self.show_size == before.show_size,
                self.have_access == before.have_access,
                self.children_file == before.children_file,
                self.styler_size == before.styler_size,
                self.styler_folder == before.styler_folder,
                all_access == !any_blocked(dirs, i as nat),
                all_access ==> size == if dirs_weight(dirs, i as nat) > u64::MAX {
                    u64::MAX as nat
                } else {
                    dirs_weight(dirs, i as nat)
                },
            decreases n - i,
        {
            self.children_dir[i].get_size();
            let child_size = self.children_dir[i].size;
            match child_size {
                None => {
                    all_access = false;
                },
                Some(bytes) => {
                    size = add_saturating(size, bytes);
                },
            }
            i += 1;
        }
        let m = self.children_file.len();
        let mut k: usize = 0;
        let ghost base = dirs_weight(dirs, n as nat);
        while k < m
            invariant
                k <= m,
                m == self.children_file@.len(),
                files == file_nodes(self.children_file@),
                all_access ==> size == if base + files_weight(files, k as nat) > u64::MAX {
                    u64::MAX as nat
                } else {
                    base + files_weight(files, k as nat)
                },
            decreases m - k,
        {
            let bytes = match self.children_file[k].size {
                Some(bytes) => bytes,
                None => 0,
            };
            size = add_saturating(size, bytes);
            k += 1;
        }
        self.size = if all_access {
            Some(size)
        } else {
            None
        };
        proof {
            lemma_dir_nodes(self.children_dir@, n as nat);
            lemma_all_sized(dirs, n as nat);
            assert(dir_nodes(self.children_dir@, n as nat) =~= all_sized(dirs, n as nat));
        }
    }
}

/// A directory with a directory below it that is blocked is blocked itself.
pub proof fn lemma_any_blocked(dirs: Seq<DirNode>, k: nat, i: int)
    requires
        0 <= i < k <= dirs.len(),
        dirs[i].blocked(),
    ensures
        any_blocked(dirs, k),
    decreases k,
{
    if i < k - 1 {
        lemma_any_blocked(dirs, (k - 1) as nat, i);
    }
}

/// The size of a directory is unknown exactly where the directory is
/// blocked. In particular a directory that holds a directory which could not
/// be listed has no size, whatever its files weigh.
pub proof fn lemma_unlisted_hides_size(dir: DirNode, i: int)
    requires
        0 <= i < dir.children_dir.len(),
        !dir.children_dir[i].have_access,
    ensures
        dir.sized().size is None,
        forall|any: DirNode| (#[trigger] any.sized()).size is None <==> any.blocked(),
{
    if dir.have_access {
        lemma_any_blocked(dir.children_dir, dir.children_dir.len(), i);
    }
}

/// What an enumeration found at one path.
#[derive(Debug)]
pub enum Scan {
    /// A file and its length in bytes.
    File { path: String, size: u64 },
    /// A directory and its entries; `None` where it could not be listed.
    Dir { path: String, listing: Option<Vec<Scan>> },
}

impl Scan {
    /// The path of the entry.
    pub open spec fn path(self) -> Seq<char> {
        match self {
            Scan::File { path, .. } => path@,
            Scan::Dir { path, .. } => path@,
        }
    }
}

/// Whether `a` and `b` agree in their first `k` characters.
pub open spec fn share_start(a: Seq<char>, b: Seq<char>, k: int) -> bool {
    &&& 0 <= k <= a.len()
    &&& k <= b.len()
    &&& forall|i: int| 0 <= i < k ==> a[i] == b[i]
}

/// Whether `a` comes before `b` in the order of the dictionary, characters
/// taken by their code points: where the two first differ `a` has the lesser
/// character, or `a` ends there and `b` goes on.
pub open spec fn text_before(a: Seq<char>, b: Seq<char>) -> bool {
    exists|k: int| #[trigger]
        share_start(a, b, k) && k < b.len() && (k == a.len() || a[k] < b[k])
}

/// Whether entry `i` stands before entry `j` in a directory: files before
/// directories, then by path, and of two entries with one path and kind the
/// one that was found first.
pub open spec fn stands_before(entries: Seq<Scan>, i: int, j: int) -> bool {
    let a = entries[i];
    let b = entries[j];
    if (a is Dir) != (b is Dir) {
        b is Dir
    } else if a.path() != b.path() {
        text_before(a.path(), b.path())
    } else {
        i < j
    }
}

/// Whether `order` names the index `i`.
pub open spec fn names(order: Seq<usize>, i: int) -> bool {
    exists|a: int| 0 <= a < order.len() && #[trigger] order[a] == i
}

/// Whether `order` lists the entries in the order in which they stand in a
/// directory: every index once, each standing before those after it.
pub open spec fn arranged(entries: Seq<Scan>, order: Seq<usize>) -> bool {
    &&& order.len() == entries.len()
    &&& forall|a: int| 0 <= a < order.len() ==> (#[trigger] order[a]) < entries.len()
    &&& forall|i: int| 0 <= i < entries.len() ==> #[trigger] names(order, i)
    &&& forall|a: int, b: int|
        #![trigger order[a], order[b]]
        0 <= a < b < order.len() ==> stands_before(entries, order[a] as int, order[b] as int)
}

/// The order of the dictionary lets no text come before itself, and what
/// comes before a text comes before all that the text comes before.
pub proof fn lemma_text_before(a: Seq<char>, b: Seq<char>, c: Seq<char>)
    ensures
        !text_before(a, a),
        text_before(a, b) && text_before(b, c) ==> text_before(a, c),
        text_before(a, b) ==> !text_before(b, a),
{
    if text_before(a, b) && text_before(b, c) {
        let k = choose|k: int| #[trigger]
            share_start(a, b, k) && k < b.len() && (k == a.len() || a[k] < b[k]);
        let m = choose|m: int| #[trigger]
            share_start(b, c, m) && m < c.len() && (m == b.len() || b[m] < c[m]);
        let n = if k <= m {
            k
        } else {
            m
        };
        assert(share_start(a, c, n));
    }
    if text_before(a, b) && text_before(b, a) {
        let k = choose|k: int| #[trigger]
            share_start(a, b, k) && k < b.len() && (k == a.len() || a[k] < b[k]);
        let m = choose|m: int| #[trigger]
            share_start(b, a, m) && m < a.len() && (m == b.len() || b[m] < a[m]);
        // Where the two first differ, each would have the lesser character.
        assert(k == m);
    }
}

/// How one text stands to another.
#[derive(Clone, Copy, Debug, PartialEq, Eq, Structural)]
pub enum Side {
    Before,
    Same,
    After,
}

/// How `a` stands to `b` in the order of the dictionary.
pub fn side_of(a: &Vec<char>, b: &Vec<char>) -> (r: Side)
    ensures
        r is Before <==> text_before(a@, b@),
        r is Same <==> a@ == b@,
        r is After <==> text_before(b@, a@),
{
    proof {
        lemma_text_before(a@, b@, a@);
        lemma_text_before(a@, a@, a@);
    }
    let mut k: usize = 0;
    while k < a.len() && k < b.len()
        invariant
            share_start(a@, b@, k as int),
        decreases a.len() - k,
    {
        if a[k] < b[k] {
            return Side::Before;
        }
        if b[k] < a[k] {
            assert(share_start(b@, a@, k as int) && k < a.len() && (k == b.len() || b@[k as int]
                < a@[k as int]));
            return Side::After;
        }
        k += 1;
    }
    if k < b.len() {
        Side::Before
    } else if k < a.len() {
        assert(share_start(b@, a@, k as int) && k < a.len() && (k == b.len() || b@[k as int]
            < a@[k as int]));
        Side::After
    } else {
        assert(a@ =~= b@);
        Side::Same
    }
}

/// What stands before an entry stands before all that the entry stands
/// before.
pub proof fn lemma_stands_before_chain(entries: Seq<Scan>, i: int, j: int, k: int)
    requires
        stands_before(entries, i, j),
        stands_before(entries, j, k),
    ensures
        stands_before(entries, i, k),
{
    let a = entries[i].path();
    let b = entries[j].path();
    let c = entries[k].path();
    lemma_text_before(a, b, c);
    lemma_text_before(a, b, a);
    lemma_text_before(b, c, b);
    lemma_text_before(a, c, a);
}

proof fn lemma_arranged_alike(entries: Seq<Scan>, first: Seq<usize>, second: Seq<usize>, a: int)
    requires
        arranged(entries, first),
        arranged(entries, second),
        0 <= a < entries.len(),
    ensures
        first[a] == second[a],
    decreases a,
{
    assert forall|b: int| 0 <= b < a implies first[b] == second[b] by {
        lemma_arranged_alike(entries, first, second, b);
    }
    let x = first[a];
    let y = second[a];
    if x != y {
        assert(names(second, x as int));
        assert(names(first, y as int));
        lemma_stands_before_chain(entries, x as int, y as int, x as int);
    }
}

/// The entries of a directory stand in one order only: two orders of the
/// same entries are the same.
pub proof fn lemma_one_arrangement(entries: Seq<Scan>, first: Seq<usize>, second: Seq<usize>)
    requires
        arranged(entries, first),
        arranged(entries, second),
    ensures
        first == second,
{
    assert forall|a: int| 0 <= a < first.len() implies first[a] == second[a] by {
        lemma_arranged_alike(entries, first, second, a);
    }
}

fn stands(entries: &Vec<Scan>, i: usize, j: usize) -> (r: bool)
    requires
        i < entries.len(),
        j < entries.len(),
    ensures
        r == stands_before(entries@, i as int, j as int),
        !r && i != j ==> stands_before(entries@, j as int, i as int),
{
    let (a_dir, a_path) = match &entries[i] {
        Scan::File { path, .. } => (false, to_chars(path.as_str())),
        Scan::Dir { path, .. } => (true, to_chars(path.as_str())),
    };
    let (b_dir, b_path) = match &entries[j] {
        Scan::File { path, .. } => (false, to_chars(path.as_str())),
        Scan::Dir { path, .. } => (true, to_chars(path.as_str())),
    };
    if a_dir != b_dir {
        b_dir
    } else {
        match side_of(&a_path, &b_path) {
            Side::Before => true,
            Side::After => false,
            Side::Same => i < j,
        }
    }
}

/// The order in which the entries of a directory stand: files before
/// directories, each group by path.
pub fn arrange(entries: &Vec<Scan>) -> (order: Vec<usize>)
    ensures
        arranged(entries@, order@),
{
    let n = entries.len();
    let mut order: Vec<usize> = Vec::new();
    let mut i: usize = 0;
    while i < n
        invariant
            n == entries.len(),
            i <= n,
            order.len() == i,
            forall|a: int| 0 <= a < order.len() ==> (#[trigger] order[a]) < i,
            forall|x: int| 0 <= x < i ==> #[trigger] names(order@, x),
            forall|a: int, b: int|
                #![trigger order[a], order[b]]
                0 <= a < b < order.len() ==> stands_before(
                    entries@,
                    order[a] as int,
                    order[b] as int,
                ),
        decreases n - i,
    {
        let mut p: usize = order.len();
        while p > 0 && stands(entries, i, order[p - 1])
            invariant
                n == entries.len(),
                i < n,
                p <= order.len(),
                forall|a: int| 0 <= a < order.len() ==> (#[trigger] order[a]) < i,
                forall|a: int|
                    p <= a < order.len() ==> stands_before(
                        entries@,
                        i as int,
                        (#[trigger] order[a]) as int,
                    ),
            decreases p,
        {
            p -= 1;
        }
        let ghost old_order = order@;
        order.insert(p, i);
        proof {
            let new_order = order@;
            assert forall|a: int, b: int|
                #![trigger new_order[a], new_order[b]]
                0 <= a < b < new_order.len() implies stands_before(
                entries@,
                new_order[a] as int,
                new_order[b] as int,
            ) by {
                if b == p && a < p - 1 {
                    // What stands before the entry in front of the new one
                    // stands before the new one.
                    lemma_stands_before_chain(
                        entries@,
                        old_order[a] as int,
                        old_order[p - 1] as int,
                        i as int,
                    );
                } else if a != p && b != p {
                    let x = if a < p {
                        a
                    } else {
                        a - 1
                    };
                    assert(new_order[a] == old_order[x]);
                }
            }
            assert forall|x: int| 0 <= x < i + 1 implies #[trigger] names(new_order, x) by {
                if x == i {
                    assert(new_order[p as int] == i);
                } else {
                    assert(names(old_order, x));
                    let a = choose|a: int| 0 <= a < old_order.len() && #[trigger] old_order[a] == x;
                    if a < p {
                        assert(new_order[a] == x);
                    } else {
                        assert(new_order[a + 1] == x);
                    }
                }
            }
            assert forall|a: int| 0 <= a < new_order.len() implies (#[trigger] new_order[a]) < i
                + 1 by {
                if a > p {
                    assert(new_order[a] == old_order[a - 1]);
                }
            }
        }
        i += 1;
    }
    order
}

/// Whether a directory at `depth` is left unlisted: it lies at or below the
/// depth to show, and no sizes are asked for. A negative `th_depth` sets no
/// limit.
pub open spec fn stops(depth: i32, th_depth: i32, show_size: bool) -> bool {
    th_depth >= 0 && depth >= th_depth && !show_size
}

/// What the entries of a directory are prefixed with: its own prefix, and a
/// continuation that depends on its connector.
pub open spec fn child_prefix(prefix: Seq<char>, connector: Seq<char>) -> Seq<char> {
    if connector == TEE@ {
        prefix + PIPE_PREFIX@
    } else if connector == ELBOW@ {
        prefix + SPACE_PREFIX@
    } else {
        prefix
    }
}

/// The connector of entry `k` of `n`: an elbow for the last, a tee for the
/// others.
pub open spec fn connector_at(k: int, n: int) -> Seq<char> {
    if k + 1 < n {
        TEE@
    } else {
        ELBOW@
    }
}

/// The depth of what lies in a directory at `depth`: one more, as far as an
/// `i32` counts.
pub open spec fn deeper(depth: i32) -> i32 {
    if depth < i32::MAX {
        (depth + 1) as i32
    } else {
        depth
    }
}

/// A file as it is entered in the tree. Its size is kept only where sizes
/// are shown.
pub open spec fn fresh_file(
    path: Seq<char>,
    prefix: Seq<char>,
    connector: Seq<char>,
    show_size: bool,
    bytes: u64,
    style_size: Style,
) -> FileNode {
    FileNode {
        path,
        prefix,
        connector,
        show_size,
        size: if show_size {
            Some(bytes)
        } else {
            None
        },
        style_size,
    }
}

/// A directory as it is entered in the tree: without entries, without size,
/// and taken to be accessible.
pub open spec fn fresh_dir(
    path: Seq<char>,
    prefix: Seq<char>,
    connector: Seq<char>,
    depth: i32,
    th_depth: i32,
    show_size: bool,
    style_size: Style,
    style_folder: Style,
) -> DirNode {
    DirNode {
        path,
        prefix,
        connector,
        depth,
        th_depth,
        show_size,
        have_access: true,
        children_file: Seq::empty(),
        children_dir: Seq::empty(),
        size: None,
        style_size,
        style_folder,
    }
}

/// Whether `after` is `before` with its entries filled in from `listing`,
/// what the enumeration found in it.
///
/// A directory that is left unlisted gets no entries. One that could not be
/// listed gets none either, and is marked. Else its files come first, then
/// its directories, each group in the order in which it stands; every entry
/// gets the prefix of its directory's entries and its connector, and every
/// directory is filled in from its own listing in the same way.
pub open spec fn grown(after: DirNode, before: DirNode, listing: Option<Vec<Scan>>) -> bool
    decreases listing,
{
    &&& after.path == before.path
    &&& after.prefix == before.prefix
    &&& after.connector == before.connector
    &&& after.depth == before.depth
    &&& after.th_depth == before.th_depth
    &&& after.show_size == before.show_size
    &&& after.size == before.size
    &&& after.style_size == before.style_size
    &&& after.style_folder == before.style_folder
    &&& if stops(before.depth, before.th_depth, before.show_size) {
        &&& after.have_access == before.have_access
        &&& after.children_file.len() == 0
        &&& after.children_dir.len() == 0
    } else {
        match listing {
            None => {
                &&& !after.have_access
                &&& after.children_file.len() == 0
                &&& after.children_dir.len() == 0
            },
            Some(entries) => {
                &&& after.have_access == before.have_access
                &&& exists|order: Seq<usize>|
                    {
                        &&& #[trigger] arranged(entries@, order)
                        &&& after.children_file.len() + after.children_dir.len() == entries@.len()
                        &&& forall|k: int|
                            0 <= k < after.children_file.len() ==> (
                            #[trigger] entries@[order[k] as int] matches Scan::File { path, size }
                                && after.children_file[k] == fresh_file(
                                path@,
                                child_prefix(before.prefix, before.connector),
                                connector_at(k, entries@.len() as int),
                                before.show_size,
                                size,
                                before.style_size,
                            ))
                        &&& forall|k: int|
                            after.children_file.len() <= k < entries@.len() ==> (
                            #[trigger] entries@[order[k] as int] matches Scan::Dir {
                                path,
                                listing: below,
                            } && grown(
                                after.children_dir[k - after.children_file.len()],
                                fresh_dir(
                                    path@,
                                    child_prefix(before.prefix, before.connector),
                                    connector_at(k, entries@.len() as int),
                                    deeper(before.depth),
                                    before.th_depth,
                                    before.show_size,
                                    before.style_size,
                                    before.style_folder,
                                ),
                                below,
                            ))
                    }
            },
        }
    }
}

/// Whether a directory at `depth` is to be listed: whoever enumerates asks
/// this before reading a directory, and leaves the others alone.
pub fn is_listed_at(depth: i32, th_depth: i32, show_size: bool) -> (r: bool)
    ensures
        r == !stops(depth, th_depth, show_size),
{
    !(th_depth >= 0 && depth >= th_depth && !show_size)
}

/// The depth of what lies in a directory at `depth`.
pub fn depth_below(depth: i32) -> (r: i32)
    ensures
        r == deeper(depth),
{
    if depth < i32::MAX {
        depth + 1
    } else {
        depth
    }
}

impl<'a> FileEntry<'a> {
    /// Enters a file of `bytes` bytes in the tree.
    pub fn build(
        path: String,
        prefix: String,
        connector: String,
        show_size: bool,
        styler_size: &'a Styler,
        bytes: u64,
    ) -> (r: FileEntry<'a>)
        ensures
            r@ == fresh_file(path@, prefix@, connector@, show_size, bytes, styler_size@),
    {
        let size = if show_size {
            Some(bytes)
        } else {
            None
        };
        FileEntry { path, prefix, connector, show_size, size, styler_size }
    }
}

impl<'a> DirEntry<'a> {
    /// Enters a directory in the tree, without its entries.
    pub fn build(
        path: String,
        prefix: String,
        connector: String,
        depth: i32,
        th_depth: i32,
        show_size: bool,
        styler_size: &'a Styler,
        styler_folder: &'a Styler,
    ) -> (r: DirEntry<'a>)
        ensures
            r@ == fresh_dir(
                path@,
                prefix@,
                connector@,
                depth,
                th_depth,
                show_size,
                styler_size@,
                styler_folder@,
            ),
    {
        let r = DirEntry {
            path,
            prefix,
            connector,
            depth,
            th_depth,
            show_size,
            have_access: true,
            children_file: Vec::new(),
            children_dir: Vec::new(),
            size: None,
            styler_size,
            styler_folder,
        };
        assert(r@.children_file =~= Seq::empty());
        r
    }

    /// Whether this directory is to be listed: it lies above the depth to
    /// show, or no depth is set, or sizes are asked for.
    pub fn is_listed(&self) -> (r: bool)
        ensures
            r == !stops(self.depth, self.th_depth, self.show_size),
    {
        is_listed_at(self.depth, self.th_depth, self.show_size)
    }

    /// Fills in the entries of this directory, and of the directories below
    /// it, from what the enumeration found: `None` where this directory could
    /// not be listed.
    pub fn get_children(&mut self, listing: &Option<Vec<Scan>>)
        ensures
            grown(final(self)@, old(self)@, *listing),
        decreases listing,
    {
        let ghost before = self@;
        let mut children_file: Vec<FileEntry<'a>> = Vec::new();
        let mut children_dir: Vec<DirEntry<'a>> = Vec::new();
        if !self.is_listed() {
            self.children_file = children_file;
            self.children_dir = children_dir;
            return ;
        }
        let mut below_prefix = to_chars(self.prefix.as_str());
        if same_text(self.connector.as_str(), TEE) {
            push_str(&mut below_prefix, PIPE_PREFIX);
        } else if same_text(self.connector.as_str(), ELBOW) {
            push_str(&mut below_prefix, SPACE_PREFIX);
        }
        let below_prefix = from_chars(&below_prefix);
        let below_depth: i32 = depth_below(self.depth);
        match listing {
            None => {
                self.have_access = false;
                self.children_file = children_file;
                self.children_dir = children_dir;
            },
            Some(entries) => {
                let order = arrange(entries);
                let n = entries.len();
                let mut k: usize = 0;
                while k < n
                    invariant
                        k <= n,
                        n == entries.len(),
                        arranged(entries@, order@),
                        before == old(self)@,
                        self@ == before,
                        below_prefix@ == child_prefix(before.prefix, before.connector),
                        below_depth == deeper(before.depth),
                        *listing == Some(*entries),
                        children_file.len() + children_dir.len() == k,
                        forall|a: int|
                            0 <= a < children_file.len() ==> (
                            #[trigger] entries@[order@[a] as int] matches Scan::File { path, size }
                                && children_file@[a]@ == fresh_file(
                                path@,
                                below_prefix@,
                                connector_at(a, n as int),
                                before.show_size,
                                size,
                                before.style_size,
                            )),
                        forall|a: int|
                            children_file.len() <= a < k ==> (
                            #[trigger] entries@[order@[a] as int] matches Scan::Dir {
                                path,
                                listing: below,
                            } && grown(
                                dir_node(children_dir@[a - children_file.len()]),
                                fresh_dir(
                                    path@,
                                    below_prefix@,
                                    connector_at(a, n as int),
                                    below_depth,
                                    before.th_depth,
                                    before.show_size,
                                    before.style_size,
                                    before.style_folder,
                                ),
                                below,
                            )),
                    decreases n - k,
                {
                    let connector = if k + 1 < n {
                        TEE
                    } else {
                        ELBOW
                    };
                    match &entries[order[k]] {
                        Scan::Dir { path, listing: below } => {
                            let mut dir = DirEntry::build(
                                path.clone(),
                                below_prefix.clone(),
                                connector.to_owned(),
                                below_depth,
                                self.th_depth,
                                self.show_size,
                                self.styler_size,
                                self.styler_folder,
                            );
                            proof {
                                assert(listing->0 == *entries);
                            }
                            dir.get_children(below);
                            children_dir.push(dir);
                        },
                        Scan::File { path, size } => {
                            proof {
                                if children_dir.len() > 0 {
                                    let a = children_file.len() as int;
                                    assert(entries@[order@[a] as int] is Dir);
                                }
                            }
                            children_file.push(
                                FileEntry::build(
                                    path.clone(),
                                    below_prefix.clone(),
                                    connector.to_owned(),
                                    self.show_size,
                                    self.styler_size,
                                    *size,
                                ),
                            );
                        },
                    }
                    k += 1;
                }
                self.children_file = children_file;
                self.children_dir = children_dir;
                proof {
                    lemma_dir_nodes(self.children_dir@, self.children_dir@.len());
                    let after = self@;
                    let order = order@;
                    assert forall|k: int| 0 <= k < after.children_file.len() implies (
                    #[trigger] entries@[order[k] as int] matches Scan::File { path, size }
                        && after.children_file[k] == fresh_file(
                        path@,
                        child_prefix(before.prefix, before.connector),
                        connector_at(k, entries@.len() as int),
                        before.show_size,
                        size,
                        before.style_size,
                    )) by {}
                    assert forall|k: int|
                        after.children_file.len() <= k < entries@.len() implies (
                    #[trigger] entries@[order[k] as int] matches Scan::Dir { path, listing: below }
                        && grown(
                        after.children_dir[k - after.children_file.len()],
                        fresh_dir(
                            path@,
                            child_prefix(before.prefix, before.connector),
                            connector_at(k, entries@.len() as int),
                            deeper(before.depth),
                            before.th_depth,
                            before.show_size,
                            before.style_size,
                            before.style_folder,
                        ),
                        below,
                    )) by {}
                }
            },
        }
    }
}

/// How many `/` a path ends in.
pub open spec fn slashes_at_end(p: Seq<char>) -> nat
    decreases p.len(),
{
    if p.len() > 0 && p.last() == '/' {
        1 + slashes_at_end(p.drop_last())
    } else {
        0
    }
}

/// The name under which a path is shown: its file name, the `/` that it may
/// end in set aside.
pub open spec fn label(p: Seq<char>) -> Seq<char> {
    file_name(p.subrange(0, p.len() - slashes_at_end(p)))
}

/// `s` with blanks behind it, as many as it takes to reach `width`.
pub open spec fn padded_right(s: Seq<char>, width: nat) -> Seq<char> {
    s + Seq::new(
        if s.len() < width {
            (width - s.len()) as nat
        } else {
            0
        },
        |i: int| ' ',
    )
}

/// A size as it follows a name: a blank, and the size in at least six
/// columns.
pub open spec fn size_column(bytes: u64, style: Style) -> Seq<char> {
    seq![' '] + padded_right(style.styled(size_text(bytes as nat)), 6)
}

impl FileNode {
    /// The line of a file: prefix, connector, name, and its size where sizes
    /// are shown.
    pub open spec fn line(self) -> Seq<char> {
        self.prefix + self.connector + label(self.path) + (if self.show_size {
            size_column(
                match self.size {
                    Some(bytes) => bytes,
                    None => 0,
                },
                self.style_size,
            )
        } else {
            Seq::empty()
        }) + seq!['\n']
    }
}

/// The lines of the first `k` files of a list.
pub open spec fn files_rendered(files: Seq<FileNode>, k: nat) -> Seq<char>
    decreases k,
{
    if k == 0 || k > files.len() {
        Seq::empty()
    } else {
        files_rendered(files, (k - 1) as nat) + files[k - 1].line()
    }
}

/// The lines of the first `k` directories of a list, each followed by what
/// it shows of its entries.
pub open spec fn dirs_rendered(dirs: Seq<DirNode>, k: nat) -> Seq<char>
    decreases dirs, k,
{
    if k == 0 || k > dirs.len() {
        Seq::empty()
    } else {
        dirs_rendered(dirs, (k - 1) as nat) + dirs[k - 1].rendered()
    }
}

impl DirNode {
    /// What follows the name of a directory where sizes are shown: its size,
    /// that its size is unknown, or that it could not be listed.
    pub open spec fn size_note(self) -> Seq<char> {
        if !self.show_size {
            Seq::empty()
        } else if !self.have_access {
            "  \x1b[31maccess error\x1b[0m"@
        } else {
            match self.size {
                Some(bytes) => size_column(bytes, self.style_size),
                None => self.style_size.styled(" size unknown"@),
            }
        }
    }

    /// The line of a directory: prefix, connector, its name in the style for
    /// folders, and what is to be said of its size.
    pub open spec fn line(self) -> Seq<char> {
        self.prefix + self.connector + self.style_folder.styled(label(self.path))
            + self.size_note() + seq!['\n']
    }

    /// Whether the entries of this directory are shown: it lies above the
    /// depth to show, or no depth is set.
    pub open spec fn shows_entries(self) -> bool {
        self.th_depth < 0 || self.depth < self.th_depth
    }

    /// The tree as text: the line of the directory, then, where its entries
    /// are shown, its files and its directories, each directory with what it
    /// shows in turn.
    pub open spec fn rendered(self) -> Seq<char>
        decreases self,
    {
        if self.shows_entries() {
            self.line() + files_rendered(self.children_file, self.children_file.len())
                + dirs_rendered(self.children_dir, self.children_dir.len())
        } else {
            self.line()
        }
    }
}

fn shown_name(path: &str) -> (out: Vec<char>)
    ensures
        out@ == label(path@),
{
    let v = to_chars(path);
    let mut end: usize = v.len();
    assert(v@.subrange(0, end as int) == v@);
    while end > 0 && v[end - 1] == '/'
        invariant
            end <= v.len(),
            slashes_at_end(v@) == (v.len() - end) + slashes_at_end(v@.subrange(0, end as int)),
        decreases end,
    {
        assert(v@.subrange(0, end as int).drop_last() == v@.subrange(0, end - 1));
        end -= 1;
    }
    let (_dir, name) = split_path(&slice(&v, 0, end));
    name
}

fn push_size_column(out: &mut Vec<char>, bytes: u64, styler: &Styler)
    ensures
        final(out)@ == old(out)@ + size_column(bytes, styler@),
{
    out.push(' ');
    let text = to_chars(bites2str(bytes, styler).as_str());
    push_all(out, &text);
    let mut width: usize = text.len();
    while width < 6
        invariant
            text.len() <= width,
            width <= 6 || width == text.len(),
            text@ == styler@.styled(size_text(bytes as nat)),
            out@ == old(out)@ + seq![' '] + text@ + Seq::new(
                (width - text.len()) as nat,
                |i: int| ' ',
            ),
        decreases 6 - width,
    {
        out.push(' ');
        width += 1;
    }
}

impl<'a> FileEntry<'a> {
    /// Appends the line of this file to `out`.
    pub fn render_into(&self, out: &mut Vec<char>)
        ensures
            final(out)@ == old(out)@ + self@.line(),
    {
        push_str(out, self.prefix.as_str());
        push_str(out, self.connector.as_str());
        push_all(out, &shown_name(self.path.as_str()));
        if self.show_size {
            let bytes = match self.size {
                Some(bytes) => bytes,
                None => 0,
            };
            push_size_column(out, bytes, self.styler_size);
        }
        out.push('\n');
    }
}

impl<'a> DirEntry<'a> {
    fn push_line(&self, out: &mut Vec<char>)
        ensures
            final(out)@ == old(out)@ + self@.line(),
    {
        push_str(out, self.prefix.as_str());
        push_str(out, self.connector.as_str());
        let name = from_chars(&shown_name(self.path.as_str()));
        push_str(out, self.styler_folder.style(name.as_str()).as_str());
        if self.show_size {
            if self.have_access {
                match self.size {
                    Some(bytes) => {
                        push_size_column(out, bytes, self.styler_size);
                    },
                    None => {
                        push_str(out, self.styler_size.style(" size unknown").as_str());
                    },
                }
            } else {
                push_str(out, "  \x1b[31maccess error\x1b[0m");
            }
        }
        out.push('\n');
    }

    /// Appends the tree below and with this directory to `out`.
    pub fn render_into(&self, out: &mut Vec<char>)
        ensures
            final(out)@ == old(out)@ + self@.rendered(),
        decreases self,
    {
        self.push_line(out);
        if self.th_depth < 0 || self.depth < self.th_depth {
            let ghost files = file_nodes(self.children_file@);
            let ghost dirs = dir_nodes(self.children_dir@, self.children_dir@.len());
            let ghost start = out@;
            proof {
                lemma_dir_nodes(self.children_dir@, self.children_dir@.len());
            }
            let mut i: usize = 0;
            while i < self.children_file.len()
                invariant
                    i <= self.children_file.len(),
                    files == file_nodes(self.children_file@),
                    out@ == start + files_rendered(files, i as nat),
                decreases self.children_file.len() - i,
            {
                self.children_file[i].render_into(out);
                i += 1;
            }
            let ghost middle = out@;
            let mut j: usize = 0;
            while j < self.children_dir.len()
                invariant
                    j <= self.children_dir.len(),
                    dirs.len() == self.children_dir.len(),
                    forall|k: int|
                        0 <= k < dirs.len() ==> (#[trigger] dirs[k]) == dir_node(
                            self.children_dir@[k],
                        ),
                    out@ == middle + dirs_rendered(dirs, j as nat),
                decreases self.children_dir.len() - j,
            {
                self.children_dir[j].render_into(out);
                j += 1;
            }
        }
    }

    /// The tree as text, one line for each entry that is shown.
    pub fn render(&self) -> (out: String)
        ensures
            out@ == self@.rendered(),
    {
        let mut out: Vec<char> = Vec::new();
        self.render_into(&mut out);
        from_chars(&out)
    }
}

} // verus!
