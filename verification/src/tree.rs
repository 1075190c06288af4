//! The file tree model: a rooted hierarchy of filesystem entries kept as one
//! flattened, depth-tagged sequence in pre-order.
//!
//! The children of the root sit at depth 0. A directory's subtree, once read,
//! is the contiguous run of deeper items directly after it, ended by the
//! first later item at its own depth or shallower. Expansion is lazy: a
//! directory's children are read through the adapter the first time it is
//! opened and spliced in right after it, sorted by name; after that the
//! `open` flag only hides or shows the cached subtree — nothing is ever
//! removed or read twice. [`flattened`] states the shape every operation
//! keeps.

use vstd::prelude::*;

use crate::adapter::{DirEntry, FilesystemAdapter, IoError};
use crate::order::{lex_le, lemma_sort_entries_len, lemma_sort_entries_sorted, sort_by_name,
    sort_entries};

verus! {

/// What one tree item is: a directory carrying its toggle state, or a file.
///
/// `open` says whether the directory's subtree is currently meant to be
/// visible; `explored` says whether its children have ever been read into
/// the sequence.
#[derive(Clone, Copy, Debug, PartialEq, Eq, Structural)]
pub enum FileTreeItemType {
    Directory { open: bool, explored: bool },
    File,
}

/// One entry of the flattened sequence: a display name, the distance from
/// the conceptual root (the root's direct children have depth 0), and the
/// item kind.
#[derive(Debug)]
pub struct FileTreeItem {
    pub name: String,
    pub depth: u32,
    pub item_type: FileTreeItemType,
}

/// The tree model: owns the flattened, ordered sequence of items. Its view
/// is that sequence.
pub struct FileTree {
    items: Vec<FileTreeItem>,
}

impl Default for FileTreeItemType {
    /// A plain file.
    fn default() -> (r: Self)
        ensures
            r == FileTreeItemType::File,
    {
        FileTreeItemType::File
    }
}

impl Default for FileTreeItem {
    /// An unnamed file at depth 0.
    fn default() -> (r: Self)
        ensures
            r.name@ == Seq::<char>::empty(),
            r.depth == 0,
            r.item_type == FileTreeItemType::File,
    {
        FileTreeItem { name: String::new(), depth: 0, item_type: FileTreeItemType::File }
    }
}

/// The item is a directory (open or closed, explored or not).
pub open spec fn is_directory(it: FileTreeItem) -> bool {
    it.item_type is Directory
}

/// The item is a directory whose subtree is meant to be visible.
pub open spec fn is_open_dir(it: FileTreeItem) -> bool {
    it.item_type matches FileTreeItemType::Directory { open: true, .. }
}

/// The item is a directory whose subtree is hidden.
pub open spec fn is_closed_dir(it: FileTreeItem) -> bool {
    it.item_type matches FileTreeItemType::Directory { open: false, .. }
}

/// The item is a directory whose children have been read into the sequence.
pub open spec fn is_explored_dir(it: FileTreeItem) -> bool {
    it.item_type matches FileTreeItemType::Directory { explored: true, .. }
}

/// The flattening invariant: the sequence is a valid pre-order, depth-tagged
/// linearization of a tree.
///
/// The first item is a child of the root; depth never jumps up by more than
/// one step; an item one level deeper than its predecessor is that
/// predecessor's first child, so the predecessor must be an explored
/// directory (in particular, unexplored directories own no items in the
/// sequence); and no item is deeper than its position.
pub open spec fn flattened(s: Seq<FileTreeItem>) -> bool {
    &&& (s.len() > 0 ==> s[0].depth == 0)
    &&& (forall|i: int| 0 < i < s.len() ==> #[trigger] s[i].depth <= s[i - 1].depth + 1)
    &&& (forall|i: int|
        0 < i < s.len() && #[trigger] s[i].depth == s[i - 1].depth + 1 ==> is_explored_dir(
            s[i - 1],
        ))
    &&& (forall|i: int| 0 <= i < s.len() ==> #[trigger] s[i].depth <= i)
}

/// The tree item a listed entry becomes: same name, the given depth, and a
/// still-unexplored, closed directory or a file.
pub open spec fn entry_item(e: DirEntry, depth: int) -> FileTreeItem {
    FileTreeItem {
        name: e.name,
        depth: depth as u32,
        item_type: if e.is_directory {
            FileTreeItemType::Directory { open: false, explored: false }
        } else {
            FileTreeItemType::File
        },
    }
}

/// The run of tree items a listing becomes, all at the given depth.
pub open spec fn child_items(entries: Seq<DirEntry>, depth: int) -> Seq<FileTreeItem> {
    Seq::new(entries.len(), |k: int| entry_item(entries[k], depth))
}

/// The same directory item with its `open` flag set as given and `explored`
/// kept.
pub open spec fn with_open(it: FileTreeItem, open: bool) -> FileTreeItem {
    FileTreeItem {
        name: it.name,
        depth: it.depth,
        item_type: FileTreeItemType::Directory { open, explored: is_explored_dir(it) },
    }
}

/// The same directory item opened and marked explored.
pub open spec fn opened_explored(it: FileTreeItem) -> FileTreeItem {
    FileTreeItem {
        name: it.name,
        depth: it.depth,
        item_type: FileTreeItemType::Directory { open: true, explored: true },
    }
}

/// The sequence after expanding the directory at `pos` with a listing: the
/// directory becomes open and explored, and the sorted listing is spliced in
/// directly after it, one level deeper; everything else is unchanged.
pub open spec fn expand_model(s: Seq<FileTreeItem>, pos: int, entries: Seq<DirEntry>) -> Seq<
    FileTreeItem,
> {
    s.subrange(0, pos) + seq![opened_explored(s[pos])] + child_items(
        sort_entries(entries),
        s[pos].depth + 1,
    ) + s.subrange(pos + 1, s.len() as int)
}

/// What stands at index `k` after the expansion: the untouched prefix, the
/// directory itself (now open and explored), the run of new children, and
/// the suffix shifted right by the run's length.
pub open spec fn expand_index(s: Seq<FileTreeItem>, pos: int, entries: Seq<DirEntry>, k: int)
    -> FileTreeItem {
    if k < pos {
        s[k]
    } else if k == pos {
        opened_explored(s[pos])
    } else if k < pos + 1 + sort_entries(entries).len() {
        entry_item(sort_entries(entries)[k - pos - 1], s[pos].depth + 1)
    } else {
        s[k - sort_entries(entries).len()]
    }
}

/// The expanded sequence, index by index.
pub proof fn lemma_expand_index(s: Seq<FileTreeItem>, pos: int, entries: Seq<DirEntry>)
    requires
        0 <= pos < s.len(),
    ensures
        expand_model(s, pos, entries).len() == s.len() + sort_entries(entries).len(),
        forall|k: int|
            0 <= k < expand_model(s, pos, entries).len() ==> #[trigger] expand_model(
                s,
                pos,
                entries,
            )[k] == expand_index(s, pos, entries, k),
{
    let t = expand_model(s, pos, entries);
    let n = sort_entries(entries).len() as int;
    let run = child_items(sort_entries(entries), s[pos].depth + 1);
    assert(s.subrange(0, pos).len() == pos);
    assert(run.len() == n);
    assert(s.subrange(pos + 1, s.len() as int).len() == s.len() - pos - 1);
    assert forall|k: int| 0 <= k < t.len() implies #[trigger] t[k] == expand_index(
        s,
        pos,
        entries,
        k,
    ) by {
        if k < pos {
            assert(t[k] == s.subrange(0, pos)[k]);
        } else if k > pos && k < pos + 1 + n {
            assert(t[k] == run[k - pos - 1]);
        } else if k >= pos + 1 + n {
            assert(t[k] == s.subrange(pos + 1, s.len() as int)[k - n - pos - 1]);
        }
    }
}

/// Expanding an unexplored directory keeps the flattening invariant, and the
/// children it gains occupy a contiguous run directly after it, every one
/// exactly one level deeper, the run as long as the listing that was read.
#[verifier::rlimit(50)]
pub proof fn lemma_expand_flattening(s: Seq<FileTreeItem>, pos: int, entries: Seq<DirEntry>)
    requires
        flattened(s),
        0 <= pos < s.len(),
        s[pos].item_type == (FileTreeItemType::Directory { open: false, explored: false }),
        s[pos].depth < u32::MAX,
    ensures
        flattened(expand_model(s, pos, entries)),
        sort_entries(entries).len() == entries.len(),
        expand_model(s, pos, entries).len() == s.len() + entries.len(),
{
    lemma_sort_entries_len(entries);
    lemma_expand_index(s, pos, entries);
    lemma_expand_depth_bound(s, pos, entries);
    lemma_expand_depth_steps(s, pos, entries);
    let t = expand_model(s, pos, entries);
    if t.len() > 0 {
        assert(t[0] == expand_index(s, pos, entries, 0));
    }
    assert forall|i: int| 0 < i < t.len() implies (#[trigger] t[i]).depth <= t[i - 1].depth + 1 by {
        assert(t[i] == expand_model(s, pos, entries)[i]);
    }
    assert forall|i: int|
        0 < i < t.len() && (#[trigger] t[i]).depth == t[i - 1].depth + 1 implies is_explored_dir(
        t[i - 1],
    ) by {
        assert(t[i] == expand_model(s, pos, entries)[i]);
    }
    assert forall|i: int| 0 <= i < t.len() implies (#[trigger] t[i]).depth <= i by {
        assert(t[i] == expand_model(s, pos, entries)[i]);
    }
}

/// In the expanded sequence, too, no item is deeper than its position.
proof fn lemma_expand_depth_bound(s: Seq<FileTreeItem>, pos: int, entries: Seq<DirEntry>)
    requires
        flattened(s),
        0 <= pos < s.len(),
        s[pos].item_type == (FileTreeItemType::Directory { open: false, explored: false }),
        s[pos].depth < u32::MAX,
    ensures
        forall|i: int|
            0 <= i < expand_model(s, pos, entries).len() ==> (#[trigger] expand_model(
                s,
                pos,
                entries,
            )[i]).depth <= i,
{
    lemma_sort_entries_len(entries);
    lemma_expand_index(s, pos, entries);
    let t = expand_model(s, pos, entries);
    let d = s[pos].depth as int;
    let n = entries.len() as int;
    assert forall|i: int| 0 <= i < t.len() implies (#[trigger] t[i]).depth <= i by {
        assert(t[i] == expand_index(s, pos, entries, i));
        if i > pos && i < pos + 1 + n {
            assert(t[i].depth == d + 1 && d <= pos);
        } else if i >= pos + 1 + n {
            assert(t[i] == s[i - n] && s[i - n].depth <= i - n);
        }
    }
}

/// In the expanded sequence, too, depth steps up by at most one, and only
/// directly below an explored directory.
proof fn lemma_expand_depth_steps(s: Seq<FileTreeItem>, pos: int, entries: Seq<DirEntry>)
    requires
        flattened(s),
        0 <= pos < s.len(),
        s[pos].item_type == (FileTreeItemType::Directory { open: false, explored: false }),
        s[pos].depth < u32::MAX,
    ensures
        forall|i: int|
            0 < i < expand_model(s, pos, entries).len() ==> (#[trigger] expand_model(
                s,
                pos,
                entries,
            )[i]).depth <= expand_model(s, pos, entries)[i - 1].depth + 1,
        forall|i: int|
            0 < i < expand_model(s, pos, entries).len() && (#[trigger] expand_model(
                s,
                pos,
                entries,
            )[i]).depth == expand_model(s, pos, entries)[i - 1].depth + 1 ==> is_explored_dir(
                expand_model(s, pos, entries)[i - 1],
            ),
{
    lemma_sort_entries_len(entries);
    lemma_expand_index(s, pos, entries);
    let t = expand_model(s, pos, entries);
    let d = s[pos].depth as int;
    let n = entries.len() as int;
    assert forall|i: int| 0 < i < t.len() implies (#[trigger] t[i]).depth <= t[i - 1].depth + 1
        && (t[i].depth == t[i - 1].depth + 1 ==> is_explored_dir(t[i - 1])) by {
        assert(t[i] == expand_index(s, pos, entries, i));
        assert(t[i - 1] == expand_index(s, pos, entries, i - 1));
        if i < pos {
            assert(t[i] == s[i] && t[i - 1] == s[i - 1]);
        } else if i == pos {
            assert(t[i].depth == s[pos].depth && t[i - 1] == s[pos - 1]);
        } else if i == pos + 1 && n > 0 {
            assert(t[i].depth == d + 1 && t[i - 1] == opened_explored(s[pos]));
        } else if i < pos + 1 + n {
            assert(t[i].depth == d + 1 && t[i - 1].depth == d + 1);
        } else if i == pos + 1 + n {
            assert(t[i] == s[pos + 1]);
            assert(s[pos + 1].depth <= s[pos].depth + 1);
            if n > 0 {
                assert(t[i - 1].depth == d + 1);
                assert(!is_explored_dir(s[pos]));
                assert(s[pos + 1].depth <= d) by {
                    if s[pos + 1].depth == d + 1 {
                        assert(is_explored_dir(s[pos]));
                    }
                }
            } else {
                assert(t[i - 1] == opened_explored(s[pos]));
            }
        } else {
            assert(t[i] == s[i - n] && t[i - 1] == s[i - n - 1]);
        }
    }
}

/// The largest index below `j` whose item is shallower than depth `d`, or
/// -1 when there is none.
pub open spec fn prev_shallower(s: Seq<FileTreeItem>, d: int, j: int) -> int
    decreases j,
{
    if j <= 0 {
        -1
    } else if s[j - 1].depth < d {
        j - 1
    } else {
        prev_shallower(s, d, j - 1)
    }
}

/// The position of the item that the item at `i` hangs under: the nearest
/// earlier, shallower item. -1 for an item that hangs under the root.
pub open spec fn parent_index(s: Seq<FileTreeItem>, i: int) -> int {
    prev_shallower(s, s[i].depth as int, i)
}

/// What `prev_shallower` finds: an index below `j`, shallower than `d`, with
/// nothing shallower between it and `j`.
pub proof fn lemma_prev_shallower(s: Seq<FileTreeItem>, d: int, j: int)
    requires
        0 <= j <= s.len(),
    ensures
        -1 <= prev_shallower(s, d, j) < j,
        prev_shallower(s, d, j) >= 0 ==> s[prev_shallower(s, d, j)].depth < d,
        forall|k: int| prev_shallower(s, d, j) < k < j ==> (#[trigger] s[k]).depth >= d,
    decreases j,
{
    if j > 0 && s[j - 1].depth >= d {
        lemma_prev_shallower(s, d, j - 1);
    }
}

/// The chain of names from a root child down to the item at `i`: the names
/// of its ancestors in order, ended by its own name.
pub open spec fn chain_names(s: Seq<FileTreeItem>, i: int) -> Seq<String>
    decreases i,
{
    if i < 0 || i >= s.len() {
        Seq::empty()
    } else {
        let p = parent_index(s, i);
        if 0 <= p < i {
            chain_names(s, p).push(s[i].name)
        } else {
            seq![s[i].name]
        }
    }
}

/// The children a directory gains stand in name order: each earlier child's
/// name is lexicographically at most each later one's.
pub proof fn lemma_children_sorted(entries: Seq<DirEntry>, depth: int)
    ensures
        ({
            let run = child_items(sort_entries(entries), depth);
            forall|i: int, j: int|
                0 <= i < j < run.len() ==> lex_le(run[i].name@, run[j].name@)
        }),
{
    lemma_sort_entries_sorted(entries);
    let sorted = sort_entries(entries);
    let run = child_items(sorted, depth);
    assert forall|i: int, j: int| 0 <= i < j < run.len() implies lex_le(
        run[i].name@,
        run[j].name@,
    ) by {
        assert(run[i] == entry_item(sorted[i], depth));
        assert(run[j] == entry_item(sorted[j], depth));
        assert(lex_le(sorted[i].name@, sorted[j].name@));
    }
}

/// Flipping a directory's `open` flag alone keeps the flattening invariant:
/// no depth and no `explored` flag changes.
pub proof fn lemma_with_open_flattening(s: Seq<FileTreeItem>, pos: int, open: bool)
    requires
        flattened(s),
        0 <= pos < s.len(),
        is_directory(s[pos]),
    ensures
        flattened(s.update(pos, with_open(s[pos], open))),
{
    let t = s.update(pos, with_open(s[pos], open));
    assert forall|i: int| 0 <= i < t.len() implies (#[trigger] t[i]).depth == s[i].depth
        && is_explored_dir(t[i]) == is_explored_dir(s[i]) by {
        if i == pos {
            assert(t[i] == with_open(s[pos], open));
        } else {
            assert(t[i] == s[i]);
        }
    }
}

/// Collapsing an open directory and then re-opening it gives back the very
/// same sequence: the cached subtree is untouched, nothing is added, dropped
/// or reordered.
pub proof fn lemma_collapse_reopen_identity(s: Seq<FileTreeItem>, pos: int)
    requires
        0 <= pos < s.len(),
        is_open_dir(s[pos]),
    ensures
        ({
            let closed = s.update(pos, with_open(s[pos], false));
            closed.update(pos, with_open(closed[pos], true)) == s
        }),
{
    let closed = s.update(pos, with_open(s[pos], false));
    match s[pos].item_type {
        FileTreeItemType::Directory { open, explored } => {
            assert(with_open(closed[pos], true) == s[pos]);
        },
        FileTreeItemType::File => {},
    }
    assert(closed.update(pos, with_open(closed[pos], true)) =~= s);
}

impl View for FileTree {
    type V = Seq<FileTreeItem>;

    closed spec fn view(&self) -> Seq<FileTreeItem> {
        self.items@
    }
}

/// Builds the run of tree items for a listing that is already in its final
/// order.
fn items_from(entries: Vec<DirEntry>, depth: u32) -> (r: Vec<FileTreeItem>)
    ensures
        r@ == child_items(entries@, depth as int),
{
    let ghost orig = entries@;
    let ghost mut done: int = 0;
    let mut rest = entries;
    let mut items: Vec<FileTreeItem> = Vec::new();
    proof {
        assert(items@ =~= child_items(orig.subrange(0, 0), depth as int));
    }
    while rest.len() > 0
        invariant
            0 <= done <= orig.len(),
            rest@ == orig.subrange(done, orig.len() as int),
            items@ == child_items(orig.subrange(0, done), depth as int),
        decreases rest@.len(),
    {
        let e = rest.remove(0);
        proof {
            assert(e == orig[done]);
            assert(rest@ =~= orig.subrange(done + 1, orig.len() as int));
        }
        let item_type = if e.is_directory {
            FileTreeItemType::Directory { open: false, explored: false }
        } else {
            FileTreeItemType::File
        };
        items.push(FileTreeItem { name: e.name, depth, item_type });
        proof {
            assert(items@ =~= child_items(orig.subrange(0, done + 1), depth as int));
            done = done + 1;
        }
    }
    proof {
        assert(orig.subrange(0, orig.len() as int) =~= orig);
    }
    items
}

impl FileTree {
    /// Builds a tree holding exactly the given listing as its depth-0 items,
    /// sorted by name, every directory closed and unexplored.
    pub fn from_entries(entries: Vec<DirEntry>) -> (t: FileTree)
        ensures
            t@ == child_items(sort_entries(entries@), 0),
            flattened(t@),
    {
        let ghost orig = entries@;
        let sorted = sort_by_name(entries);
        let items = items_from(sorted, 0);
        proof {
            let t = child_items(sort_entries(orig), 0);
            assert(forall|k: int| 0 <= k < t.len() ==> (#[trigger] t[k]).depth == 0);
        }
        FileTree { items }
    }

    /// How many items the flattened sequence holds, visible or not.
    pub fn len(&self) -> (n: usize)
        ensures
            n == self@.len(),
    {
        self.items.len()
    }

    /// The item at a position of the flattened sequence, for mapping a
    /// display row back to a logical item.
    pub fn item_at(&self, position: usize) -> (r: &FileTreeItem)
        requires
            position < self@.len(),
        ensures
            *r == self@[position as int],
    {
        &self.items[position]
    }

    /// Sets the `open` flag of the directory at `position`, touching nothing
    /// else.
    fn set_open(&mut self, position: usize, open: bool)
        requires
            position < old(self)@.len(),
            is_directory(old(self)@[position as int]),
        ensures
            final(self)@ == old(self)@.update(
                position as int,
                with_open(old(self)@[position as int], open),
            ),
    {
        let explored = match self.items[position].item_type {
            FileTreeItemType::Directory { explored, .. } => explored,
            FileTreeItemType::File => false,
        };
        let elem = &mut self.items[position];
        elem.item_type = FileTreeItemType::Directory { open, explored };
    }

    /// Splices a listing in as the children of the still-unexplored directory
    /// at `position`: the directory becomes open and explored, and the
    /// listing, sorted by name, stands directly after it, one level deeper.
    #[verifier::rlimit(100)]
    pub fn expand_at(&mut self, position: usize, entries: Vec<DirEntry>)
        requires
            flattened(old(self)@),
            position < old(self)@.len(),
            old(self)@[position as int].item_type == (FileTreeItemType::Directory {
                open: false,
                explored: false,
            }),
            old(self)@[position as int].depth < u32::MAX,
        ensures
            final(self)@ == expand_model(old(self)@, position as int, entries@),
            flattened(final(self)@),
            final(self)@.len() == old(self)@.len() + entries@.len(),
    {
        let ghost s0 = self@;
        let ghost es = entries@;
        let ghost pos = position as int;
        let total = self.items.len();
        proof {
            assert(position < total);
        }
        let insert_pos = position + 1;
        let depth = self.items[position].depth;
        {
            let elem = &mut self.items[position];
            elem.item_type = FileTreeItemType::Directory { open: true, explored: true };
        }
        let ghost s1 = s0.update(pos, opened_explored(s0[pos]));
        proof {
            assert(self@ =~= s1);
        }
        let sorted = sort_by_name(entries);
        let mut children = items_from(sorted, depth + 1);
        let ghost full = child_items(sort_entries(es), depth as int + 1);
        proof {
            lemma_sort_entries_len(es);
            assert(children@ == full);
            assert(children@ =~= full.subrange(0, full.len() as int));
            assert(self@ =~= s1.subrange(0, pos + 1) + full.subrange(
                full.len() as int,
                full.len() as int,
            ) + s1.subrange(pos + 1, s1.len() as int));
        }
        while children.len() > 0
            invariant
                0 <= pos < s1.len(),
                insert_pos == pos + 1,
                children@.len() <= full.len(),
                children@ == full.subrange(0, children@.len() as int),
                self@ == s1.subrange(0, pos + 1) + full.subrange(
                    children@.len() as int,
                    full.len() as int,
                ) + s1.subrange(pos + 1, s1.len() as int),
            decreases children@.len(),
        {
            let ghost m = children@.len() as int;
            let c = children.pop().unwrap();
            proof {
                assert(c == full.subrange(0, m)[m - 1]);
                assert(c == full[m - 1]);
                assert(children@ =~= full.subrange(0, m - 1));
            }
            self.items.insert(insert_pos, c);
            proof {
                assert(self@ =~= s1.subrange(0, pos + 1) + full.subrange(
                    m - 1,
                    full.len() as int,
                ) + s1.subrange(pos + 1, s1.len() as int));
            }
        }
        proof {
            assert(full.subrange(0, full.len() as int) =~= full);
            assert(self@ =~= expand_model(s0, pos, es));
            lemma_expand_flattening(s0, pos, es);
        }
    }

    /// The largest index below `j` whose item is shallower than depth `d`,
    /// or none.
    fn find_shallower_before(&self, d: u32, j: usize) -> (r: Option<usize>)
        requires
            j <= self@.len(),
        ensures
            match r {
                Some(p) => prev_shallower(self@, d as int, j as int) == p as int,
                None => prev_shallower(self@, d as int, j as int) == -1,
            },
    {
        let mut cur = j;
        while cur > 0
            invariant
                cur <= self@.len(),
                prev_shallower(self@, d as int, j as int) == prev_shallower(
                    self@,
                    d as int,
                    cur as int,
                ),
            decreases cur,
        {
            if self.items[cur - 1].depth < d {
                return Some(cur - 1);
            }
            cur = cur - 1;
        }
        None
    }

    /// The chain of names leading to the item at `position`: its ancestors'
    /// names from the root child down, ended by its own name. This names the
    /// directory for the filesystem adapter.
    pub fn path_components(&self, position: usize) -> (r: Vec<String>)
        requires
            position < self@.len(),
        ensures
            r@ == chain_names(self@, position as int),
        decreases position,
    {
        let d = self.items[position].depth;
        proof {
            lemma_prev_shallower(self@, d as int, position as int);
        }
        match self.find_shallower_before(d, position) {
            Some(p) => {
                let mut v = self.path_components(p);
                v.push(self.items[position].name.clone());
                v
            },
            None => {
                let mut v: Vec<String> = Vec::new();
                v.push(self.items[position].name.clone());
                proof {
                    assert(v@ =~= seq![self@[position as int].name]);
                }
                v
            },
        }
    }

    /// Handles a user toggle on the item at `position`.
    ///
    /// A file is left alone. An open directory is closed; a closed, already
    /// explored directory is re-opened: in both cases only the `open` flag
    /// changes and the adapter is not consulted. Only a closed, unexplored
    /// directory causes one adapter call: on success its listing is spliced
    /// in by [`FileTree::expand_at`]; on failure the sequence is exactly as
    /// before — the directory stays closed and unexplored, and the error is
    /// handed back for the caller to retry if it wants.
    pub fn toggle<A: FilesystemAdapter>(&mut self, adapter: &mut A, position: usize) -> (r: Result<
        (),
        IoError,
    >)
        requires
            flattened(old(self)@),
            position < old(self)@.len(),
            old(self)@[position as int].depth < u32::MAX,
        ensures
            flattened(final(self)@),
            ({
                let s = old(self)@;
                let it = s[position as int];
                let pos = position as int;
                let same_calls = final(adapter).call_count() == old(adapter).call_count();
                let one_call = final(adapter).call_count() == old(adapter).call_count() + 1;
                &&& (!is_directory(it) ==> r is Ok && final(self)@ == s && same_calls)
                &&& (is_open_dir(it) ==> r is Ok && same_calls && final(self)@ == s.update(
                    pos,
                    with_open(it, false),
                ))
                &&& (is_closed_dir(it) && is_explored_dir(it) ==> r is Ok && same_calls
                    && final(self)@ == s.update(pos, with_open(it, true)))
                &&& (is_closed_dir(it) && !is_explored_dir(it) ==> {
                    &&& one_call
                    &&& (r is Ok ==> exists|es: Seq<DirEntry>|
                        final(self)@ == expand_model(s, pos, es))
                    &&& (r is Err ==> final(self)@ == s)
                })
            }),
    {
        let ghost s = self@;
        let ghost pos = position as int;
        let it_type = self.items[position].item_type;
        match it_type {
            FileTreeItemType::File => Ok(()),
            FileTreeItemType::Directory { open: true, explored: _ } => {
                self.set_open(position, false);
                proof {
                    lemma_with_open_flattening(s, pos, false);
                }
                Ok(())
            },
            FileTreeItemType::Directory { open: false, explored: true } => {
                self.set_open(position, true);
                proof {
                    lemma_with_open_flattening(s, pos, true);
                }
                Ok(())
            },
            FileTreeItemType::Directory { open: false, explored: false } => {
                let path = self.path_components(position);
                match adapter.list_entries(&path) {
                    Ok(entries) => {
                        let ghost es = entries@;
                        self.expand_at(position, entries);
                        proof {
                            assert(self@ == expand_model(s, pos, es));
                        }
                        Ok(())
                    },
                    Err(e) => Err(e),
                }
            },
        }
    }

    /// Seeds a tree by listing the adapter's root once: on success the tree
    /// holds exactly that listing, sorted by name, as its depth-0 items; on
    /// failure no tree exists at all — the seed is all-or-nothing.
    pub fn seed_from_root<A: FilesystemAdapter>(adapter: &mut A) -> (r: Result<FileTree, IoError>)
        ensures
            final(adapter).call_count() == old(adapter).call_count() + 1,
            (r matches Ok(t) ==> flattened(t@) && exists|es: Seq<DirEntry>|
                t@ == child_items(sort_entries(es), 0)),
    {
        let root: Vec<String> = Vec::new();
        match adapter.list_entries(&root) {
            Ok(entries) => {
                let ghost es = entries@;
                let tree = FileTree::from_entries(entries);
                proof {
                    assert(tree@ == child_items(sort_entries(es), 0));
                }
                Ok(tree)
            },
            Err(e) => Err(e),
        }
    }
}

} // verus!
