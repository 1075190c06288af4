//! The display traversal: a lazy, restartable, read-only walk over the tree
//! that yields exactly the visible items.
//!
//! An item is visible when no closed directory above it hides it. The
//! traversal holds nothing but a cursor: after yielding a closed directory
//! it slides the cursor past the directory's whole subtree — every following
//! item that is strictly deeper — and stops on the next item at its depth or
//! shallower. [`lemma_next_cursor`] shows that this skips exactly the hidden
//! items and lands on the next visible one, so a full walk yields precisely
//! the visible items in order.

use vstd::prelude::*;

use crate::adapter::DirEntry;
use crate::order::lemma_sort_entries_len;
use crate::tree::{
    expand_index, expand_model, flattened, is_closed_dir, is_explored_dir, lemma_expand_index,
    FileTree, FileTreeItem, FileTreeItemType,
};

verus! {

/// The first index at or after `j` whose item is at depth `d` or shallower —
/// the end of the run a closed directory at depth `d` hides — or the length
/// when no such item follows.
pub open spec fn skip_end(s: Seq<FileTreeItem>, d: int, j: int) -> int
    decreases s.len() - j,
{
    if j < 0 || j >= s.len() {
        s.len() as int
    } else if s[j].depth <= d {
        j
    } else {
        skip_end(s, d, j + 1)
    }
}

/// Where the cursor stands after the item at `i` is yielded: right after it,
/// or — when it is a closed directory — past its whole hidden subtree.
pub open spec fn next_cursor(s: Seq<FileTreeItem>, i: int) -> int {
    if is_closed_dir(s[i]) {
        skip_end(s, s[i].depth as int, i + 1)
    } else {
        i + 1
    }
}

/// The item at `j` is an ancestor of the item at `i`: it stands earlier and
/// shallower, with everything between the two strictly deeper than it.
pub open spec fn is_ancestor(s: Seq<FileTreeItem>, j: int, i: int) -> bool {
    &&& 0 <= j < i < s.len()
    &&& s[j].depth < s[i].depth
    &&& forall|k: int| j < k < i ==> (#[trigger] s[k]).depth > s[j].depth
}

/// The item at `i` is visible: no ancestor of it is a closed directory.
pub open spec fn visible(s: Seq<FileTreeItem>, i: int) -> bool {
    forall|j: int| #[trigger] is_ancestor(s, j, i) ==> !is_closed_dir(s[j])
}

/// A fresh traversal starts on visible ground: the first item has no
/// ancestors at all.
pub proof fn lemma_first_visible(s: Seq<FileTreeItem>)
    ensures
        s.len() > 0 ==> visible(s, 0),
{
}

/// What `skip_end` brackets: everything from `j` up to it is strictly deeper
/// than `d`, and the item it lands on (if any) is at depth `d` or shallower.
pub proof fn lemma_skip_end(s: Seq<FileTreeItem>, d: int, j: int)
    requires
        0 <= j <= s.len(),
    ensures
        j <= skip_end(s, d, j) <= s.len(),
        forall|k: int| j <= k < skip_end(s, d, j) ==> (#[trigger] s[k]).depth > d,
        skip_end(s, d, j) < s.len() ==> s[skip_end(s, d, j)].depth <= d,
    decreases s.len() - j,
{
    if j < s.len() && s[j].depth > d {
        lemma_skip_end(s, d, j + 1);
    }
}

/// Yielding a visible item and advancing the cursor skips exactly the hidden
/// items: everything strictly between the old and the new cursor is hidden,
/// and the new cursor — if it is not the end — stands on a visible item.
pub proof fn lemma_next_cursor(s: Seq<FileTreeItem>, i: int)
    requires
        0 <= i < s.len(),
        visible(s, i),
    ensures
        i < next_cursor(s, i) <= s.len(),
        forall|j: int| i < j < next_cursor(s, i) ==> !visible(s, j),
        next_cursor(s, i) < s.len() ==> visible(s, next_cursor(s, i)),
{
    let nc = next_cursor(s, i);
    if is_closed_dir(s[i]) {
        let d = s[i].depth as int;
        lemma_skip_end(s, d, i + 1);
        assert forall|j: int| i < j < nc implies !visible(s, j) by {
            assert(s[j].depth > d);
            assert(is_ancestor(s, i, j));
        }
        if nc < s.len() {
            assert(s[nc].depth <= d);
            assert forall|j: int| is_ancestor(s, j, nc) implies !is_closed_dir(s[j]) by {
                if j > i {
                    assert(s[j].depth > d);
                } else if j == i {
                    assert(s[j].depth < s[nc].depth);
                } else {
                    assert(s[i].depth > s[j].depth);
                    assert(is_ancestor(s, j, i));
                }
            }
        }
    } else {
        if nc < s.len() {
            assert forall|j: int| is_ancestor(s, j, nc) implies !is_closed_dir(s[j]) by {
                if j < i {
                    assert(s[i].depth > s[j].depth);
                    assert(is_ancestor(s, j, i));
                }
            }
        }
    }
}

/// `skip_end` lands exactly on `b` when everything in `[a, b)` is strictly
/// deeper than `d` and `b` is the end or at depth `d` or shallower.
proof fn lemma_skip_end_exact(s: Seq<FileTreeItem>, d: int, a: int, b: int)
    requires
        0 <= a <= b <= s.len(),
        forall|k: int| a <= k < b ==> (#[trigger] s[k]).depth > d,
        b < s.len() ==> s[b].depth <= d,
    ensures
        skip_end(s, d, a) == b,
    decreases b - a,
{
    if a < b {
        lemma_skip_end_exact(s, d, a + 1, b);
    }
}

/// Right after an expansion, the run of new children is exactly the
/// directory's subtree: were the directory closed again, the traversal would
/// skip precisely that run, stopping on the first later item at the
/// directory's depth or shallower.
pub proof fn lemma_expansion_run_is_subtree(s: Seq<FileTreeItem>, pos: int, entries: Seq<DirEntry>)
    requires
        flattened(s),
        0 <= pos < s.len(),
        s[pos].item_type == (FileTreeItemType::Directory { open: false, explored: false }),
        s[pos].depth < u32::MAX,
    ensures
        skip_end(expand_model(s, pos, entries), s[pos].depth as int, pos + 1) == pos + 1
            + entries.len(),
{
    lemma_sort_entries_len(entries);
    lemma_expand_index(s, pos, entries);
    let t = expand_model(s, pos, entries);
    let d = s[pos].depth as int;
    let n = entries.len() as int;
    assert forall|k: int| pos + 1 <= k < pos + 1 + n implies (#[trigger] t[k]).depth > d by {
        assert(t[k] == expand_index(s, pos, entries, k));
    }
    if pos + 1 + n < t.len() {
        assert(t[pos + 1 + n] == expand_index(s, pos, entries, pos + 1 + n));
        assert(t[pos + 1 + n] == s[pos + 1]);
        assert(s[pos + 1].depth <= d) by {
            assert(s[pos + 1].depth <= s[pos].depth + 1);
            if s[pos + 1].depth == s[pos].depth + 1 {
                assert(is_explored_dir(s[pos]));
            }
        }
    }
    lemma_skip_end_exact(t, d, pos + 1, pos + 1 + n);
}

/// The positions a traversal yields from cursor `c` to the end: the cursor,
/// then everything from where the cursor lands next.
pub open spec fn yield_positions(s: Seq<FileTreeItem>, c: int) -> Seq<int>
    decreases s.len() - c
    via yield_positions_decreases
{
    if c < 0 || c >= s.len() {
        Seq::empty()
    } else {
        seq![c] + yield_positions(s, next_cursor(s, c))
    }
}

#[via_fn]
proof fn yield_positions_decreases(s: Seq<FileTreeItem>, c: int) {
    if 0 <= c < s.len() && is_closed_dir(s[c]) {
        lemma_skip_end(s, s[c].depth as int, c + 1);
    }
}

/// The visible positions at `lo` or later, in order.
pub open spec fn visible_positions_from(s: Seq<FileTreeItem>, lo: int) -> Seq<int>
    decreases s.len() - lo,
{
    if lo < 0 || lo >= s.len() {
        Seq::empty()
    } else if visible(s, lo) {
        seq![lo] + visible_positions_from(s, lo + 1)
    } else {
        visible_positions_from(s, lo + 1)
    }
}

/// Hidden stretches contribute nothing to the visible positions.
proof fn lemma_visible_positions_skip(s: Seq<FileTreeItem>, a: int, b: int)
    requires
        0 <= a <= b <= s.len(),
        forall|j: int| a <= j < b ==> !visible(s, j),
    ensures
        visible_positions_from(s, a) == visible_positions_from(s, b),
    decreases b - a,
{
    if a < b {
        lemma_visible_positions_skip(s, a + 1, b);
    }
}

/// What a whole traversal from a visible cursor yields: exactly the visible
/// positions from there on, in order.
proof fn lemma_traversal_from(s: Seq<FileTreeItem>, c: int)
    requires
        0 <= c <= s.len(),
        c < s.len() ==> visible(s, c),
    ensures
        yield_positions(s, c) == visible_positions_from(s, c),
    decreases s.len() - c,
{
    if c < s.len() {
        let nc = next_cursor(s, c);
        lemma_next_cursor(s, c);
        lemma_visible_positions_skip(s, c + 1, nc);
        lemma_traversal_from(s, nc);
    }
}

/// The traversal law: a full walk from the top yields exactly the visible
/// positions of the sequence, in order. An item hidden by a closed ancestor
/// is never yielded; everything else is yielded exactly once.
pub proof fn lemma_traversal_yields_visible(s: Seq<FileTreeItem>)
    ensures
        yield_positions(s, 0) == visible_positions_from(s, 0),
{
    lemma_first_visible(s);
    lemma_traversal_from(s, 0);
}

/// A lazy, restartable, read-only traversal over a tree: it holds only a
/// borrowed snapshot and a cursor, and yields the visible items in order.
/// Once exhausted it stays exhausted; a fresh one is made for each pass.
pub struct FileTreeDisplayIterator<'a> {
    index: usize,
    file_tree: &'a FileTree,
}

impl<'a> FileTreeDisplayIterator<'a> {
    /// The tree snapshot this traversal walks.
    pub closed spec fn tree(&self) -> Seq<FileTreeItem> {
        self.file_tree@
    }

    /// Where the traversal stands: the position the next call yields.
    pub closed spec fn cursor(&self) -> int {
        self.index as int
    }

    /// Yields the item at the cursor, then advances the cursor: past the
    /// item's whole subtree when the item is a closed directory, else by
    /// one. At the end it yields nothing and stays put.
    pub fn next(&mut self) -> (r: Option<&'a FileTreeItem>)
        ensures
            final(self).tree() == old(self).tree(),
            old(self).cursor() >= old(self).tree().len() ==> r is None && final(self).cursor()
                == old(self).cursor(),
            old(self).cursor() < old(self).tree().len() ==> {
                &&& r is Some
                &&& (r matches Some(item) ==> *item == old(self).tree()[old(self).cursor()])
                &&& final(self).cursor() == next_cursor(old(self).tree(), old(self).cursor())
            },
    {
        let tree: &'a FileTree = self.file_tree;
        if self.index >= tree.len() {
            return None;
        }
        let ghost s = tree@;
        let ghost i0 = self.index as int;
        let v = tree.item_at(self.index);
        self.index = self.index + 1;
        let closed = match v.item_type {
            FileTreeItemType::Directory { open: false, explored: _ } => true,
            _ => false,
        };
        if closed {
            let d = v.depth;
            while self.index < tree.len() && tree.item_at(self.index).depth > d
                invariant
                    self.file_tree == tree,
                    tree@ == s,
                    0 <= i0 < self.index <= s.len(),
                    d == s[i0].depth,
                    skip_end(s, d as int, i0 + 1) == skip_end(s, d as int, self.index as int),
                decreases s.len() - self.index,
            {
                self.index = self.index + 1;
            }
            proof {
                assert(skip_end(s, d as int, self.index as int) == self.index);
            }
        }
        Some(v)
    }
}

impl FileTree {
    /// A fresh display traversal over the current sequence, starting at the
    /// top, at no cost beyond a cursor.
    pub fn display_iter<'a>(&'a self) -> (it: FileTreeDisplayIterator<'a>)
        ensures
            it.tree() == self@,
            it.cursor() == 0,
    {
        FileTreeDisplayIterator { index: 0, file_tree: self }
    }
}

} // verus!
