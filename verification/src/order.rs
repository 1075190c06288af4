//! Ordering of directory entries by name.
//!
//! The model does not trust the filesystem to return entries in any order, so
//! each listing is sorted by name, code point by code point, before it is
//! spliced into the tree. The sorted sequence is pinned down exactly by the
//! spec function [`sort_entries`], so two expansions fed the same listing
//! produce the same run of children.

use vstd::prelude::*;

use crate::adapter::DirEntry;

verus! {

/// Lexicographic "strictly less" on the character tails `a[i..]` and
/// `b[i..]`: the first differing code point decides; a proper prefix comes
/// first.
pub open spec fn lex_lt_from(a: Seq<char>, b: Seq<char>, i: int) -> bool
    decreases a.len() - i,
{
    if i >= a.len() {
        i < b.len()
    } else if i >= b.len() {
        false
    } else if a[i] != b[i] {
        (a[i] as u32) < (b[i] as u32)
    } else {
        lex_lt_from(a, b, i + 1)
    }
}

/// Lexicographic "strictly less" on whole names.
pub open spec fn lex_lt(a: Seq<char>, b: Seq<char>) -> bool {
    lex_lt_from(a, b, 0)
}

/// The non-strict companion of [`lex_lt`].
pub open spec fn lex_le(a: Seq<char>, b: Seq<char>) -> bool {
    !lex_lt(b, a)
}

/// `lex_lt_from` is asymmetric: two tails cannot each be below the other.
pub proof fn lemma_lex_lt_asymmetric(a: Seq<char>, b: Seq<char>, i: int)
    ensures
        lex_lt_from(a, b, i) ==> !lex_lt_from(b, a, i),
    decreases a.len() - i,
{
    if i < a.len() && i < b.len() && a[i] == b[i] {
        lemma_lex_lt_asymmetric(a, b, i + 1);
    }
}

/// `lex_lt_from` is transitive.
pub proof fn lemma_lex_lt_transitive(a: Seq<char>, b: Seq<char>, c: Seq<char>, i: int)
    ensures
        lex_lt_from(a, b, i) && lex_lt_from(b, c, i) ==> lex_lt_from(a, c, i),
    decreases a.len() + b.len() + c.len() - 3 * i,
{
    if i < a.len() && i < b.len() && i < c.len() {
        lemma_lex_lt_transitive(a, b, c, i + 1);
    }
}

/// Entries in non-decreasing name order: every earlier entry's name is
/// lexicographically at most every later one's.
pub open spec fn sorted_by_name(s: Seq<DirEntry>) -> bool {
    forall|i: int, j: int| 0 <= i < j < s.len() ==> lex_le(s[i].name@, s[j].name@)
}

/// `e` inserted in front of the first entry whose name is strictly above it.
pub open spec fn sorted_insert(s: Seq<DirEntry>, e: DirEntry) -> Seq<DirEntry>
    decreases s.len(),
{
    if s.len() == 0 {
        seq![e]
    } else if lex_lt(e.name@, s[0].name@) {
        seq![e] + s
    } else {
        seq![s[0]] + sorted_insert(s.drop_first(), e)
    }
}

/// The one sorted arrangement this library gives a listing: entries inserted
/// one by one, each in front of the first strictly greater name, so entries
/// with equal names keep their relative order.
pub open spec fn sort_entries(s: Seq<DirEntry>) -> Seq<DirEntry>
    decreases s.len(),
{
    if s.len() == 0 {
        Seq::<DirEntry>::empty()
    } else {
        sorted_insert(sort_entries(s.drop_last()), s.last())
    }
}

/// Inserting in front of the first strictly greater name is the same as
/// inserting at any position `j` below which no name is strictly greater.
proof fn lemma_sorted_insert_position(s: Seq<DirEntry>, e: DirEntry, j: int)
    requires
        0 <= j <= s.len(),
        forall|k: int| 0 <= k < j ==> !lex_lt(e.name@, s[k].name@),
        j < s.len() ==> lex_lt(e.name@, s[j].name@),
    ensures
        sorted_insert(s, e) == s.insert(j, e),
    decreases s.len(),
{
    if s.len() == 0 {
        assert(sorted_insert(s, e) =~= s.insert(0, e));
    } else if lex_lt(e.name@, s[0].name@) {
        assert(j == 0);
        assert(sorted_insert(s, e) =~= s.insert(0, e));
    } else {
        assert(j >= 1);
        assert(forall|k: int|
            0 <= k < j - 1 ==> !lex_lt(e.name@, #[trigger] s.drop_first()[k].name@)) by {
            assert(forall|k: int| 0 <= k < s.len() - 1 ==> #[trigger] s.drop_first()[k] == s[k + 1]);
        }
        lemma_sorted_insert_position(s.drop_first(), e, j - 1);
        assert(seq![s[0]] + s.drop_first().insert(j - 1, e) =~= s.insert(j, e));
    }
}

/// Every element of `sorted_insert(s, e)` is `e` or an element of `s`.
proof fn lemma_sorted_insert_membership(s: Seq<DirEntry>, e: DirEntry, k: int)
    requires
        0 <= k < sorted_insert(s, e).len(),
    ensures
        sorted_insert(s, e)[k] == e || s.contains(sorted_insert(s, e)[k]),
    decreases s.len(),
{
    if s.len() == 0 {
    } else if lex_lt(e.name@, s[0].name@) {
        if k > 0 {
            assert(sorted_insert(s, e)[k] == s[k - 1]);
        }
    } else {
        if k > 0 {
            lemma_sorted_insert_membership(s.drop_first(), e, k - 1);
            let x = sorted_insert(s, e)[k];
            assert(x == sorted_insert(s.drop_first(), e)[k - 1]);
            if x != e {
                let m = choose|m: int| 0 <= m < s.drop_first().len() && s.drop_first()[m] == x;
                assert(s[m + 1] == x);
            }
        }
    }
}

/// Insertion grows the sequence by exactly one.
proof fn lemma_sorted_insert_len(s: Seq<DirEntry>, e: DirEntry)
    ensures
        sorted_insert(s, e).len() == s.len() + 1,
    decreases s.len(),
{
    if s.len() > 0 && !lex_lt(e.name@, s[0].name@) {
        lemma_sorted_insert_len(s.drop_first(), e);
    }
}

/// Insertion keeps the sequence sorted.
proof fn lemma_sorted_insert_sorted(s: Seq<DirEntry>, e: DirEntry)
    requires
        sorted_by_name(s),
    ensures
        sorted_by_name(sorted_insert(s, e)),
    decreases s.len(),
{
    let t = sorted_insert(s, e);
    if s.len() == 0 {
    } else if lex_lt(e.name@, s[0].name@) {
        assert forall|i: int, j: int| 0 <= i < j < t.len() implies lex_le(
            t[i].name@,
            t[j].name@,
        ) by {
            if i == 0 {
                assert(t[j] == s[j - 1]);
                if lex_lt(s[j - 1].name@, e.name@) {
                    lemma_lex_lt_transitive(s[j - 1].name@, e.name@, s[0].name@, 0);
                    if j - 1 == 0 {
                        lemma_lex_lt_asymmetric(e.name@, s[0].name@, 0);
                    } else {
                        assert(lex_le(s[0].name@, s[j - 1].name@));
                        assert(false);
                    }
                }
                assert(lex_le(e.name@, s[j - 1].name@));
            } else {
                assert(t[i] == s[i - 1] && t[j] == s[j - 1]);
                assert(lex_le(s[i - 1].name@, s[j - 1].name@));
            }
        }
    } else {
        let d = s.drop_first();
        assert(forall|k: int| 0 <= k < d.len() ==> #[trigger] d[k] == s[k + 1]);
        assert(sorted_by_name(d));
        lemma_sorted_insert_sorted(d, e);
        let ti = sorted_insert(d, e);
        lemma_sorted_insert_len(d, e);
        assert forall|i: int, j: int| 0 <= i < j < t.len() implies lex_le(
            t[i].name@,
            t[j].name@,
        ) by {
            if i == 0 {
                assert(t[j] == ti[j - 1]);
                lemma_sorted_insert_membership(d, e, j - 1);
                if ti[j - 1] == e {
                    lemma_lex_lt_asymmetric(e.name@, s[0].name@, 0);
                } else {
                    let m = choose|m: int| 0 <= m < d.len() && d[m] == ti[j - 1];
                    assert(s[m + 1] == ti[j - 1]);
                    assert(lex_le(s[0].name@, s[m + 1].name@));
                }
            } else {
                assert(t[i] == ti[i - 1] && t[j] == ti[j - 1]);
            }
        }
    }
}

/// Insertion adds exactly `e` to the contents.
proof fn lemma_sorted_insert_multiset(s: Seq<DirEntry>, e: DirEntry)
    ensures
        sorted_insert(s, e).to_multiset() == s.to_multiset().insert(e),
    decreases s.len(),
{
    broadcast use vstd::seq_lib::to_multiset_insert;

    if s.len() == 0 {
        assert(sorted_insert(s, e) =~= s.insert(0, e));
    } else if lex_lt(e.name@, s[0].name@) {
        assert(sorted_insert(s, e) =~= s.insert(0, e));
    } else {
        let d = s.drop_first();
        lemma_sorted_insert_multiset(d, e);
        assert(sorted_insert(s, e) =~= sorted_insert(d, e).insert(0, s[0]));
        assert(s =~= d.insert(0, s[0]));
        assert(d.to_multiset().insert(e).insert(s[0]) =~= d.to_multiset().insert(s[0]).insert(e));
    }
}

/// Sorting keeps the length.
pub proof fn lemma_sort_entries_len(s: Seq<DirEntry>)
    ensures
        sort_entries(s).len() == s.len(),
    decreases s.len(),
{
    if s.len() > 0 {
        lemma_sort_entries_len(s.drop_last());
        lemma_sorted_insert_len(sort_entries(s.drop_last()), s.last());
    }
}

/// The sorted listing really is sorted by name.
pub proof fn lemma_sort_entries_sorted(s: Seq<DirEntry>)
    ensures
        sorted_by_name(sort_entries(s)),
    decreases s.len(),
{
    if s.len() > 0 {
        lemma_sort_entries_sorted(s.drop_last());
        lemma_sorted_insert_sorted(sort_entries(s.drop_last()), s.last());
    }
}

/// Sorting keeps the contents: the sorted listing is a permutation of the
/// listing it was made from.
pub proof fn lemma_sort_entries_multiset(s: Seq<DirEntry>)
    ensures
        sort_entries(s).to_multiset() == s.to_multiset(),
    decreases s.len(),
{
    broadcast use vstd::seq_lib::to_multiset_build;

    if s.len() == 0 {
        assert(s =~= Seq::<DirEntry>::empty());
    } else {
        lemma_sort_entries_multiset(s.drop_last());
        lemma_sorted_insert_multiset(sort_entries(s.drop_last()), s.last());
        assert(sort_entries(s) == sorted_insert(sort_entries(s.drop_last()), s.last()));
        assert(s.drop_last().push(s.last()).to_multiset() =~= s.drop_last().to_multiset().insert(
            s.last(),
        ));
        assert(s =~= s.drop_last().push(s.last()));
    }
}

/// Compares two names, deciding the exact lexicographic order [`lex_lt`].
pub fn name_lt(a: &str, b: &str) -> (r: bool)
    ensures
        r == lex_lt(a@, b@),
{
    let a_len = a.unicode_len();
    let b_len = b.unicode_len();
    let mut i: usize = 0;
    while i < a_len && i < b_len
        invariant
            0 <= i <= a_len,
            i <= b_len,
            a_len == a@.len(),
            b_len == b@.len(),
            lex_lt(a@, b@) == lex_lt_from(a@, b@, i as int),
        decreases a_len - i,
    {
        let ca = a.get_char(i);
        let cb = b.get_char(i);
        if ca != cb {
            return (ca as u32) < (cb as u32);
        }
        i = i + 1;
    }
    i >= a_len && i < b_len
}

/// Inserts `e` in front of the first entry of `out` whose name is strictly
/// greater, keeping a sorted vector sorted.
fn push_in_order(out: &mut Vec<DirEntry>, e: DirEntry)
    ensures
        final(out)@ == sorted_insert(old(out)@, e),
{
    let ghost s = out@;
    let mut j: usize = 0;
    while j < out.len() && !name_lt(e.name.as_str(), out[j].name.as_str())
        invariant
            out@ == s,
            0 <= j <= s.len(),
            forall|k: int| 0 <= k < j ==> !lex_lt(e.name@, s[k].name@),
        decreases s.len() - j,
    {
        j = j + 1;
    }
    proof {
        lemma_sorted_insert_position(s, e, j as int);
    }
    out.insert(j, e);
}

/// Sorts a listing by name into the exact order [`sort_entries`] describes.
pub fn sort_by_name(entries: Vec<DirEntry>) -> (r: Vec<DirEntry>)
    ensures
        r@ == sort_entries(entries@),
{
    let ghost orig = entries@;
    let ghost mut done: int = 0;
    let mut rest = entries;
    let mut out: Vec<DirEntry> = Vec::new();
    proof {
        assert(orig.subrange(0, orig.len() as int) =~= orig);
        assert(orig.subrange(0, 0) =~= Seq::<DirEntry>::empty());
    }
    while rest.len() > 0
        invariant
            0 <= done <= orig.len(),
            rest@ == orig.subrange(done, orig.len() as int),
            out@ == sort_entries(orig.subrange(0, done)),
        decreases rest@.len(),
    {
        let e = rest.remove(0);
        push_in_order(&mut out, e);
        proof {
            assert(e == orig[done]);
            assert(rest@ =~= orig.subrange(done + 1, orig.len() as int));
            let p1 = orig.subrange(0, done + 1);
            assert(p1.drop_last() =~= orig.subrange(0, done));
            assert(p1.last() == orig[done]);
            done = done + 1;
        }
    }
    proof {
        assert(done == orig.len());
        assert(orig.subrange(0, orig.len() as int) =~= orig);
    }
    out
}

} // verus!
