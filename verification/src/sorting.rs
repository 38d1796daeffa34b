//! Stable sorting of candidate tasks by the composite listing key:
//! recency rank first, then worktree-scoped origins before others, then
//! the numeric-prefix-aware name order.

use vstd::prelude::*;

verus! {

use crate::order::{name_le, lemma_name_le_total, lemma_name_le_trans};
use crate::tasks::{Task, TaskView, TaskSourceKind, TaskSourceKindView, kind_worktree};

/// One candidate task paired with the kind of the source that produced it
/// and its recency rank for this query.
pub struct Entry {
    pub kind: TaskSourceKind,
    pub task: Task,
    pub rank: usize,
}

pub ghost struct EntryView {
    pub kind: TaskSourceKindView,
    pub task: TaskView,
    pub rank: int,
}

impl View for Entry {
    type V = EntryView;

    open spec fn view(&self) -> EntryView {
        EntryView { kind: self.kind@, task: self.task@, rank: self.rank as int }
    }
}

pub open spec fn entry_views(s: Seq<Entry>) -> Seq<EntryView> {
    s.map_values(|e: Entry| e@)
}

/// Worktree-scoped origins sort before all others at equal rank.
pub open spec fn origin_group(k: TaskSourceKindView) -> int {
    if kind_worktree(k) is Some {
        0
    } else {
        1
    }
}

/// The composite listing order: rank, then origin specificity, then name.
pub open spec fn entry_le(a: EntryView, b: EntryView) -> bool {
    if a.rank != b.rank {
        a.rank < b.rank
    } else if origin_group(a.kind) != origin_group(b.kind) {
        origin_group(a.kind) < origin_group(b.kind)
    } else {
        name_le(a.task.name, b.task.name)
    }
}

pub proof fn lemma_entry_le_total(a: EntryView, b: EntryView)
    ensures
        entry_le(a, b) || entry_le(b, a),
{
    lemma_name_le_total(a.task.name, b.task.name);
}

pub proof fn lemma_entry_le_trans(a: EntryView, b: EntryView, c: EntryView)
    requires
        entry_le(a, b),
        entry_le(b, c),
    ensures
        entry_le(a, c),
{
    if a.rank == b.rank && b.rank == c.rank && origin_group(a.kind) == origin_group(b.kind)
        && origin_group(b.kind) == origin_group(c.kind) {
        lemma_name_le_trans(a.task.name, b.task.name, c.task.name);
    }
}

pub open spec fn entries_sorted(s: Seq<EntryView>) -> bool {
    forall|i: int, j: int| 0 <= i < j < s.len() ==> entry_le(#[trigger] s[i], #[trigger] s[j])
}

/// Stable insertion of one entry into a sorted sequence: the new entry
/// goes after every entry that is less than or equal to it.
pub open spec fn insert_sorted(s: Seq<EntryView>, x: EntryView) -> Seq<EntryView>
    decreases s.len(),
{
    if s.len() == 0 {
        seq![x]
    } else if entry_le(s.last(), x) {
        s.push(x)
    } else {
        insert_sorted(s.drop_last(), x).push(s.last())
    }
}

/// Stable insertion sort of a whole sequence, earlier entries inserted
/// first, so that entries tied under `entry_le` keep their input order.
pub open spec fn sort_entries(s: Seq<EntryView>) -> Seq<EntryView>
    decreases s.len(),
{
    if s.len() == 0 {
        Seq::empty()
    } else {
        insert_sorted(sort_entries(s.drop_last()), s.last())
    }
}

pub proof fn lemma_insert_sorted_props(s: Seq<EntryView>, x: EntryView)
    ensures
        insert_sorted(s, x).len() == s.len() + 1,
        insert_sorted(s, x).to_multiset() == s.to_multiset().insert(x),
        entries_sorted(s) ==> entries_sorted(insert_sorted(s, x)),
        forall|i: int|
            0 <= i < insert_sorted(s, x).len() ==> #[trigger] insert_sorted(s, x)[i] == x
                || s.contains(insert_sorted(s, x)[i]),
    decreases s.len(),
{
    let r = insert_sorted(s, x);
    broadcast use vstd::seq_lib::group_to_multiset_ensures;

    if s.len() == 0 {
        assert(seq![x].to_multiset() =~= s.to_multiset().insert(x)) by {
            assert(seq![x].drop_first() =~= Seq::<EntryView>::empty());
            assert(seq![x].to_multiset() == Seq::<EntryView>::empty().to_multiset().insert(x));
        }
    } else if entry_le(s.last(), x) {
        assert(s.push(x).to_multiset() == s.to_multiset().insert(x));
        if entries_sorted(s) {
            assert forall|i: int, j: int| 0 <= i < j < r.len() implies entry_le(
                #[trigger] r[i],
                #[trigger] r[j],
            ) by {
                if j == s.len() {
                    if i < s.len() - 1 {
                        assert(entry_le(s[i], s[s.len() - 1]));
                        lemma_entry_le_trans(r[i], s.last(), x);
                    } else {
                        assert(r[i] == s.last());
                    }
                }
            }
        }
        assert forall|i: int| 0 <= i < r.len() implies #[trigger] r[i] == x || s.contains(
            r[i],
        ) by {
            if i < s.len() {
                assert(r[i] == s[i]);
            }
        }
    } else {
        let t = s.drop_last();
        let rec = insert_sorted(t, x);
        lemma_insert_sorted_props(t, x);
        assert(t.push(s.last()) =~= s);
        assert(s.to_multiset() == t.to_multiset().insert(s.last()));
        assert(rec.push(s.last()).to_multiset() == rec.to_multiset().insert(s.last()));
        assert(rec.to_multiset().insert(s.last()) =~= t.to_multiset().insert(x).insert(s.last()));
        assert(t.to_multiset().insert(x).insert(s.last()) =~= t.to_multiset().insert(
            s.last(),
        ).insert(x));
        lemma_entry_le_total(s.last(), x);
        if entries_sorted(s) {
            assert(entries_sorted(t)) by {
                assert forall|i: int, j: int| 0 <= i < j < t.len() implies entry_le(
                    #[trigger] t[i],
                    #[trigger] t[j],
                ) by {
                    assert(entry_le(s[i], s[j]));
                }
            }
            assert forall|i: int, j: int| 0 <= i < j < r.len() implies entry_le(
                #[trigger] r[i],
                #[trigger] r[j],
            ) by {
                if j == r.len() - 1 {
                    // the moved former last element stays above everything below it
                    if rec[i] == x {
                        assert(entry_le(x, s.last()));
                    } else {
                        assert(t.contains(rec[i]));
                        let wit = choose|w: int| 0 <= w < t.len() && t[w] == rec[i];
                        assert(entry_le(s[wit], s[s.len() - 1]));
                    }
                } else {
                    assert(entry_le(rec[i], rec[j]));
                }
            }
        }
        assert forall|i: int| 0 <= i < r.len() implies #[trigger] r[i] == x || s.contains(
            r[i],
        ) by {
            if i < rec.len() {
                if rec[i] != x {
                    assert(t.contains(rec[i]));
                    let wit = choose|w: int| 0 <= w < t.len() && t[w] == rec[i];
                    assert(s[wit] == rec[i]);
                }
            } else {
                assert(r[i] == s.last());
                assert(s.contains(s.last()));
            }
        }
    }
}

pub proof fn lemma_sort_entries_props(s: Seq<EntryView>)
    ensures
        sort_entries(s).len() == s.len(),
        sort_entries(s).to_multiset() == s.to_multiset(),
        entries_sorted(sort_entries(s)),
    decreases s.len(),
{
    broadcast use vstd::seq_lib::group_to_multiset_ensures;

    if s.len() > 0 {
        lemma_sort_entries_props(s.drop_last());
        lemma_insert_sorted_props(sort_entries(s.drop_last()), s.last());
        assert(s.drop_last().push(s.last()) =~= s);
        assert(s.to_multiset() == s.drop_last().to_multiset().insert(s.last()));
    }
}

/// Where the scan in `sorted_insert` stops, the spec-level insertion
/// places the element.
proof fn lemma_insert_sorted_at(s: Seq<EntryView>, x: EntryView, pos: int)
    requires
        0 <= pos <= s.len(),
        pos == 0 || entry_le(s[pos - 1], x),
        forall|k: int| pos <= k < s.len() ==> !entry_le(#[trigger] s[k], x),
    ensures
        insert_sorted(s, x) == s.insert(pos, x),
    decreases s.len(),
{
    if s.len() == 0 {
        assert(insert_sorted(s, x) =~= s.insert(0, x));
    } else if pos == s.len() {
        assert(entry_le(s.last(), x));
        assert(s.push(x) =~= s.insert(pos, x));
    } else {
        assert(!entry_le(s.last(), x));
        let t = s.drop_last();
        assert forall|k: int| pos <= k < t.len() implies !entry_le(#[trigger] t[k], x) by {
            assert(t[k] == s[k]);
        }
        if pos > 0 {
            assert(t[pos - 1] == s[pos - 1]);
        }
        lemma_insert_sorted_at(t, x, pos);
        assert(t.insert(pos, x).push(s.last()) =~= s.insert(pos, x));
    }
}

/// Executable comparison matching `entry_le`.
pub fn entry_le_exec(a: &Entry, b: &Entry) -> (r: bool)
    ensures
        r == entry_le(a@, b@),
{
    if a.rank != b.rank {
        return a.rank < b.rank;
    }
    let ga: u64 = match &a.kind {
        TaskSourceKind::Worktree { .. } => 0,
        _ => 1,
    };
    let gb: u64 = match &b.kind {
        TaskSourceKind::Worktree { .. } => 0,
        _ => 1,
    };
    if ga != gb {
        return ga < gb;
    }
    crate::tasks::task_name_le(&a.task, &b.task)
}

/// Inserts `x` into the sorted vector `v`, keeping entries tied with `x`
/// ahead of it.
fn sorted_insert(v: &mut Vec<Entry>, x: Entry)
    ensures
        entry_views(final(v)@) == insert_sorted(entry_views(old(v)@), x@),
{
    let ghost s = entry_views(v@);
    let mut pos: usize = v.len();
    let mut searching = true;
    while searching
        invariant
            pos <= v@.len(),
            s == entry_views(v@),
            s.len() == v@.len(),
            forall|k: int| pos <= k < s.len() ==> !entry_le(#[trigger] s[k], x@),
            !searching ==> pos == 0 || entry_le(s[pos - 1], x@),
        decreases pos + (if searching { 1int } else { 0int }),
    {
        if pos == 0 {
            searching = false;
        } else {
            let le = entry_le_exec(&v[pos - 1], &x);
            proof {
                assert(s[pos - 1] == v@[pos - 1]@);
            }
            if le {
                searching = false;
            } else {
                pos -= 1;
            }
        }
    }
    proof {
        lemma_insert_sorted_at(s, x@, pos as int);
    }
    v.insert(pos, x);
    proof {
        assert(entry_views(v@) =~= s.insert(pos as int, x@));
    }
}

/// Sorts the candidate entries by the composite listing key; the sort is
/// stable, so tied entries keep the order their sources produced them in.
pub fn sort_entries_exec(v: Vec<Entry>) -> (r: Vec<Entry>)
    ensures
        entry_views(r@) == sort_entries(entry_views(v@)),
    decreases v@.len(),
{
    let ghost inp = entry_views(v@);
    let mut v = v;
    if let Some(x) = v.pop() {
        proof {
            assert(entry_views(v@) =~= inp.drop_last());
            assert(x@ == inp.last());
        }
        let mut r = sort_entries_exec(v);
        sorted_insert(&mut r, x);
        proof {
            assert(sort_entries(inp) == insert_sorted(sort_entries(inp.drop_last()), inp.last()));
        }
        r
    } else {
        proof {
            assert(inp =~= Seq::<EntryView>::empty());
        }
        v
    }
}

} // verus!
