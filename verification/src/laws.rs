//! The registry's laws: duplicate registration is a no-op, removal
//! reopens a slot, non-recency listings ignore the usage history, recency
//! promotes the most recently used distinct tasks, and the usage history
//! stays bounded.

use vstd::prelude::*;

verus! {

use crate::order::name_le;
use crate::tasks::{TaskView, TaskSourceKindView, StaticSourceView, kind_abs_path};
use crate::sorting::{
    EntryView,
    entry_le,
    entries_sorted,
    origin_group,
    sort_entries,
    lemma_sort_entries_props,
};
use crate::history::{
    MAX_HISTORY,
    recent_distinct,
    first_index_of,
    rank_of,
    push_evict,
    lemma_recent_distinct_contains,
    lemma_recent_distinct_of_append,
};
use crate::inventory::{
    InventoryView,
    SourceInInventoryView,
    path_occupied,
    spec_add,
    remove_path_pred,
    source_entries,
    gathered,
    listed_pairs,
    spec_list_tasks,
};

/// The order a non-recency listing obeys: worktree-scoped origins first,
/// ties broken by the numeric-prefix-aware name order.
pub open spec fn pair_le(
    a: (TaskSourceKindView, TaskView),
    b: (TaskSourceKindView, TaskView),
) -> bool {
    if origin_group(a.0) != origin_group(b.0) {
        origin_group(a.0) < origin_group(b.0)
    } else {
        name_le(a.1.name, b.1.name)
    }
}

/// Every gathered candidate carries the rank its identifier has in the
/// history used for the query.
proof fn lemma_gathered_ranks(
    sources: Seq<SourceInInventoryView>,
    worktree: Option<u64>,
    h: Seq<Seq<char>>,
    use_recency: bool,
)
    ensures
        forall|i: int|
            0 <= i < gathered(sources, worktree, h, use_recency).len() ==> (#[trigger] gathered(
                sources,
                worktree,
                h,
                use_recency,
            )[i]).rank == rank_of(h, use_recency, gathered(sources, worktree, h, use_recency)[i].task.id),
    decreases sources.len(),
{
    if sources.len() > 0 {
        lemma_gathered_ranks(sources.drop_last(), worktree, h, use_recency);
        let g = gathered(sources, worktree, h, use_recency);
        let g0 = gathered(sources.drop_last(), worktree, h, use_recency);
        assert forall|i: int| 0 <= i < g.len() implies (#[trigger] g[i]).rank == rank_of(
            h,
            use_recency,
            g[i].task.id,
        ) by {
            if i >= g0.len() {
                let se = source_entries(sources.last(), h, use_recency);
                assert(g[i] == se[i - g0.len()]);
            }
        }
    }
}

/// Every element of a sorted listing is one of the gathered candidates.
proof fn lemma_sorted_elements_gathered(g: Seq<EntryView>)
    ensures
        sort_entries(g).len() == g.len(),
        entries_sorted(sort_entries(g)),
        forall|i: int|
            0 <= i < sort_entries(g).len() ==> g.contains(#[trigger] sort_entries(g)[i]),
{
    broadcast use vstd::seq_lib::group_to_multiset_ensures;

    lemma_sort_entries_props(g);
    let s = sort_entries(g);
    assert forall|i: int| 0 <= i < s.len() implies g.contains(#[trigger] s[i]) by {
        assert(s.contains(s[i]));
        assert(s.to_multiset().contains(s[i]));
        assert(g.to_multiset().contains(s[i]));
    }
}

/// Registering a source whose path is already occupied changes nothing:
/// the registry state and every future listing stay as they were.
pub proof fn lemma_duplicate_add_is_noop(
    inv: InventoryView,
    kind: TaskSourceKindView,
    source: StaticSourceView,
    worktree: Option<u64>,
    use_recency: bool,
)
    requires
        path_occupied(inv.sources, kind_abs_path(kind)),
    ensures
        spec_add(inv, kind, source) == inv,
        spec_list_tasks(spec_add(inv, kind, source), worktree, use_recency) == spec_list_tasks(
            inv,
            worktree,
            use_recency,
        ),
{
}

/// Removing a path-scoped source reopens its slot: a new source with the
/// same path registers successfully and each of its tasks appears in a
/// subsequent unfiltered listing.
pub proof fn lemma_removal_reopens_slot(
    inv: InventoryView,
    kind: TaskSourceKindView,
    source: StaticSourceView,
    path: Seq<char>,
    use_recency: bool,
)
    requires
        kind_abs_path(kind) == Some(path),
    ensures
        ({
            let removed = InventoryView {
                sources: inv.sources.filter(remove_path_pred(path)),
                history: inv.history,
                changed: inv.changed,
            };
            let readded = spec_add(removed, kind, source);
            &&& !path_occupied(removed.sources, kind_abs_path(kind))
            &&& readded.sources == removed.sources.push(SourceInInventoryView { kind, source })
            &&& forall|t: TaskView|
                source.tasks.contains(t) ==> spec_list_tasks(readded, None, use_recency).contains(
                    (kind, t),
                )
        }),
{
    broadcast use vstd::seq_lib::group_to_multiset_ensures;

    let pred = remove_path_pred(path);
    let kept = inv.sources.filter(pred);
    let removed = InventoryView { sources: kept, history: inv.history, changed: inv.changed };
    assert(!path_occupied(removed.sources, kind_abs_path(kind))) by {
        if path_occupied(kept, Some(path)) {
            let w = choose|w: int|
                0 <= w < kept.len() && kind_abs_path(kept[w].kind) == Some(path);
            inv.sources.lemma_filter_pred(pred, w);
        }
    }
    let newsrc = SourceInInventoryView { kind, source };
    let readded = spec_add(removed, kind, source);
    assert(readded.sources == kept.push(newsrc));
    let h = inv.history;
    let g = gathered(kept.push(newsrc), None, h, use_recency);
    let se = source_entries(newsrc, h, use_recency);
    assert(kept.push(newsrc).drop_last() =~= kept);
    assert(kept.push(newsrc).last() == newsrc);
    assert(g == gathered(kept, None, h, use_recency) + se);
    let base = gathered(kept, None, h, use_recency);
    assert forall|t: TaskView| source.tasks.contains(t) implies spec_list_tasks(
        readded,
        None,
        use_recency,
    ).contains((kind, t)) by {
        let w = choose|w: int| 0 <= w < source.tasks.len() && source.tasks[w] == t;
        let e = EntryView { kind, task: t, rank: rank_of(h, use_recency, t.id) };
        assert(se[w] == e);
        assert(g[base.len() + w] == e);
        assert(g.contains(e));
        lemma_sort_entries_props(g);
        assert(g.to_multiset().contains(e));
        assert(sort_entries(g).to_multiset().contains(e));
        assert(sort_entries(g).contains(e));
        let v = choose|v: int| 0 <= v < sort_entries(g).len() && sort_entries(g)[v] == e;
        assert(listed_pairs(sort_entries(g))[v] == (kind, t));
        assert(spec_list_tasks(readded, None, use_recency).contains((kind, t)));
    }
}

/// A non-recency listing does not depend on the usage history at all, and
/// always comes sorted by origin specificity and name.
pub proof fn lemma_non_recency_order(
    inv1: InventoryView,
    inv2: InventoryView,
    worktree: Option<u64>,
)
    requires
        inv1.sources == inv2.sources,
    ensures
        spec_list_tasks(inv1, worktree, false) == spec_list_tasks(inv2, worktree, false),
        ({
            let l = spec_list_tasks(inv1, worktree, false);
            forall|i: int, j: int| 0 <= i < j < l.len() ==> pair_le(#[trigger] l[i], #[trigger] l[j])
        }),
{
    lemma_gathered_history_irrelevant(inv1.sources, worktree, inv1.history, inv2.history);
    let g = gathered(inv1.sources, worktree, inv1.history, false);
    lemma_gathered_ranks(inv1.sources, worktree, inv1.history, false);
    lemma_sorted_elements_gathered(g);
    let s = sort_entries(g);
    let l = spec_list_tasks(inv1, worktree, false);
    assert forall|i: int, j: int| 0 <= i < j < l.len() implies pair_le(
        #[trigger] l[i],
        #[trigger] l[j],
    ) by {
        assert(entry_le(s[i], s[j]));
        let wi = choose|w: int| 0 <= w < g.len() && g[w] == s[i];
        let wj = choose|w: int| 0 <= w < g.len() && g[w] == s[j];
        assert(s[i].rank == 0);
        assert(s[j].rank == 0);
        assert(l[i] == (s[i].kind, s[i].task));
        assert(l[j] == (s[j].kind, s[j].task));
    }
}

proof fn lemma_gathered_history_irrelevant(
    sources: Seq<SourceInInventoryView>,
    worktree: Option<u64>,
    h1: Seq<Seq<char>>,
    h2: Seq<Seq<char>>,
)
    ensures
        gathered(sources, worktree, h1, false) == gathered(sources, worktree, h2, false),
    decreases sources.len(),
{
    if sources.len() > 0 {
        lemma_gathered_history_irrelevant(sources.drop_last(), worktree, h1, h2);
        assert(source_entries(sources.last(), h1, false) =~= source_entries(
            sources.last(),
            h2,
            false,
        ));
        assert(gathered(sources, worktree, h1, false) =~= gathered(sources, worktree, h2, false));
    }
}

/// Recording one identifier keeps the history within its bound, keeps the
/// new record at the tail, and evicts exactly the oldest entry once the
/// bound is reached.
pub proof fn lemma_history_bound(h: Seq<Seq<char>>, id: Seq<char>)
    requires
        h.len() <= MAX_HISTORY,
    ensures
        push_evict(h, id).len() <= MAX_HISTORY,
        push_evict(h, id).len() > 0,
        push_evict(h, id).last() == id,
        h.len() < MAX_HISTORY ==> push_evict(h, id) == h.push(id),
        h.len() == MAX_HISTORY ==> push_evict(h, id) == h.drop_first().push(id),
{
    if h.len() == MAX_HISTORY {
        assert(h.push(id).drop_first() =~= h.drop_first().push(id));
    }
}

proof fn lemma_recent_distinct_last_four(a: Seq<char>, b: Seq<char>)
    requires
        a != b,
    ensures
        recent_distinct(seq![a, b, b, b]) == seq![b, a],
{
    let s0 = Seq::<Seq<char>>::empty();
    assert(recent_distinct(s0) == Seq::<Seq<char>>::empty());
    assert(seq![b].drop_first() =~= s0);
    assert(!recent_distinct(s0).contains(b));
    assert(recent_distinct(seq![b]) =~= seq![b]);
    assert(seq![b, b].drop_first() =~= seq![b]);
    assert(seq![b].contains(b)) by {
        assert(seq![b][0] == b);
    }
    assert(recent_distinct(seq![b, b]) == seq![b]);
    assert(seq![b, b, b].drop_first() =~= seq![b, b]);
    assert(recent_distinct(seq![b, b, b]) == seq![b]);
    assert(seq![a, b, b, b].drop_first() =~= seq![b, b, b]);
    assert(!seq![b].contains(a)) by {
        if seq![b].contains(a) {
            let w = choose|w: int| 0 <= w < 1 && seq![b][w] == a;
        }
    }
    assert(recent_distinct(seq![a, b, b, b]) =~= seq![b].push(a));
    assert(seq![b].push(a) =~= seq![b, a]);
}

/// After task `a` is recorded once and task `b` three times (most
/// recently), a recency listing ranks every `b` task before every `a`
/// task, every `a` task before every never-recorded task, and
/// never-recorded tasks keep their origin-and-name order among themselves.
pub proof fn lemma_recency_promotes(
    inv: InventoryView,
    prior: Seq<Seq<char>>,
    a: Seq<char>,
    b: Seq<char>,
    worktree: Option<u64>,
)
    requires
        a != b,
        inv.history == prior + seq![a, b, b, b],
    ensures
        ({
            let l = spec_list_tasks(inv, worktree, true);
            &&& forall|i: int, j: int|
                0 <= i < l.len() && 0 <= j < l.len() && (#[trigger] l[i]).1.id == b && (
                #[trigger] l[j]).1.id == a ==> i < j
            &&& forall|i: int, j: int|
                0 <= i < l.len() && 0 <= j < l.len() && (#[trigger] l[i]).1.id == a
                    && !inv.history.contains((#[trigger] l[j]).1.id) ==> i < j
            &&& forall|i: int, j: int|
                0 <= i < j < l.len() && !inv.history.contains((#[trigger] l[i]).1.id)
                    && !inv.history.contains((#[trigger] l[j]).1.id) ==> pair_le(l[i], l[j])
        }),
{
    let h = inv.history;
    let rd = recent_distinct(h);
    lemma_recent_distinct_last_four(a, b);
    lemma_recent_distinct_of_append(prior, seq![a, b, b, b]);
    assert(rd[0] == b && rd[1] == a && rd.len() >= 2) by {
        assert(recent_distinct(seq![a, b, b, b]).is_prefix_of(rd));
        assert(rd.subrange(0, 2) =~= seq![b, a]);
        assert(rd.subrange(0, 2)[0] == rd[0]);
        assert(rd.subrange(0, 2)[1] == rd[1]);
    }
    assert(rank_of(h, true, b) == 0) by {
        assert(rd.contains(b)) by {
            assert(rd[0] == b);
        }
        assert(rd.first() == b);
    }
    assert(rank_of(h, true, a) == 1) by {
        assert(rd.contains(a)) by {
            assert(rd[1] == a);
        }
        assert(rd.first() != a);
        assert(rd.drop_first().first() == a);
        assert(first_index_of(rd, a) == 1 + first_index_of(rd.drop_first(), a));
    }
    let g = gathered(inv.sources, worktree, h, true);
    lemma_gathered_ranks(inv.sources, worktree, h, true);
    lemma_sorted_elements_gathered(g);
    let s = sort_entries(g);
    let l = spec_list_tasks(inv, worktree, true);
    assert forall|i: int| 0 <= i < s.len() implies (#[trigger] s[i]).rank == rank_of(
        h,
        true,
        s[i].task.id,
    ) by {
        let w = choose|w: int| 0 <= w < g.len() && g[w] == s[i];
    }
    assert forall|i: int|
        0 <= i < s.len() && !h.contains(s[i].task.id) implies (#[trigger] s[i]).rank
        >= 2 by {
        lemma_recent_distinct_contains(h, s[i].task.id);
    }
    assert forall|i: int, j: int|
        0 <= i < l.len() && 0 <= j < l.len() && (#[trigger] l[i]).1.id == b && (
        #[trigger] l[j]).1.id == a implies i < j by {
        assert(l[i] == (s[i].kind, s[i].task));
        assert(l[j] == (s[j].kind, s[j].task));
        assert(s[i].rank == 0);
        assert(s[j].rank == 1);
        if j < i {
            assert(entry_le(s[j], s[i]));
        }
    }
    assert forall|i: int, j: int|
        0 <= i < l.len() && 0 <= j < l.len() && (#[trigger] l[i]).1.id == a && !inv.history.contains(
            (#[trigger] l[j]).1.id,
        ) implies i < j by {
        assert(l[i] == (s[i].kind, s[i].task));
        assert(l[j] == (s[j].kind, s[j].task));
        assert(s[i].rank == 1);
        assert(s[j].rank >= 2);
        if j < i {
            assert(entry_le(s[j], s[i]));
        }
        if j == i {
            assert(h.contains(l[j].1.id)) by {
                assert(h[prior.len() as int] == a);
            }
        }
    }
    assert forall|i: int, j: int|
        0 <= i < j < l.len() && !inv.history.contains((#[trigger] l[i]).1.id)
            && !inv.history.contains((#[trigger] l[j]).1.id) implies pair_le(l[i], l[j]) by {
        assert(l[i] == (s[i].kind, s[i].task));
        assert(l[j] == (s[j].kind, s[j].task));
        lemma_recent_distinct_contains(h, s[i].task.id);
        lemma_recent_distinct_contains(h, s[j].task.id);
        assert(s[i].rank == recent_distinct(h).len() as int);
        assert(s[j].rank == recent_distinct(h).len() as int);
        assert(entry_le(s[i], s[j]));
    }
}

} // verus!
