//! The inventory: an ordered collection of registered task sources plus a
//! bounded history of recently scheduled task identifiers. It deduplicates
//! path-scoped sources, answers aggregated listing queries in a
//! deterministic order and records task usage.

use vstd::prelude::*;

verus! {

use std::collections::VecDeque;
use crate::tasks::{
    Task,
    TaskView,
    TaskId,
    TaskSourceKind,
    TaskSourceKindView,
    StaticSource,
    StaticSourceView,
    WorktreeId,
    kind_abs_path,
    kind_worktree,
};
use crate::sorting::{
    Entry,
    EntryView,
    entry_views,
    sort_entries,
    sort_entries_exec,
};
use crate::history::{
    MAX_HISTORY,
    id_views,
    rank_of,
    push_evict,
    recent_distinct,
    recent_distinct_exec,
    rank_in_exec,
};

/// One registered source: the provider state paired with the kind
/// classifying where its definitions come from.
pub struct SourceInInventory {
    pub kind: TaskSourceKind,
    pub source: StaticSource,
}

pub ghost struct SourceInInventoryView {
    pub kind: TaskSourceKindView,
    pub source: StaticSourceView,
}

impl View for SourceInInventory {
    type V = SourceInInventoryView;

    open spec fn view(&self) -> SourceInInventoryView {
        SourceInInventoryView { kind: self.kind@, source: self.source@ }
    }
}

pub open spec fn source_views(s: Seq<SourceInInventory>) -> Seq<SourceInInventoryView> {
    s.map_values(|r: SourceInInventory| r@)
}

/// Tracks available tasks for a given project.
pub struct Inventory {
    pub sources: Vec<SourceInInventory>,
    pub last_scheduled_tasks: VecDeque<TaskId>,
    pub changed: bool,
}

pub ghost struct InventoryView {
    pub sources: Seq<SourceInInventoryView>,
    pub history: Seq<Seq<char>>,
    pub changed: bool,
}

impl View for Inventory {
    type V = InventoryView;

    open spec fn view(&self) -> InventoryView {
        InventoryView {
            sources: source_views(self.sources@),
            history: id_views(self.last_scheduled_tasks@),
            changed: self.changed,
        }
    }
}

/// Whether some registration already carries this absolute path. Only
/// path-scoped kinds occupy a slot; `UserInput` sources never do.
pub open spec fn path_occupied(
    sources: Seq<SourceInInventoryView>,
    path: Option<Seq<char>>,
) -> bool {
    path is Some && exists|i: int|
        0 <= i < sources.len() && kind_abs_path(#[trigger] sources[i].kind) == path
}

/// The effect of registering a source: a no-op when the kind's path is
/// already occupied, otherwise an append plus a change notification.
pub open spec fn spec_add(
    inv: InventoryView,
    kind: TaskSourceKindView,
    source: StaticSourceView,
) -> InventoryView {
    if path_occupied(inv.sources, kind_abs_path(kind)) {
        inv
    } else {
        InventoryView {
            sources: inv.sources.push(SourceInInventoryView { kind, source }),
            history: inv.history,
            changed: true,
        }
    }
}

/// Registrations surviving the removal of one absolute path.
pub open spec fn remove_path_pred(path: Seq<char>) -> spec_fn(SourceInInventoryView) -> bool {
    |s: SourceInInventoryView| kind_abs_path(s.kind) != Some(path)
}

/// Registrations surviving the removal of one worktree.
pub open spec fn remove_worktree_pred(id: u64) -> spec_fn(SourceInInventoryView) -> bool {
    |s: SourceInInventoryView| kind_worktree(s.kind) != Some(id)
}

/// A registration participates in a listing query when no worktree filter
/// was given, or it is not worktree-scoped, or it belongs to the filtered
/// worktree. Global sources stay visible in every worktree context.
pub open spec fn participates(kind: TaskSourceKindView, worktree: Option<u64>) -> bool {
    worktree is None || kind_worktree(kind) is None || kind_worktree(kind) == worktree
}

/// The candidates one source contributes: its tasks, paired with its kind
/// and with each task's recency rank.
pub open spec fn source_entries(
    s: SourceInInventoryView,
    h: Seq<Seq<char>>,
    use_recency: bool,
) -> Seq<EntryView> {
    s.source.tasks.map_values(
        |t: TaskView| EntryView { kind: s.kind, task: t, rank: rank_of(h, use_recency, t.id) },
    )
}

/// All candidates of the participating sources, in registration order.
pub open spec fn gathered(
    sources: Seq<SourceInInventoryView>,
    worktree: Option<u64>,
    h: Seq<Seq<char>>,
    use_recency: bool,
) -> Seq<EntryView>
    decreases sources.len(),
{
    if sources.len() == 0 {
        Seq::empty()
    } else {
        gathered(sources.drop_last(), worktree, h, use_recency) + (
        if participates(sources.last().kind, worktree) {
            source_entries(sources.last(), h, use_recency)
        } else {
            Seq::empty()
        })
    }
}

pub open spec fn listed_pairs(s: Seq<EntryView>) -> Seq<(TaskSourceKindView, TaskView)> {
    s.map_values(|e: EntryView| (e.kind, e.task))
}

/// What a listing query returns: the participating sources' tasks, sorted
/// stably by recency rank, origin specificity and name.
pub open spec fn spec_list_tasks(
    inv: InventoryView,
    worktree: Option<u64>,
    use_recency: bool,
) -> Seq<(TaskSourceKindView, TaskView)> {
    listed_pairs(sort_entries(gathered(inv.sources, worktree, inv.history, use_recency)))
}

pub open spec fn worktree_view(w: Option<WorktreeId>) -> Option<u64> {
    match w {
        Some(x) => Some(x.id),
        None => None,
    }
}

/// The first registration whose provider type matches, if any.
pub open spec fn first_type_match(
    sources: Seq<SourceInInventoryView>,
    type_id: u64,
) -> Option<StaticSourceView>
    decreases sources.len(),
{
    if sources.len() == 0 {
        None
    } else if sources.first().source.type_id == type_id {
        Some(sources.first().source)
    } else {
        first_type_match(sources.drop_first(), type_id)
    }
}

impl Inventory {
    pub fn new() -> (r: Inventory)
        ensures
            r@.sources == Seq::<SourceInInventoryView>::empty(),
            r@.history == Seq::<Seq<char>>::empty(),
            !r@.changed,
    {
        let r = Inventory {
            sources: Vec::new(),
            last_scheduled_tasks: VecDeque::new(),
            changed: false,
        };
        proof {
            assert(r@.sources =~= Seq::<SourceInInventoryView>::empty());
            assert(r@.history =~= Seq::<Seq<char>>::empty());
        }
        r
    }

    fn occupied_path(&self, path: &String) -> (r: bool)
        ensures
            r == path_occupied(self@.sources, Some(path@)),
    {
        let mut i: usize = 0;
        while i < self.sources.len()
            invariant
                i <= self.sources@.len(),
                forall|k: int|
                    0 <= k < i ==> kind_abs_path(#[trigger] source_views(self.sources@)[k].kind)
                        != Some(path@),
            decreases self.sources@.len() - i,
        {
            if self.sources[i].kind.has_abs_path(path) {
                proof {
                    assert(kind_abs_path(source_views(self.sources@)[i as int].kind) == Some(
                        path@,
                    ));
                }
                return true;
            }
            i += 1;
        }
        proof {
            if path_occupied(self@.sources, Some(path@)) {
                let w = choose|w: int|
                    0 <= w < self@.sources.len() && kind_abs_path(self@.sources[w].kind) == Some(
                        path@,
                    );
            }
        }
        false
    }

    /// If no source with the same path was registered yet, registers the
    /// given one and notifies observers; a second source for an already
    /// occupied path is silently ignored.
    pub fn add_static_source(&mut self, kind: TaskSourceKind, source: StaticSource)
        ensures
            final(self)@ == spec_add(old(self)@, kind@, source@),
    {
        let occupied = match kind.abs_path() {
            Some(p) => self.occupied_path(p),
            None => false,
        };
        proof {
            if kind_abs_path(kind@) is None {
                assert(!path_occupied(self@.sources, kind_abs_path(kind@)));
            }
        }
        if occupied {
            return;
        }
        self.sources.push(SourceInInventory { kind, source });
        self.changed = true;
        proof {
            assert(self@.sources =~= spec_add(old(self)@, kind@, source@).sources);
        }
    }

    /// If present, removes every registration rooted at the given path,
    /// making its task definitions unavailable in later listings; the slot
    /// can then be registered again.
    pub fn remove_local_static_source(&mut self, abs_path: &String)
        ensures
            final(self)@.sources == old(self)@.sources.filter(remove_path_pred(abs_path@)),
            final(self)@.history == old(self)@.history,
            final(self)@.changed == old(self)@.changed,
    {
        proof {
            reveal(Seq::filter);
        }
        let ghost orig = source_views(self.sources@);
        let ghost pred = remove_path_pred(abs_path@);
        let mut kept: Vec<SourceInInventory> = Vec::new();
        let mut i: usize = 0;
        while i < self.sources.len()
            invariant
                i <= self.sources@.len(),
                orig == source_views(self.sources@),
                pred == remove_path_pred(abs_path@),
                source_views(kept@) == orig.subrange(0, i as int).filter(pred),
            decreases self.sources@.len() - i,
        {
            let ghost pre = orig.subrange(0, i as int + 1);
            proof {
                assert(pre.drop_last() =~= orig.subrange(0, i as int));
                assert(pre.last() == orig[i as int]);
            }
            let s = &self.sources[i];
            if !s.kind.has_abs_path(abs_path) {
                kept.push(s.clone());
                proof {
                    assert(source_views(kept@) =~= pre.drop_last().filter(pred).push(pre.last()));
                }
            }
            proof {
                reveal(Seq::filter);
                assert(pre.last() == source_views(self.sources@)[i as int]);
                assert(source_views(kept@) == pre.filter(pred));
            }
            i += 1;
        }
        proof {
            assert(orig.subrange(0, orig.len() as int) =~= orig);
        }
        self.sources = kept;
    }

    /// If present, removes every registration scoped to the given
    /// worktree, whatever its path; the slot can then be registered again.
    pub fn remove_worktree_sources(&mut self, worktree: WorktreeId)
        ensures
            final(self)@.sources == old(self)@.sources.filter(remove_worktree_pred(worktree.id)),
            final(self)@.history == old(self)@.history,
            final(self)@.changed == old(self)@.changed,
    {
        proof {
            reveal(Seq::filter);
        }
        let ghost orig = source_views(self.sources@);
        let ghost pred = remove_worktree_pred(worktree.id);
        let mut kept: Vec<SourceInInventory> = Vec::new();
        let mut i: usize = 0;
        while i < self.sources.len()
            invariant
                i <= self.sources@.len(),
                orig == source_views(self.sources@),
                pred == remove_worktree_pred(worktree.id),
                source_views(kept@) == orig.subrange(0, i as int).filter(pred),
            decreases self.sources@.len() - i,
        {
            let ghost pre = orig.subrange(0, i as int + 1);
            proof {
                assert(pre.drop_last() =~= orig.subrange(0, i as int));
                assert(pre.last() == orig[i as int]);
            }
            let s = &self.sources[i];
            let keep = match s.kind.worktree() {
                Some(w) => w.id != worktree.id,
                None => true,
            };
            if keep {
                kept.push(s.clone());
                proof {
                    assert(source_views(kept@) =~= pre.drop_last().filter(pred).push(pre.last()));
                }
            }
            proof {
                reveal(Seq::filter);
                assert(pre.last() == source_views(self.sources@)[i as int]);
                assert(source_views(kept@) == pre.filter(pred));
            }
            i += 1;
        }
        proof {
            assert(orig.subrange(0, orig.len() as int) =~= orig);
        }
        self.sources = kept;
    }
}

pub open spec fn pair_views(s: Seq<(TaskSourceKind, Task)>) -> Seq<
    (TaskSourceKindView, TaskView),
> {
    s.map_values(|p: (TaskSourceKind, Task)| (p.0@, p.1@))
}

impl Inventory {
    /// Pulls every still-relevant source for the tasks it serves for the
    /// given path and returns them paired with their source kinds, sorted
    /// by recency rank (when requested), origin specificity and
    /// numeric-prefix-aware name order.
    pub fn list_tasks(
        &self,
        path: Option<&str>,
        worktree: Option<WorktreeId>,
        use_recency: bool,
    ) -> (r: Vec<(TaskSourceKind, Task)>)
        ensures
            pair_views(r@) == spec_list_tasks(self@, worktree_view(worktree), use_recency),
    {
        let ghost svs = source_views(self.sources@);
        let ghost h = id_views(self.last_scheduled_tasks@);
        let ghost wt = worktree_view(worktree);
        let rd: Vec<TaskId> = if use_recency {
            recent_distinct_exec(&self.last_scheduled_tasks)
        } else {
            Vec::new()
        };
        let mut entries: Vec<Entry> = Vec::new();
        let mut i: usize = 0;
        while i < self.sources.len()
            invariant
                i <= self.sources@.len(),
                svs == source_views(self.sources@),
                h == id_views(self.last_scheduled_tasks@),
                wt == worktree_view(worktree),
                use_recency ==> id_views(rd@) == recent_distinct(h),
                entry_views(entries@) == gathered(svs.subrange(0, i as int), wt, h, use_recency),
            decreases self.sources@.len() - i,
        {
            let ghost pre = svs.subrange(0, i as int + 1);
            proof {
                assert(pre.drop_last() =~= svs.subrange(0, i as int));
                assert(svs[i as int] == self.sources@[i as int]@);
                assert(pre.last() == svs[i as int]);
            }
            let src = &self.sources[i];
            let part = match (worktree, src.kind.worktree()) {
                (None, _) => true,
                (_, None) => true,
                (Some(w), Some(sw)) => sw.id == w.id,
            };
            proof {
                assert(part == participates(svs[i as int].kind, wt));
            }
            if part {
                let tasks = src.source.tasks_for_path(path);
                let ghost se = source_entries(svs[i as int], h, use_recency);
                let mut j: usize = 0;
                while j < tasks.len()
                    invariant
                        j <= tasks@.len(),
                        use_recency ==> id_views(rd@) == recent_distinct(h),
                        crate::tasks::task_views(tasks@) == svs[i as int].source.tasks,
                        src.kind@ == svs[i as int].kind,
                        se == source_entries(svs[i as int], h, use_recency),
                        entry_views(entries@) == gathered(svs.subrange(0, i as int), wt, h,
                        use_recency) + se.subrange(0, j as int),
                    decreases tasks@.len() - j,
                {
                    let t = &tasks[j];
                    let rank: usize = if use_recency {
                        rank_in_exec(&rd, &t.id)
                    } else {
                        0
                    };
                    proof {
                        assert(crate::tasks::task_views(tasks@)[j as int] == tasks@[j as int]@);
                        assert(rank as int == rank_of(h, use_recency, t@.id));
                    }
                    let ghost prev = entries@;
                    let ghost base = gathered(svs.subrange(0, i as int), wt, h, use_recency);
                    let kind_c = src.kind.clone();
                    let task_c = t.clone();
                    let ghost pushed_view = EntryView { kind: kind_c@, task: task_c@, rank: rank as int };
                    entries.push(Entry { kind: kind_c, task: task_c, rank });
                    proof {
                        assert(se[j as int] == (EntryView {
                            kind: svs[i as int].kind,
                            task: svs[i as int].source.tasks[j as int],
                            rank: rank_of(h, use_recency, svs[i as int].source.tasks[j as int].id),
                        }));
                        let target = base + se.subrange(0, j as int + 1);
                        assert(entry_views(prev).len() == prev.len());
                        assert(se.len() == svs[i as int].source.tasks.len());
                        assert(entries@.len() == prev.len() + 1);
                        assert(entries@.len() == target.len());
                        assert forall|w: int| 0 <= w < entries@.len() implies entry_views(
                            entries@,
                        )[w] == target[w] by {
                            assert(entry_views(entries@)[w] == entries@[w]@);
                            if w < prev.len() {
                                assert(entries@[w] == prev[w]);
                                assert(entry_views(prev)[w] == prev[w]@);
                                assert(entry_views(prev)[w] == (base + se.subrange(0, j as int))[w]);
                                if w >= base.len() {
                                    assert((base + se.subrange(0, j as int))[w] == se[w - base.len()]);
                                    assert(target[w] == se.subrange(0, j as int + 1)[w - base.len()]);
                                }
                            } else {
                                assert(entries@.last() == entries@[w]);
                                assert(entries@[w]@ == pushed_view);
                                assert(target[w] == se[j as int]);
                            }
                        }
                        assert(entry_views(entries@) =~= target);
                    }
                    j += 1;
                }
                proof {
                    assert(se.subrange(0, se.len() as int) =~= se);
                    assert(entry_views(entries@) == gathered(pre, wt, h, use_recency));
                }
            } else {
                proof {
                    assert(gathered(pre, wt, h, use_recency) =~= gathered(
                        pre.drop_last(),
                        wt,
                        h,
                        use_recency,
                    ));
                }
            }
            i += 1;
        }
        proof {
            assert(svs.subrange(0, svs.len() as int) =~= svs);
        }
        let sorted = sort_entries_exec(entries);
        let mut out: Vec<(TaskSourceKind, Task)> = Vec::new();
        let mut k: usize = 0;
        while k < sorted.len()
            invariant
                k <= sorted@.len(),
                pair_views(out@) == listed_pairs(entry_views(sorted@)).subrange(0, k as int),
            decreases sorted@.len() - k,
        {
            let e = &sorted[k];
            let ghost prev = out@;
            out.push((e.kind.clone(), e.task.clone()));
            proof {
                assert(entry_views(sorted@).len() == sorted@.len());
                assert(listed_pairs(entry_views(sorted@)).len() == sorted@.len());
                assert(pair_views(prev).len() == prev.len());
                let target = listed_pairs(entry_views(sorted@)).subrange(0, k as int + 1);
                assert(entry_views(sorted@)[k as int] == sorted@[k as int]@);
                assert forall|w: int| 0 <= w < out@.len() implies pair_views(out@)[w]
                    == target[w] by {
                    assert(pair_views(out@)[w] == (out@[w].0@, out@[w].1@));
                    assert(target[w] == listed_pairs(entry_views(sorted@))[w]);
                    assert(listed_pairs(entry_views(sorted@))[w] == (
                        entry_views(sorted@)[w].kind,
                        entry_views(sorted@)[w].task,
                    ));
                    if w < prev.len() {
                        assert(out@[w] == prev[w]);
                        assert(pair_views(prev)[w] == (prev[w].0@, prev[w].1@));
                        assert(pair_views(prev)[w] == listed_pairs(entry_views(sorted@)).subrange(
                            0,
                            k as int,
                        )[w]);
                    } else {
                        assert(out@.last() == out@[w]);
                        assert(entry_views(sorted@)[w] == sorted@[w]@);
                    }
                }
                assert(pair_views(out@) =~= target);
            }
            k += 1;
        }
        proof {
            assert(listed_pairs(entry_views(sorted@)).subrange(0, sorted@.len() as int)
                =~= listed_pairs(entry_views(sorted@)));
        }
        out
    }
}

/// The first listed pair whose task carries the given identifier.
pub open spec fn find_pair_by_id(
    l: Seq<(TaskSourceKindView, TaskView)>,
    id: Seq<char>,
) -> Option<TaskView>
    decreases l.len(),
{
    if l.len() == 0 {
        None
    } else if l.first().1.id == id {
        Some(l.first().1)
    } else {
        find_pair_by_id(l.drop_first(), id)
    }
}

proof fn lemma_find_pair_scan(l: Seq<(TaskSourceKindView, TaskView)>, id: Seq<char>, j: int)
    requires
        0 <= j <= l.len(),
        forall|k: int| 0 <= k < j ==> (#[trigger] l[k]).1.id != id,
        j < l.len() ==> l[j].1.id == id,
    ensures
        j < l.len() ==> find_pair_by_id(l, id) == Some(l[j].1),
        j == l.len() ==> find_pair_by_id(l, id) is None,
    decreases j,
{
    if j == 0 {
        if l.len() > 0 {
            assert(l.first() == l[0]);
        }
    } else {
        assert(l.first() == l[0]);
        assert forall|k: int| 0 <= k < j - 1 implies (#[trigger] l.drop_first()[k]).1.id
            != id by {
            assert(l.drop_first()[k] == l[k + 1]);
        }
        if j < l.len() {
            assert(l.drop_first()[j - 1] == l[j]);
        }
        lemma_find_pair_scan(l.drop_first(), id, j - 1);
    }
}

impl Inventory {
    /// Resolves the most recently scheduled identifier against an
    /// unfiltered, non-recency listing: the task is returned only when a
    /// still-registered source still produces it.
    pub fn last_scheduled_task(&self) -> (r: Option<Task>)
        ensures
            match r {
                Some(t) => self@.history.len() > 0 && find_pair_by_id(
                    spec_list_tasks(self@, None, false),
                    self@.history.last(),
                ) == Some(t@),
                None => self@.history.len() == 0 || find_pair_by_id(
                    spec_list_tasks(self@, None, false),
                    self@.history.last(),
                ) is None,
            },
    {
        let n = self.last_scheduled_tasks.len();
        if n == 0 {
            return None;
        }
        let id = &self.last_scheduled_tasks[n - 1];
        proof {
            assert(id@ == self@.history[n - 1]);
        }
        let listing = self.list_tasks(None, None, false);
        let ghost l = spec_list_tasks(self@, None, false);
        let mut k: usize = 0;
        while k < listing.len()
            invariant
                k <= listing@.len(),
                l == pair_views(listing@),
                l == spec_list_tasks(self@, None, false),
                id@ == self@.history.last(),
                self@.history.len() > 0,
                forall|w: int| 0 <= w < k ==> (#[trigger] l[w]).1.id != id@,
            decreases listing@.len() - k,
        {
            proof {
                assert(l[k as int] == (listing@[k as int].0@, listing@[k as int].1@));
            }
            if listing[k].1.id.same_id(id) {
                proof {
                    lemma_find_pair_scan(l, id@, k as int);
                }
                return Some(listing[k].1.clone());
            }
            k += 1;
        }
        proof {
            lemma_find_pair_scan(l, id@, l.len() as int);
        }
        None
    }
}

proof fn lemma_first_type_match_scan(sources: Seq<SourceInInventoryView>, type_id: u64, j: int)
    requires
        0 <= j <= sources.len(),
        forall|k: int| 0 <= k < j ==> #[trigger] sources[k].source.type_id != type_id,
        j < sources.len() ==> sources[j].source.type_id == type_id,
    ensures
        j < sources.len() ==> first_type_match(sources, type_id) == Some(sources[j].source),
        j == sources.len() ==> first_type_match(sources, type_id) is None,
    decreases j,
{
    if j == 0 {
        if sources.len() > 0 {
            assert(sources.first() == sources[0]);
        }
    } else {
        assert(sources.first() == sources[0]);
        assert forall|k: int| 0 <= k < j - 1 implies #[trigger] sources.drop_first()[k]
            .source.type_id != type_id by {
            assert(sources.drop_first()[k] == sources[k + 1]);
        }
        if j < sources.len() {
            assert(sources.drop_first()[j - 1] == sources[j]);
        }
        lemma_first_type_match_scan(sources.drop_first(), type_id, j - 1);
    }
}

impl Inventory {
    /// The shared handle to the first registered source whose
    /// type-classification token matches, if any is registered.
    pub fn source(&self, type_id: u64) -> (r: Option<&StaticSource>)
        ensures
            match r {
                Some(src) => first_type_match(self@.sources, type_id) == Some(src@),
                None => first_type_match(self@.sources, type_id) is None,
            },
    {
        let mut i: usize = 0;
        while i < self.sources.len()
            invariant
                i <= self.sources@.len(),
                forall|k: int|
                    0 <= k < i ==> #[trigger] source_views(self.sources@)[k].source.type_id
                        != type_id,
            decreases self.sources@.len() - i,
        {
            if self.sources[i].source.type_id == type_id {
                proof {
                    assert(source_views(self.sources@)[i as int] == self.sources@[i as int]@);
                    lemma_first_type_match_scan(self@.sources, type_id, i as int);
                }
                return Some(&self.sources[i].source);
            }
            proof {
                assert(source_views(self.sources@)[i as int] == self.sources@[i as int]@);
            }
            i += 1;
        }
        proof {
            lemma_first_type_match_scan(self@.sources, type_id, self@.sources.len() as int);
        }
        None
    }

    /// Registers a task identifier as just scheduled, evicting the oldest
    /// record once the history exceeds its bound.
    pub fn task_scheduled(&mut self, id: TaskId)
        ensures
            final(self)@.history == push_evict(old(self)@.history, id@),
            final(self)@.sources == old(self)@.sources,
            final(self)@.changed == old(self)@.changed,
    {
        self.last_scheduled_tasks.push_back(id);
        proof {
            assert(id_views(self.last_scheduled_tasks@) =~= old(self)@.history.push(id@));
        }
        if self.last_scheduled_tasks.len() > MAX_HISTORY {
            let ghost pushed = id_views(self.last_scheduled_tasks@);
            self.last_scheduled_tasks.pop_front();
            proof {
                assert(id_views(self.last_scheduled_tasks@) =~= pushed.drop_first());
            }
        }
    }

    /// Polls and clears the change signal raised by source registration.
    pub fn take_changed(&mut self) -> (r: bool)
        ensures
            r == old(self)@.changed,
            !final(self)@.changed,
            final(self)@.sources == old(self)@.sources,
            final(self)@.history == old(self)@.history,
    {
        let r = self.changed;
        self.changed = false;
        r
    }
}

impl Clone for SourceInInventory {
    fn clone(&self) -> (r: Self)
        ensures
            r@ == self@,
    {
        SourceInInventory { kind: self.kind.clone(), source: self.source.clone() }
    }
}

} // verus!
