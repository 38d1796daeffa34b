//! The bounded usage history and the recency ranks derived from it.
//!
//! The history is a chronological log of scheduled task identifiers,
//! append at tail, evict from head, never longer than `MAX_HISTORY`
//! entries. Ranks come from a reverse walk: the most recently scheduled
//! distinct identifier ranks 0, the next distinct one 1, and so on;
//! identifiers never seen rank one past the largest assigned rank.

use vstd::prelude::*;

verus! {

use std::collections::VecDeque;
use crate::tasks::TaskId;

/// Upper bound on remembered scheduling events.
pub const MAX_HISTORY: usize = 5000;

pub open spec fn id_views(s: Seq<TaskId>) -> Seq<Seq<char>> {
    s.map_values(|t: TaskId| t@)
}

/// The distinct identifiers of a history, most recently scheduled first.
pub open spec fn recent_distinct(h: Seq<Seq<char>>) -> Seq<Seq<char>>
    decreases h.len(),
{
    if h.len() == 0 {
        Seq::empty()
    } else {
        let rest = recent_distinct(h.drop_first());
        if rest.contains(h.first()) {
            rest
        } else {
            rest.push(h.first())
        }
    }
}

/// The position of the first occurrence of `id` in `s`.
pub open spec fn first_index_of(s: Seq<Seq<char>>, id: Seq<char>) -> int
    decreases s.len(),
{
    if s.len() == 0 {
        0
    } else if s.first() == id {
        0
    } else {
        1 + first_index_of(s.drop_first(), id)
    }
}

/// The recency rank an identifier gets in a listing query. Without
/// recency biasing every identifier gets the same rank, making recency a
/// no-op tie value.
pub open spec fn rank_of(h: Seq<Seq<char>>, use_recency: bool, id: Seq<char>) -> int {
    if !use_recency {
        0
    } else if recent_distinct(h).contains(id) {
        first_index_of(recent_distinct(h), id)
    } else {
        recent_distinct(h).len() as int
    }
}

/// Appending one identifier to a history, evicting the oldest entry once
/// the bound is exceeded.
pub open spec fn push_evict(h: Seq<Seq<char>>, id: Seq<char>) -> Seq<Seq<char>> {
    let pushed = h.push(id);
    if pushed.len() > MAX_HISTORY {
        pushed.drop_first()
    } else {
        pushed
    }
}

/// An identifier appears in the distinct-recency list exactly when it
/// appears somewhere in the history.
pub proof fn lemma_recent_distinct_contains(h: Seq<Seq<char>>, id: Seq<char>)
    ensures
        recent_distinct(h).contains(id) == h.contains(id),
    decreases h.len(),
{
    if h.len() > 0 {
        lemma_recent_distinct_contains(h.drop_first(), id);
        let rest = recent_distinct(h.drop_first());
        if h.contains(id) {
            let w = choose|w: int| 0 <= w < h.len() && h[w] == id;
            if w == 0 {
                if !rest.contains(id) {
                    assert(recent_distinct(h) == rest.push(h.first()));
                    assert(recent_distinct(h).last() == id);
                    assert(recent_distinct(h).contains(id));
                }
            } else {
                assert(h.drop_first()[w - 1] == id);
                assert(h.drop_first().contains(id));
                if !rest.contains(h.first()) {
                    let v = choose|v: int| 0 <= v < rest.len() && rest[v] == id;
                    assert(rest.push(h.first())[v] == id);
                }
            }
        } else {
            assert(!h.drop_first().contains(id)) by {
                if h.drop_first().contains(id) {
                    let w = choose|w: int| 0 <= w < h.drop_first().len() && h.drop_first()[w] == id;
                    assert(h[w + 1] == id);
                }
            }
            assert(h.first() != id) by {
                assert(h[0] == h.first());
            }
            if !rest.contains(h.first()) {
                if recent_distinct(h).contains(id) {
                    let v = choose|v: int|
                        0 <= v < recent_distinct(h).len() && recent_distinct(h)[v] == id;
                    if v < rest.len() {
                        assert(rest[v] == id);
                    }
                }
            }
        }
    }
}

/// The distinct-recency list of `older + newer` extends that of `newer`:
/// identifiers scheduled earlier only rank after the recent ones.
pub proof fn lemma_recent_distinct_of_append(older: Seq<Seq<char>>, newer: Seq<Seq<char>>)
    ensures
        recent_distinct(newer).is_prefix_of(recent_distinct(older + newer)),
    decreases older.len(),
{
    if older.len() == 0 {
        assert(older + newer =~= newer);
    } else {
        lemma_recent_distinct_of_append(older.drop_first(), newer);
        assert((older + newer).drop_first() =~= older.drop_first() + newer);
        assert((older + newer).len() > 0);
        let rest = recent_distinct(older.drop_first() + newer);
        let pre = recent_distinct(newer);
        if !rest.contains((older + newer).first()) {
            assert forall|k: int| 0 <= k < pre.len() implies rest.push((older + newer).first())[k]
                == pre[k] by {
                assert(rest[k] == pre[k]);
            }
        }
    }
}

proof fn lemma_first_index_from_scan(s: Seq<Seq<char>>, id: Seq<char>, j: int)
    requires
        0 <= j <= s.len(),
        forall|k: int| 0 <= k < j ==> s[k] != id,
        j < s.len() ==> s[j] == id,
    ensures
        j < s.len() ==> s.contains(id) && first_index_of(s, id) == j,
        j == s.len() ==> !s.contains(id),
    decreases j,
{
    if j == 0 {
        if s.len() > 0 && s[0] == id {
            assert(s.first() == id);
        } else if s.len() == 0 {
        }
    } else {
        assert(s.first() != id) by {
            assert(s[0] == s.first());
        }
        assert forall|k: int| 0 <= k < j - 1 implies s.drop_first()[k] != id by {
            assert(s.drop_first()[k] == s[k + 1]);
        }
        if j < s.len() {
            assert(s.drop_first()[j - 1] == s[j]);
        }
        lemma_first_index_from_scan(s.drop_first(), id, j - 1);
        if j < s.len() {
            assert(s.drop_first().contains(id));
            let w = choose|w: int|
                0 <= w < s.drop_first().len() && s.drop_first()[w] == id;
            assert(s[w + 1] == id);
        } else {
            if s.contains(id) {
                let w = choose|w: int| 0 <= w < s.len() && s[w] == id;
                assert(w > 0);
                assert(s.drop_first()[w - 1] == id);
            }
        }
    }
}

/// Whether any identifier in `v` views to the same identifier as `id`.
pub fn contains_id(v: &Vec<TaskId>, id: &TaskId) -> (r: bool)
    ensures
        r == id_views(v@).contains(id@),
{
    let mut j: usize = 0;
    while j < v.len()
        invariant
            j <= v@.len(),
            forall|k: int| 0 <= k < j ==> id_views(v@)[k] != id@,
        decreases v@.len() - j,
    {
        if v[j].same_id(id) {
            proof {
                assert(id_views(v@)[j as int] == id@);
            }
            return true;
        }
        j += 1;
    }
    proof {
        if id_views(v@).contains(id@) {
            let w = choose|w: int| 0 <= w < id_views(v@).len() && id_views(v@)[w] == id@;
        }
    }
    false
}

/// Builds the distinct-recency list of a history by one reverse walk.
pub fn recent_distinct_exec(h: &VecDeque<TaskId>) -> (r: Vec<TaskId>)
    ensures
        id_views(r@) == recent_distinct(id_views(h@)),
{
    let mut acc: Vec<TaskId> = Vec::new();
    let mut i: usize = h.len();
    while i > 0
        invariant
            i <= h@.len(),
            id_views(acc@) == recent_distinct(id_views(h@).skip(i as int)),
        decreases i,
    {
        let ghost before = id_views(h@).skip(i as int);
        let ghost after = id_views(h@).skip(i as int - 1);
        proof {
            assert(after.drop_first() =~= before);
            assert(after.first() == id_views(h@)[i - 1]);
            assert(after.len() > 0);
        }
        let x = &h[i - 1];
        if !contains_id(&acc, x) {
            let copy = x.clone();
            acc.push(copy);
            proof {
                assert(id_views(acc@) =~= recent_distinct(before).push(x@));
            }
        }
        i -= 1;
    }
    proof {
        assert(id_views(h@).skip(0) =~= id_views(h@));
    }
    acc
}

/// The recency rank of `id` against the distinct-recency list `rd`.
pub fn rank_in_exec(rd: &Vec<TaskId>, id: &TaskId) -> (r: usize)
    ensures
        id_views(rd@).contains(id@) ==> r == first_index_of(id_views(rd@), id@),
        !id_views(rd@).contains(id@) ==> r == id_views(rd@).len(),
{
    let mut j: usize = 0;
    while j < rd.len()
        invariant
            j <= rd@.len(),
            forall|k: int| 0 <= k < j ==> id_views(rd@)[k] != id@,
        decreases rd@.len() - j,
    {
        if rd[j].same_id(id) {
            proof {
                assert(id_views(rd@)[j as int] == id@);
                lemma_first_index_from_scan(id_views(rd@), id@, j as int);
            }
            return j;
        }
        j += 1;
    }
    proof {
        lemma_first_index_from_scan(id_views(rd@), id@, rd@.len() as int);
    }
    rd.len()
}

} // verus!
