//! The task data model: task identifiers, tasks, worktree identities,
//! source kinds and the cached state of a registered source.

use vstd::prelude::*;

verus! {

use crate::order::name_le;

/// Opaque, equality-comparable value naming one task instance.
pub struct TaskId {
    pub text: String,
}

impl View for TaskId {
    type V = Seq<char>;

    open spec fn view(&self) -> Seq<char> {
        self.text@
    }
}

impl TaskId {
    pub fn new(text: String) -> (r: TaskId)
        ensures
            r@ == text@,
    {
        TaskId { text }
    }

    pub fn same_id(&self, other: &TaskId) -> (r: bool)
        ensures
            r == (self@ == other@),
    {
        self.text.eq(&other.text)
    }
}

impl Clone for TaskId {
    fn clone(&self) -> (r: Self)
        ensures
            r@ == self@,
    {
        TaskId { text: self.text.clone() }
    }
}

/// An immutable, identifiable, named runnable definition. The registry
/// treats it as opaque except for its identifier and display name.
pub struct Task {
    pub id: TaskId,
    pub name: String,
}

pub ghost struct TaskView {
    pub id: Seq<char>,
    pub name: Seq<char>,
}

impl View for Task {
    type V = TaskView;

    open spec fn view(&self) -> TaskView {
        TaskView { id: self.id@, name: self.name@ }
    }
}

impl Task {
    pub fn new(id: TaskId, name: String) -> (r: Task)
        ensures
            r@ == (TaskView { id: id@, name: name@ }),
    {
        Task { id, name }
    }
}

impl Clone for Task {
    fn clone(&self) -> (r: Self)
        ensures
            r@ == self@,
    {
        Task { id: self.id.clone(), name: self.name.clone() }
    }
}

/// Opaque identity of a project worktree.
#[derive(Clone, Copy, PartialEq, Eq, Structural)]
pub struct WorktreeId {
    pub id: u64,
}

/// Where a registered source's task definitions come from.
pub enum TaskSourceKind {
    /// Ad-hoc definitions, not tied to any path.
    UserInput,
    /// Definitions rooted at one absolute filesystem path.
    AbsPath { abs_path: String },
    /// Definitions rooted at one project worktree.
    Worktree { id: WorktreeId, abs_path: String },
}

pub ghost enum TaskSourceKindView {
    UserInput,
    AbsPath { abs_path: Seq<char> },
    Worktree { id: u64, abs_path: Seq<char> },
}

impl View for TaskSourceKind {
    type V = TaskSourceKindView;

    open spec fn view(&self) -> TaskSourceKindView {
        match self {
            TaskSourceKind::UserInput => TaskSourceKindView::UserInput,
            TaskSourceKind::AbsPath { abs_path } => TaskSourceKindView::AbsPath {
                abs_path: abs_path@,
            },
            TaskSourceKind::Worktree { id, abs_path } => TaskSourceKindView::Worktree {
                id: id.id,
                abs_path: abs_path@,
            },
        }
    }
}

/// The absolute path a kind is rooted at, if it has one.
pub open spec fn kind_abs_path(k: TaskSourceKindView) -> Option<Seq<char>> {
    match k {
        TaskSourceKindView::UserInput => None,
        TaskSourceKindView::AbsPath { abs_path } => Some(abs_path),
        TaskSourceKindView::Worktree { abs_path, .. } => Some(abs_path),
    }
}

/// The worktree a kind is scoped to, if any.
pub open spec fn kind_worktree(k: TaskSourceKindView) -> Option<u64> {
    match k {
        TaskSourceKindView::Worktree { id, .. } => Some(id),
        _ => None,
    }
}

impl TaskSourceKind {
    /// The absolute path this kind is rooted at, if it has one.
    pub fn abs_path(&self) -> (r: Option<&String>)
        ensures
            match r {
                Some(p) => kind_abs_path(self@) == Some(p@),
                None => kind_abs_path(self@) is None,
            },
    {
        match self {
            TaskSourceKind::AbsPath { abs_path } => Some(abs_path),
            TaskSourceKind::Worktree { abs_path, .. } => Some(abs_path),
            TaskSourceKind::UserInput => None,
        }
    }

    /// The worktree this kind is scoped to, if any.
    pub fn worktree(&self) -> (r: Option<WorktreeId>)
        ensures
            match r {
                Some(w) => kind_worktree(self@) == Some(w.id),
                None => kind_worktree(self@) is None,
            },
    {
        match self {
            TaskSourceKind::Worktree { id, .. } => Some(*id),
            _ => None,
        }
    }

    /// Whether this kind is rooted at exactly the given absolute path.
    pub fn has_abs_path(&self, path: &String) -> (r: bool)
        ensures
            r == (kind_abs_path(self@) == Some(path@)),
    {
        match self {
            TaskSourceKind::AbsPath { abs_path } => abs_path.eq(path),
            TaskSourceKind::Worktree { abs_path, .. } => abs_path.eq(path),
            TaskSourceKind::UserInput => false,
        }
    }
}

impl Clone for TaskSourceKind {
    fn clone(&self) -> (r: Self)
        ensures
            r@ == self@,
    {
        match self {
            TaskSourceKind::UserInput => TaskSourceKind::UserInput,
            TaskSourceKind::AbsPath { abs_path } => TaskSourceKind::AbsPath {
                abs_path: abs_path.clone(),
            },
            TaskSourceKind::Worktree { id, abs_path } => TaskSourceKind::Worktree {
                id: *id,
                abs_path: abs_path.clone(),
            },
        }
    }
}

/// The registry-side state of one task provider: the classification token
/// of its concrete type and the task definitions it currently serves.
pub struct StaticSource {
    pub type_id: u64,
    pub tasks: Vec<Task>,
}

pub ghost struct StaticSourceView {
    pub type_id: u64,
    pub tasks: Seq<TaskView>,
}

pub open spec fn task_views(s: Seq<Task>) -> Seq<TaskView> {
    s.map_values(|t: Task| t@)
}

impl View for StaticSource {
    type V = StaticSourceView;

    open spec fn view(&self) -> StaticSourceView {
        StaticSourceView { type_id: self.type_id, tasks: task_views(self.tasks@) }
    }
}

impl Clone for StaticSource {
    fn clone(&self) -> (r: Self)
        ensures
            r@ == self@,
    {
        StaticSource { type_id: self.type_id, tasks: self.tasks_for_path(None) }
    }
}

impl StaticSource {
    pub fn new(type_id: u64, tasks: Vec<Task>) -> (r: StaticSource)
        ensures
            r@ == (StaticSourceView { type_id, tasks: task_views(tasks@) }),
    {
        StaticSource { type_id, tasks }
    }

    /// The tasks this source serves for the given path. A static source
    /// answers from its cached definitions for every path, including none.
    pub fn tasks_for_path(&self, path: Option<&str>) -> (r: Vec<Task>)
        ensures
            task_views(r@) == self@.tasks,
    {
        let mut out: Vec<Task> = Vec::new();
        let mut i: usize = 0;
        while i < self.tasks.len()
            invariant
                i <= self.tasks@.len(),
                out@.len() == i,
                forall|k: int| 0 <= k < i ==> #[trigger] out@[k]@ == self.tasks@[k]@,
            decreases self.tasks@.len() - i,
        {
            out.push(self.tasks[i].clone());
            i += 1;
        }
        proof {
            assert(task_views(out@) =~= task_views(self.tasks@));
        }
        out
    }
}

/// A name-ordering comparison on two tasks, used by listing queries.
pub fn task_name_le(a: &Task, b: &Task) -> (r: bool)
    ensures
        r == name_le(a@.name, b@.name),
{
    crate::order::name_le_str(a.name.as_str(), b.name.as_str())
}

} // verus!
