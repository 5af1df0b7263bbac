use vstd::prelude::*;

verus! {

/// Identifier given to a task by the store; grows with each new task.
pub type TaskId = u64;

/// How a document addition merges with the documents already indexed.
#[derive(Clone, Copy, Debug, PartialEq, Eq, Structural)]
pub enum MergeStrategy {
    ReplaceDocuments,
    UpdateDocuments,
}

/// What a task asks the engine to do. Only the tag and, for document
/// additions, the count and merge strategy matter to the scheduler.
#[derive(Clone, Debug)]
pub enum TaskContent {
    DocumentAddition { documents_count: usize, merge_strategy: MergeStrategy, primary_key: Option<String> },
    DocumentDeletion,
    ClearDocuments,
    SettingsUpdate,
    IndexDeletion,
    IndexCreation { primary_key: Option<String> },
    IndexUpdate { primary_key: Option<String> },
    Dump { uid: String },
}

/// Something that happened to a task; timestamps are milliseconds since the epoch.
#[derive(Clone, Copy, Debug, PartialEq, Eq, Structural)]
pub enum TaskEvent {
    Created { timestamp: i64 },
    Batched { batch_id: TaskId, timestamp: i64 },
    Processing { timestamp: i64 },
    Succeeded { timestamp: i64 },
    Failed { timestamp: i64 },
}

impl TaskEvent {
    pub open spec fn is_terminal(self) -> bool {
        self is Succeeded || self is Failed
    }
}

#[derive(Clone, Debug)]
pub struct Task {
    pub id: TaskId,
    pub index_uid: String,
    pub content: TaskContent,
    pub events: Vec<TaskEvent>,
}

impl Task {
    pub open spec fn finished(self) -> bool {
        self.events@.len() > 0 && self.events@.last().is_terminal()
    }

    /// A task is finished once its latest event is a success or a failure.
    pub fn is_finished(&self) -> (r: bool)
        ensures
            r == self.finished(),
    {
        let n = self.events.len();
        if n == 0 {
            false
        } else {
            match self.events[n - 1] {
                TaskEvent::Succeeded { .. } | TaskEvent::Failed { .. } => true,
                _ => false,
            }
        }
    }
}

/// Out-of-band work that is not recorded in the task store.
#[derive(Clone, Debug)]
pub enum Job {
    Dump { uid: String },
    Snapshot,
}

/// A group of tasks of one index handed to the performer as a unit.
#[derive(Clone, Debug)]
pub struct Batch {
    pub id: TaskId,
    pub created_at: i64,
    pub tasks: Vec<Task>,
}

} // verus!
