use vstd::prelude::*;

use crate::task::{MergeStrategy, Task, TaskContent, TaskId};

verus! {

/// How the scheduler classifies a task for coalescing.
#[derive(Clone, Copy, Debug)]
pub enum TaskType {
    DocumentAddition { number: usize },
    DocumentsUpdate { number: usize },
    Other,
}

impl TaskType {
    /// Two kinds may share a batch when both are additions or both are
    /// updates; an index-level operation never shares one, not even with
    /// another index-level operation.
    pub open spec fn coalesces(self, other: TaskType) -> bool {
        (self is DocumentAddition && other is DocumentAddition) || (self is DocumentsUpdate
            && other is DocumentsUpdate)
    }

    /// Documents carried by the task; zero for index-level operations.
    pub open spec fn documents(self) -> nat {
        match self {
            TaskType::DocumentAddition { number } => number as nat,
            TaskType::DocumentsUpdate { number } => number as nat,
            TaskType::Other => 0,
        }
    }

    pub fn can_coalesce(&self, other: &TaskType) -> (r: bool)
        ensures
            r == self.coalesces(*other),
    {
        match (self, other) {
            (TaskType::DocumentAddition { .. }, TaskType::DocumentAddition { .. }) => true,
            (TaskType::DocumentsUpdate { .. }, TaskType::DocumentsUpdate { .. }) => true,
            _ => false,
        }
    }

    pub fn documents_count(&self) -> (r: usize)
        ensures
            r as nat == self.documents(),
    {
        match self {
            TaskType::DocumentAddition { number } => *number,
            TaskType::DocumentsUpdate { number } => *number,
            TaskType::Other => 0,
        }
    }

    /// Classifies the content of a task.
    pub fn of_content(content: &TaskContent) -> (r: TaskType)
        ensures
            r == TaskType::classify(*content),
    {
        match content {
            TaskContent::DocumentAddition {
                documents_count,
                merge_strategy: MergeStrategy::ReplaceDocuments,
                ..
            } => TaskType::DocumentAddition { number: *documents_count },
            TaskContent::DocumentAddition {
                documents_count,
                merge_strategy: MergeStrategy::UpdateDocuments,
                ..
            } => TaskType::DocumentsUpdate { number: *documents_count },
            _ => TaskType::Other,
        }
    }

    pub open spec fn classify(content: TaskContent) -> TaskType {
        match content {
            TaskContent::DocumentAddition { documents_count, merge_strategy, .. } => {
                if merge_strategy is ReplaceDocuments {
                    TaskType::DocumentAddition { number: documents_count }
                } else {
                    TaskType::DocumentsUpdate { number: documents_count }
                }
            },
            _ => TaskType::Other,
        }
    }
}

/// A task waiting in the queue: its kind and its id.
#[derive(Clone, Copy, Debug)]
pub struct PendingTask {
    pub kind: TaskType,
    pub id: TaskId,
}

/// Ids of a sequence of pending tasks.
pub open spec fn ids_of(s: Seq<PendingTask>) -> Seq<TaskId> {
    s.map_values(|t: PendingTask| t.id)
}

/// Ids strictly increase along the sequence.
pub open spec fn ascending(s: Seq<PendingTask>) -> bool {
    forall|i: int, j: int| 0 <= i < j < s.len() ==> s[i].id < s[j].id
}

/// The pending tasks of one index, kept in ascending id order so that the
/// oldest task is always at the head.
#[derive(Debug)]
pub struct TaskList {
    index: String,
    tasks: Vec<PendingTask>,
}

impl TaskList {
    #[verifier::type_invariant]
    spec fn sorted(self) -> bool {
        ascending(self.tasks@)
    }

    /// The index the list belongs to.
    pub closed spec fn index_view(self) -> Seq<char> {
        self.index@
    }

    /// The pending tasks, head first.
    pub closed spec fn pending(self) -> Seq<PendingTask> {
        self.tasks@
    }

    /// Brings the ordering of the list into a caller's proof.
    pub(crate) fn note_ascending(&self)
        ensures
            ascending(self.pending()),
    {
        proof {
            use_type_invariant(self);
        }
    }

    pub fn new(index: String) -> (r: TaskList)
        ensures
            r.index_view() == index@,
            r.pending() == Seq::<PendingTask>::empty(),
    {
        TaskList { index, tasks: Vec::new() }
    }

    pub fn index(&self) -> (r: &String)
        ensures
            r@ == self.index_view(),
    {
        &self.index
    }

    pub fn len(&self) -> (r: usize)
        ensures
            r == self.pending().len(),
    {
        self.tasks.len()
    }

    pub fn is_empty(&self) -> (r: bool)
        ensures
            r == (self.pending().len() == 0),
    {
        self.tasks.len() == 0
    }

    /// The task with the smallest id, if any.
    pub fn peek(&self) -> (r: Option<PendingTask>)
        ensures
            self.pending().len() == 0 ==> r is None,
            self.pending().len() > 0 ==> r == Some(self.pending()[0]),
    {
        if self.tasks.len() == 0 {
            None
        } else {
            Some(self.tasks[0])
        }
    }

    /// Removes and returns the task with the smallest id.
    pub fn pop(&mut self) -> (r: Option<PendingTask>)
        ensures
            final(self).index_view() == old(self).index_view(),
            old(self).pending().len() == 0 ==> (r is None) && final(self).pending() == old(self).pending(),
            old(self).pending().len() > 0 ==> r == Some(old(self).pending()[0])
                && final(self).pending() == old(self).pending().drop_first(),
    {
        if self.tasks.len() == 0 {
            return None;
        }
        proof {
            use_type_invariant(&*self);
        }
        let mut tasks = Vec::new();
        std::mem::swap(&mut tasks, &mut self.tasks);
        let head = tasks.remove(0);
        self.tasks = tasks;
        Some(head)
    }

    /// Adds a task. Its id must be above the current head's, as ids handed
    /// out by the store only grow, and not yet in the list.
    pub fn push(&mut self, task: PendingTask)
        requires
            old(self).pending().len() > 0 ==> task.id > old(self).pending()[0].id,
            forall|i: int| 0 <= i < old(self).pending().len() ==> (#[trigger] old(self).pending()[i]).id != task.id,
        ensures
            final(self).index_view() == old(self).index_view(),
            ascending(final(self).pending()),
            old(self).pending().len() > 0 ==> exists|p: int|
                0 < p <= old(self).pending().len() && final(self).pending() == old(
                    self,
                ).pending().insert(p, task),
            old(self).pending().len() == 0 ==> final(self).pending() == seq![task],
    {
        proof {
            use_type_invariant(&*self);
        }
        let mut tasks = Vec::new();
        std::mem::swap(&mut tasks, &mut self.tasks);
        let n = tasks.len();
        let mut p: usize = n;
        while p > 0 && tasks[p - 1].id > task.id
            invariant
                0 <= p <= n,
                n == tasks@.len(),
                ascending(tasks@),
                forall|j: int| p <= j < n ==> tasks@[j].id > task.id,
            decreases p,
        {
            p = p - 1;
        }
        let ghost old_tasks = tasks@;
        if n == 0 {
            tasks.push(task);
            assert(tasks@ == seq![task]);
        } else {
            assert(p > 0) by {
                if p == 0 {
                    assert(old_tasks[0].id > task.id);
                }
            }
            tasks.insert(p, task);
            assert(tasks@ == old_tasks.insert(p as int, task));
            assert(ascending(tasks@)) by {
                assert forall|i: int, j: int| 0 <= i < j < tasks@.len() implies tasks@[i].id
                    < tasks@[j].id by {
                    if j < p {
                    } else if j == p {
                        assert(old_tasks[p - 1].id <= task.id);
                        assert(old_tasks[p - 1].id != task.id);
                    } else if i == p {
                    } else if i < p {
                        assert(tasks@[j] == old_tasks[j - 1]);
                    }
                }
            }
        }
        self.tasks = tasks;
    }

    /// Removes every task, returning them in ascending id order.
    pub fn drain(&mut self) -> (r: Vec<PendingTask>)
        ensures
            final(self).index_view() == old(self).index_view(),
            r@ == old(self).pending(),
            ascending(r@),
            final(self).pending().len() == 0,
    {
        proof {
            use_type_invariant(&*self);
        }
        let mut tasks = Vec::new();
        std::mem::swap(&mut tasks, &mut self.tasks);
        tasks
    }

    /// The same tasks under another index name.
    fn renamed(self, index: String) -> (r: TaskList)
        ensures
            r.index_view() == index@,
            r.pending() == self.pending(),
    {
        proof {
            use_type_invariant(&self);
        }
        TaskList { index, tasks: self.tasks }
    }
}

/// Every list holds a task, lists are ordered, and no two share an index.
pub open spec fn queue_wf(ls: Seq<TaskList>) -> bool {
    &&& forall|i: int| 0 <= i < ls.len() ==> #[trigger] ls[i].pending().len() > 0
    &&& forall|i: int| 0 <= i < ls.len() ==> ascending(#[trigger] ls[i].pending())
    &&& forall|i: int, j: int|
        0 <= i < ls.len() && 0 <= j < ls.len() && i != j ==> #[trigger] ls[i].index_view()
            != #[trigger] ls[j].index_view()
}

/// The list at `k` has the smallest head id of all lists.
pub open spec fn is_head(ls: Seq<TaskList>, k: int) -> bool {
    &&& 0 <= k < ls.len()
    &&& forall|j: int|
        0 <= j < ls.len() ==> ls[k].pending()[0].id <= #[trigger] ls[j].pending()[0].id
}

/// Some list belongs to index `uid`.
pub open spec fn has_index(ls: Seq<TaskList>, uid: Seq<char>) -> bool {
    exists|k: int| 0 <= k < ls.len() && #[trigger] ls[k].index_view() == uid
}

/// A task with id `id` may join index `uid`: its id is above the head of
/// that index's list, if there is one, and not yet in that list.
pub open spec fn may_insert(ls: Seq<TaskList>, uid: Seq<char>, id: TaskId) -> bool {
    forall|k: int|
        0 <= k < ls.len() && #[trigger] ls[k].index_view() == uid ==> id > ls[k].pending()[0].id
            && forall|i: int| 0 <= i < ls[k].pending().len() ==> (#[trigger] ls[k].pending()[i]).id != id
}

/// `after` is `before` with `t` added to the list of index `uid`, a new list
/// being made at the end when the index had none.
pub open spec fn inserted(
    before: Seq<TaskList>,
    after: Seq<TaskList>,
    uid: Seq<char>,
    t: PendingTask,
) -> bool {
    if has_index(before, uid) {
        &&& after.len() == before.len()
        &&& forall|k: int|
            0 <= k < before.len() ==> {
                &&& (#[trigger] after[k]).index_view() == before[k].index_view()
                &&& before[k].index_view() != uid ==> after[k] == before[k]
                &&& before[k].index_view() == uid ==> exists|p: int|
                    0 < p <= before[k].pending().len() && after[k].pending() == before[k].pending().insert(
                        p,
                        t,
                    )
            }
    } else {
        &&& after.len() == before.len() + 1
        &&& after.take(before.len() as int) == before
        &&& after.last().index_view() == uid
        &&& after.last().pending() == seq![t]
    }
}

/// `after` is `before` once the head list `k` was taken out, worked on, and
/// came back holding `left`: put back at the end under its index if it still holds
/// a task, and gone otherwise.
pub open spec fn replaced_head(
    before: Seq<TaskList>,
    after: Seq<TaskList>,
    k: int,
    left: Seq<PendingTask>,
) -> bool {
    let rest = before.remove(k);
    if left.len() == 0 {
        after == rest
    } else {
        &&& after.len() == rest.len() + 1
        &&& after.take(rest.len() as int) == rest
        &&& after.last().index_view() == before[k].index_view()
        &&& after.last().pending() == left
    }
}

/// Pending tasks of every index, keyed by index name, held as one list per
/// index. The list whose head has the smallest id is served first.
pub struct TaskQueue {
    lists: Vec<TaskList>,
}

impl Default for TaskQueue {
    fn default() -> (r: TaskQueue)
        ensures
            r.lists() == Seq::<TaskList>::empty(),
            r.wf(),
    {
        TaskQueue::new()
    }
}

impl TaskQueue {
    pub closed spec fn lists(self) -> Seq<TaskList> {
        self.lists@
    }

    pub open spec fn wf(self) -> bool {
        queue_wf(self.lists())
    }

    pub fn new() -> (r: TaskQueue)
        ensures
            r.lists() == Seq::<TaskList>::empty(),
            r.wf(),
    {
        TaskQueue { lists: Vec::new() }
    }

    /// True when no index has a pending task.
    pub fn is_empty(&self) -> (r: bool)
        ensures
            r == (self.lists().len() == 0),
    {
        self.lists.len() == 0
    }

    /// Number of indexes with pending tasks.
    pub fn index_count(&self) -> (r: usize)
        ensures
            r == self.lists().len(),
    {
        self.lists.len()
    }

    /// Position of the list of index `uid`, if any.
    fn find(&self, uid: &String) -> (r: Option<usize>)
        ensures
            r is None ==> !has_index(self.lists(), uid@),
            r matches Some(k) ==> k < self.lists().len() && self.lists()[k as int].index_view()
                == uid@,
    {
        let mut i: usize = 0;
        while i < self.lists.len()
            invariant
                i <= self.lists@.len(),
                forall|j: int| 0 <= j < i ==> self.lists@[j].index_view() != uid@,
            decreases self.lists@.len() - i,
        {
            if self.lists[i].index().eq(uid) {
                return Some(i);
            }
            i = i + 1;
        }
        None
    }

    /// Adds a task to the list of its index, creating the list when the index
    /// has none. Its id must be above the head of that list.
    pub fn insert(&mut self, task: Task)
        requires
            old(self).wf(),
            may_insert(old(self).lists(), task.index_uid@, task.id),
        ensures
            final(self).wf(),
            inserted(
                old(self).lists(),
                final(self).lists(),
                task.index_uid@,
                PendingTask { kind: TaskType::classify(task.content), id: task.id },
            ),
    {
        let kind = TaskType::of_content(&task.content);
        let pending = PendingTask { kind, id: task.id };
        let uid = task.index_uid;
        match self.find(&uid) {
            Some(k) => {
                let ghost before = self.lists@;
                let mut list = self.lists.remove(k);
                list.push(pending);
                list.note_ascending();
                self.lists.insert(k, list);
                let ghost after = self.lists@;
                assert forall|j: int| 0 <= j < before.len() && j != k implies after[j]
                    == before[j] by {}
                assert forall|j: int| 0 <= j < before.len() implies {
                    &&& (#[trigger] after[j]).index_view() == before[j].index_view()
                    &&& before[j].index_view() != uid@ ==> after[j] == before[j]
                    &&& before[j].index_view() == uid@ ==> exists|p: int|
                        0 < p <= before[j].pending().len() && after[j].pending()
                            == before[j].pending().insert(p, pending)
                } by {
                    if j != k {
                        assert(before[j].index_view() != before[k as int].index_view());
                    }
                }
                assert(has_index(before, uid@));
            },
            None => {
                let ghost before = self.lists@;
                let mut list = TaskList::new(uid);
                list.push(pending);
                list.note_ascending();
                self.lists.push(list);
                assert(self.lists@.take(before.len() as int) =~= before);
            },
        }
    }

    /// Position of the list whose head has the smallest id.
    fn head_position(&self) -> (r: Option<usize>)
        requires
            self.wf(),
        ensures
            r is None <==> self.lists().len() == 0,
            r matches Some(k) ==> is_head(self.lists(), k as int),
    {
        if self.lists.len() == 0 {
            return None;
        }
        let mut best: usize = 0;
        let mut i: usize = 1;
        while i < self.lists.len()
            invariant
                self.wf(),
                1 <= i <= self.lists@.len(),
                best < i,
                forall|j: int|
                    0 <= j < i ==> self.lists@[best as int].pending()[0].id
                        <= #[trigger] self.lists@[j].pending()[0].id,
            decreases self.lists@.len() - i,
        {
            let a = self.lists[i].peek().unwrap().id;
            let b = self.lists[best].peek().unwrap().id;
            if a < b {
                best = i;
            }
            i = i + 1;
        }
        Some(best)
    }

    /// Takes out the list whose head has the smallest id.
    pub(crate) fn pop_head(&mut self) -> (r: Option<TaskList>)
        requires
            old(self).wf(),
        ensures
            final(self).wf(),
            r is None <==> old(self).lists().len() == 0,
            r is None ==> final(self).lists() == old(self).lists(),
            r matches Some(l) ==> exists|k: int|
                is_head(old(self).lists(), k) && l == old(self).lists()[k] && final(self).lists()
                    == old(self).lists().remove(k),
    {
        match self.head_position() {
            None => None,
            Some(k) => {
                let ghost before = self.lists@;
                let l = self.lists.remove(k);
                assert(queue_wf(self.lists@)) by {
                    assert forall|i: int| 0 <= i < self.lists@.len() implies #[trigger] self.lists@[i]
                        == before[if i < k { i } else { i + 1 }] by {}
                    assert forall|i: int, j: int|
                        0 <= i < self.lists@.len() && 0 <= j < self.lists@.len() && i != j implies #[trigger] self.lists@[i].index_view()
                        != #[trigger] self.lists@[j].index_view() by {
                        let bi = if i < k { i } else { i + 1 };
                        let bj = if j < k { j } else { j + 1 };
                        assert(self.lists@[i] == before[bi]);
                        assert(self.lists@[j] == before[bj]);
                    }
                }
                Some(l)
            },
        }
    }

    /// Puts a list taken from the head back in place, or forgets it when it
    /// holds no task any more.
    pub(crate) fn restore(&mut self, list: TaskList)
        requires
            old(self).wf(),
            forall|j: int|
                0 <= j < old(self).lists().len() ==> #[trigger] old(self).lists()[j].index_view()
                    != list.index_view(),
        ensures
            final(self).wf(),
            list.pending().len() == 0 ==> final(self).lists() == old(self).lists(),
            list.pending().len() > 0 ==> final(self).lists() == old(self).lists().push(list),
    {
        list.note_ascending();
        if !list.is_empty() {
            self.lists.push(list);
        }
    }

    /// Hands the list of the next index to serve to `f`, which gives it back
    /// with a result. The list comes back under its own index name: in the
    /// queue again if it still holds a task, removed from it otherwise.
    /// Returns `f`'s result, or `None` when no task is pending.
    pub fn head_mut<R, F: FnOnce(TaskList) -> (TaskList, R)>(&mut self, f: F) -> (r: Option<R>)
        requires
            old(self).wf(),
            forall|l: TaskList| f.requires((l,)),
        ensures
            final(self).wf(),
            r is None <==> old(self).lists().len() == 0,
            r is None ==> final(self).lists() == old(self).lists(),
            r matches Some(v) ==> exists|k: int, out: TaskList|
                {
                    &&& is_head(old(self).lists(), k)
                    &&& f.ensures((old(self).lists()[k],), (out, v))
                    &&& replaced_head(old(self).lists(), final(self).lists(), k, out.pending())
                },
    {
        let ghost before = self.lists@;
        let head = match self.pop_head() {
            None => return None,
            Some(l) => l,
        };
        let ghost k = choose|k: int| is_head(before, k) && head == before[k] && self.lists@ == before.remove(k);
        let index = head.index().clone();
        let (out, v) = f(head);
        let ghost out_pending = out.pending();
        let list = out.renamed(index);
        assert forall|j: int| 0 <= j < self.lists@.len() implies #[trigger] self.lists@[j].index_view()
            != list.index_view() by {
            let bj = if j < k { j } else { j + 1 };
            assert(self.lists@[j] == before[bj]);
        }
        let ghost rest = self.lists@;
        self.restore(list);
        assert(list.pending().len() > 0 ==> self.lists@.take(rest.len() as int) =~= rest);
        assert(replaced_head(before, self.lists@, k, out.pending()));
        Some(v)
    }
}

/// The list served first holds the smallest pending id of the whole queue.
pub proof fn lemma_head_holds_smallest_id(q: TaskQueue, k: int)
    requires
        q.wf(),
        is_head(q.lists(), k),
    ensures
        forall|j: int, i: int|
            0 <= j < q.lists().len() && 0 <= i < q.lists()[j].pending().len() ==> q.lists()[k].pending()[0].id
                <= #[trigger] q.lists()[j].pending()[i].id,
{
    assert forall|j: int, i: int|
        0 <= j < q.lists().len() && 0 <= i < q.lists()[j].pending().len() implies q.lists()[k].pending()[0].id
        <= #[trigger] q.lists()[j].pending()[i].id by {
        assert(ascending(q.lists()[j].pending()));
        assert(q.lists()[k].pending()[0].id <= q.lists()[j].pending()[0].id);
    }
}

/// Index `uid` has the pending task `x`.
pub open spec fn holds(ls: Seq<TaskList>, uid: Seq<char>, x: PendingTask) -> bool {
    exists|k: int, i: int|
        0 <= k < ls.len() && 0 <= i < ls[k].pending().len() && #[trigger] ls[k].index_view()
            == uid && #[trigger] ls[k].pending()[i] == x
}

/// No id is pending twice, under one index or under two.
pub open spec fn distinct_ids(ls: Seq<TaskList>) -> bool {
    forall|u1: Seq<char>, x1: PendingTask, u2: Seq<char>, x2: PendingTask|
        #![trigger holds(ls, u1, x1), holds(ls, u2, x2)]
        holds(ls, u1, x1) && holds(ls, u2, x2) && x1.id == x2.id ==> u1 == u2 && x1 == x2
}

/// After an insertion, the pending tasks are those from before and the new one.
pub proof fn lemma_inserted_holds(
    before: Seq<TaskList>,
    after: Seq<TaskList>,
    uid: Seq<char>,
    t: PendingTask,
)
    requires
        inserted(before, after, uid, t),
    ensures
        forall|u: Seq<char>, x: PendingTask|
            holds(after, u, x) <==> holds(before, u, x) || (u == uid && x == t),
{
    assert forall|u: Seq<char>, x: PendingTask|
        holds(after, u, x) <==> holds(before, u, x) || (u == uid && x == t) by {
        if has_index(before, uid) {
            let k0 = choose|k: int| 0 <= k < before.len() && #[trigger] before[k].index_view() == uid;
            assert(after[k0].index_view() == before[k0].index_view());
            let p = choose|p: int|
                0 < p <= before[k0].pending().len() && after[k0].pending() == before[k0].pending().insert(
                    p,
                    t,
                );
            if holds(after, u, x) {
                let (k, i) = choose|k: int, i: int|
                    0 <= k < after.len() && 0 <= i < after[k].pending().len() && #[trigger] after[k].index_view()
                        == u && #[trigger] after[k].pending()[i] == x;
                assert(after[k].index_view() == before[k].index_view());
                if before[k].index_view() != uid {
                    assert(before[k].pending()[i] == x);
                } else {
                    let q = choose|q: int|
                        0 < q <= before[k].pending().len() && after[k].pending() == before[k].pending().insert(
                            q,
                            t,
                        );
                    if i < q {
                        assert(before[k].pending()[i] == x);
                    } else if i > q {
                        assert(before[k].pending()[i - 1] == x);
                    }
                }
            }
            if holds(before, u, x) {
                let (k, i) = choose|k: int, i: int|
                    0 <= k < before.len() && 0 <= i < before[k].pending().len() && #[trigger] before[k].index_view()
                        == u && #[trigger] before[k].pending()[i] == x;
                assert(after[k].index_view() == before[k].index_view());
                if before[k].index_view() != uid {
                    assert(after[k].pending()[i] == x);
                } else {
                    let q = choose|q: int|
                        0 < q <= before[k].pending().len() && after[k].pending() == before[k].pending().insert(
                            q,
                            t,
                        );
                    if i < q {
                        assert(after[k].pending()[i] == x);
                    } else {
                        assert(after[k].pending()[i + 1] == x);
                    }
                }
            }
            if u == uid && x == t {
                assert(after[k0].pending()[p] == x);
            }
        } else {
            let n = before.len() as int;
            if holds(after, u, x) {
                let (k, i) = choose|k: int, i: int|
                    0 <= k < after.len() && 0 <= i < after[k].pending().len() && #[trigger] after[k].index_view()
                        == u && #[trigger] after[k].pending()[i] == x;
                if k < n {
                    assert(after[k] == after.take(n)[k]);
                    assert(before[k].pending()[i] == x);
                }
            }
            if holds(before, u, x) {
                let (k, i) = choose|k: int, i: int|
                    0 <= k < before.len() && 0 <= i < before[k].pending().len() && #[trigger] before[k].index_view()
                        == u && #[trigger] before[k].pending()[i] == x;
                assert(after[k] == after.take(n)[k]);
                assert(after[k].pending()[i] == x);
            }
            if u == uid && x == t {
                assert(after[n].pending()[0] == x);
            }
        }
    }
}

/// Taking tasks from the head of list `k` adds no pending task.
pub proof fn lemma_replaced_head_holds(
    before: Seq<TaskList>,
    after: Seq<TaskList>,
    k: int,
    m: int,
    u: Seq<char>,
    x: PendingTask,
)
    requires
        0 <= k < before.len(),
        0 <= m <= before[k].pending().len(),
        replaced_head(before, after, k, before[k].pending().skip(m)),
        holds(after, u, x),
    ensures
        holds(before, u, x),
{
    let rest = before.remove(k);
    let left = before[k].pending().skip(m);
    let (j, i) = choose|j: int, i: int|
        0 <= j < after.len() && 0 <= i < after[j].pending().len() && #[trigger] after[j].index_view()
            == u && #[trigger] after[j].pending()[i] == x;
    if j < rest.len() {
        if left.len() > 0 {
            assert(after[j] == after.take(rest.len() as int)[j]);
        }
        let bj = if j < k { j } else { j + 1 };
        assert(after[j] == before[bj]);
        assert(before[bj].pending()[i] == x);
    } else {
        assert(before[k].pending()[i + m] == x);
    }
}

/// A head list that came back empty leaves no list of its index behind.
pub proof fn lemma_emptied_list_is_forgotten(
    before: Seq<TaskList>,
    after: Seq<TaskList>,
    k: int,
    left: Seq<PendingTask>,
)
    requires
        queue_wf(before),
        0 <= k < before.len(),
        left.len() == 0,
        replaced_head(before, after, k, left),
    ensures
        forall|j: int| 0 <= j < after.len() ==> #[trigger] after[j].index_view() != before[k].index_view(),
{
    assert forall|j: int| 0 <= j < after.len() implies #[trigger] after[j].index_view()
        != before[k].index_view() by {
        let bj = if j < k { j } else { j + 1 };
        assert(after[j] == before[bj]);
    }
}

} // verus!
