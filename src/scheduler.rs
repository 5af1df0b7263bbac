use vstd::prelude::*;

use crate::queue::{
    distinct_ids, holds, ids_of, is_head, lemma_inserted_holds, lemma_replaced_head_holds, may_insert,
    queue_wf, replaced_head, PendingTask, TaskList, TaskQueue, TaskType,
};
use crate::task::{Batch, Job, Task, TaskEvent, TaskId};

verus! {

/// Upper bound on the tasks of one batch when none is configured.
pub const DEFAULT_MAX_BATCH_SIZE: usize = usize::MAX;

/// Options of the scheduler.
#[derive(Clone, Copy, Debug)]
pub struct SchedulerConfig {
    /// Most tasks in one batch; taken as one when zero.
    pub max_batch_size: usize,
    /// Most documents in one batch, checked after each task is added.
    pub max_documents_per_batch: Option<usize>,
    /// Seconds to wait for more tasks before a batch is made.
    pub debounce_duration_sec: Option<u64>,
}

impl Default for SchedulerConfig {
    fn default() -> (r: SchedulerConfig)
        ensures
            r.max_batch_size == DEFAULT_MAX_BATCH_SIZE,
            r.max_documents_per_batch is None,
            r.debounce_duration_sec is None,
    {
        SchedulerConfig {
            max_batch_size: DEFAULT_MAX_BATCH_SIZE,
            max_documents_per_batch: None,
            debounce_duration_sec: None,
        }
    }
}

impl SchedulerConfig {
    /// The wait before a batch is made, in seconds; none when unset or zero.
    pub fn debounce_seconds(&self) -> (r: Option<u64>)
        ensures
            r == (match self.debounce_duration_sec {
                Some(v) => if v > 0 {
                    Some(v)
                } else {
                    None
                },
                None => None,
            }),
    {
        match self.debounce_duration_sec {
            Some(v) => if v > 0 {
                Some(v)
            } else {
                None
            },
            None => None,
        }
    }
}

/// Most tasks in a batch under `cfg`.
pub open spec fn batch_limit(cfg: SchedulerConfig) -> nat {
    if cfg.max_batch_size == 0 {
        1
    } else {
        cfg.max_batch_size as nat
    }
}

/// Document count at which a batch stops growing under `cfg`.
pub open spec fn document_cap(cfg: SchedulerConfig) -> nat {
    match cfg.max_documents_per_batch {
        Some(c) => c as nat,
        None => usize::MAX as nat,
    }
}

/// Documents of the tasks at positions `a` up to `b` (excluded).
pub open spec fn documents_between(s: Seq<PendingTask>, a: nat, b: nat) -> nat
    decreases b - a,
{
    if a >= b || a >= s.len() {
        0
    } else {
        s[a as int].kind.documents() + documents_between(s, a + 1, b)
    }
}

/// End of a run of tasks of the same kind as `kind` that starts at `i`
/// after `docs` documents were already taken: a task joins while it
/// coalesces with `kind` and the batch is under `limit` tasks; it stops the
/// run after joining when the documents reach `cap`.
pub open spec fn coalesced_end(
    s: Seq<PendingTask>,
    kind: TaskType,
    limit: nat,
    cap: nat,
    i: nat,
    docs: nat,
) -> nat
    decreases s.len() - i,
{
    if i >= s.len() || !s[i as int].kind.coalesces(kind) || i >= limit {
        i
    } else if docs + s[i as int].kind.documents() >= cap {
        i + 1
    } else {
        coalesced_end(s, kind, limit, cap, i + 1, docs + s[i as int].kind.documents())
    }
}

/// How many tasks from the head of `s` go into the next batch: an
/// index-level operation alone, or a run of document tasks of one kind.
pub open spec fn batch_len(s: Seq<PendingTask>, cfg: SchedulerConfig) -> nat {
    if s.len() == 0 {
        0
    } else if s[0].kind is Other {
        1
    } else {
        coalesced_end(s, s[0].kind, batch_limit(cfg), document_cap(cfg), 0, 0)
    }
}

/// The tasks from the head of `s` that form the next batch.
pub open spec fn batch_of(s: Seq<PendingTask>, cfg: SchedulerConfig) -> Seq<PendingTask> {
    s.take(batch_len(s, cfg) as int)
}

proof fn lemma_coalesced_end(
    s: Seq<PendingTask>,
    kind: TaskType,
    limit: nat,
    cap: nat,
    i: nat,
    docs: nat,
)
    requires
        i <= s.len(),
    ensures
        i <= coalesced_end(s, kind, limit, cap, i, docs) <= s.len(),
        i < s.len() && s[i as int].kind.coalesces(kind) && i < limit ==> coalesced_end(
            s,
            kind,
            limit,
            cap,
            i,
            docs,
        ) > i,
        coalesced_end(s, kind, limit, cap, i, docs) <= if i > limit {
            i
        } else {
            limit
        },
        forall|j: int|
            i <= j < coalesced_end(s, kind, limit, cap, i, docs) ==> (#[trigger] s[j]).kind.coalesces(
                kind,
            ),
        docs < cap && coalesced_end(s, kind, limit, cap, i, docs) > i ==> docs + documents_between(
            s,
            i,
            (coalesced_end(s, kind, limit, cap, i, docs) - 1) as nat,
        ) < cap,
    decreases s.len() - i,
{
    if i >= s.len() || !s[i as int].kind.coalesces(kind) || i >= limit {
    } else if docs + s[i as int].kind.documents() >= cap {
    } else {
        let d = docs + s[i as int].kind.documents();
        lemma_coalesced_end(s, kind, limit, cap, i + 1, d);
    }
}

/// Runs the batching policy on the list that holds the smallest pending id:
/// the ids of the batch go to `processing`, and the list keeps the rest.
/// A batch never takes tasks from more than one index.
pub fn make_batch(tasks: &mut TaskQueue, processing: &mut Vec<TaskId>, config: &SchedulerConfig)
    requires
        old(tasks).wf(),
        old(processing)@.len() == 0,
    ensures
        final(tasks).wf(),
        old(tasks).lists().len() == 0 ==> final(processing)@.len() == 0 && final(tasks).lists()
            == old(tasks).lists(),
        old(tasks).lists().len() > 0 ==> exists|k: int|
            {
                let s = #[trigger] old(tasks).lists()[k].pending();
                &&& is_head(old(tasks).lists(), k)
                &&& final(processing)@ == ids_of(batch_of(s, *config))
                &&& replaced_head(
                    old(tasks).lists(),
                    final(tasks).lists(),
                    k,
                    s.skip(batch_len(s, *config) as int),
                )
                &&& forall|i: int|
                    0 <= i < final(processing)@.len() ==> ids_of(s).contains(
                        #[trigger] final(processing)@[i],
                    )
            },
        distinct_ids(old(tasks).lists()) ==> forall|u: Seq<char>, x: PendingTask|
            #![trigger holds(final(tasks).lists(), u, x)]
            holds(final(tasks).lists(), u, x) ==> !final(processing)@.contains(x.id),
{
    let ghost before = tasks.lists();
    let mut list = match tasks.pop_head() {
        None => return ,
        Some(l) => l,
    };
    let ghost k = choose|k: int|
        is_head(before, k) && list == before[k] && tasks.lists() == before.remove(k);
    let ghost s = list.pending();
    let ghost idx = list.index_view();
    let first = list.peek().unwrap();
    match first.kind {
        TaskType::Other => {
            list.pop();
            processing.push(first.id);
            assert(processing@ =~= ids_of(s.take(1)));
        },
        _ => {
            let kind = first.kind;
            let limit: usize = if config.max_batch_size == 0 {
                1
            } else {
                config.max_batch_size
            };
            let cap: usize = match config.max_documents_per_batch {
                Some(c) => c,
                None => usize::MAX,
            };
            let mut doc_count: usize = 0;
            proof {
                lemma_coalesced_end(s, kind, limit as nat, cap as nat, 0, 0);
                assert(processing@ =~= ids_of(s.take(0)));
                assert(list.pending() =~= s.skip(0));
            }
            loop
                invariant_except_break
                    processing@.len() > 0 ==> doc_count < cap,
                    processing@.len() == 0 ==> doc_count == 0,
                    coalesced_end(s, kind, limit as nat, cap as nat, 0, 0) == coalesced_end(
                        s,
                        kind,
                        limit as nat,
                        cap as nat,
                        processing@.len() as nat,
                        doc_count as nat,
                    ),
                invariant
                    list.index_view() == idx,
                    processing@.len() <= s.len(),
                    list.pending() == s.skip(processing@.len() as int),
                    processing@ == ids_of(s.take(processing@.len() as int)),
                ensures
                    list.index_view() == idx,
                    processing@.len() <= s.len(),
                    list.pending() == s.skip(processing@.len() as int),
                    processing@ == ids_of(s.take(processing@.len() as int)),
                    coalesced_end(s, kind, limit as nat, cap as nat, 0, 0) == processing@.len(),
                decreases s.len() - processing@.len(),
            {
                let ghost i: int = processing@.len() as int;
                match list.peek() {
                    Some(p) => {
                        if !p.kind.can_coalesce(&kind) {
                            break ;
                        }
                        if processing.len() >= limit {
                            break ;
                        }
                        list.pop();
                        processing.push(p.id);
                        let n = p.kind.documents_count();
                        proof {
                            assert(p == s[i]);
                            assert(list.pending() =~= s.skip(i + 1));
                            assert(processing@ =~= ids_of(s.take(i + 1)));
                        }
                        doc_count = doc_count.saturating_add(n);
                        if doc_count >= cap {
                            break ;
                        }
                    },
                    None => {
                        break ;
                    },
                }
            }
            assert(s[0].kind == kind);
        },
    }
    proof {
        lemma_batch_bounds(s, *config);
        assert(batch_of(s, *config) =~= s.take(processing@.len() as int));
        assert forall|i: int| 0 <= i < processing@.len() implies ids_of(s).contains(
            #[trigger] processing@[i],
        ) by {
            assert(ids_of(s)[i] == processing@[i]);
        }
        assert forall|j: int| 0 <= j < tasks.lists().len() implies #[trigger] tasks.lists()[j].index_view()
            != list.index_view() by {
            let bj = if j < k { j } else { j + 1 };
            assert(tasks.lists()[j] == before[bj]);
        }
    }
    let ghost rest = tasks.lists();
    tasks.restore(list);
    assert(list.pending().len() > 0 ==> tasks.lists().take(rest.len() as int) =~= rest);
    proof {
        if distinct_ids(before) {
            lemma_batched_ids_leave_queue(before, tasks.lists(), k, *config);
        }
    }
}

/// A batch is a prefix of the list it comes from: it takes at least one
/// task when the list holds one, and never more than the size limit.
pub proof fn lemma_batch_bounds(s: Seq<PendingTask>, cfg: SchedulerConfig)
    ensures
        batch_len(s, cfg) <= s.len(),
        s.len() > 0 ==> batch_len(s, cfg) >= 1,
        batch_len(s, cfg) <= batch_limit(cfg),
{
    if s.len() > 0 && !(s[0].kind is Other) {
        lemma_coalesced_end(s, s[0].kind, batch_limit(cfg), document_cap(cfg), 0, 0);
        assert(s[0].kind.coalesces(s[0].kind));
    }
}

/// Once a batch is taken from the head list, none of its ids is pending any
/// more, under any index.
pub proof fn lemma_batched_ids_leave_queue(
    before: Seq<TaskList>,
    after: Seq<TaskList>,
    k: int,
    cfg: SchedulerConfig,
)
    requires
        queue_wf(before),
        distinct_ids(before),
        is_head(before, k),
        replaced_head(
            before,
            after,
            k,
            before[k].pending().skip(batch_len(before[k].pending(), cfg) as int),
        ),
    ensures
        forall|u: Seq<char>, x: PendingTask|
            #![trigger holds(after, u, x)]
            holds(after, u, x) ==> !ids_of(batch_of(before[k].pending(), cfg)).contains(x.id),
{
    let s = before[k].pending();
    let n = batch_len(s, cfg) as int;
    let rest = before.remove(k);
    let left = s.skip(n);
    lemma_batch_bounds(s, cfg);
    assert forall|u: Seq<char>, x: PendingTask| holds(after, u, x) implies !ids_of(
        batch_of(s, cfg),
    ).contains(x.id) by {
        let (j, i) = choose|j: int, i: int|
            0 <= j < after.len() && 0 <= i < after[j].pending().len() && #[trigger] after[j].index_view()
                == u && #[trigger] after[j].pending()[i] == x;
        if ids_of(batch_of(s, cfg)).contains(x.id) {
            let b = choose|b: int| 0 <= b < n && #[trigger] ids_of(batch_of(s, cfg))[b] == x.id;
            assert(s[b].id == x.id);
            if j < rest.len() {
                if left.len() > 0 {
                    assert(after[j] == after.take(rest.len() as int)[j]);
                }
                let bj = if j < k { j } else { j + 1 };
                assert(after[j] == before[bj]);
                assert(holds(before, before[bj].index_view(), x));
                assert(holds(before, before[k].index_view(), s[b]));
                assert(before[bj].index_view() != before[k].index_view());
            } else {
                assert(x == s[n + i]);
                assert(s[b].id < s[n + i].id);
            }
        }
    }
}

/// A batch holds either one index-level operation alone, or one or more
/// document tasks that all coalesce with the first one.
pub proof fn lemma_batch_shape(s: Seq<PendingTask>, cfg: SchedulerConfig)
    requires
        s.len() > 0,
    ensures
        ({
            let b = batch_of(s, cfg);
            ||| b.len() == 1 && b[0].kind is Other
            ||| b.len() >= 1 && !(b[0].kind is Other) && forall|i: int|
                0 <= i < b.len() ==> (#[trigger] b[i]).kind.coalesces(b[0].kind)
        }),
{
    lemma_batch_bounds(s, cfg);
    if !(s[0].kind is Other) {
        lemma_coalesced_end(s, s[0].kind, batch_limit(cfg), document_cap(cfg), 0, 0);
    }
}

/// A batch never holds both a document addition and a documents update.
pub proof fn lemma_batch_never_mixes(s: Seq<PendingTask>, cfg: SchedulerConfig)
    ensures
        forall|i: int, j: int|
            0 <= i < batch_len(s, cfg) && 0 <= j < batch_len(s, cfg) ==> !((#[trigger] batch_of(
                s,
                cfg,
            )[i]).kind is DocumentAddition && (#[trigger] batch_of(s, cfg)[j]).kind is DocumentsUpdate),
{
    lemma_batch_bounds(s, cfg);
    if s.len() > 0 {
        lemma_batch_shape(s, cfg);
        let b = batch_of(s, cfg);
        assert forall|i: int, j: int| 0 <= i < b.len() && 0 <= j < b.len() implies !((
        #[trigger] b[i]).kind is DocumentAddition && (#[trigger] b[j]).kind is DocumentsUpdate) by {
            if !(b[0].kind is Other) {
                assert(b[i].kind.coalesces(b[0].kind));
                assert(b[j].kind.coalesces(b[0].kind));
            }
        }
    }
}

proof fn lemma_documents_of_prefix(s: Seq<PendingTask>, n: int, a: nat, b: nat)
    requires
        b <= n <= s.len(),
    ensures
        documents_between(s.take(n), a, b) == documents_between(s, a, b),
    decreases b - a,
{
    if a < b {
        lemma_documents_of_prefix(s, n, a + 1, b);
    }
}

/// With a document cap, the tasks of a batch before its last one carry fewer
/// documents than the cap: only the last task may push the count over it.
pub proof fn lemma_batch_documents_under_cap(s: Seq<PendingTask>, cfg: SchedulerConfig)
    requires
        cfg.max_documents_per_batch matches Some(c) && c > 0,
    ensures
        ({
            let b = batch_of(s, cfg);
            b.len() > 0 ==> documents_between(b, 0, (b.len() - 1) as nat) < document_cap(cfg)
        }),
{
    lemma_batch_bounds(s, cfg);
    if s.len() > 0 && !(s[0].kind is Other) {
        lemma_coalesced_end(s, s[0].kind, batch_limit(cfg), document_cap(cfg), 0, 0);
    }
    let n = batch_len(s, cfg);
    if n > 0 {
        lemma_documents_of_prefix(s, n as int, 0, (n - 1) as nat);
    }
}

/// What the scheduler hands to the performer next.
#[derive(Debug)]
pub enum Pending {
    Batch(Batch),
    Job(Job),
    Nothing,
}

/// Failures of the scheduler itself.
#[derive(Clone, Copy, Debug, PartialEq, Eq, Structural)]
pub enum SchedulerError {
    /// The store answered a batch with no task, or with ids that do not
    /// match its tasks.
    InvalidBatch,
}

/// Scheduler state: the jobs to run, the pending tasks, the ids of the batch
/// being processed, and the next id to ask the store for.
pub struct Scheduler {
    jobs: Vec<Job>,
    tasks: TaskQueue,
    processing: Vec<TaskId>,
    next_fetched_task_id: TaskId,
    config: SchedulerConfig,
}

/// `a` is `b` with some elements left out, the others kept in order.
pub open spec fn subsequence(a: Seq<TaskId>, b: Seq<TaskId>) -> bool
    decreases b.len(),
{
    if a.len() == 0 {
        true
    } else if b.len() == 0 {
        false
    } else if a[0] == b[0] {
        subsequence(a.drop_first(), b.drop_first())
    } else {
        subsequence(a, b.drop_first())
    }
}

/// Whether `a` is a subsequence of `b`.
fn is_subsequence(a: &Vec<TaskId>, b: &Vec<TaskId>) -> (r: bool)
    ensures
        r == subsequence(a@, b@),
{
    let mut i: usize = 0;
    let mut j: usize = 0;
    proof {
        assert(a@.skip(0) =~= a@);
        assert(b@.skip(0) =~= b@);
    }
    while i < a.len() && j < b.len()
        invariant
            i <= a@.len(),
            j <= b@.len(),
            subsequence(a@, b@) == subsequence(a@.skip(i as int), b@.skip(j as int)),
        decreases b@.len() - j,
    {
        proof {
            assert(a@.skip(i as int).drop_first() =~= a@.skip(i + 1));
            assert(b@.skip(j as int).drop_first() =~= b@.skip(j + 1));
        }
        if a[i] == b[j] {
            i = i + 1;
        }
        j = j + 1;
    }
    i == a.len()
}

/// The store answered a request for the ids `requested` consistently: at
/// least one task, the ids of the tasks in the order of `ids`, and only ids
/// that were requested, in the requested order.
pub open spec fn consistent_answer(requested: Seq<TaskId>, ids: Seq<TaskId>, tasks: Seq<Task>) -> bool {
    &&& subsequence(ids, requested)
    &&& tasks.len() > 0
    &&& ids.len() == tasks.len()
    &&& forall|i: int| 0 <= i < ids.len() ==> ids[i] == (#[trigger] tasks[i]).id
}

/// `after` is `before` with the batch event appended to its events.
pub open spec fn batched_task(before: Task, after: Task, batch_id: TaskId, now: i64) -> bool {
    &&& after.id == before.id
    &&& after.index_uid@ == before.index_uid@
    &&& after.content == before.content
    &&& after.events@ == before.events@.push(
        TaskEvent::Batched { batch_id, timestamp: now },
    )
}

/// `after` is `before` with its processing list cleared and nothing else changed.
pub open spec fn after_finish(before: Scheduler, after: Scheduler) -> bool {
    &&& after.processing().len() == 0
    &&& after.jobs() == before.jobs()
    &&& after.queue().lists() == before.queue().lists()
    &&& after.next_id() == before.next_id()
    &&& after.config() == before.config()
}

/// Store answers to a fetch: unfinished tasks with ids from `after` on, in
/// strictly descending id order.
pub open spec fn fetch_answer(fetched: Seq<Task>, after: TaskId) -> bool {
    &&& forall|i: int| 0 <= i < fetched.len() ==> !(#[trigger] fetched[i]).finished()
    &&& forall|i: int| 0 <= i < fetched.len() ==> (#[trigger] fetched[i]).id >= after
    &&& forall|i: int, j: int| 0 <= i < j < fetched.len() ==> (#[trigger] fetched[i]).id > (
    #[trigger] fetched[j]).id
}

/// The id to ask the store from once `fetched` was registered.
pub open spec fn next_after(after: TaskId, fetched: Seq<Task>) -> int {
    if fetched.len() == 0 {
        after as int
    } else {
        fetched[0].id + 1
    }
}

/// The pending form of a task: its classified kind and its id.
pub open spec fn pending_of(t: Task) -> PendingTask {
    PendingTask { kind: TaskType::classify(t.content), id: t.id }
}

/// Some task of `fetched` from position `from` on has index `u` and pending form `x`.
pub open spec fn fetched_from(fetched: Seq<Task>, from: int, u: Seq<char>, x: PendingTask) -> bool {
    exists|i: int|
        from <= i < fetched.len() && #[trigger] fetched[i].index_uid@ == u && pending_of(fetched[i]) == x
}

impl Scheduler {
    pub closed spec fn jobs(self) -> Seq<Job> {
        self.jobs@
    }

    pub closed spec fn queue(self) -> TaskQueue {
        self.tasks
    }

    pub closed spec fn processing(self) -> Seq<TaskId> {
        self.processing@
    }

    pub closed spec fn next_id(self) -> TaskId {
        self.next_fetched_task_id
    }

    pub closed spec fn config(self) -> SchedulerConfig {
        self.config
    }

    /// The queue is well formed and holds only ids below the next one to fetch.
    pub open spec fn wf(self) -> bool {
        &&& self.queue().wf()
        &&& forall|u: Seq<char>, x: PendingTask| holds(self.queue().lists(), u, x) ==> x.id < self.next_id()
        &&& distinct_ids(self.queue().lists())
    }

    pub fn new(config: SchedulerConfig) -> (r: Scheduler)
        ensures
            r.wf(),
            r.jobs().len() == 0,
            r.queue().lists().len() == 0,
            r.processing().len() == 0,
            r.next_id() == 0,
            r.config() == config,
    {
        Scheduler {
            jobs: Vec::new(),
            tasks: TaskQueue::new(),
            processing: Vec::new(),
            next_fetched_task_id: 0,
            config,
        }
    }

    pub fn next_fetched_task_id(&self) -> (r: TaskId)
        ensures
            r == self.next_id(),
    {
        self.next_fetched_task_id
    }

    pub fn processing_ids(&self) -> (r: &Vec<TaskId>)
        ensures
            r@ == self.processing(),
    {
        &self.processing
    }

    pub fn tasks(&self) -> (r: &TaskQueue)
        ensures
            *r == self.queue(),
    {
        &self.tasks
    }

    /// Adds an unfinished task to the queue.
    fn register_task(&mut self, task: Task)
        requires
            !task.finished(),
            old(self).queue().wf(),
            may_insert(old(self).queue().lists(), task.index_uid@, task.id),
        ensures
            final(self).queue().wf(),
            crate::queue::inserted(
                old(self).queue().lists(),
                final(self).queue().lists(),
                task.index_uid@,
                PendingTask { kind: TaskType::classify(task.content), id: task.id },
            ),
            final(self).jobs() == old(self).jobs(),
            final(self).processing() == old(self).processing(),
            final(self).next_id() == old(self).next_id(),
            final(self).config() == old(self).config(),
    {
        self.tasks.insert(task);
    }

    /// Registers the store's answer to a fetch of the tasks from
    /// `next_fetched_task_id` on, given newest first: they join the queue
    /// oldest first, and the next fetch starts after the newest.
    pub fn fetch_pending_tasks(&mut self, fetched: Vec<Task>)
        requires
            old(self).wf(),
            fetch_answer(fetched@, old(self).next_id()),
            forall|i: int| 0 <= i < fetched@.len() ==> (#[trigger] fetched@[i]).id < TaskId::MAX,
        ensures
            final(self).wf(),
            final(self).next_id() == next_after(old(self).next_id(), fetched@),
            forall|u: Seq<char>, x: PendingTask|
                #![trigger holds(final(self).queue().lists(), u, x)]
                holds(final(self).queue().lists(), u, x) <==> holds(old(self).queue().lists(), u, x)
                    || fetched_from(fetched@, 0, u, x),
            fetched@.len() == 0 ==> final(self).queue() == old(self).queue(),
            final(self).jobs() == old(self).jobs(),
            final(self).processing() == old(self).processing(),
            final(self).config() == old(self).config(),
    {
        let mut fetched = fetched;
        let ghost all = fetched@;
        let ghost start = self.tasks.lists();
        let n = fetched.len();
        while fetched.len() > 0
            invariant
                self.wf(),
                fetched@.len() <= all.len(),
                fetched@ == all.take(fetched@.len() as int),
                fetch_answer(all, old(self).next_id()),
                forall|i: int| 0 <= i < all.len() ==> (#[trigger] all[i]).id < TaskId::MAX,
                forall|i: int| 0 <= i < fetched@.len() ==> (#[trigger] all[i]).id >= self.next_fetched_task_id,
                self.next_fetched_task_id == (if fetched@.len() == all.len() {
                    old(self).next_id() as int
                } else {
                    all[fetched@.len() as int].id + 1
                }),
                forall|u: Seq<char>, x: PendingTask|
                    #![trigger holds(self.tasks.lists(), u, x)]
                    holds(self.tasks.lists(), u, x) <==> holds(start, u, x) || fetched_from(
                        all,
                        fetched@.len() as int,
                        u,
                        x,
                    ),
                fetched@.len() == all.len() ==> self.tasks == old(self).queue(),
                self.jobs@ == old(self).jobs(),
                self.processing@ == old(self).processing(),
                self.config == old(self).config(),
            decreases fetched@.len(),
        {
            let ghost prev = fetched@;
            let popped = fetched.pop();
            let ghost m = fetched@.len() as int;
            assert(prev[m] == all.take(m + 1)[m]);
            let task = popped.unwrap();
            assert(task == all[m]);
            let id = task.id;
            let ghost uid = task.index_uid@;
            let ghost pt = PendingTask { kind: TaskType::classify(task.content), id: task.id };
            let ghost before = self.tasks.lists();
            assert forall|k: int|
                0 <= k < before.len() && #[trigger] before[k].index_view() == uid implies id
                > before[k].pending()[0].id && forall|i: int|
                0 <= i < before[k].pending().len() ==> (#[trigger] before[k].pending()[i]).id != id by {
                assert(holds(before, uid, before[k].pending()[0]));
                assert forall|i: int| 0 <= i < before[k].pending().len() implies (
                #[trigger] before[k].pending()[i]).id != id by {
                    assert(holds(before, uid, before[k].pending()[i]));
                }
            }
            self.register_task(task);
            self.next_fetched_task_id = id + 1;
            proof {
                lemma_inserted_holds(before, self.tasks.lists(), uid, pt);
                let after = self.tasks.lists();
                assert forall|u1: Seq<char>, x1: PendingTask, u2: Seq<char>, x2: PendingTask|
                    holds(after, u1, x1) && holds(after, u2, x2) && x1.id == x2.id implies u1 == u2
                    && x1 == x2 by {
                    if holds(before, u1, x1) && holds(before, u2, x2) {
                    } else if holds(before, u1, x1) {
                        assert(x1.id < id);
                    } else if holds(before, u2, x2) {
                        assert(x2.id < id);
                    }
                }
                assert(fetched@ =~= all.take(m));
                assert forall|u: Seq<char>, x: PendingTask|
                    #![trigger holds(self.tasks.lists(), u, x)]
                    holds(self.tasks.lists(), u, x) <==> holds(start, u, x) || fetched_from(
                        all,
                        m,
                        u,
                        x,
                    ) by {
                    assert(holds(before, u, x) <==> holds(start, u, x) || fetched_from(all, m + 1, u, x));
                    if u == uid && x == pt {
                        assert(all[m].index_uid@ == u);
                    }
                    if fetched_from(all, m, u, x) {
                        let i = choose|i: int| m <= i < all.len() && #[trigger] all[i].index_uid@ == u && pending_of(all[i]) == x;
                        if i > m {
                            assert(fetched_from(all, m + 1, u, x));
                        }
                    }
                }
            }
        }
        assert(all.take(0) =~= fetched@);
    }

    /// Clears the ids of the batch being processed, once the performer is done.
    pub fn finish(&mut self)
        ensures
            after_finish(*old(self), *final(self)),
    {
        self.processing.clear();
    }

    /// Queues a job; jobs run before any batch, oldest first.
    pub fn schedule_job(&mut self, job: Job)
        ensures
            final(self).jobs() == old(self).jobs().push(job),
            final(self).queue() == old(self).queue(),
            final(self).processing() == old(self).processing(),
            final(self).next_id() == old(self).next_id(),
            final(self).config() == old(self).config(),
    {
        self.jobs.push(job);
    }

    /// Takes the oldest job, if any.
    pub fn pop_job(&mut self) -> (r: Option<Job>)
        ensures
            old(self).jobs().len() == 0 ==> r is None && final(self).jobs() == old(self).jobs(),
            old(self).jobs().len() > 0 ==> r == Some(old(self).jobs()[0]) && final(self).jobs()
                == old(self).jobs().drop_first(),
            final(self).queue() == old(self).queue(),
            final(self).processing() == old(self).processing(),
            final(self).next_id() == old(self).next_id(),
            final(self).config() == old(self).config(),
    {
        if self.jobs.len() == 0 {
            None
        } else {
            Some(self.jobs.remove(0))
        }
    }

    /// Whether a job or a task is still waiting, so that the update loop
    /// should be woken again.
    pub fn has_pending_work(&self) -> (r: bool)
        ensures
            r == (self.jobs().len() > 0 || self.queue().lists().len() > 0),
    {
        self.jobs.len() > 0 || !self.tasks.is_empty()
    }

    /// Picks the next batch from the queue and returns its ids, to be looked
    /// up in the store. The processing list is left empty until the batch
    /// starts.
    pub fn prepare_batch(&mut self) -> (r: Vec<TaskId>)
        requires
            old(self).wf(),
        ensures
            final(self).wf(),
            final(self).processing().len() == 0,
            old(self).queue().lists().len() == 0 ==> r@.len() == 0 && final(self).queue().lists()
                == old(self).queue().lists(),
            old(self).queue().lists().len() > 0 ==> exists|k: int|
                {
                    let s = #[trigger] old(self).queue().lists()[k].pending();
                    &&& is_head(old(self).queue().lists(), k)
                    &&& r@ == ids_of(batch_of(s, old(self).config()))
                    &&& replaced_head(
                        old(self).queue().lists(),
                        final(self).queue().lists(),
                        k,
                        s.skip(batch_len(s, old(self).config()) as int),
                    )
                },
            final(self).jobs() == old(self).jobs(),
            final(self).next_id() == old(self).next_id(),
            final(self).config() == old(self).config(),
    {
        self.processing.clear();
        let ghost before = self.tasks.lists();
        make_batch(&mut self.tasks, &mut self.processing, &self.config);
        proof {
            let after = self.tasks.lists();
            if before.len() > 0 {
                let cfg = self.config;
                let k = choose|k: int|
                    {
                        let s = #[trigger] before[k].pending();
                        &&& is_head(before, k)
                        &&& self.processing@ == ids_of(batch_of(s, cfg))
                        &&& replaced_head(before, after, k, s.skip(batch_len(s, cfg) as int))
                    };
                let s = before[k].pending();
                lemma_batch_bounds(s, cfg);
                assert forall|u: Seq<char>, x: PendingTask| holds(after, u, x) implies x.id
                    < self.next_fetched_task_id && holds(before, u, x) by {
                    lemma_replaced_head_holds(before, after, k, batch_len(s, cfg) as int, u, x);
                }
                assert(distinct_ids(after));
            }
        }
        let mut ids = Vec::new();
        std::mem::swap(&mut ids, &mut self.processing);
        ids
    }

    /// Starts the batch the store answered for the ids `requested` of
    /// `prepare_batch`: each task gets a batch event stamped `now` under the
    /// id of the first task, and the answered ids become the processing list.
    /// An answer with no task, with ids that do not match its tasks, or with
    /// ids that were not requested in that order is refused.
    pub fn start_batch(
        &mut self,
        requested: &Vec<TaskId>,
        ids: Vec<TaskId>,
        tasks: Vec<Task>,
        now: i64,
    ) -> (r: Result<Batch, SchedulerError>)
        ensures
            consistent_answer(requested@, ids@, tasks@) <==> r is Ok,
            r is Err ==> final(self).processing() == old(self).processing(),
            r matches Ok(b) ==> {
                &&& b.id == tasks@[0].id
                &&& b.created_at == now
                &&& b.tasks@.len() == tasks@.len()
                &&& forall|i: int|
                    0 <= i < tasks@.len() ==> batched_task(
                        #[trigger] tasks@[i],
                        b.tasks@[i],
                        tasks@[0].id,
                        now,
                    )
                &&& final(self).processing() == ids@
                &&& final(self).processing().len() > 0
                &&& forall|i: int|
                    0 <= i < b.tasks@.len() ==> final(self).processing()[i] == (
                    #[trigger] b.tasks@[i]).id
            },
            final(self).jobs() == old(self).jobs(),
            final(self).queue() == old(self).queue(),
            final(self).next_id() == old(self).next_id(),
            final(self).config() == old(self).config(),
    {
        if tasks.len() == 0 || ids.len() != tasks.len() || !is_subsequence(&ids, requested) {
            return Err(SchedulerError::InvalidBatch);
        }
        let mut i: usize = 0;
        while i < ids.len()
            invariant
                i <= ids@.len(),
                ids@.len() == tasks@.len(),
                forall|j: int| 0 <= j < i ==> ids@[j] == (#[trigger] tasks@[j]).id,
            decreases ids@.len() - i,
        {
            if ids[i] != tasks[i].id {
                return Err(SchedulerError::InvalidBatch);
            }
            i = i + 1;
        }
        let batch_id = tasks[0].id;
        let ghost answered = tasks@;
        let mut stamped: Vec<Task> = Vec::new();
        let mut rest = tasks;
        while rest.len() > 0
            invariant
                stamped@.len() + rest@.len() == answered.len(),
                rest@ == answered.skip(stamped@.len() as int),
                batch_id == answered[0].id,
                forall|j: int|
                    0 <= j < stamped@.len() ==> batched_task(
                        answered[j],
                        #[trigger] stamped@[j],
                        batch_id,
                        now,
                    ),
            decreases rest@.len(),
        {
            let ghost m = stamped@.len() as int;
            let mut t = rest.remove(0);
            assert(t == answered[m]);
            t.events.push(TaskEvent::Batched { batch_id, timestamp: now });
            stamped.push(t);
            assert(rest@ =~= answered.skip(m + 1));
        }
        self.processing = ids;
        Ok(Batch { id: batch_id, created_at: now, tasks: stamped })
    }
}

impl Scheduler {
    /// First step of preparing work: the oldest queued job goes before any
    /// batch. Comes with whether work remains after it, so that the update
    /// loop is woken again.
    pub fn prepare_job(&mut self) -> (r: Option<(Job, bool)>)
        ensures
            old(self).jobs().len() == 0 ==> r is None && final(self).jobs() == old(self).jobs(),
            old(self).jobs().len() > 0 ==> r == Some(
                (
                    old(self).jobs()[0],
                    final(self).jobs().len() > 0 || final(self).queue().lists().len() > 0,
                ),
            ) && final(self).jobs() == old(self).jobs().drop_first(),
            old(self).jobs().len() == 0 ==> final(self).processing() == old(self).processing(),
            old(self).jobs().len() > 0 ==> final(self).processing().len() == 0,
            final(self).queue() == old(self).queue(),
            final(self).next_id() == old(self).next_id(),
            final(self).config() == old(self).config(),
    {
        match self.pop_job() {
            None => None,
            Some(job) => {
                self.processing.clear();
                let more = self.has_pending_work();
                Some((job, more))
            },
        }
    }

    /// Second step, once no job is queued: registers the store's answer to
    /// the fetch and picks the next batch, whose ids are returned to be
    /// looked up in the store. No id means there is nothing to do.
    pub fn prepare_from_fetch(&mut self, fetched: Vec<Task>) -> (r: Vec<TaskId>)
        requires
            old(self).wf(),
            fetch_answer(fetched@, old(self).next_id()),
            forall|i: int| 0 <= i < fetched@.len() ==> (#[trigger] fetched@[i]).id < TaskId::MAX,
        ensures
            final(self).wf(),
            final(self).processing().len() == 0,
            final(self).next_id() == next_after(old(self).next_id(), fetched@),
            fetched@.len() == 0 && old(self).queue().lists().len() == 0 ==> r@.len() == 0,
            fetched@.len() > 0 || old(self).queue().lists().len() > 0 ==> r@.len() > 0,
            r@.len() <= batch_limit(old(self).config()),
            exists|mid: Seq<TaskList>|
                {
                    &&& queue_wf(mid)
                    &&& fetched@.len() == 0 ==> mid == old(self).queue().lists()
                    &&& forall|u: Seq<char>, x: PendingTask|
                        #![trigger holds(mid, u, x)]
                        holds(mid, u, x) <==> holds(old(self).queue().lists(), u, x) || fetched_from(
                            fetched@,
                            0,
                            u,
                            x,
                        )
                    &&& mid.len() == 0 ==> r@.len() == 0 && final(self).queue().lists() == mid
                    &&& mid.len() > 0 ==> exists|k: int|
                        {
                            let s = #[trigger] mid[k].pending();
                            &&& is_head(mid, k)
                            &&& r@ == ids_of(batch_of(s, old(self).config()))
                            &&& replaced_head(
                                mid,
                                final(self).queue().lists(),
                                k,
                                s.skip(batch_len(s, old(self).config()) as int),
                            )
                        }
                },
            final(self).jobs() == old(self).jobs(),
            final(self).config() == old(self).config(),
    {
        self.fetch_pending_tasks(fetched);
        let ghost mid = self.tasks.lists();
        proof {
            if fetched@.len() > 0 {
                assert(fetched_from(fetched@, 0, fetched@[0].index_uid@, pending_of(fetched@[0])));
                assert(holds(mid, fetched@[0].index_uid@, pending_of(fetched@[0])));
            }
        }
        let ids = self.prepare_batch();
        proof {
            if mid.len() > 0 {
                let cfg = self.config;
                let k = choose|k: int|
                    {
                        let s = #[trigger] mid[k].pending();
                        &&& is_head(mid, k)
                        &&& ids@ == ids_of(batch_of(s, cfg))
                        &&& replaced_head(mid, self.tasks.lists(), k, s.skip(batch_len(s, cfg) as int))
                    };
                lemma_batch_bounds(mid[k].pending(), cfg);
            } else if fetched@.len() > 0 {
                assert(holds(mid, fetched@[0].index_uid@, pending_of(fetched@[0])));
            }
        }
        ids
    }
}

/// Clearing the processing list a second time changes nothing more.
pub proof fn lemma_finish_idempotent(a: Scheduler, b: Scheduler, c: Scheduler)
    requires
        after_finish(a, b),
        after_finish(b, c),
    ensures
        c.processing() == b.processing(),
        c.jobs() == b.jobs(),
        c.queue().lists() == b.queue().lists(),
        c.next_id() == b.next_id(),
        c.config() == b.config(),
        after_finish(a, c),
{
}

/// What the store answers to a fetch from `after` on: the unfinished tasks
/// of `store` with ids from `after` on, in the store's order.
pub open spec fn store_answer(store: Seq<Task>, after: TaskId) -> Seq<Task> {
    store.filter(|t: Task| !t.finished() && t.id >= after)
}

/// Once a fetch from `after` was registered, fetching again from the next
/// id on an unchanged store finds nothing, so the queue stays as it is.
pub proof fn lemma_refetch_finds_nothing(store: Seq<Task>, after: TaskId)
    requires
        fetch_answer(store_answer(store, after), after),
        forall|i: int|
            0 <= i < store_answer(store, after).len() ==> (#[trigger] store_answer(
                store,
                after,
            )[i]).id < TaskId::MAX,
    ensures
        ({
            let next = next_after(after, store_answer(store, after));
            0 <= next <= TaskId::MAX && store_answer(store, next as TaskId).len() == 0
        }),
{
    let a = store_answer(store, after);
    let next = next_after(after, a);
    let p_after = |t: Task| !t.finished() && t.id >= after;
    let n = next as TaskId;
    let p_next = |t: Task| !t.finished() && t.id >= n;
    assert forall|i: int| 0 <= i < store.len() implies !p_next(#[trigger] store[i]) by {
        if p_next(store[i]) {
            assert(p_after(store[i]));
            store.lemma_filter_contains(p_after, i);
            let j = choose|j: int| 0 <= j < a.len() && a[j] == store[i];
            if j > 0 {
                assert(a[0].id > a[j].id);
            }
        }
    }
    assert(store.all(|t: Task| !p_next(t)));
    store.lemma_all_neg_filter_empty(p_next);
    assert(store_answer(store, n) == store.filter(p_next));
}

} // verus!
