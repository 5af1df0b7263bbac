use task_scheduler::queue::{TaskList, TaskQueue, TaskType};
use task_scheduler::scheduler::{make_batch, Pending, Scheduler, SchedulerConfig, SchedulerError};
use task_scheduler::task::{Job, MergeStrategy, Task, TaskContent, TaskEvent, TaskId};

fn gen_task(id: TaskId, index_uid: &str, content: TaskContent) -> Task {
    Task {
        id,
        index_uid: index_uid.to_owned(),
        content,
        events: vec![],
    }
}

fn addition(count: usize) -> TaskContent {
    TaskContent::DocumentAddition {
        documents_count: count,
        merge_strategy: MergeStrategy::ReplaceDocuments,
        primary_key: Some("test".to_string()),
    }
}

fn update(count: usize) -> TaskContent {
    TaskContent::DocumentAddition {
        documents_count: count,
        merge_strategy: MergeStrategy::UpdateDocuments,
        primary_key: None,
    }
}

fn drain_ids(mut tasks: TaskList) -> (TaskList, Vec<TaskId>) {
    let ids = tasks.drain().iter().map(|t| t.id).collect::<Vec<_>>();
    (tasks, ids)
}

fn next_batch(queue: &mut TaskQueue, config: &SchedulerConfig) -> Vec<TaskId> {
    let mut batch = Vec::new();
    make_batch(queue, &mut batch, config);
    batch
}

#[test]
fn register_updates_multiples_indexes() {
    let mut queue = TaskQueue::default();
    queue.insert(gen_task(0, "test1", TaskContent::IndexDeletion));
    queue.insert(gen_task(1, "test2", TaskContent::IndexDeletion));
    queue.insert(gen_task(2, "test2", TaskContent::IndexDeletion));
    queue.insert(gen_task(3, "test2", TaskContent::IndexDeletion));
    queue.insert(gen_task(4, "test1", TaskContent::IndexDeletion));
    queue.insert(gen_task(5, "test1", TaskContent::IndexDeletion));
    queue.insert(gen_task(6, "test2", TaskContent::IndexDeletion));

    let test1_tasks = queue.head_mut(drain_ids).unwrap();

    assert_eq!(test1_tasks, &[0, 4, 5]);

    let test2_tasks = queue.head_mut(drain_ids).unwrap();

    assert_eq!(test2_tasks, &[1, 2, 3, 6]);

    assert_eq!(queue.index_count(), 0);
    assert!(queue.is_empty());
}

#[test]
fn test_make_batch() {
    let mut queue = TaskQueue::default();
    let content = addition(0);
    queue.insert(gen_task(0, "test1", content.clone()));
    queue.insert(gen_task(1, "test2", content.clone()));
    queue.insert(gen_task(2, "test2", TaskContent::IndexDeletion));
    queue.insert(gen_task(3, "test2", content.clone()));
    queue.insert(gen_task(4, "test1", content.clone()));
    queue.insert(gen_task(5, "test1", TaskContent::IndexDeletion));
    queue.insert(gen_task(6, "test2", content.clone()));
    queue.insert(gen_task(7, "test1", content.clone()));

    let mut batch = Vec::new();

    let config = SchedulerConfig::default();
    make_batch(&mut queue, &mut batch, &config);
    assert_eq!(batch, &[0, 4]);

    batch.clear();
    make_batch(&mut queue, &mut batch, &config);
    assert_eq!(batch, &[1]);

    batch.clear();
    make_batch(&mut queue, &mut batch, &config);
    assert_eq!(batch, &[2]);

    batch.clear();
    make_batch(&mut queue, &mut batch, &config);
    assert_eq!(batch, &[3, 6]);

    batch.clear();
    make_batch(&mut queue, &mut batch, &config);
    assert_eq!(batch, &[5]);

    batch.clear();
    make_batch(&mut queue, &mut batch, &config);
    assert_eq!(batch, &[7]);

    assert!(queue.is_empty());
}

#[test]
fn head_mut_on_empty_queue_returns_none() {
    let mut queue = TaskQueue::new();
    assert_eq!(queue.head_mut(drain_ids), None);
    assert!(queue.is_empty());
}

#[test]
fn head_mut_serves_smallest_id_first() {
    let mut queue = TaskQueue::new();
    queue.insert(gen_task(3, "b", TaskContent::IndexDeletion));
    queue.insert(gen_task(1, "a", TaskContent::IndexDeletion));
    queue.insert(gen_task(7, "b", TaskContent::IndexDeletion));
    let first = queue
        .head_mut(|mut list| {
            let head = list.pop().unwrap().id;
            (list, head)
        })
        .unwrap();
    assert_eq!(first, 1);
    // "a" is now empty and gone, "b" remains
    assert_eq!(queue.index_count(), 1);
    let rest = queue.head_mut(drain_ids).unwrap();
    assert_eq!(rest, &[3, 7]);
}

#[test]
fn head_mut_keeps_a_list_that_is_not_empty() {
    let mut queue = TaskQueue::new();
    queue.insert(gen_task(0, "a", TaskContent::IndexDeletion));
    queue.insert(gen_task(1, "a", TaskContent::IndexDeletion));
    let peeked = queue
        .head_mut(|list| {
            let head = list.peek().unwrap().id;
            (list, head)
        })
        .unwrap();
    assert_eq!(peeked, 0);
    assert_eq!(queue.index_count(), 1);
    assert!(!queue.is_empty());
}

#[test]
fn drain_yields_ascending_ids() {
    let mut list = TaskList::new("a".to_string());
    list.push(task_scheduler::queue::PendingTask { kind: TaskType::Other, id: 2 });
    list.push(task_scheduler::queue::PendingTask { kind: TaskType::Other, id: 9 });
    list.push(task_scheduler::queue::PendingTask { kind: TaskType::Other, id: 5 });
    assert_eq!(list.len(), 3);
    assert_eq!(list.index(), "a");
    let ids: Vec<TaskId> = list.drain().iter().map(|t| t.id).collect();
    assert_eq!(ids, vec![2, 5, 9]);
    assert!(list.is_empty());
    assert!(list.pop().is_none());
}

#[test]
fn max_batch_size_splits_additions() {
    let mut queue = TaskQueue::new();
    for id in 0..6 {
        queue.insert(gen_task(id, "a", addition(1)));
    }
    let config = SchedulerConfig { max_batch_size: 2, ..SchedulerConfig::default() };
    assert_eq!(next_batch(&mut queue, &config), vec![0, 1]);
    assert_eq!(next_batch(&mut queue, &config), vec![2, 3]);
    assert_eq!(next_batch(&mut queue, &config), vec![4, 5]);
    assert!(queue.is_empty());
}

#[test]
fn zero_max_batch_size_counts_as_one() {
    let mut queue = TaskQueue::new();
    queue.insert(gen_task(0, "a", addition(1)));
    queue.insert(gen_task(1, "a", addition(1)));
    let config = SchedulerConfig { max_batch_size: 0, ..SchedulerConfig::default() };
    assert_eq!(next_batch(&mut queue, &config), vec![0]);
    assert_eq!(next_batch(&mut queue, &config), vec![1]);
}

#[test]
fn document_cap_checked_after_push() {
    let mut queue = TaskQueue::new();
    queue.insert(gen_task(0, "a", addition(70)));
    queue.insert(gen_task(1, "a", addition(70)));
    let config = SchedulerConfig { max_documents_per_batch: Some(100), ..SchedulerConfig::default() };
    assert_eq!(next_batch(&mut queue, &config), vec![0, 1]);
    assert_eq!(next_batch(&mut queue, &config), Vec::<TaskId>::new());
}

#[test]
fn document_cap_stops_further_additions() {
    let mut queue = TaskQueue::new();
    queue.insert(gen_task(0, "a", addition(70)));
    queue.insert(gen_task(1, "a", addition(70)));
    queue.insert(gen_task(2, "a", addition(1)));
    let config = SchedulerConfig { max_documents_per_batch: Some(100), ..SchedulerConfig::default() };
    assert_eq!(next_batch(&mut queue, &config), vec![0, 1]);
    assert_eq!(next_batch(&mut queue, &config), vec![2]);
}

#[test]
fn oversized_single_task_runs_alone() {
    let mut queue = TaskQueue::new();
    queue.insert(gen_task(3, "a", addition(500)));
    queue.insert(gen_task(4, "a", addition(1)));
    let config = SchedulerConfig { max_documents_per_batch: Some(100), ..SchedulerConfig::default() };
    assert_eq!(next_batch(&mut queue, &config), vec![3]);
    assert_eq!(next_batch(&mut queue, &config), vec![4]);
}

#[test]
fn additions_and_updates_never_mix() {
    let mut queue = TaskQueue::new();
    queue.insert(gen_task(0, "a", addition(1)));
    queue.insert(gen_task(1, "a", update(1)));
    queue.insert(gen_task(2, "a", update(1)));
    queue.insert(gen_task(3, "a", addition(1)));
    let config = SchedulerConfig::default();
    assert_eq!(next_batch(&mut queue, &config), vec![0]);
    assert_eq!(next_batch(&mut queue, &config), vec![1, 2]);
    assert_eq!(next_batch(&mut queue, &config), vec![3]);
}

#[test]
fn other_tasks_never_coalesce() {
    let mut queue = TaskQueue::new();
    queue.insert(gen_task(0, "a", TaskContent::SettingsUpdate));
    queue.insert(gen_task(1, "a", TaskContent::SettingsUpdate));
    let config = SchedulerConfig::default();
    assert_eq!(next_batch(&mut queue, &config), vec![0]);
    assert_eq!(next_batch(&mut queue, &config), vec![1]);
}

#[test]
fn batches_stay_within_one_index() {
    let mut queue = TaskQueue::new();
    queue.insert(gen_task(0, "a", addition(1)));
    queue.insert(gen_task(5, "a", addition(1)));
    queue.insert(gen_task(9, "a", addition(1)));
    queue.insert(gen_task(3, "b", addition(1)));
    queue.insert(gen_task(4, "b", addition(1)));
    let config = SchedulerConfig::default();
    assert_eq!(next_batch(&mut queue, &config), vec![0, 5, 9]);
    assert_eq!(next_batch(&mut queue, &config), vec![3, 4]);
}

#[test]
fn make_batch_on_empty_queue_is_empty() {
    let mut queue = TaskQueue::new();
    assert_eq!(next_batch(&mut queue, &SchedulerConfig::default()), Vec::<TaskId>::new());
}

#[test]
fn classifies_task_contents() {
    assert!(matches!(TaskType::of_content(&addition(3)), TaskType::DocumentAddition { number: 3 }));
    assert!(matches!(TaskType::of_content(&update(4)), TaskType::DocumentsUpdate { number: 4 }));
    assert!(matches!(TaskType::of_content(&TaskContent::IndexDeletion), TaskType::Other));
    let add = TaskType::DocumentAddition { number: 1 };
    let upd = TaskType::DocumentsUpdate { number: 2 };
    assert!(add.can_coalesce(&TaskType::DocumentAddition { number: 9 }));
    assert!(!add.can_coalesce(&upd));
    assert!(!TaskType::Other.can_coalesce(&TaskType::Other));
    assert_eq!(upd.documents_count(), 2);
    assert_eq!(TaskType::Other.documents_count(), 0);
}

#[test]
fn task_is_finished_on_terminal_event() {
    let mut task = gen_task(0, "a", TaskContent::IndexDeletion);
    assert!(!task.is_finished());
    task.events.push(TaskEvent::Created { timestamp: 1 });
    assert!(!task.is_finished());
    task.events.push(TaskEvent::Succeeded { timestamp: 2 });
    assert!(task.is_finished());
    task.events.push(TaskEvent::Failed { timestamp: 3 });
    assert!(task.is_finished());
}

#[test]
fn fetch_registers_in_ascending_order() {
    let mut scheduler = Scheduler::new(SchedulerConfig::default());
    assert_eq!(scheduler.next_fetched_task_id(), 0);
    // the store answers newest first
    scheduler.fetch_pending_tasks(vec![
        gen_task(4, "a", addition(1)),
        gen_task(2, "b", addition(1)),
        gen_task(1, "a", addition(1)),
    ]);
    assert_eq!(scheduler.next_fetched_task_id(), 5);
    assert_eq!(scheduler.tasks().index_count(), 2);
    assert_eq!(scheduler.prepare_batch(), vec![1, 4]);
    assert_eq!(scheduler.prepare_batch(), vec![2]);
    assert_eq!(scheduler.prepare_batch(), Vec::<TaskId>::new());
}

#[test]
fn refetch_of_unchanged_store_is_noop() {
    let mut scheduler = Scheduler::new(SchedulerConfig::default());
    scheduler.fetch_pending_tasks(vec![gen_task(7, "a", addition(1))]);
    assert_eq!(scheduler.next_fetched_task_id(), 8);
    // nothing at or after 8 in the store
    scheduler.fetch_pending_tasks(vec![]);
    assert_eq!(scheduler.next_fetched_task_id(), 8);
    assert_eq!(scheduler.tasks().index_count(), 1);
    assert_eq!(scheduler.prepare_batch(), vec![7]);
}

#[test]
fn jobs_come_out_oldest_first() {
    let mut scheduler = Scheduler::new(SchedulerConfig::default());
    assert!(!scheduler.has_pending_work());
    assert!(scheduler.pop_job().is_none());
    scheduler.schedule_job(Job::Snapshot);
    scheduler.schedule_job(Job::Dump { uid: "d".to_string() });
    assert!(scheduler.has_pending_work());
    assert!(matches!(scheduler.pop_job(), Some(Job::Snapshot)));
    assert!(matches!(scheduler.pop_job(), Some(Job::Dump { .. })));
    assert!(scheduler.pop_job().is_none());
    assert!(!scheduler.has_pending_work());
}

#[test]
fn pending_work_counts_tasks() {
    let mut scheduler = Scheduler::new(SchedulerConfig::default());
    scheduler.fetch_pending_tasks(vec![gen_task(0, "a", TaskContent::IndexDeletion)]);
    assert!(scheduler.has_pending_work());
    assert_eq!(scheduler.prepare_batch(), vec![0]);
    assert!(!scheduler.has_pending_work());
}

#[test]
fn start_batch_stamps_tasks_and_sets_processing() {
    let mut scheduler = Scheduler::new(SchedulerConfig::default());
    scheduler.fetch_pending_tasks(vec![gen_task(3, "a", addition(1)), gen_task(2, "a", addition(1))]);
    let ids = scheduler.prepare_batch();
    assert_eq!(ids, vec![2, 3]);
    assert!(scheduler.processing_ids().is_empty());
    let answered = vec![gen_task(2, "a", addition(1)), gen_task(3, "a", addition(1))];
    let batch = scheduler.start_batch(&ids, ids.clone(), answered, 42).unwrap();
    assert_eq!(batch.id, 2);
    assert_eq!(batch.created_at, 42);
    assert_eq!(batch.tasks.len(), 2);
    for task in &batch.tasks {
        assert_eq!(task.events, vec![TaskEvent::Batched { batch_id: 2, timestamp: 42 }]);
    }
    assert_eq!(scheduler.processing_ids(), &vec![2, 3]);
    let pending = Pending::Batch(batch);
    assert!(matches!(pending, Pending::Batch(_)));
}

#[test]
fn start_batch_uses_store_ids() {
    let mut scheduler = Scheduler::new(SchedulerConfig::default());
    // task 2 was finished in the meantime: the store answers only 3
    let batch = scheduler.start_batch(&vec![2, 3], vec![3], vec![gen_task(3, "a", addition(1))], 7).unwrap();
    assert_eq!(batch.id, 3);
    assert_eq!(scheduler.processing_ids(), &vec![3]);
}

#[test]
fn start_batch_refuses_empty_answer() {
    let mut scheduler = Scheduler::new(SchedulerConfig::default());
    assert_eq!(scheduler.start_batch(&vec![0], vec![], vec![], 1).unwrap_err(), SchedulerError::InvalidBatch);
    assert!(scheduler.processing_ids().is_empty());
}

#[test]
fn start_batch_refuses_mismatched_answer() {
    let mut scheduler = Scheduler::new(SchedulerConfig::default());
    let err = scheduler.start_batch(&vec![1, 2], vec![1, 2], vec![gen_task(1, "a", addition(1))], 1).unwrap_err();
    assert_eq!(err, SchedulerError::InvalidBatch);
    let err = scheduler
        .start_batch(&vec![1, 2, 5], vec![1, 5], vec![gen_task(1, "a", addition(1)), gen_task(2, "a", addition(1))], 1)
        .unwrap_err();
    assert_eq!(err, SchedulerError::InvalidBatch);
    assert!(scheduler.processing_ids().is_empty());
}

#[test]
fn finish_is_idempotent() {
    let mut scheduler = Scheduler::new(SchedulerConfig::default());
    scheduler.start_batch(&vec![0], vec![0], vec![gen_task(0, "a", addition(1))], 1).unwrap();
    assert_eq!(scheduler.processing_ids(), &vec![0]);
    scheduler.finish();
    assert!(scheduler.processing_ids().is_empty());
    scheduler.finish();
    assert!(scheduler.processing_ids().is_empty());
    assert_eq!(scheduler.next_fetched_task_id(), 0);
}

#[test]
fn prepare_batch_clears_processing() {
    let mut scheduler = Scheduler::new(SchedulerConfig::default());
    scheduler.start_batch(&vec![0], vec![0], vec![gen_task(0, "a", addition(1))], 1).unwrap();
    assert_eq!(scheduler.prepare_batch(), Vec::<TaskId>::new());
    assert!(scheduler.processing_ids().is_empty());
    assert!(matches!(Pending::Nothing, Pending::Nothing));
}

#[test]
fn prepare_job_reports_remaining_work() {
    let mut scheduler = Scheduler::new(SchedulerConfig::default());
    assert!(scheduler.prepare_job().is_none());
    scheduler.schedule_job(Job::Snapshot);
    scheduler.schedule_job(Job::Snapshot);
    let (_, more) = scheduler.prepare_job().unwrap();
    assert!(more);
    let (_, more) = scheduler.prepare_job().unwrap();
    assert!(!more);
    scheduler.schedule_job(Job::Snapshot);
    scheduler.fetch_pending_tasks(vec![gen_task(0, "a", addition(1))]);
    let (_, more) = scheduler.prepare_job().unwrap();
    assert!(more);
}

#[test]
fn prepare_from_fetch_picks_first_batch() {
    let mut scheduler = Scheduler::new(SchedulerConfig { max_batch_size: 2, ..SchedulerConfig::default() });
    let ids = scheduler.prepare_from_fetch(vec![
        gen_task(3, "a", addition(1)),
        gen_task(2, "a", addition(1)),
        gen_task(1, "b", TaskContent::IndexCreation { primary_key: None }),
        gen_task(0, "a", addition(1)),
    ]);
    assert_eq!(ids, vec![0, 2]);
    assert_eq!(scheduler.next_fetched_task_id(), 4);
    assert_eq!(scheduler.prepare_from_fetch(vec![]), vec![1]);
    assert_eq!(scheduler.prepare_from_fetch(vec![]), vec![3]);
    assert_eq!(scheduler.prepare_from_fetch(vec![]), Vec::<TaskId>::new());
}

#[test]
fn start_batch_refuses_ids_not_requested() {
    let mut scheduler = Scheduler::new(SchedulerConfig::default());
    let answer = || vec![gen_task(1, "a", addition(1)), gen_task(3, "a", addition(1))];
    let err = scheduler.start_batch(&vec![1, 2], vec![1, 3], answer(), 1).unwrap_err();
    assert_eq!(err, SchedulerError::InvalidBatch);
    let reordered = vec![gen_task(3, "a", addition(1)), gen_task(1, "a", addition(1))];
    let err = scheduler.start_batch(&vec![1, 3], vec![3, 1], reordered, 1).unwrap_err();
    assert_eq!(err, SchedulerError::InvalidBatch);
    assert!(scheduler.processing_ids().is_empty());
    assert!(scheduler.start_batch(&vec![1, 2, 3], vec![1, 3], answer(), 1).is_ok());
    assert_eq!(scheduler.processing_ids(), &vec![1, 3]);
}

#[test]
fn prepare_job_clears_a_leftover_batch() {
    let mut scheduler = Scheduler::new(SchedulerConfig::default());
    scheduler.schedule_job(Job::Snapshot);
    scheduler.start_batch(&vec![0], vec![0], vec![gen_task(0, "a", addition(1))], 1).unwrap();
    assert_eq!(scheduler.processing_ids(), &vec![0]);
    assert!(scheduler.prepare_job().is_some());
    assert!(scheduler.processing_ids().is_empty());
}

#[test]
fn debounce_of_zero_is_none() {
    let config = |d| SchedulerConfig { debounce_duration_sec: d, ..SchedulerConfig::default() };
    assert_eq!(config(None).debounce_seconds(), None);
    assert_eq!(config(Some(0)).debounce_seconds(), None);
    assert_eq!(config(Some(3)).debounce_seconds(), Some(3));
}
