use sling::model::{JobMessage, PubKeyBytes, ShortChannelIdDir, TaskIdentifier};
use sling::tasks::{Task, Tasks};

fn peer() -> PubKeyBytes {
    PubKeyBytes::new([7; 33])
}

#[test]
fn insert_then_get_task() {
    let mut tasks = Tasks::new();
    let t = Task::new(10, 1, JobMessage::Starting, false, peer());
    assert!(tasks.insert_task(10, 1, t).is_ok());
    let got = tasks.get_task(&TaskIdentifier::new(10, 1)).unwrap();
    assert_eq!(got.task_ident, TaskIdentifier::new(10, 1));
    assert_eq!(got.latest_state, JobMessage::Starting);
    assert!(got.active);
    assert!(tasks.get_task(&TaskIdentifier::new(10, 2)).is_none());
}

#[test]
fn insert_duplicate_task_is_refused() {
    let mut tasks = Tasks::new();
    assert!(tasks.insert_task(10, 1, Task::new(10, 1, JobMessage::Starting, false, peer())).is_ok());
    assert!(tasks.insert_task(10, 1, Task::new(10, 1, JobMessage::Error, true, peer())).is_err());
    assert_eq!(tasks.get_all_tasks().len(), 1);
    assert_eq!(tasks.get_task(&TaskIdentifier::new(10, 1)).unwrap().latest_state, JobMessage::Starting);
}

#[test]
fn state_and_activity_updates() {
    let mut tasks = Tasks::new();
    let id = TaskIdentifier::new(10, 1);
    tasks.insert_task(10, 1, Task::new(10, 1, JobMessage::Starting, false, peer())).unwrap();
    tasks.set_state(&id, JobMessage::Rebalancing);
    tasks.stop_task(&id);
    assert!(tasks.get_task(&id).unwrap().should_stop);
    tasks.set_active(&id, false);
    assert!(!tasks.is_any_active(10));
    tasks.set_active(&id, true);
    let t = tasks.get_task(&id).unwrap();
    assert!(t.active);
    assert!(!t.should_stop);
    assert_eq!(t.latest_state, JobMessage::Rebalancing);
}

#[test]
fn remove_task_removes_only_that_channel() {
    let mut tasks = Tasks::new();
    tasks.insert_task(10, 1, Task::new(10, 1, JobMessage::Starting, false, peer())).unwrap();
    tasks.insert_task(10, 2, Task::new(10, 2, JobMessage::Starting, false, peer())).unwrap();
    tasks.insert_task(11, 1, Task::new(11, 1, JobMessage::Starting, false, peer())).unwrap();
    tasks.remove_task(10);
    assert_eq!(tasks.get_scid_tasks(10).len(), 0);
    assert_eq!(tasks.get_scid_tasks(11).len(), 1);
    tasks.remove_all_tasks();
    assert_eq!(tasks.get_all_tasks().len(), 0);
}

#[test]
fn parallel_bans_of_a_channel() {
    let mut tasks = Tasks::new();
    assert!(tasks.get_parallelbans(10).is_err());
    tasks.insert_task(10, 1, Task::new(10, 1, JobMessage::Starting, false, peer())).unwrap();
    tasks.insert_task(10, 2, Task::new(10, 2, JobMessage::Starting, false, peer())).unwrap();
    let ban = ShortChannelIdDir { short_channel_id: 99, direction: 1 };
    tasks.set_parallel_ban(&TaskIdentifier::new(10, 1), Some(ban));
    tasks.set_parallel_ban(&TaskIdentifier::new(10, 2), Some(ban));
    assert_eq!(tasks.get_parallelbans(10).unwrap(), vec![ban]);
}

#[test]
fn stop_tasks_counts_and_marks() {
    let mut tasks = Tasks::new();
    tasks.insert_task(10, 1, Task::new(10, 1, JobMessage::Rebalancing, false, peer())).unwrap();
    tasks.insert_task(11, 1, Task::new(11, 1, JobMessage::Rebalancing, false, peer())).unwrap();
    assert_eq!(tasks.stop_tasks(Some(10)), 1);
    let t = tasks.get_task(&TaskIdentifier::new(10, 1)).unwrap();
    assert_eq!(t.latest_state, JobMessage::Stopping);
    assert!(t.should_stop);
    assert!(!tasks.get_task(&TaskIdentifier::new(11, 1)).unwrap().should_stop);
    assert_eq!(tasks.stop_tasks(None), 2);
}

#[test]
fn prepare_start_adds_restarts_or_leaves() {
    let mut tasks = Tasks::new();
    let id = TaskIdentifier::new(10, 1);
    assert!(tasks.prepare_start(&id, false, peer()));
    assert!(!tasks.prepare_start(&id, false, peer()));
    tasks.set_active(&id, false);
    assert!(tasks.prepare_start(&id, false, peer()));
    assert_eq!(tasks.get_task(&id).unwrap().latest_state, JobMessage::Starting);
}

#[test]
fn once_job_running_needs_once_and_active() {
    let mut tasks = Tasks::new();
    tasks.insert_task(10, 1, Task::new(10, 1, JobMessage::Starting, true, peer())).unwrap();
    assert!(tasks.once_job_running(10));
    tasks.set_active(&TaskIdentifier::new(10, 1), false);
    assert!(!tasks.once_job_running(10));
    assert!(!tasks.once_job_running(11));
}

#[test]
fn task_is_filed_under_the_key_it_is_given() {
    let mut tasks = Tasks::new();
    let t = Task::new(99, 7, JobMessage::Starting, false, peer());
    assert!(tasks.insert_task(10, 1, t).is_ok());
    let found = tasks.get_task(&TaskIdentifier::new(10, 1)).unwrap();
    assert_eq!(found.task_ident, TaskIdentifier::new(99, 7));
    assert!(tasks.get_task(&TaskIdentifier::new(99, 7)).is_none());
    assert!(tasks.insert_task(10, 1, Task::new(10, 1, JobMessage::Error, false, peer())).is_err());
    assert_eq!(tasks.get_task(&TaskIdentifier::new(10, 1)).unwrap().get_state(), JobMessage::Starting);
    assert_eq!(tasks.get_scid_tasks(10).len(), 1);
    assert!(tasks.get_scid_tasks(99).is_empty());
}
