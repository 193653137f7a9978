use manual_executor::Computation;
use manual_executor::Countdown;
use manual_executor::ManualExecutor;
use manual_executor::TaskWake;
use std::collections::HashSet;
use std::sync::Arc;
use std::sync::Mutex;

/// Inserts its label into a shared set on its first poll and immediately
/// reports "finished".
struct InsertTask {
    label: &'static str,
    set: Arc<Mutex<HashSet<&'static str>>>,
    done: bool,
}

impl InsertTask {
    fn new(label: &'static str, set: &Arc<Mutex<HashSet<&'static str>>>) -> InsertTask {
        InsertTask { label, set: set.clone(), done: false }
    }
}

impl Computation for InsertTask {
    fn complete(&self) -> bool {
        self.done
    }

    fn one_poll(_pre: Self, post: Self) -> bool {
        post.done
    }

    fn poll(&mut self, _wake: TaskWake) -> bool {
        self.set.lock().unwrap().insert(self.label);
        self.done = true;
        false
    }
}

/// Appends its label to a shared log on every poll and never completes.
struct RecordTask {
    label: &'static str,
    log: Arc<Mutex<Vec<&'static str>>>,
}

impl Computation for RecordTask {
    fn complete(&self) -> bool {
        false
    }

    fn one_poll(_pre: Self, _post: Self) -> bool {
        true
    }

    fn poll(&mut self, _wake: TaskWake) -> bool {
        self.log.lock().unwrap().push(self.label);
        true
    }
}

/// Stores a copy of every wake token it is handed and counts down a fixed
/// number of polls before completing.
struct StoreToken {
    polls_left: u32,
    slot: Arc<Mutex<Option<TaskWake>>>,
}

impl Computation for StoreToken {
    fn complete(&self) -> bool {
        self.polls_left == 0
    }

    fn one_poll(pre: Self, post: Self) -> bool {
        post.polls_left == if pre.polls_left > 0 { pre.polls_left - 1 } else { 0 }
    }

    fn poll(&mut self, wake: TaskWake) -> bool {
        *self.slot.lock().unwrap() = Some(wake);
        if self.polls_left > 0 {
            self.polls_left -= 1;
        }
        self.polls_left > 0
    }
}

#[test]
fn test_wake_all() {
    let mut executor: ManualExecutor<InsertTask> = ManualExecutor::new();

    let set = Arc::new(Mutex::new(HashSet::new()));

    executor.spawn(InsertTask::new("a", &set));
    assert_eq!(executor.task_count(), 1);

    executor.spawn(InsertTask::new("b", &set));
    assert_eq!(executor.task_count(), 2);

    executor.wake_all();
    assert_eq!(executor.task_count(), 0);

    let actual = set.lock().unwrap();
    let expected: HashSet<_> = ["a", "b"].into();

    assert_eq!(*actual, expected);
}

#[test]
fn test_wake_spawn() {
    let mut executor: ManualExecutor<InsertTask> = ManualExecutor::new();

    let set = Arc::new(Mutex::new(HashSet::new()));

    executor.spawn_wake(InsertTask::new("a", &set));
    assert_eq!(executor.task_count(), 0);

    executor.spawn_wake(InsertTask::new("b", &set));
    assert_eq!(executor.task_count(), 0);

    let actual = set.lock().unwrap();
    let expected: HashSet<_> = ["a", "b"].into();

    assert_eq!(*actual, expected);
}

#[test]
fn count_follows_spawns_and_completions() {
    let mut executor: ManualExecutor<Countdown> = ManualExecutor::new();
    assert_eq!(executor.task_count(), 0);

    let k1 = executor.spawn(Countdown::new(1));
    let k2 = executor.spawn(Countdown::new(1));
    let k3 = executor.spawn(Countdown::new(1));
    assert_ne!(k1, k2);
    assert_ne!(k1, k3);
    assert_ne!(k2, k3);
    assert_eq!(executor.task_count(), 3);

    executor.wake(k2);
    assert_eq!(executor.task_count(), 2);

    executor.wake(k1);
    executor.wake(k3);
    assert_eq!(executor.task_count(), 0);
}

#[test]
fn wake_on_unknown_key_is_noop() {
    let mut executor: ManualExecutor<Countdown> = ManualExecutor::new();
    let key = executor.spawn(Countdown::new(2));

    executor.wake(key + 1000);
    assert_eq!(executor.task_count(), 1);

    executor.wake(key);
    executor.wake(key);
    assert_eq!(executor.task_count(), 0);

    // the key of the finished task is now permanently stale
    executor.wake(key);
    assert_eq!(executor.task_count(), 0);
}

#[test]
fn pending_task_stays_under_its_key() {
    let mut executor: ManualExecutor<Countdown> = ManualExecutor::new();
    let key = executor.spawn(Countdown::new(2));
    assert_eq!(executor.task_count(), 1);

    // first poll: still suspended, so it stays registered under `key`
    executor.wake(key);
    assert_eq!(executor.task_count(), 1);

    // second poll: finished, so it is removed and the count drops by one
    executor.wake(key);
    assert_eq!(executor.task_count(), 0);
}

#[test]
fn spawn_wake_of_immediate_completion_is_net_zero() {
    let mut executor: ManualExecutor<Countdown> = ManualExecutor::new();
    executor.spawn(Countdown::new(5));
    let before = executor.task_count();

    executor.spawn_wake(Countdown::new(1));
    assert_eq!(executor.task_count(), before);
}

#[test]
fn spawn_of_already_complete_task_is_removed_on_first_wake() {
    let mut executor: ManualExecutor<Countdown> = ManualExecutor::new();
    let key = executor.spawn(Countdown::new(0));
    assert_eq!(executor.task_count(), 1);

    executor.wake(key);
    assert_eq!(executor.task_count(), 0);
}

#[test]
fn wake_all_keeps_only_still_suspended_tasks() {
    let mut executor: ManualExecutor<Countdown> = ManualExecutor::new();
    executor.spawn(Countdown::new(2));
    executor.spawn(Countdown::new(1));
    assert_eq!(executor.task_count(), 2);

    executor.wake_all();
    assert_eq!(executor.task_count(), 1);

    executor.wake_all();
    assert_eq!(executor.task_count(), 0);
}

#[test]
fn wake_all_visits_in_ascending_key_order() {
    let mut executor: ManualExecutor<RecordTask> = ManualExecutor::new();
    let log = Arc::new(Mutex::new(Vec::new()));

    executor.spawn(RecordTask { label: "first", log: log.clone() });
    executor.spawn(RecordTask { label: "second", log: log.clone() });
    executor.spawn(RecordTask { label: "third", log: log.clone() });

    executor.wake_all();
    assert_eq!(*log.lock().unwrap(), vec!["first", "second", "third"]);

    // never-completing tasks all stay registered
    assert_eq!(executor.task_count(), 3);
}

#[test]
fn wake_polls_at_most_once_per_request() {
    let mut executor: ManualExecutor<RecordTask> = ManualExecutor::new();
    let log = Arc::new(Mutex::new(Vec::new()));
    let key = executor.spawn(RecordTask { label: "t", log: log.clone() });

    executor.wake(key);
    executor.wake(key);
    assert_eq!(log.lock().unwrap().len(), 2);
    assert_eq!(executor.task_count(), 1);
}

#[test]
fn token_signal_repolls_its_task() {
    let mut executor: ManualExecutor<StoreToken> = ManualExecutor::new();
    let slot = Arc::new(Mutex::new(None));
    executor.spawn_wake(StoreToken { polls_left: 2, slot: slot.clone() });
    assert_eq!(executor.task_count(), 1);

    let token = slot.lock().unwrap().take().unwrap();
    token.wake(&mut executor);
    assert_eq!(executor.task_count(), 0);
}

#[test]
fn duplicate_token_signal_is_noop() {
    let mut executor: ManualExecutor<StoreToken> = ManualExecutor::new();
    let slot = Arc::new(Mutex::new(None));
    executor.spawn_wake(StoreToken { polls_left: 2, slot: slot.clone() });
    assert_eq!(executor.task_count(), 1);

    let token = slot.lock().unwrap().take().unwrap();
    token.wake(&mut executor);
    assert_eq!(executor.task_count(), 0);

    // the task is gone: a second signal of the same token changes nothing
    token.wake(&mut executor);
    assert_eq!(executor.task_count(), 0);
}

#[test]
fn countdown_takes_exactly_its_step_count_of_polls() {
    let mut executor: ManualExecutor<Countdown> = ManualExecutor::new();
    let key = executor.spawn(Countdown::new(3));
    executor.wake(key);
    executor.wake(key);
    assert_eq!(executor.task_count(), 1);
    executor.wake(key);
    assert_eq!(executor.task_count(), 0);
}
