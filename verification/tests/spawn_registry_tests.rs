use olang::ast::Value;
use olang::spawn_registry::{JoinCheck, JoinPoll, SpawnGuard, TaskHandle, TaskRegistry};

struct FakeHandle {
    done: bool,
    tag: u32,
}

impl TaskHandle for FakeHandle {
    fn is_finished(&self) -> bool {
        self.done
    }
}

#[test]
fn ids_count_up_from_one() {
    let mut reg: TaskRegistry<FakeHandle> = TaskRegistry::new();
    assert_eq!(reg.next_id(), 1);
    assert_eq!(reg.next_id(), 2);
}

#[test]
fn watch_is_refused_once_the_task_signed_off() {
    let mut reg: TaskRegistry<FakeHandle> = TaskRegistry::new();
    reg.register(7, FakeHandle { done: false, tag: 0 }, 100);
    assert!(reg.watch(7, Value::Integer(1)));
    let drained = reg.finish(7);
    assert_eq!(drained.len(), 1);
    assert!(!reg.watch(7, Value::Integer(2)));
    assert!(!reg.watch(99, Value::Integer(3)));
    assert_eq!(reg.finish(99).len(), 0);
}

#[test]
fn list_is_sorted_with_states_and_elapsed_time() {
    let mut reg: TaskRegistry<FakeHandle> = TaskRegistry::new();
    reg.register(5, FakeHandle { done: false, tag: 0 }, 100);
    reg.register(2, FakeHandle { done: true, tag: 0 }, 50);
    reg.register(9, FakeHandle { done: false, tag: 0 }, 400);
    let l = reg.list(300);
    assert_eq!(l, vec![(2, "done", 250), (5, "running", 200), (9, "running", 0)]);
}

#[test]
fn joins_are_memoized() {
    let mut reg: TaskRegistry<FakeHandle> = TaskRegistry::new();
    reg.register(3, FakeHandle { done: false, tag: 11 }, 10);
    assert!(matches!(reg.poll_join(3), JoinPoll::Wait));
    assert!(matches!(reg.check_join(3), JoinCheck::Pending(false)));
    reg.forget(3);
    assert!(matches!(reg.poll_join(3), JoinPoll::Unknown));
    reg.register(3, FakeHandle { done: true, tag: 12 }, 10);
    match reg.poll_join(3) {
        JoinPoll::Take(h, started) => {
            assert_eq!(h.tag, 12);
            assert_eq!(started, 10);
        }
        _ => panic!("expected the handle"),
    }
    assert!(matches!(reg.poll_join(3), JoinPoll::Wait));
    assert_eq!(reg.list(10), vec![(3, "joining", 0)]);
    let r = reg.complete_join(3, 10, Ok(Value::Integer(42)));
    assert!(matches!(r, Ok(Value::Integer(42))));
    assert!(matches!(reg.poll_join(3), JoinPoll::Ready(Ok(Value::Integer(42)))));
    assert!(matches!(reg.check_join(3), JoinCheck::Done(Ok(Value::Integer(42)))));
    reg.forget(3);
    assert!(matches!(reg.check_join(3), JoinCheck::Unknown));
}

#[test]
fn guards_compare_by_task() {
    assert_eq!(SpawnGuard::new(4), SpawnGuard::new(4));
    assert_ne!(SpawnGuard::new(4), SpawnGuard::new(5));
    assert_eq!(SpawnGuard::new(8).id(), 8);
}
