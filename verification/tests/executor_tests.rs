use mg::executor::{PerCpuContainer, SpawnError};
use mg::{Actor, Executor, Pic};

struct FlatPic;

impl Pic for FlatPic {
    fn prio_of(vector: u16) -> u8 {
        (vector % 4) as u8
    }
    fn interrupt_request(_cpu: u8, _vector: u16) {}
    fn interrupt_prio(vector: u16) -> u8 {
        Self::prio_of(vector)
    }
}

#[test]
fn actor_new_and_parent() {
    let mut a = Actor::new(0, 5, 1);
    assert_eq!((a.cpu, a.vect, a.prio, a.parent), (0, 5, 1, false));
    a.set_parent();
    assert!(a.parent);
}

#[test]
fn container_queues_by_priority() {
    let mut c: PerCpuContainer<3> = PerCpuContainer::new();
    c.init();
    c.insert(4, 2);
    c.insert(1, 0);
    c.insert(9, 2);
    assert_eq!(c.extract(1), None);
    assert_eq!(c.extract(2), Some(4));
    assert_eq!(c.extract(2), Some(9));
    assert_eq!(c.extract(0), Some(1));
    assert_eq!(c.extract(0), None);
}

#[test]
fn run_queues_actors_in_order() {
    let mut e: Executor<FlatPic, 4, 1> = Executor::new();
    e.init();
    let reqs = e.run(vec![Actor::new(0, 1, 1), Actor::new(0, 2, 2), Actor::new(0, 5, 1)]);
    assert_eq!(reqs, vec![(0, 1), (0, 2), (0, 5)]);
    assert_eq!(e.next_actor(1), Some(0));
    assert_eq!(e.next_actor(1), Some(2));
    assert_eq!(e.next_actor(1), None);
    assert_eq!(e.next_actor(2), Some(1));
    assert_eq!(e.activate(2), (0, 5));
    assert_eq!(e.activate(0), (0, 1));
    assert_eq!(e.next_actor(1), Some(2));
    assert_eq!(e.next_actor(1), Some(0));
}

#[test]
fn spawn_rejects_mismatches() {
    let prio = |a: &Actor| FlatPic::interrupt_prio(a.vect);
    let a = Actor::new(0, 1, 2);
    let mut e: Executor<FlatPic, 4, 1> = Executor::new();
    let (reqs, r) = e.run_checked(vec![a], vec![prio(&a)]);
    assert!(reqs.is_empty());
    assert!(matches!(r, Err(SpawnError::PriorityMismatch)));
    let a = Actor::new(1, 1, 1);
    let mut e: Executor<FlatPic, 4, 1> = Executor::new();
    assert!(matches!(e.run_checked(vec![a], vec![prio(&a)]).1, Err(SpawnError::WrongCpu)));
    let a = Actor::new(0, 3, 3);
    let mut e: Executor<FlatPic, 2, 1> = Executor::new();
    assert!(matches!(e.run_checked(vec![a], vec![prio(&a)]).1, Err(SpawnError::PriorityOutOfRange)));
}

#[test]
fn spawn_checked_starts_a_registered_actor() {
    let mut e: Executor<FlatPic, 4, 1> = Executor::new();
    let (reqs, r) = e.run_checked(vec![Actor::new(0, 6, 1)], vec![2]);
    assert!(reqs.is_empty());
    assert!(matches!(r, Err(SpawnError::PriorityMismatch)));
    assert_eq!(e.next_actor(1), None);
    assert!(matches!(e.spawn_checked(0, 0, 2), Err(SpawnError::PriorityMismatch)));
    assert!(matches!(e.spawn_checked(0, 0, 1), Ok((0, 6))));
    assert_eq!(e.next_actor(1), Some(0));
}

#[test]
fn run_checked_stops_at_first_failure() {
    let mut e: Executor<FlatPic, 4, 1> = Executor::new();
    let (reqs, r) = e.run_checked(vec![Actor::new(0, 1, 1), Actor::new(0, 2, 3), Actor::new(0, 3, 1)], vec![1, 2, 1]);
    assert_eq!(reqs, vec![(0, 1)]);
    assert!(matches!(r, Err(SpawnError::PriorityMismatch)));
    assert_eq!(e.next_actor(1), Some(0));
    assert_eq!(e.next_actor(1), None);
    assert_eq!(e.next_actor(3), None);
    let mut e: Executor<FlatPic, 4, 1> = Executor::new();
    let (reqs, r) = e.run_checked(vec![Actor::new(0, 9, 2), Actor::new(0, 8, 2)], vec![2, 2]);
    assert!(r.is_ok());
    assert_eq!(reqs, vec![(0, 9), (0, 8)]);
    assert_eq!(e.next_actor(2), Some(0));
    assert_eq!(e.next_actor(2), Some(1));
}
