use docker_pool::docker_pool::{Container, DockerPool, InsertOutcome, ReleaseOutcome};

fn record(id: usize) -> Container {
    Container {
        name: format!("bp-dp.{id}"),
        directory: format!("/tmp/bp/{id}"),
    }
}

/// Allocate an identity, admit a record under it, and hand the identity back.
fn provision(pool: &mut DockerPool) -> usize {
    let id = pool.allocate_id();
    match pool.insert_ready(id, record(id)) {
        InsertOutcome::Admitted => id,
        InsertOutcome::Rejected(_) => panic!("pool rejected a fresh record"),
    }
}

#[test]
fn new_pool_is_empty() {
    let mut pool = DockerPool::new(1, 3);
    assert_eq!(pool.ready_len(), 0);
    assert_eq!(pool.container_count(), 0);
    assert!(pool.take().is_none());
}

#[test]
fn take_from_empty_pool_after_one_provision_round() {
    // A pool built with initial=1, low=1, high=3: the first take finds the
    // queue empty, one provisioning round fills it, and the take succeeds.
    let mut pool = DockerPool::new(1, 3);
    assert!(pool.take().is_none());
    let id = provision(&mut pool);
    let (taken, container) = pool.take().expect("one sandbox is ready");
    assert_eq!(taken, id);
    assert_eq!(container.name, format!("bp-dp.{id}"));
    assert_eq!(container.directory, format!("/tmp/bp/{id}"));

    // The queue is now below the low-water mark, so a background top-up of
    // exactly one container is requested; once it lands, the next take
    // succeeds immediately.
    assert_eq!(pool.replenish_need(), 1);
    let replenished = provision(&mut pool);
    assert_eq!(pool.replenish_need(), 0);
    let (second, _) = pool.take().expect("replenished sandbox is ready");
    assert_eq!(second, replenished);
    assert_ne!(taken, second);
}

#[test]
fn ready_queue_is_fifo() {
    let mut pool = DockerPool::new(0, 10);
    let a = provision(&mut pool);
    let b = provision(&mut pool);
    let c = provision(&mut pool);
    assert_eq!(pool.take().unwrap().0, a);
    assert_eq!(pool.take().unwrap().0, b);
    assert_eq!(pool.take().unwrap().0, c);
    assert!(pool.take().is_none());
}

#[test]
fn concurrent_holders_get_distinct_identities() {
    let mut pool = DockerPool::new(0, 10);
    provision(&mut pool);
    provision(&mut pool);
    let (first, _) = pool.take().unwrap();
    let (second, _) = pool.take().unwrap();
    assert_ne!(first, second);
    assert!(pool.is_checked_out(first));
    assert!(pool.is_checked_out(second));
}

#[test]
fn release_at_high_water_mark_destroys() {
    // Three sandboxes are checked out and one more is ready; as the three
    // come back with high=3, the first two recycle, the release that finds
    // the ready queue at the mark destroys its sandbox, and the earlier
    // two remain ready.
    let mut pool = DockerPool::new(1, 3);
    let a = provision(&mut pool);
    assert_eq!(pool.take().unwrap().0, a);
    let b = provision(&mut pool);
    assert_eq!(pool.take().unwrap().0, b);
    let c = provision(&mut pool);
    assert_eq!(pool.take().unwrap().0, c);
    let d = provision(&mut pool);
    assert_eq!(pool.ready_len(), 1);
    assert_eq!(pool.container_count(), 4);

    assert!(matches!(pool.release(a), ReleaseOutcome::Recycled(_)));
    assert_eq!(pool.ready_len(), 2);
    assert!(matches!(pool.release(b), ReleaseOutcome::Recycled(_)));
    assert_eq!(pool.ready_len(), 3);
    match pool.release(c) {
        ReleaseOutcome::Destroyed(gone) => {
            assert_eq!(gone.name, format!("bp-dp.{c}"));
        }
        _ => panic!("the release at the high-water mark must destroy"),
    }
    assert_eq!(pool.ready_len(), 3);
    assert_eq!(pool.container_count(), 3);
    assert!(!pool.contains_id(c));
    assert!(pool.contains_id(a) && !pool.is_checked_out(a));
    assert!(pool.contains_id(b) && !pool.is_checked_out(b));
    let _ = d;
}

#[test]
fn double_release_does_not_double_insert() {
    let mut pool = DockerPool::new(1, 3);
    let id = provision(&mut pool);
    let (taken, _) = pool.take().unwrap();
    assert_eq!(taken, id);
    assert!(matches!(pool.release(id), ReleaseOutcome::Recycled(_)));
    let ready_before = pool.ready_len();
    assert!(matches!(pool.release(id), ReleaseOutcome::NotCheckedOut));
    assert_eq!(pool.ready_len(), ready_before);
    assert_eq!(pool.container_count(), 1);
}

#[test]
fn releasing_a_never_taken_identity_is_rejected() {
    let mut pool = DockerPool::new(1, 3);
    let id = provision(&mut pool);
    assert!(matches!(pool.release(id), ReleaseOutcome::NotCheckedOut));
    assert!(matches!(pool.release(id + 100), ReleaseOutcome::NotCheckedOut));
    assert_eq!(pool.ready_len(), 1);
}

#[test]
fn recycled_sandbox_is_immediately_eligible() {
    let mut pool = DockerPool::new(1, 3);
    let id = provision(&mut pool);
    let (taken, _) = pool.take().unwrap();
    assert_eq!(taken, id);
    assert_eq!(pool.ready_len(), 0);
    match pool.release(id) {
        ReleaseOutcome::Recycled(c) => {
            assert_eq!(c.directory, format!("/tmp/bp/{id}"));
        }
        _ => panic!("a release below the high-water mark must recycle"),
    }
    let (again, _) = pool.take().expect("the recycled sandbox is ready");
    assert_eq!(again, id);
}

#[test]
fn surplus_record_is_rejected_at_high_water_mark() {
    let mut pool = DockerPool::new(1, 2);
    provision(&mut pool);
    provision(&mut pool);
    assert_eq!(pool.ready_len(), 2);
    let id = pool.allocate_id();
    let surplus = record(id);
    match pool.insert_ready(id, surplus) {
        InsertOutcome::Rejected(back) => {
            assert_eq!(back.name, format!("bp-dp.{id}"));
        }
        InsertOutcome::Admitted => panic!("the pool admitted past the high-water mark"),
    }
    assert_eq!(pool.ready_len(), 2);
    assert_eq!(pool.container_count(), 2);
}

#[test]
fn stale_and_duplicate_identities_are_rejected() {
    let mut pool = DockerPool::new(1, 3);
    // An identity the counter never produced is refused.
    assert!(matches!(
        pool.insert_ready(7, record(7)),
        InsertOutcome::Rejected(_)
    ));
    let id = pool.allocate_id();
    assert!(matches!(
        pool.insert_ready(id, record(id)),
        InsertOutcome::Admitted
    ));
    // The same identity cannot be admitted twice.
    assert!(matches!(
        pool.insert_ready(id, record(id)),
        InsertOutcome::Rejected(_)
    ));
    assert_eq!(pool.container_count(), 1);
}

#[test]
fn identities_are_never_reused() {
    let mut pool = DockerPool::new(1, 3);
    let a = pool.allocate_id();
    let b = pool.allocate_id();
    let c = pool.allocate_id();
    assert!(a < b && b < c);
}

#[test]
fn shutdown_returns_every_container() {
    let mut pool = DockerPool::new(1, 3);
    let a = provision(&mut pool);
    let b = provision(&mut pool);
    let c = provision(&mut pool);
    let (taken, _) = pool.take().unwrap();
    assert_eq!(taken, a);

    let records = pool.shutdown();
    assert_eq!(records.len(), 3);
    let mut ids: Vec<usize> = records.iter().map(|r| r.0).collect();
    ids.sort();
    assert_eq!(ids, vec![a, b, c]);
    let mut names: Vec<String> = records.iter().map(|r| r.1.name.clone()).collect();
    names.sort();
    let mut expected = vec![
        format!("bp-dp.{a}"),
        format!("bp-dp.{b}"),
        format!("bp-dp.{c}"),
    ];
    expected.sort();
    assert_eq!(names, expected);

    assert_eq!(pool.container_count(), 0);
    assert_eq!(pool.ready_len(), 0);
    assert!(pool.take().is_none());
    assert!(!pool.contains_id(a) && !pool.contains_id(b) && !pool.contains_id(c));
}

#[test]
fn growth_stays_bounded_by_the_high_water_mark_plus_checkouts() {
    // At every point, the pool holds at most high-water-mark containers
    // plus however many are checked out: the cap binds the ready portion.
    let mut pool = DockerPool::new(1, 2);
    let mut checked_out: Vec<usize> = Vec::new();

    let bound_holds = |pool: &DockerPool, checked_out: &Vec<usize>| {
        pool.container_count() <= 2 + checked_out.len()
    };

    for _ in 0..4 {
        let id = pool.allocate_id();
        let _ = pool.insert_ready(id, record(id));
        assert!(bound_holds(&pool, &checked_out));
    }
    for _ in 0..2 {
        if let Some((id, _)) = pool.take() {
            checked_out.push(id);
        }
        assert!(bound_holds(&pool, &checked_out));
    }
    for _ in 0..2 {
        let id = pool.allocate_id();
        let _ = pool.insert_ready(id, record(id));
        assert!(bound_holds(&pool, &checked_out));
    }
    while let Some(id) = checked_out.pop() {
        let _ = pool.release(id);
        assert!(bound_holds(&pool, &checked_out));
    }
    assert!(pool.ready_len() <= 2);
}

#[test]
fn replenish_need_tops_up_to_the_low_water_mark() {
    let mut pool = DockerPool::new(3, 5);
    assert_eq!(pool.replenish_need(), 3);
    provision(&mut pool);
    assert_eq!(pool.replenish_need(), 2);
    provision(&mut pool);
    provision(&mut pool);
    assert_eq!(pool.replenish_need(), 0);
}
