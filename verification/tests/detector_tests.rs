// The deadlock detector and the lock primitives around it.

use easy_fs::sync_ctrl::{ProcessState, Resource, DEAD};

fn three_threads() -> (ProcessState, usize, usize, usize) {
    let mut p = ProcessState::new();
    let t0 = p.add_thread().unwrap();
    let t1 = p.add_thread().unwrap();
    let t2 = p.add_thread().unwrap();
    (p, t0, t1, t2)
}

#[test]
fn detector_refusal() {
    // two semaphores of one unit; crossing requests are refused
    let (mut p, t0, t1, _t2) = three_threads();
    assert_eq!(p.sys_enable_deadlock_detect(1), 0);
    let s0 = p.sys_semaphore_create(1) as usize;
    let s1 = p.sys_semaphore_create(1) as usize;
    assert_eq!(p.sys_semaphore_down(t0, s0), 0);
    assert_eq!(p.sys_semaphore_down(t1, s1), 0);
    assert_eq!(p.sys_semaphore_down(t0, s1), 0, "safe while the peer can still finish");
    assert_eq!(p.sys_semaphore_down(t1, s0), DEAD, "the crossing request is refused");
    assert_eq!(DEAD, -0xdead);
}

#[test]
fn detector_disabled_lets_threads_block() {
    let (mut p, t0, t1, _t2) = three_threads();
    let s0 = p.sys_semaphore_create(1) as usize;
    let s1 = p.sys_semaphore_create(1) as usize;
    assert_eq!(p.sys_semaphore_down(t0, s0), 0);
    assert_eq!(p.sys_semaphore_down(t1, s1), 0);
    assert_eq!(p.sys_semaphore_down(t0, s1), 0);
    assert_eq!(p.sys_semaphore_down(t1, s0), 0, "no refusal with detection off");
    // both ended up queued: the classic deadlock
    match &p.resources[s0] {
        Some(Resource::Counting(s)) => assert_eq!(s.wait_queue, vec![t1]),
        _ => panic!("semaphore expected"),
    }
    match &p.resources[s1] {
        Some(Resource::Counting(s)) => assert_eq!(s.wait_queue, vec![t0]),
        _ => panic!("semaphore expected"),
    }
}

#[test]
fn single_resource_false_negative_guard() {
    // the safety check walks every resource column, so an idle thread's
    // request for a free unit is declared safe
    let mut p = ProcessState::new();
    let t0 = p.add_thread().unwrap();
    let t1 = p.add_thread().unwrap();
    let t2 = p.add_thread().unwrap();
    let t3 = p.add_thread().unwrap();
    assert_eq!(p.sys_enable_deadlock_detect(1), 0);
    let s0 = p.sys_semaphore_create(1) as usize;
    let s1 = p.sys_semaphore_create(1) as usize;
    let s2 = p.sys_semaphore_create(2) as usize;
    assert_eq!(p.sys_semaphore_down(t0, s0), 0);
    assert_eq!(p.sys_semaphore_down(t1, s1), 0);
    assert_eq!(p.sys_semaphore_down(t2, s2), 0);
    assert_eq!(p.sys_semaphore_down(t3, s2), 0, "a free unit is granted");
}

#[test]
fn mutex_lock_unlock_handover() {
    let (mut p, t0, t1, _t2) = three_threads();
    let m = p.sys_mutex_create(true) as usize;
    assert_eq!(p.sys_mutex_lock(t0, m), 0);
    assert_eq!(p.sys_mutex_lock(t1, m), 0, "the second locker queues");
    match &p.resources[m] {
        Some(Resource::Blocking(mx)) => {
            assert!(mx.locked);
            assert_eq!(mx.wait_queue, vec![t1]);
        },
        _ => panic!("blocking mutex expected"),
    }
    assert_eq!(p.sys_mutex_unlock(t0, m), 0);
    // the mutex went straight to the waiter
    match &p.resources[m] {
        Some(Resource::Blocking(mx)) => {
            assert!(mx.locked);
            assert!(mx.wait_queue.is_empty());
        },
        _ => panic!("blocking mutex expected"),
    }
    assert_eq!(p.allocation[t1][m], 1);
    assert_eq!(p.allocation[t0][m], 0);
    assert_eq!(p.sys_mutex_unlock(t1, m), 0);
    assert_eq!(p.available[m], 1);
}

#[test]
fn spin_mutex_and_enable_values() {
    let (mut p, t0, _t1, _t2) = three_threads();
    assert_eq!(p.sys_enable_deadlock_detect(7), -1, "only 0 and 1 are accepted");
    let m = p.sys_mutex_create(false) as usize;
    assert_eq!(p.sys_mutex_lock(t0, m), 0);
    match &p.resources[m] {
        Some(Resource::Spin(mx)) => assert!(mx.locked),
        _ => panic!("spin mutex expected"),
    }
    assert_eq!(p.sys_mutex_unlock(t0, m), 0);
}

#[test]
fn condvar_wait_signal() {
    let (mut p, t0, _t1, _t2) = three_threads();
    let m = p.sys_mutex_create(true) as usize;
    let c = p.sys_condvar_create() as usize;
    assert_eq!(p.sys_mutex_lock(t0, m), 0);
    assert_eq!(p.sys_condvar_wait(t0, c, m), 0);
    match &p.condvars[c] {
        Some(cv) => assert_eq!(cv.wait_queue, vec![t0]),
        None => panic!("condvar expected"),
    }
    assert_eq!(p.sys_condvar_signal(c), 0);
    match &p.condvars[c] {
        Some(cv) => assert!(cv.wait_queue.is_empty()),
        None => panic!("condvar expected"),
    }
}
