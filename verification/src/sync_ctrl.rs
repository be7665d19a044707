//! Lock primitives and the deadlock-avoidance detector.
//!
//! A process's mutexes and semaphores share one dense resource id space.
//! The detector keeps the Banker's matrices — `available`, `allocation`,
//! `need` — and refuses an acquire exactly when the state after recording
//! the request admits no order in which every live thread can finish.

use vstd::prelude::*;

verus! {

/// Number of resource ids a process can hold.
pub const RESOURCE_CATEG_NUM: usize = 512;

/// Number of thread slots a process can hold.
pub const MAX_THREAD_NUM: usize = 32;

/// The refusal value of a detected deadlock.
pub const DEAD: isize = -0xdead;

// ---------------------------------------------------------------------------
// The Banker's safety condition
// ---------------------------------------------------------------------------

/// Thread `t`'s outstanding need fits within `work`.
pub open spec fn row_le(need_row: Seq<u8>, work: Seq<int>) -> bool {
    forall|r: int| 0 <= r < work.len() ==> #[trigger] need_row[r] <= work[r]
}

/// `work` grown by what one thread would give back.
pub open spec fn add_row(work: Seq<int>, alloc_row: Seq<u8>) -> Seq<int> {
    Seq::new(work.len(), |r: int| work[r] + alloc_row[r])
}

/// The threads of `order` can finish one after the other, each within the
/// work freed so far.
pub open spec fn step_ok(
    need: Seq<Seq<u8>>,
    alloc: Seq<Seq<u8>>,
    work: Seq<int>,
    order: Seq<int>,
) -> bool
    decreases order.len(),
{
    order.len() == 0 || {
        let t = order[0];
        &&& 0 <= t < need.len()
        &&& row_le(need[t], work)
        &&& step_ok(need, alloc, add_row(work, alloc[t]), order.drop_first())
    }
}

/// `order` lists every unfinished thread exactly once.
pub open spec fn is_unfinished_perm(order: Seq<int>, finish: Seq<bool>) -> bool {
    &&& order.no_duplicates()
    &&& forall|w: int|
        0 <= w < order.len() ==> 0 <= #[trigger] order[w] < finish.len() && !finish[order[w]]
    &&& forall|t: int| 0 <= t < finish.len() && !finish[t] ==> order.contains(t)
}

/// The Banker's safety condition: some order lets every unfinished thread
/// finish.
pub open spec fn banker_safe(
    need: Seq<Seq<u8>>,
    alloc: Seq<Seq<u8>>,
    work: Seq<int>,
    finish: Seq<bool>,
) -> bool {
    exists|order: Seq<int>|
        is_unfinished_perm(order, finish) && #[trigger] step_ok(need, alloc, work, order)
}

/// A need row that fits small work fits larger work.
pub proof fn lemma_row_le_mono(need_row: Seq<u8>, w1: Seq<int>, w2: Seq<int>)
    requires
        row_le(need_row, w1),
        w1.len() == w2.len(),
        forall|r: int| 0 <= r < w1.len() ==> #[trigger] w1[r] <= w2[r],
    ensures
        row_le(need_row, w2),
{
}

/// An order that works with small work works with larger work.
pub proof fn lemma_step_ok_mono(
    need: Seq<Seq<u8>>,
    alloc: Seq<Seq<u8>>,
    w1: Seq<int>,
    w2: Seq<int>,
    order: Seq<int>,
)
    requires
        step_ok(need, alloc, w1, order),
        w1.len() == w2.len(),
        forall|r: int| 0 <= r < w1.len() ==> #[trigger] w1[r] <= w2[r],
    ensures
        step_ok(need, alloc, w2, order),
    decreases order.len(),
{
    if order.len() > 0 {
        let t = order[0];
        lemma_row_le_mono(need[t], w1, w2);
        assert forall|r: int|
            0 <= r < w1.len() implies #[trigger] add_row(w1, alloc[t])[r] <= add_row(
            w2,
            alloc[t],
        )[r] by {}
        lemma_step_ok_mono(need, alloc, add_row(w1, alloc[t]), add_row(w2, alloc[t]), order.drop_first());
    }
}

/// Removing an element of a duplicate-free cover leaves a duplicate-free
/// cover of the rest.
proof fn lemma_remove_perm(order: Seq<int>, finish: Seq<bool>, i: int)
    requires
        is_unfinished_perm(order, finish),
        0 <= i < order.len(),
        0 <= order[i] < finish.len(),
    ensures
        is_unfinished_perm(order.remove(i), finish.update(order[i], true)),
    decreases order.len(),
{
    let t = order[i];
    let o2 = order.remove(i);
    let f2 = finish.update(t, true);
    assert forall|a: int, b: int|
        0 <= a < o2.len() && 0 <= b < o2.len() && a != b implies o2[a] != o2[b] by {
        let a0: int = if a < i {
            a
        } else {
            a + 1
        };
        let b0: int = if b < i {
            b
        } else {
            b + 1
        };
        assert(o2[a] == order[a0] && o2[b] == order[b0]);
    }
    assert forall|w: int|
        0 <= w < o2.len() implies 0 <= #[trigger] o2[w] < f2.len() && !f2[o2[w]] by {
        let w0: int = if w < i {
            w
        } else {
            w + 1
        };
        assert(o2[w] == order[w0]);
        assert(order[w0] != t) by {
            if order[w0] == t {
                assert(order[w0] == order[i] && w0 != i);
            }
        }
    }
    assert forall|t2: int| 0 <= t2 < f2.len() && !f2[t2] implies o2.contains(t2) by {
        assert(order.contains(t2));
        let w = choose|w: int| 0 <= w < order.len() && order[w] == t2;
        assert(w != i);
        if w < i {
            assert(o2[w] == t2);
        } else {
            assert(o2[w - 1] == t2);
        }
    }
}

/// Exchange: a safe state stays safe when one eligible thread is finished
/// first.
pub proof fn lemma_exchange(
    need: Seq<Seq<u8>>,
    alloc: Seq<Seq<u8>>,
    work: Seq<int>,
    order: Seq<int>,
    i: int,
)
    requires
        step_ok(need, alloc, work, order),
        0 <= i < order.len(),
        forall|w: int|
            0 <= w < order.len() ==> 0 <= #[trigger] order[w] < alloc.len() && alloc[order[w]].len()
                == work.len(),
        row_le(need[order[i]], work),
    ensures
        step_ok(need, alloc, add_row(work, alloc[order[i]]), order.remove(i)),
    decreases i,
{
    let t = order[i];
    if i == 0 {
        assert(order.remove(0) =~= order.drop_first());
    } else {
        let h = order[0];
        let tail = order.drop_first();
        assert(tail[i - 1] == order[i]);
        assert forall|w: int|
            0 <= w < tail.len() implies 0 <= #[trigger] tail[w] < alloc.len()
                && alloc[tail[w]].len() == add_row(work, alloc[h]).len() by {
            assert(tail[w] == order[w + 1]);
        }
        assert(row_le(need[t], add_row(work, alloc[h]))) by {
            lemma_row_le_mono(need[t], work, add_row(work, alloc[h]));
        }
        lemma_exchange(need, alloc, add_row(work, alloc[h]), tail, i - 1);
        // reassemble with the head in front, under the larger work
        let w_t = add_row(work, alloc[t]);
        assert(row_le(need[h], w_t)) by {
            lemma_row_le_mono(need[h], work, w_t);
        }
        assert(add_row(add_row(work, alloc[h]), alloc[t]) =~= add_row(w_t, alloc[h]));
        assert(order.remove(i) =~= seq![h] + tail.remove(i - 1));
        assert(step_ok(need, alloc, add_row(w_t, alloc[h]), tail.remove(i - 1)));
        let rebuilt = order.remove(i);
        assert(rebuilt[0] == h);
        assert(rebuilt.drop_first() =~= tail.remove(i - 1));
        assert(step_ok(need, alloc, w_t, rebuilt));
    }
}

/// Granting an eligible thread keeps the state safe.
pub proof fn lemma_safe_after_grant(
    need: Seq<Seq<u8>>,
    alloc: Seq<Seq<u8>>,
    work: Seq<int>,
    finish: Seq<bool>,
    t: int,
)
    requires
        banker_safe(need, alloc, work, finish),
        0 <= t < finish.len(),
        !finish[t],
        row_le(need[t], work),
        finish.len() <= need.len(),
        forall|t2: int| 0 <= t2 < alloc.len() ==> (#[trigger] alloc[t2]).len() == work.len(),
        alloc.len() == need.len(),
    ensures
        banker_safe(need, alloc, add_row(work, alloc[t]), finish.update(t, true)),
{
    let order = choose|order: Seq<int>|
        is_unfinished_perm(order, finish) && #[trigger] step_ok(need, alloc, work, order);
    assert(order.contains(t));
    let i = choose|i: int| 0 <= i < order.len() && order[i] == t;
    lemma_exchange(need, alloc, work, order, i);
    lemma_remove_perm(order, finish, i);
    assert(is_unfinished_perm(order.remove(i), finish.update(t, true)) && step_ok(
        need,
        alloc,
        add_row(work, alloc[t]),
        order.remove(i),
    ));
}

/// A duplicate-free sequence of values below `n` has at most `n` entries.
pub proof fn lemma_nodup_bound(o: Seq<int>, n: int)
    requires
        o.no_duplicates(),
        forall|w: int| 0 <= w < o.len() ==> 0 <= #[trigger] o[w] < n,
        0 <= n,
    ensures
        o.len() <= n,
{
    o.unique_seq_to_set();
    assert(o.to_set().subset_of(vstd::set_lib::set_int_range(0, n))) by {
        assert forall|b: int| o.to_set().contains(b) implies vstd::set_lib::set_int_range(
            0,
            n,
        ).contains(b) by {
            assert(o.contains(b));
            let w = choose|w: int| 0 <= w < o.len() && o[w] == b;
        }
    }
    vstd::set_lib::lemma_int_range(0, n);
    vstd::set_lib::lemma_len_subset(o.to_set(), vstd::set_lib::set_int_range(0, n));
}

/// Releasing resources keeps the state safe: with more work available,
/// the same completion order still goes through.
pub proof fn lemma_safe_after_release(
    need: Seq<Seq<u8>>,
    alloc: Seq<Seq<u8>>,
    w1: Seq<int>,
    w2: Seq<int>,
    finish: Seq<bool>,
)
    requires
        banker_safe(need, alloc, w1, finish),
        w1.len() == w2.len(),
        forall|r: int| 0 <= r < w1.len() ==> #[trigger] w1[r] <= w2[r],
    ensures
        banker_safe(need, alloc, w2, finish),
{
    let order = choose|order: Seq<int>|
        is_unfinished_perm(order, finish) && #[trigger] step_ok(need, alloc, w1, order);
    lemma_step_ok_mono(need, alloc, w1, w2, order);
    assert(is_unfinished_perm(order, finish) && step_ok(need, alloc, w2, order));
}

/// The work vector after the threads of `o` have given their allocation
/// back, in order.
pub open spec fn work_after(alloc: Seq<Seq<u8>>, w: Seq<int>, o: Seq<int>) -> Seq<int>
    decreases o.len(),
{
    if o.len() == 0 {
        w
    } else {
        work_after(alloc, add_row(w, alloc[o[0]]), o.drop_first())
    }
}

/// One more finished thread adds its allocation to the work.
pub proof fn lemma_work_after_push(alloc: Seq<Seq<u8>>, w: Seq<int>, o: Seq<int>, t: int)
    ensures
        work_after(alloc, w, o.push(t)) == add_row(work_after(alloc, w, o), alloc[t]),
    decreases o.len(),
{
    let p = o.push(t);
    assert(p.len() == o.len() + 1);
    if o.len() == 0 {
        assert(p.drop_first() =~= Seq::<int>::empty());
        assert(p[0] == t);
        assert(work_after(alloc, w, p) == work_after(alloc, add_row(w, alloc[t]), p.drop_first()));
        assert(work_after(alloc, add_row(w, alloc[t]), p.drop_first()) == add_row(w, alloc[t]));
        assert(work_after(alloc, w, o) == w);
    } else {
        assert(p.drop_first() =~= o.drop_first().push(t));
        assert(p[0] == o[0]);
        lemma_work_after_push(alloc, add_row(w, alloc[o[0]]), o.drop_first(), t);
        assert(work_after(alloc, w, p) == work_after(
            alloc,
            add_row(w, alloc[o[0]]),
            o.drop_first().push(t),
        ));
        assert(work_after(alloc, w, o) == work_after(alloc, add_row(w, alloc[o[0]]), o.drop_first()));
    }
}

/// An order extends by any thread whose need fits the work so far.
pub proof fn lemma_step_ok_push(
    need: Seq<Seq<u8>>,
    alloc: Seq<Seq<u8>>,
    w: Seq<int>,
    o: Seq<int>,
    t: int,
)
    requires
        step_ok(need, alloc, w, o),
        0 <= t < need.len(),
        row_le(need[t], work_after(alloc, w, o)),
    ensures
        step_ok(need, alloc, w, o.push(t)),
    decreases o.len(),
{
    let p = o.push(t);
    assert(p.len() == o.len() + 1);
    if o.len() == 0 {
        assert(p[0] == t);
        assert(p.drop_first() =~= Seq::<int>::empty());
        assert(work_after(alloc, w, o) == w);
        assert(step_ok(need, alloc, add_row(w, alloc[t]), p.drop_first()));
    } else {
        assert(p[0] == o[0]);
        assert(p.drop_first() =~= o.drop_first().push(t));
        assert(work_after(alloc, w, o) == work_after(alloc, add_row(w, alloc[o[0]]), o.drop_first()));
        lemma_step_ok_push(need, alloc, add_row(w, alloc[o[0]]), o.drop_first(), t);
        assert(step_ok(need, alloc, add_row(w, alloc[p[0]]), p.drop_first()));
    }
}

// ---------------------------------------------------------------------------
// Lock primitives
// ---------------------------------------------------------------------------

/// A spinning mutex: the caller retries (yielding each turn) while it is
/// held.
pub struct MutexSpin {
    pub locked: bool,
}

impl MutexSpin {
    /// An unlocked spinning mutex.
    pub fn new() -> (r: MutexSpin)
        ensures
            !r.locked,
    {
        MutexSpin { locked: false }
    }

    /// Try to take the mutex; `false` means the caller yields and retries.
    pub fn lock(&mut self, _tid: usize) -> (acquired: bool)
        ensures
            acquired == !old(self).locked,
            final(self).locked,
    {
        if !self.locked {
            self.locked = true;
            true
        } else {
            false
        }
    }

    /// Release the mutex.
    pub fn unlock(&mut self)
        ensures
            !final(self).locked,
    {
        self.locked = false;
    }
}

/// A blocking mutex with a first-in-first-out wait queue of thread ids.
pub struct MutexBlocking {
    pub locked: bool,
    pub wait_queue: Vec<usize>,
}

impl MutexBlocking {
    /// An unlocked blocking mutex with no waiters.
    pub fn new() -> (r: MutexBlocking)
        ensures
            !r.locked,
            r.wait_queue@ == Seq::<usize>::empty(),
    {
        MutexBlocking { locked: false, wait_queue: Vec::new() }
    }

    /// Take the mutex or join the back of the queue; `false` means the
    /// caller blocks.
    pub fn lock(&mut self, tid: usize) -> (acquired: bool)
        ensures
            acquired == !old(self).locked,
            final(self).locked,
            final(self).wait_queue@ == if old(self).locked {
                old(self).wait_queue@.push(tid)
            } else {
                old(self).wait_queue@
            },
    {
        if !self.locked {
            self.locked = true;
            true
        } else {
            self.wait_queue.push(tid);
            false
        }
    }

    /// Release the mutex, handing it straight to the first waiter if one
    /// is queued.
    pub fn unlock(&mut self) -> (woken: Option<usize>)
        requires
            old(self).locked,
        ensures
            match woken {
                Some(h) => old(self).wait_queue@.len() > 0 && h == old(self).wait_queue@[0]
                    && final(self).wait_queue@ == old(self).wait_queue@.drop_first() && final(self).locked,
                None => old(self).wait_queue@.len() == 0 && !final(self).locked && final(self).wait_queue@ == old(self).wait_queue@,
            },
    {
        if self.wait_queue.len() > 0 {
            let h = self.wait_queue.remove(0);
            proof {
                assert(self.wait_queue@ =~= old(self).wait_queue@.drop_first());
            }
            Some(h)
        } else {
            self.locked = false;
            None
        }
    }
}

/// A counting semaphore: a count that may run negative, with one queued
/// waiter for each unit below zero.
pub struct Semaphore {
    pub count: i32,
    pub wait_queue: Vec<usize>,
}

impl Semaphore {
    /// A semaphore with `res_count` units.
    pub fn new(res_count: usize) -> (r: Semaphore)
        requires
            res_count <= 255,
        ensures
            r.count == res_count,
            r.wait_queue@ == Seq::<usize>::empty(),
    {
        Semaphore { count: res_count as i32, wait_queue: Vec::new() }
    }

    /// Take one unit or join the back of the queue; `false` means the
    /// caller blocks.
    pub fn down(&mut self, tid: usize) -> (acquired: bool)
        requires
            old(self).count > i32::MIN,
        ensures
            final(self).count == old(self).count - 1,
            acquired == (old(self).count > 0),
            final(self).wait_queue@ == if old(self).count > 0 {
                old(self).wait_queue@
            } else {
                old(self).wait_queue@.push(tid)
            },
    {
        self.count = self.count - 1;
        if self.count < 0 {
            self.wait_queue.push(tid);
            false
        } else {
            true
        }
    }

    /// Give one unit back, handing it straight to the first waiter if one
    /// is queued.
    pub fn up(&mut self) -> (woken: Option<usize>)
        requires
            old(self).count < i32::MAX,
            old(self).count < 0 ==> old(self).wait_queue@.len() > 0,
        ensures
            final(self).count == old(self).count + 1,
            match woken {
                Some(h) => old(self).count < 0 && h == old(self).wait_queue@[0] && final(self).wait_queue@ == old(self).wait_queue@.drop_first(),
                None => old(self).count >= 0 && final(self).wait_queue@ == old(self).wait_queue@,
            },
    {
        self.count = self.count + 1;
        if self.count <= 0 {
            let h = self.wait_queue.remove(0);
            proof {
                assert(self.wait_queue@ =~= old(self).wait_queue@.drop_first());
            }
            Some(h)
        } else {
            None
        }
    }
}

/// A condition variable: a first-in-first-out queue of waiting threads.
pub struct Condvar {
    pub wait_queue: Vec<usize>,
}

impl Condvar {
    /// A condition variable with no waiters.
    pub fn new() -> (r: Condvar)
        ensures
            r.wait_queue@ == Seq::<usize>::empty(),
    {
        Condvar { wait_queue: Vec::new() }
    }

    /// Wake the first waiter, if any.
    pub fn signal(&mut self) -> (woken: Option<usize>)
        ensures
            match woken {
                Some(h) => old(self).wait_queue@.len() > 0 && h == old(self).wait_queue@[0]
                    && final(self).wait_queue@ == old(self).wait_queue@.drop_first(),
                None => old(self).wait_queue@.len() == 0 && final(self).wait_queue@ == old(self).wait_queue@,
            },
    {
        if self.wait_queue.len() > 0 {
            let h = self.wait_queue.remove(0);
            proof {
                assert(self.wait_queue@ =~= old(self).wait_queue@.drop_first());
            }
            Some(h)
        } else {
            None
        }
    }

    /// Join the back of the queue; the caller blocks until signalled.
    pub fn enqueue(&mut self, tid: usize)
        ensures
            final(self).wait_queue@ == old(self).wait_queue@.push(tid),
    {
        self.wait_queue.push(tid);
    }
}

/// One slot of the process's dense resource id space.
pub enum Resource {
    Spin(MutexSpin),
    Blocking(MutexBlocking),
    Counting(Semaphore),
}

/// What the available count of a slot must be: one unit for a free mutex,
/// the positive part of the count for a semaphore, and a queued waiter for
/// every unit a semaphore has run below zero.
pub open spec fn res_wf(r: Resource, avail: u8) -> bool {
    match r {
        Resource::Spin(m) => avail == if m.locked {
            0u8
        } else {
            1u8
        },
        Resource::Blocking(m) => {
            &&& avail == if m.locked {
                0u8
            } else {
                1u8
            }
            &&& (!m.locked ==> m.wait_queue@.len() == 0)
        },
        Resource::Counting(s) => {
            &&& (s.count >= 0 ==> avail == s.count && s.wait_queue@.len() == 0)
            &&& (s.count < 0 ==> avail == 0 && s.wait_queue@.len() == -(s.count as int))
        },
    }
}

// ---------------------------------------------------------------------------
// The process's lock state and the detector
// ---------------------------------------------------------------------------

/// A process's lock state: its resources and condition variables, the
/// Banker's matrices, its live-thread flags, and the detection switch.
pub struct ProcessState {
    pub resources: Vec<Option<Resource>>,
    pub condvars: Vec<Option<Condvar>>,
    pub available: Vec<u8>,
    pub allocation: Vec<Vec<u8>>,
    pub need: Vec<Vec<u8>>,
    pub threads: Vec<bool>,
    pub enable_deadlock_detect: bool,
}

impl ProcessState {
    /// The matrices have their fixed shape and every resource slot agrees
    /// with its available count.
    pub open spec fn wf(&self) -> bool {
        &&& self.available@.len() == RESOURCE_CATEG_NUM
        &&& self.allocation@.len() == MAX_THREAD_NUM
        &&& self.need@.len() == MAX_THREAD_NUM
        &&& self.threads@.len() == MAX_THREAD_NUM
        &&& forall|t: int|
            0 <= t < MAX_THREAD_NUM ==> (#[trigger] self.allocation@[t])@.len()
                == RESOURCE_CATEG_NUM
        &&& forall|t: int|
            0 <= t < MAX_THREAD_NUM ==> (#[trigger] self.need@[t])@.len() == RESOURCE_CATEG_NUM
        &&& self.resources@.len() <= RESOURCE_CATEG_NUM
        &&& forall|r: int|
            0 <= r < self.resources@.len() ==> match #[trigger] self.resources@[r] {
                Some(res) => res_wf(res, self.available@[r]),
                None => true,
            }
        &&& forall|r: int|
            self.resources@.len() <= r < RESOURCE_CATEG_NUM ==> #[trigger] self.available@[r]
                == 0
    }

    /// The need matrix as a mathematical value.
    pub open spec fn need_m(&self) -> Seq<Seq<u8>> {
        self.need@.map_values(|v: Vec<u8>| v@)
    }

    /// The allocation matrix as a mathematical value.
    pub open spec fn alloc_m(&self) -> Seq<Seq<u8>> {
        self.allocation@.map_values(|v: Vec<u8>| v@)
    }

    /// The available vector as the Banker's starting work.
    pub open spec fn work0(&self) -> Seq<int> {
        Seq::new(RESOURCE_CATEG_NUM as nat, |r: int| self.available@[r] as int)
    }

    /// The starting finish flags: already finished iff the slot holds no
    /// live thread.
    pub open spec fn finish0(&self) -> Seq<bool> {
        Seq::new(MAX_THREAD_NUM as nat, |t: int| !self.threads@[t])
    }

    /// The whole state is safe by the Banker's condition.
    pub open spec fn is_safe(&self) -> bool {
        banker_safe(self.need_m(), self.alloc_m(), self.work0(), self.finish0())
    }

    /// A fresh process: no resources, no condition variables, zeroed
    /// matrices, no live threads, detection off.
    pub fn new() -> (r: ProcessState)
        ensures
            r.wf(),
            r.resources@.len() == 0,
            r.condvars@.len() == 0,
            !r.enable_deadlock_detect,
            forall|t: int| 0 <= t < MAX_THREAD_NUM ==> !r.threads@[t],
            forall|r2: int| 0 <= r2 < RESOURCE_CATEG_NUM ==> r.available@[r2] == 0,
            forall|t: int, r2: int|
                0 <= t < MAX_THREAD_NUM && 0 <= r2 < RESOURCE_CATEG_NUM ==> #[trigger] r.allocation@[t]@[r2]
                    == 0 && #[trigger] r.need@[t]@[r2] == 0,
    {
        let available: Vec<u8> = vec![0u8; RESOURCE_CATEG_NUM];
        let mut allocation: Vec<Vec<u8>> = Vec::new();
        let mut need: Vec<Vec<u8>> = Vec::new();
        let mut t: usize = 0;
        while t < MAX_THREAD_NUM
            invariant
                t <= MAX_THREAD_NUM,
                allocation@.len() == t,
                need@.len() == t,
                forall|t2: int|
                    0 <= t2 < t ==> (#[trigger] allocation@[t2])@ =~= Seq::new(
                        RESOURCE_CATEG_NUM as nat,
                        |r2: int| 0u8,
                    ),
                forall|t2: int|
                    0 <= t2 < t ==> (#[trigger] need@[t2])@ =~= Seq::new(
                        RESOURCE_CATEG_NUM as nat,
                        |r2: int| 0u8,
                    ),
            decreases MAX_THREAD_NUM - t,
        {
            allocation.push(vec![0u8; RESOURCE_CATEG_NUM]);
            need.push(vec![0u8; RESOURCE_CATEG_NUM]);
            t = t + 1;
        }
        let threads: Vec<bool> = vec![false; MAX_THREAD_NUM];
        ProcessState {
            resources: Vec::new(),
            condvars: Vec::new(),
            available,
            allocation,
            need,
            threads,
            enable_deadlock_detect: false,
        }
    }

    /// Mark the first free thread slot live and return its id.
    pub fn add_thread(&mut self) -> (r: Option<usize>)
        requires
            old(self).wf(),
        ensures
            final(self).wf(),
            final(self).resources@ == old(self).resources@,
            final(self).condvars@ == old(self).condvars@,
            final(self).available@ == old(self).available@,
            final(self).allocation@ == old(self).allocation@,
            final(self).need@ == old(self).need@,
            final(self).enable_deadlock_detect == old(self).enable_deadlock_detect,
            match r {
                Some(tid) => tid < MAX_THREAD_NUM && !old(self).threads@[tid as int] && final(self).threads@ == old(self).threads@.update(tid as int, true),
                None => final(self).threads@ == old(self).threads@ && forall|t: int|
                    0 <= t < MAX_THREAD_NUM ==> old(self).threads@[t],
            },
    {
        let mut t: usize = 0;
        while t < MAX_THREAD_NUM
            invariant
                self == old(self),
                old(self).wf(),
                t <= MAX_THREAD_NUM,
                forall|t2: int| 0 <= t2 < t ==> old(self).threads@[t2],
            decreases MAX_THREAD_NUM - t,
        {
            if !self.threads[t] {
                self.threads[t] = true;
                return Some(t);
            }
            t = t + 1;
        }
        None
    }

    /// Run the Banker's safety algorithm on the current matrices: grant
    /// greedily until no unfinished thread's need fits the work; the result
    /// holds exactly when the state is safe.
    #[verifier::rlimit(100)]
    pub fn safety_check(&self) -> (r: bool)
        requires
            self.wf(),
        ensures
            r == self.is_safe(),
    {
        let ghost need = self.need_m();
        let ghost alloc = self.alloc_m();
        let ghost w0 = self.work0();
        let ghost f0 = self.finish0();
        let mut work: Vec<u32> = Vec::new();
        let mut i: usize = 0;
        while i < RESOURCE_CATEG_NUM
            invariant
                self.wf(),
                i <= RESOURCE_CATEG_NUM,
                work@.len() == i,
                forall|r2: int| 0 <= r2 < i ==> work@[r2] == self.available@[r2],
            decreases RESOURCE_CATEG_NUM - i,
        {
            work.push(self.available[i] as u32);
            i = i + 1;
        }
        let mut finish: Vec<bool> = Vec::new();
        let mut t: usize = 0;
        while t < MAX_THREAD_NUM
            invariant
                self.wf(),
                t <= MAX_THREAD_NUM,
                finish@.len() == t,
                forall|t2: int| 0 <= t2 < t ==> finish@[t2] == !self.threads@[t2],
            decreases MAX_THREAD_NUM - t,
        {
            finish.push(!self.threads[t]);
            t = t + 1;
        }
        let ghost mut ord: Seq<int> = Seq::empty();
        proof {
            assert(Seq::new(work@.len() as nat, |r2: int| work@[r2] as int) =~= w0);
            assert(finish@ =~= f0);
        }
        let mut progress = true;
        while progress
            invariant
                self.wf(),
                need == self.need_m(),
                alloc == self.alloc_m(),
                w0 == self.work0(),
                f0 == self.finish0(),
                work@.len() == RESOURCE_CATEG_NUM,
                finish@.len() == MAX_THREAD_NUM,
                ord.no_duplicates(),
                ord.len() <= MAX_THREAD_NUM,
                forall|w: int|
                    0 <= w < ord.len() ==> 0 <= #[trigger] ord[w] < MAX_THREAD_NUM
                        && !f0[ord[w]],
                forall|t2: int|
                    0 <= t2 < MAX_THREAD_NUM ==> finish@[t2] == (f0[t2] || ord.contains(t2)),
                Seq::new(work@.len() as nat, |r2: int| work@[r2] as int) == work_after(
                    alloc,
                    w0,
                    ord,
                ),
                forall|r2: int| 0 <= r2 < RESOURCE_CATEG_NUM ==> work@[r2] <= 255 + 255 * ord.len(),
                step_ok(need, alloc, w0, ord),
                banker_safe(need, alloc, w0, f0) ==> banker_safe(
                    need,
                    alloc,
                    Seq::new(work@.len() as nat, |r2: int| work@[r2] as int),
                    finish@,
                ),
                !progress ==> forall|t2: int|
                    0 <= t2 < MAX_THREAD_NUM ==> finish@[t2] || !row_le(
                        need[t2],
                        Seq::new(work@.len() as nat, |r2: int| work@[r2] as int),
                    ),
            decreases 2 * (MAX_THREAD_NUM - ord.len()) + if progress {
                1int
            } else {
                0int
            },
        {
            progress = false;
            let ghost ord_at_round = ord;
            let mut t2: usize = 0;
            while t2 < MAX_THREAD_NUM
                invariant
                    self.wf(),
                    need == self.need_m(),
                    alloc == self.alloc_m(),
                    w0 == self.work0(),
                    f0 == self.finish0(),
                    t2 <= MAX_THREAD_NUM,
                    work@.len() == RESOURCE_CATEG_NUM,
                    finish@.len() == MAX_THREAD_NUM,
                    ord.no_duplicates(),
                    ord.len() <= MAX_THREAD_NUM,
                    ord_at_round.len() <= ord.len(),
                    forall|w: int|
                        0 <= w < ord.len() ==> 0 <= #[trigger] ord[w] < MAX_THREAD_NUM
                            && !f0[ord[w]],
                    forall|t3: int|
                        0 <= t3 < MAX_THREAD_NUM ==> finish@[t3] == (f0[t3] || ord.contains(
                            t3,
                        )),
                    Seq::new(work@.len() as nat, |r2: int| work@[r2] as int) == work_after(
                        alloc,
                        w0,
                        ord,
                    ),
                    forall|r2: int|
                        0 <= r2 < RESOURCE_CATEG_NUM ==> work@[r2] <= 255 + 255 * ord.len(),
                    step_ok(need, alloc, w0, ord),
                    banker_safe(need, alloc, w0, f0) ==> banker_safe(
                        need,
                        alloc,
                        Seq::new(work@.len() as nat, |r2: int| work@[r2] as int),
                        finish@,
                    ),
                    progress == (ord.len() > ord_at_round.len()),
                    !progress ==> forall|t3: int|
                        0 <= t3 < t2 ==> finish@[t3] || !row_le(
                            need[t3],
                            Seq::new(work@.len() as nat, |r2: int| work@[r2] as int),
                        ),
                decreases MAX_THREAD_NUM - t2,
            {
                if !finish[t2] {
                    // does this thread's whole need row fit the work?
                    let mut fits = true;
                    let mut r2: usize = 0;
                    while r2 < RESOURCE_CATEG_NUM
                        invariant
                            self.wf(),
                            need == self.need_m(),
                            t2 < MAX_THREAD_NUM,
                            r2 <= RESOURCE_CATEG_NUM,
                            work@.len() == RESOURCE_CATEG_NUM,
                            fits == (forall|r3: int|
                                0 <= r3 < r2 ==> #[trigger] need[t2 as int][r3]
                                    <= work@[r3] as int),
                        decreases RESOURCE_CATEG_NUM - r2,
                    {
                        proof {
                            assert(need[t2 as int] == self.need@[t2 as int]@);
                        }
                        if self.need[t2][r2] as u32 > work[r2] {
                            fits = false;
                            proof {
                                assert(need[t2 as int][r2 as int] > work@[r2 as int]);
                            }
                            r2 = RESOURCE_CATEG_NUM;
                        } else {
                            r2 = r2 + 1;
                        }
                    }
                    if fits {
                        // grant: give the thread's allocation back to work
                        let ghost wcur = Seq::new(work@.len() as nat, |r3: int| work@[r3] as int);
                        proof {
                            assert(row_le(need[t2 as int], wcur));
                        }
                        let mut r3: usize = 0;
                        while r3 < RESOURCE_CATEG_NUM
                            invariant
                                self.wf(),
                                alloc == self.alloc_m(),
                                t2 < MAX_THREAD_NUM,
                                r3 <= RESOURCE_CATEG_NUM,
                                work@.len() == RESOURCE_CATEG_NUM,
                                wcur.len() == RESOURCE_CATEG_NUM,
                                ord.len() <= MAX_THREAD_NUM,
                                forall|r4: int|
                                    0 <= r4 < r3 ==> work@[r4] == wcur[r4] + alloc[t2 as int][r4],
                                forall|r4: int|
                                    r3 <= r4 < RESOURCE_CATEG_NUM ==> work@[r4] == wcur[r4],
                                forall|r4: int|
                                    0 <= r4 < RESOURCE_CATEG_NUM ==> wcur[r4] <= 255 + 255
                                        * ord.len(),
                            decreases RESOURCE_CATEG_NUM - r3,
                        {
                            proof {
                                assert(alloc[t2 as int] == self.allocation@[t2 as int]@);
                                assert(work@[r3 as int] == wcur[r3 as int]);
                                assert(work@[r3 as int] <= 255 + 255 * MAX_THREAD_NUM);
                            }
                            work[r3] = work[r3] + self.allocation[t2][r3] as u32;
                            r3 = r3 + 1;
                        }
                        let ghost fpre2 = finish@;
                        finish[t2] = true;
                        proof {
                            let wnew = Seq::new(work@.len() as nat, |r4: int| work@[r4] as int);
                            assert(wnew =~= add_row(wcur, alloc[t2 as int]));
                            assert(finish@ =~= fpre2.update(t2 as int, true));
                            assert(!ord.contains(t2 as int));
                            crate::layout::lemma_nodup_push(ord, t2 as int);
                            assert forall|w: int|
                                0 <= w < ord.push(t2 as int).len() implies 0 <= #[trigger] ord.push(
                                t2 as int,
                            )[w] < MAX_THREAD_NUM by {
                                if w < ord.len() {
                                    assert(ord.push(t2 as int)[w] == ord[w]);
                                }
                            }
                            lemma_nodup_bound(ord.push(t2 as int), MAX_THREAD_NUM as int);
                            lemma_work_after_push(alloc, w0, ord, t2 as int);
                            lemma_step_ok_push(need, alloc, w0, ord, t2 as int);
                            if banker_safe(need, alloc, w0, f0) {
                                assert(banker_safe(need, alloc, wcur, fpre2));
                                assert(!fpre2[t2 as int]);
                                assert forall|t3: int|
                                    0 <= t3 < alloc.len() implies (#[trigger] alloc[t3]).len()
                                    == wcur.len() by {
                                    assert(alloc[t3] == self.allocation@[t3]@);
                                }
                                lemma_safe_after_grant(need, alloc, wcur, fpre2, t2 as int);
                            }
                            ord = ord.push(t2 as int);
                            assert forall|t3: int|
                                0 <= t3 < MAX_THREAD_NUM implies finish@[t3] == (f0[t3]
                                || ord.contains(t3)) by {}
                        }
                        progress = true;
                    }
                }
                if t2 < MAX_THREAD_NUM {
                    t2 = t2 + 1;
                }
            }
        }
        // no unfinished thread fits any more: safe exactly when none is left
        let mut all_done = true;
        let mut t4: usize = 0;
        while t4 < MAX_THREAD_NUM
            invariant
                t4 <= MAX_THREAD_NUM,
                finish@.len() == MAX_THREAD_NUM,
                all_done == (forall|t5: int| 0 <= t5 < t4 ==> finish@[t5]),
            decreases MAX_THREAD_NUM - t4,
        {
            if !finish[t4] {
                all_done = false;
                proof {
                    assert(!finish@[t4 as int]);
                }
                t4 = MAX_THREAD_NUM;
            } else {
                t4 = t4 + 1;
            }
        }
        proof {
            let wcur = Seq::new(work@.len() as nat, |r2: int| work@[r2] as int);
            if all_done {
                assert(is_unfinished_perm(ord, f0));
                assert(banker_safe(need, alloc, w0, f0));
            } else {
                let tu = choose|t5: int| 0 <= t5 < MAX_THREAD_NUM && !finish@[t5];
                if banker_safe(need, alloc, w0, f0) {
                    assert(banker_safe(need, alloc, wcur, finish@));
                    let order = choose|order: Seq<int>|
                        is_unfinished_perm(order, finish@) && #[trigger] step_ok(
                            need,
                            alloc,
                            wcur,
                            order,
                        );
                    assert(order.contains(tu));
                    assert(order.len() > 0);
                    let h = order[0];
                    assert(!finish@[h] && row_le(need[h], wcur));
                    assert(false);
                }
            }
        }
        all_done
    }

    /// Record thread `tid`'s request for one unit of `res_id` and consult
    /// the Banker: refuse with `DEAD`, undoing the request, exactly when
    /// granting could no longer let every thread finish.
    pub fn deadlock_detect(&mut self, tid: usize, res_id: usize) -> (r: isize)
        requires
            old(self).wf(),
            tid < MAX_THREAD_NUM,
            res_id < RESOURCE_CATEG_NUM,
            old(self).need@[tid as int]@[res_id as int] >= 1,
        ensures
            final(self).wf(),
            r == 0 || r == DEAD,
            r == 0 <==> old(self).is_safe(),
            r == 0 ==> *final(self) == *old(self),
            r == DEAD ==> final(self).need@ == old(self).need@.update(
                tid as int,
                final(self).need@[tid as int],
            ) && final(self).need@[tid as int]@ == old(self).need@[tid as int]@.update(
                res_id as int,
                (old(self).need@[tid as int]@[res_id as int] - 1) as u8,
            ) && final(self).resources@ == old(self).resources@ && final(self).condvars@ == old(self).condvars@ && final(self).available@ == old(self).available@ && final(self).allocation@ == old(self).allocation@ && final(self).threads@ == old(self).threads@
                && final(self).enable_deadlock_detect == old(self).enable_deadlock_detect,
    {
        if self.safety_check() {
            0
        } else {
            let row = &mut self.need[tid];
            let v = row[res_id];
            row[res_id] = v - 1;
            proof {
                assert(self.need@ =~= old(self).need@.update(
                    tid as int,
                    self.need@[tid as int],
                ));
                assert(self.need@[tid as int]@ =~= old(self).need@[tid as int]@.update(
                    res_id as int,
                    (old(self).need@[tid as int]@[res_id as int] - 1) as u8,
                ));
            }
            DEAD
        }
    }
}

/// Whether a resource slot holds a mutex (of either kind).
pub open spec fn is_mutex(r: Resource) -> bool {
    !(r is Counting)
}

/// Whether a resource currently has a free unit to grant.
pub open spec fn res_free(r: Resource) -> bool {
    match r {
        Resource::Spin(m) => !m.locked,
        Resource::Blocking(m) => !m.locked,
        Resource::Counting(s) => s.count > 0,
    }
}

/// One resource column's total over the first `t` threads.
pub open spec fn col_sum(alloc: Seq<Seq<u8>>, r: int, t: int) -> int
    decreases t,
{
    if t <= 0 {
        0
    } else {
        col_sum(alloc, r, t - 1) + alloc[t - 1][r]
    }
}

/// Matrices that agree on column `r` have the same column total.
pub proof fn lemma_col_sum_agree(alloc1: Seq<Seq<u8>>, alloc2: Seq<Seq<u8>>, r: int, t: int)
    requires
        forall|t2: int| 0 <= t2 < t ==> #[trigger] alloc2[t2][r] == alloc1[t2][r],
    ensures
        col_sum(alloc2, r, t) == col_sum(alloc1, r, t),
    decreases t,
{
    if t > 0 {
        lemma_col_sum_agree(alloc1, alloc2, r, t - 1);
    }
}

/// Resource conservation, one step: bumping one thread's entry of column
/// `r` by `delta` moves the column total by exactly `delta`, and a column
/// other than `r` not at all. Paired with the opposite move of
/// `available[r]` — as every grant and release of the syscalls is — this
/// keeps `available[r] + sum over threads of allocation[t][r]` at the
/// resource's declared capacity.
pub proof fn lemma_capacity_step(
    alloc1: Seq<Seq<u8>>,
    alloc2: Seq<Seq<u8>>,
    r: int,
    tid: int,
    delta: int,
    t: int,
)
    requires
        alloc2 == mat_bump(alloc1, tid, r, delta),
        0 <= tid < alloc1.len(),
        0 <= r < alloc1[tid].len(),
        0 <= alloc1[tid][r] + delta <= 255,
        0 <= t <= alloc1.len(),
    ensures
        col_sum(alloc2, r, t) == col_sum(alloc1, r, t) + if tid < t {
            delta
        } else {
            0int
        },
        forall|r2: int, t2: int|
            0 <= t2 < alloc1.len() && r2 != r && 0 <= r2 < alloc1[t2].len()
                ==> #[trigger] alloc2[t2][r2] == alloc1[t2][r2],
    decreases t,
{
    if t > 0 {
        lemma_capacity_step(alloc1, alloc2, r, tid, delta, t - 1);
        if t - 1 != tid {
            assert(alloc2[t - 1] == alloc1[t - 1]);
        } else {
            assert(alloc2[tid] == alloc1[tid].update(r, (alloc1[tid][r] + delta) as u8));
        }
    }
    assert forall|r2: int, t2: int|
        0 <= t2 < alloc1.len() && r2 != r && 0 <= r2 < alloc1[t2].len()
            implies #[trigger] alloc2[t2][r2] == alloc1[t2][r2] by {
        if t2 == tid {
            assert(alloc2[tid] == alloc1[tid].update(r, (alloc1[tid][r] + delta) as u8));
        } else {
            assert(alloc2[t2] == alloc1[t2]);
        }
    }
}

/// The two states hold the same values, field by field, at the level of
/// their mathematical views.
pub open spec fn state_eq(a: ProcessState, b: ProcessState) -> bool {
    &&& a.resources@ == b.resources@
    &&& a.condvars@ == b.condvars@
    &&& a.available@ == b.available@
    &&& a.need_m() == b.need_m()
    &&& a.alloc_m() == b.alloc_m()
    &&& a.threads@ == b.threads@
    &&& a.enable_deadlock_detect == b.enable_deadlock_detect
}

/// A matrix entry bumped by `delta`.
pub open spec fn mat_bump(m: Seq<Seq<u8>>, t: int, r: int, delta: int) -> Seq<Seq<u8>> {
    m.update(t, m[t].update(r, (m[t][r] + delta) as u8))
}

/// How one granted or queued acquire by `tid` moves a resource slot:
/// a mutex ends locked, with `tid` queued when it already was; a
/// semaphore's count drops by one, with `tid` queued when no unit was
/// free.
pub open spec fn res_acquire_step(r0: Resource, r1: Resource, tid: usize) -> bool {
    match (r0, r1) {
        (Resource::Spin(a), Resource::Spin(b)) => b.locked,
        (Resource::Blocking(a), Resource::Blocking(b)) => {
            &&& b.locked
            &&& b.wait_queue@ == if a.locked {
                a.wait_queue@.push(tid)
            } else {
                a.wait_queue@
            }
        },
        (Resource::Counting(a), Resource::Counting(b)) => {
            &&& b.count == a.count - 1
            &&& b.wait_queue@ == if a.count > 0 {
                a.wait_queue@
            } else {
                a.wait_queue@.push(tid)
            }
        },
        _ => false,
    }
}

/// The waiter a release hands its unit to: the first queued thread, if
/// the resource has one.
pub open spec fn release_woken(r0: Resource) -> Option<usize> {
    match r0 {
        Resource::Spin(_) => None,
        Resource::Blocking(m) => if m.wait_queue@.len() > 0 {
            Some(m.wait_queue@[0])
        } else {
            None
        },
        Resource::Counting(s) => if s.count < 0 {
            Some(s.wait_queue@[0])
        } else {
            None
        },
    }
}

/// How a release moves a resource slot: a mutex unlocks, or stays locked
/// in the hands of the dequeued first waiter; a semaphore's count rises by
/// one, dequeuing the first waiter when one was queued.
pub open spec fn res_release_step(r0: Resource, r1: Resource) -> bool {
    match (r0, r1) {
        (Resource::Spin(a), Resource::Spin(b)) => !b.locked,
        (Resource::Blocking(a), Resource::Blocking(b)) => if a.wait_queue@.len() > 0 {
            b.locked && b.wait_queue@ == a.wait_queue@.drop_first()
        } else {
            !b.locked && b.wait_queue@ == a.wait_queue@
        },
        (Resource::Counting(a), Resource::Counting(b)) => {
            &&& b.count == a.count + 1
            &&& b.wait_queue@ == if a.count < 0 {
                a.wait_queue@.drop_first()
            } else {
                a.wait_queue@
            }
        },
        _ => false,
    }
}

/// How the matrices move when `tid` releases one unit of `res_id` and the
/// slot's first waiter (if any) receives it at once.
pub open spec fn release_matrices_ok(
    a: ProcessState,
    b: ProcessState,
    tid: int,
    res_id: int,
    woken: Option<usize>,
) -> bool {
    match woken {
        None => {
            &&& b.alloc_m() == mat_bump(a.alloc_m(), tid, res_id, -1)
            &&& b.need_m() == a.need_m()
            &&& b.available@ == a.available@.update(
                res_id,
                (a.available@[res_id] + 1) as u8,
            )
        },
        Some(h) => {
            &&& b.alloc_m() == mat_bump(
                mat_bump(a.alloc_m(), tid, res_id, -1),
                h as int,
                res_id,
                1,
            )
            &&& b.need_m() == mat_bump(a.need_m(), h as int, res_id, -1)
            &&& b.available@ == a.available@
        },
    }
}

impl ProcessState {
    /// Record `enabled` as the detection switch; reject anything but 0
    /// and 1.
    pub fn sys_enable_deadlock_detect(&mut self, enabled: usize) -> (r: isize)
        requires
            old(self).wf(),
        ensures
            final(self).wf(),
            r == if enabled <= 1 {
                0int
            } else {
                -1int
            },
            final(self).enable_deadlock_detect == if enabled == 1 {
                true
            } else if enabled == 0 {
                false
            } else {
                old(self).enable_deadlock_detect
            },
            final(self).resources@ == old(self).resources@,
            final(self).condvars@ == old(self).condvars@,
            final(self).available@ == old(self).available@,
            final(self).allocation@ == old(self).allocation@,
            final(self).need@ == old(self).need@,
            final(self).threads@ == old(self).threads@,
    {
        match enabled {
            0 => {
                self.enable_deadlock_detect = false;
                0
            },
            1 => {
                self.enable_deadlock_detect = true;
                0
            },
            _ => -1,
        }
    }

    /// Create a mutex in the next resource slot and give it its one unit.
    pub fn sys_mutex_create(&mut self, blocking: bool) -> (r: isize)
        requires
            old(self).wf(),
            old(self).resources@.len() < RESOURCE_CATEG_NUM,
        ensures
            final(self).wf(),
            r == old(self).resources@.len(),
            final(self).resources@.len() == old(self).resources@.len() + 1,
            forall|r2: int|
                0 <= r2 < old(self).resources@.len() ==> final(self).resources@[r2] == old(self).resources@[r2],
            final(self).resources@[r as int] matches Some(res) && is_mutex(res) && res_free(res),
            final(self).available@ == old(self).available@.update(r as int, 1u8),
            final(self).condvars@ == old(self).condvars@,
            final(self).allocation@ == old(self).allocation@,
            final(self).need@ == old(self).need@,
            final(self).threads@ == old(self).threads@,
            final(self).enable_deadlock_detect == old(self).enable_deadlock_detect,
    {
        let id = self.resources.len();
        let res: Resource = if !blocking {
            Resource::Spin(MutexSpin::new())
        } else {
            Resource::Blocking(MutexBlocking::new())
        };
        self.resources.push(Some(res));
        self.available[id] = 1;
        proof {
            assert(self.available@ =~= old(self).available@.update(id as int, 1u8));
            assert forall|r2: int|
                0 <= r2 < self.resources@.len() implies match #[trigger] self.resources@[r2] {
                Some(res2) => res_wf(res2, self.available@[r2]),
                None => true,
            } by {
                if r2 < id {
                    assert(self.resources@[r2] == old(self).resources@[r2]);
                }
            }
        }
        id as isize
    }

    /// Create a semaphore with `res_count` units in the next resource slot.
    pub fn sys_semaphore_create(&mut self, res_count: usize) -> (r: isize)
        requires
            old(self).wf(),
            old(self).resources@.len() < RESOURCE_CATEG_NUM,
            res_count <= 255,
        ensures
            final(self).wf(),
            r == old(self).resources@.len(),
            final(self).resources@.len() == old(self).resources@.len() + 1,
            forall|r2: int|
                0 <= r2 < old(self).resources@.len() ==> final(self).resources@[r2] == old(self).resources@[r2],
            final(self).resources@[r as int] matches Some(Resource::Counting(s)) && s.count
                == res_count,
            final(self).available@ == old(self).available@.update(r as int, res_count as u8),
            final(self).condvars@ == old(self).condvars@,
            final(self).allocation@ == old(self).allocation@,
            final(self).need@ == old(self).need@,
            final(self).threads@ == old(self).threads@,
            final(self).enable_deadlock_detect == old(self).enable_deadlock_detect,
    {
        let id = self.resources.len();
        self.resources.push(Some(Resource::Counting(Semaphore::new(res_count))));
        self.available[id] = res_count as u8;
        proof {
            assert(self.available@ =~= old(self).available@.update(id as int, res_count as u8));
            assert forall|r2: int|
                0 <= r2 < self.resources@.len() implies match #[trigger] self.resources@[r2] {
                Some(res2) => res_wf(res2, self.available@[r2]),
                None => true,
            } by {
                if r2 < id {
                    assert(self.resources@[r2] == old(self).resources@[r2]);
                }
            }
        }
        id as isize
    }

    /// Acquire one unit of resource `res_id` for thread `tid`: record the
    /// request, consult the detector when it is on, and then either take the
    /// unit, join the wait queue, or — exactly when the requested state is
    /// unsafe — refuse with `DEAD` and undo the request.
    pub fn acquire(&mut self, tid: usize, res_id: usize) -> (r: isize)
        requires
            old(self).wf(),
            tid < MAX_THREAD_NUM,
            old(self).threads@[tid as int],
            res_id < old(self).resources@.len(),
            old(self).resources@[res_id as int] is Some,
            old(self).need@[tid as int]@[res_id as int] < 255,
            old(self).allocation@[tid as int]@[res_id as int] < 255,
            (old(self).resources@[res_id as int] matches Some(Resource::Counting(s)) ==> s.count
                > i32::MIN),
        ensures
            final(self).wf(),
            r == 0 || r == DEAD,
            r == DEAD <==> (old(self).enable_deadlock_detect && !banker_safe(
                mat_bump(old(self).need_m(), tid as int, res_id as int, 1),
                old(self).alloc_m(),
                old(self).work0(),
                old(self).finish0(),
            )),
            r == DEAD ==> state_eq(*final(self), *old(self)),
            r == 0 ==> final(self).condvars@ == old(self).condvars@ && final(self).threads@
                == old(self).threads@ && final(self).enable_deadlock_detect == old(self).enable_deadlock_detect && final(self).resources@.len() == old(self).resources@.len() && (forall|r2: int|
                0 <= r2 < old(self).resources@.len() && r2 != res_id ==> final(self).resources@[r2] == old(self).resources@[r2]),
            r == 0 ==> final(self).resources@[res_id as int] is Some && res_acquire_step(
                old(self).resources@[res_id as int].unwrap(),
                final(self).resources@[res_id as int].unwrap(),
                tid,
            ),
            r == 0 && res_free(old(self).resources@[res_id as int].unwrap()) ==> final(self).need_m() == old(self).need_m() && final(self).alloc_m() == mat_bump(
                old(self).alloc_m(),
                tid as int,
                res_id as int,
                1,
            ) && final(self).available@ == old(self).available@.update(
                res_id as int,
                (old(self).available@[res_id as int] - 1) as u8,
            ),
            r == 0 && !res_free(old(self).resources@[res_id as int].unwrap()) ==> final(self).need_m() == mat_bump(old(self).need_m(), tid as int, res_id as int, 1) && final(self).alloc_m() == old(self).alloc_m() && final(self).available@ == old(self).available@,
    {
        let ghost st0 = *old(self);
        // record the request
        let row = &mut self.need[tid];
        let v = row[res_id];
        row[res_id] = v + 1;
        proof {
            assert(self.need_m() =~~= mat_bump(st0.need_m(), tid as int, res_id as int, 1));
            assert(self.need@[tid as int]@[res_id as int] >= 1);
            assert(self.wf());
            assert(self.work0() =~= st0.work0());
            assert(self.finish0() =~= st0.finish0());
            assert(self.alloc_m() =~= st0.alloc_m());
        }
        if self.enable_deadlock_detect {
            let ghost st1 = *self;
            let d = self.deadlock_detect(tid, res_id);
            if d != 0 {
                proof {
                    assert(self.need@[tid as int]@ =~= st0.need@[tid as int]@);
                    assert(self.need_m() =~~= st0.need_m()) by {
                        assert forall|t2: int|
                            0 <= t2 < MAX_THREAD_NUM implies self.need_m()[t2]
                            =~= st0.need_m()[t2] by {
                            if t2 != tid {
                                assert(self.need@[t2] == st1.need@[t2] && st1.need@[t2]
                                    == st0.need@[t2]);
                            }
                        }
                    }
                    assert(state_eq(*self, st0));
                }
                return d;
            }
        }
        // take the unit or join the queue
        let slot = self.resources.remove(res_id);
        let ghost res0 = st0.resources@[res_id as int].unwrap();
        let (new_slot, acquired): (Resource, bool) = match slot {
            Some(Resource::Spin(mut m)) => {
                let a = m.lock(tid);
                (Resource::Spin(m), a)
            },
            Some(Resource::Blocking(mut m)) => {
                let a = m.lock(tid);
                (Resource::Blocking(m), a)
            },
            Some(Resource::Counting(mut s)) => {
                let a = s.down(tid);
                (Resource::Counting(s), a)
            },
            None => {
                proof {
                    assert(false);
                }
                (Resource::Spin(MutexSpin::new()), false)
            },
        };
        self.resources.insert(res_id, Some(new_slot));
        proof {
            assert(self.resources@ =~= st0.resources@.update(res_id as int, Some(new_slot)));
            assert(acquired == res_free(res0));
        }
        if acquired {
            // grant: move the unit into the allocation
            let row2 = &mut self.allocation[tid];
            let v2 = row2[res_id];
            row2[res_id] = v2 + 1;
            let va = self.available[res_id];
            proof {
                assert(va >= 1) by {
                    assert(res_wf(res0, st0.available@[res_id as int]));
                }
            }
            self.available[res_id] = va - 1;
            let row3 = &mut self.need[tid];
            let v3 = row3[res_id];
            proof {
                assert(v3 >= 1);
            }
            row3[res_id] = v3 - 1;
            proof {
                assert(self.need_m() =~~= st0.need_m());
                assert(self.alloc_m() =~~= mat_bump(st0.alloc_m(), tid as int, res_id as int, 1));
                assert(self.available@ =~= st0.available@.update(
                    res_id as int,
                    (st0.available@[res_id as int] - 1) as u8,
                ));
                assert forall|r2: int|
                    0 <= r2 < self.resources@.len() implies match #[trigger] self.resources@[r2] {
                    Some(res2) => res_wf(res2, self.available@[r2]),
                    None => true,
                } by {
                    if r2 != res_id {
                        assert(self.resources@[r2] == st0.resources@[r2]);
                    }
                }
                assert(self.wf());
            }
        } else {
            proof {
                assert(self.need_m() =~~= mat_bump(st0.need_m(), tid as int, res_id as int, 1));
                assert(self.alloc_m() =~= st0.alloc_m());
                assert(self.available@ =~= st0.available@);
                assert forall|r2: int|
                    0 <= r2 < self.resources@.len() implies match #[trigger] self.resources@[r2] {
                    Some(res2) => res_wf(res2, self.available@[r2]),
                    None => true,
                } by {
                    if r2 != res_id {
                        assert(self.resources@[r2] == st0.resources@[r2]);
                    } else {
                        assert(res_wf(res0, st0.available@[res_id as int]));
                    }
                }
                assert(self.wf());
            }
        }
        0
    }

    /// Release one unit of resource `res_id` held by thread `tid`, handing
    /// it straight to the first queued waiter if there is one.
    pub fn release(&mut self, tid: usize, res_id: usize) -> (r: isize)
        requires
            old(self).wf(),
            tid < MAX_THREAD_NUM,
            res_id < old(self).resources@.len(),
            old(self).resources@[res_id as int] is Some,
            !res_free(old(self).resources@[res_id as int].unwrap()),
            old(self).allocation@[tid as int]@[res_id as int] >= 1,
            old(self).available@[res_id as int] < 255,
            (old(self).resources@[res_id as int] matches Some(Resource::Blocking(m))
                ==> (m.wait_queue@.len() > 0 ==> m.wait_queue@[0] < MAX_THREAD_NUM && old(self).allocation@[m.wait_queue@[0] as int]@[res_id as int] < 255 && old(self).need@[m.wait_queue@[0] as int]@[res_id as int] >= 1)),
            (old(self).resources@[res_id as int] matches Some(Resource::Counting(s)) ==> s.count
                < i32::MAX && (s.count < 0 ==> s.wait_queue@.len() > 0 && s.wait_queue@[0]
                < MAX_THREAD_NUM && old(self).allocation@[s.wait_queue@[0] as int]@[res_id as int]
                < 255 && old(self).need@[s.wait_queue@[0] as int]@[res_id as int] >= 1)),
        ensures
            final(self).wf(),
            r == 0,
            final(self).condvars@ == old(self).condvars@,
            final(self).threads@ == old(self).threads@,
            final(self).enable_deadlock_detect == old(self).enable_deadlock_detect,
            final(self).resources@.len() == old(self).resources@.len(),
            forall|r2: int|
                0 <= r2 < old(self).resources@.len() && r2 != res_id ==> final(self).resources@[r2] == old(self).resources@[r2],
            final(self).resources@[res_id as int] is Some,
            res_release_step(
                old(self).resources@[res_id as int].unwrap(),
                final(self).resources@[res_id as int].unwrap(),
            ),
            release_matrices_ok(
                *old(self),
                *final(self),
                tid as int,
                res_id as int,
                release_woken(old(self).resources@[res_id as int].unwrap()),
            ),
    {
        let ghost st0 = *old(self);
        let slot = self.resources.remove(res_id);
        let ghost res0 = st0.resources@[res_id as int].unwrap();
        let (new_slot, woken): (Resource, Option<usize>) = match slot {
            Some(Resource::Spin(mut m)) => {
                m.unlock();
                (Resource::Spin(m), None)
            },
            Some(Resource::Blocking(mut m)) => {
                let w = m.unlock();
                (Resource::Blocking(m), w)
            },
            Some(Resource::Counting(mut s)) => {
                let w = s.up();
                (Resource::Counting(s), w)
            },
            None => {
                proof {
                    assert(false);
                }
                (Resource::Spin(MutexSpin::new()), None)
            },
        };
        self.resources.insert(res_id, Some(new_slot));
        proof {
            assert(self.resources@ =~= st0.resources@.update(res_id as int, Some(new_slot)));
        }
        // the releaser gives its unit back
        let ghost st_slot = *self;
        let row = &mut self.allocation[tid];
        let v = row[res_id];
        row[res_id] = v - 1;
        let ghost st_rel = *self;
        proof {
            assert(st_rel.alloc_m() =~~= mat_bump(st0.alloc_m(), tid as int, res_id as int, -1));
            assert(woken == release_woken(res0));
        }
        match woken {
            Some(h) => {
                // the unit moves straight to the first waiter
                proof {
                    assert(res_wf(res0, st0.available@[res_id as int]));
                }
                let row2 = &mut self.allocation[h];
                let v2 = row2[res_id];
                row2[res_id] = v2 + 1;
                let row3 = &mut self.need[h];
                let v3 = row3[res_id];
                row3[res_id] = v3 - 1;
                proof {
                    assert(self.alloc_m() =~~= mat_bump(
                        st_rel.alloc_m(),
                        h as int,
                        res_id as int,
                        1,
                    ));
                    assert(self.need_m() =~~= mat_bump(st0.need_m(), h as int, res_id as int, -1));
                    assert(self.available@ == st0.available@);
                    assert forall|r2: int|
                        0 <= r2 < self.resources@.len() implies match #[trigger] self.resources@[r2] {
                        Some(res2) => res_wf(res2, self.available@[r2]),
                        None => true,
                    } by {
                        if r2 != res_id {
                            assert(self.resources@[r2] == st0.resources@[r2]);
                        } else {
                            assert(res_wf(res0, st0.available@[res_id as int]));
                        }
                    }
                    assert(self.wf());
                }
            },
            None => {
                // no waiter: the unit returns to the pool
                let va = self.available[res_id];
                self.available[res_id] = va + 1;
                proof {
                    assert(self.alloc_m() =~~= mat_bump(
                        st0.alloc_m(),
                        tid as int,
                        res_id as int,
                        -1,
                    ));
                    assert(self.need_m() =~= st0.need_m());
                    assert(self.available@ =~= st0.available@.update(
                        res_id as int,
                        (st0.available@[res_id as int] + 1) as u8,
                    ));
                    assert(res_wf(res0, st0.available@[res_id as int]));
                    assert forall|r2: int|
                        0 <= r2 < self.resources@.len() implies match #[trigger] self.resources@[r2] {
                        Some(res2) => res_wf(res2, self.available@[r2]),
                        None => true,
                    } by {
                        if r2 != res_id {
                            assert(self.resources@[r2] == st0.resources@[r2]);
                        } else {
                            assert(res_wf(res0, st0.available@[res_id as int]));
                        }
                    }
                    assert(self.wf());
                }
            },
        }
        0
    }

    /// Lock mutex `mutex_id` for thread `tid`, under the detector.
    pub fn sys_mutex_lock(&mut self, tid: usize, mutex_id: usize) -> (r: isize)
        requires
            old(self).wf(),
            tid < MAX_THREAD_NUM,
            old(self).threads@[tid as int],
            mutex_id < old(self).resources@.len(),
            old(self).resources@[mutex_id as int] matches Some(res) && is_mutex(res),
            old(self).need@[tid as int]@[mutex_id as int] < 255,
            old(self).allocation@[tid as int]@[mutex_id as int] < 255,
        ensures
            final(self).wf(),
            r == 0 || r == DEAD,
            r == DEAD <==> (old(self).enable_deadlock_detect && !banker_safe(
                mat_bump(old(self).need_m(), tid as int, mutex_id as int, 1),
                old(self).alloc_m(),
                old(self).work0(),
                old(self).finish0(),
            )),
            r == DEAD ==> state_eq(*final(self), *old(self)),
            r == 0 ==> final(self).condvars@ == old(self).condvars@ && final(self).threads@
                == old(self).threads@ && final(self).enable_deadlock_detect == old(self).enable_deadlock_detect && final(self).resources@.len() == old(self).resources@.len() && (forall|r2: int|
                0 <= r2 < old(self).resources@.len() && r2 != mutex_id ==> final(self).resources@[r2] == old(self).resources@[r2]),
            r == 0 ==> final(self).resources@[mutex_id as int] is Some && res_acquire_step(
                old(self).resources@[mutex_id as int].unwrap(),
                final(self).resources@[mutex_id as int].unwrap(),
                tid,
            ),
            r == 0 && res_free(old(self).resources@[mutex_id as int].unwrap()) ==> final(self).need_m() == old(self).need_m() && final(self).alloc_m() == mat_bump(
                old(self).alloc_m(),
                tid as int,
                mutex_id as int,
                1,
            ) && final(self).available@ == old(self).available@.update(
                mutex_id as int,
                (old(self).available@[mutex_id as int] - 1) as u8,
            ),
            r == 0 && !res_free(old(self).resources@[mutex_id as int].unwrap()) ==> final(self).need_m() == mat_bump(old(self).need_m(), tid as int, mutex_id as int, 1) && final(self).alloc_m() == old(self).alloc_m() && final(self).available@ == old(self).available@,
    {
        self.acquire(tid, mutex_id)
    }

    /// Unlock mutex `mutex_id` held by thread `tid`.
    pub fn sys_mutex_unlock(&mut self, tid: usize, mutex_id: usize) -> (r: isize)
        requires
            old(self).wf(),
            tid < MAX_THREAD_NUM,
            mutex_id < old(self).resources@.len(),
            old(self).resources@[mutex_id as int] matches Some(res) && is_mutex(res)
                && !res_free(res),
            old(self).allocation@[tid as int]@[mutex_id as int] >= 1,
            old(self).available@[mutex_id as int] < 255,
            (old(self).resources@[mutex_id as int] matches Some(Resource::Blocking(m))
                ==> (m.wait_queue@.len() > 0 ==> m.wait_queue@[0] < MAX_THREAD_NUM && old(self).allocation@[m.wait_queue@[0] as int]@[mutex_id as int] < 255 && old(self).need@[m.wait_queue@[0] as int]@[mutex_id as int] >= 1)),
        ensures
            final(self).wf(),
            r == 0,
            final(self).condvars@ == old(self).condvars@,
            final(self).threads@ == old(self).threads@,
            final(self).enable_deadlock_detect == old(self).enable_deadlock_detect,
            final(self).resources@.len() == old(self).resources@.len(),
            forall|r2: int|
                0 <= r2 < old(self).resources@.len() && r2 != mutex_id ==> final(self).resources@[r2] == old(self).resources@[r2],
            final(self).resources@[mutex_id as int] is Some,
            res_release_step(
                old(self).resources@[mutex_id as int].unwrap(),
                final(self).resources@[mutex_id as int].unwrap(),
            ),
            release_matrices_ok(
                *old(self),
                *final(self),
                tid as int,
                mutex_id as int,
                release_woken(old(self).resources@[mutex_id as int].unwrap()),
            ),
    {
        self.release(tid, mutex_id)
    }

    /// Take one unit of semaphore `sem_id` for thread `tid`, under the
    /// detector.
    pub fn sys_semaphore_down(&mut self, tid: usize, sem_id: usize) -> (r: isize)
        requires
            old(self).wf(),
            tid < MAX_THREAD_NUM,
            old(self).threads@[tid as int],
            sem_id < old(self).resources@.len(),
            old(self).resources@[sem_id as int] matches Some(Resource::Counting(s)) && s.count
                > i32::MIN,
            old(self).need@[tid as int]@[sem_id as int] < 255,
            old(self).allocation@[tid as int]@[sem_id as int] < 255,
        ensures
            final(self).wf(),
            r == 0 || r == DEAD,
            r == DEAD <==> (old(self).enable_deadlock_detect && !banker_safe(
                mat_bump(old(self).need_m(), tid as int, sem_id as int, 1),
                old(self).alloc_m(),
                old(self).work0(),
                old(self).finish0(),
            )),
            r == DEAD ==> state_eq(*final(self), *old(self)),
            r == 0 ==> final(self).condvars@ == old(self).condvars@ && final(self).threads@
                == old(self).threads@ && final(self).enable_deadlock_detect == old(self).enable_deadlock_detect && final(self).resources@.len() == old(self).resources@.len() && (forall|r2: int|
                0 <= r2 < old(self).resources@.len() && r2 != sem_id ==> final(self).resources@[r2] == old(self).resources@[r2]),
            r == 0 ==> final(self).resources@[sem_id as int] is Some && res_acquire_step(
                old(self).resources@[sem_id as int].unwrap(),
                final(self).resources@[sem_id as int].unwrap(),
                tid,
            ),
            r == 0 && res_free(old(self).resources@[sem_id as int].unwrap()) ==> final(self).need_m() == old(self).need_m() && final(self).alloc_m() == mat_bump(
                old(self).alloc_m(),
                tid as int,
                sem_id as int,
                1,
            ) && final(self).available@ == old(self).available@.update(
                sem_id as int,
                (old(self).available@[sem_id as int] - 1) as u8,
            ),
            r == 0 && !res_free(old(self).resources@[sem_id as int].unwrap()) ==> final(self).need_m() == mat_bump(old(self).need_m(), tid as int, sem_id as int, 1) && final(self).alloc_m() == old(self).alloc_m() && final(self).available@ == old(self).available@,
    {
        self.acquire(tid, sem_id)
    }

    /// Give one unit of semaphore `sem_id` back from thread `tid`.
    pub fn sys_semaphore_up(&mut self, tid: usize, sem_id: usize) -> (r: isize)
        requires
            old(self).wf(),
            tid < MAX_THREAD_NUM,
            sem_id < old(self).resources@.len(),
            old(self).resources@[sem_id as int] matches Some(Resource::Counting(s)) && s.count
                < i32::MAX && !res_free(old(self).resources@[sem_id as int].unwrap()) && (s.count
                < 0 ==> s.wait_queue@.len() > 0 && s.wait_queue@[0] < MAX_THREAD_NUM && old(self).allocation@[s.wait_queue@[0] as int]@[sem_id as int] < 255 && old(self).need@[s.wait_queue@[0] as int]@[sem_id as int] >= 1),
            old(self).allocation@[tid as int]@[sem_id as int] >= 1,
            old(self).available@[sem_id as int] < 255,
        ensures
            final(self).wf(),
            r == 0,
            final(self).condvars@ == old(self).condvars@,
            final(self).threads@ == old(self).threads@,
            final(self).enable_deadlock_detect == old(self).enable_deadlock_detect,
            final(self).resources@.len() == old(self).resources@.len(),
            forall|r2: int|
                0 <= r2 < old(self).resources@.len() && r2 != sem_id ==> final(self).resources@[r2] == old(self).resources@[r2],
            final(self).resources@[sem_id as int] is Some,
            res_release_step(
                old(self).resources@[sem_id as int].unwrap(),
                final(self).resources@[sem_id as int].unwrap(),
            ),
            release_matrices_ok(
                *old(self),
                *final(self),
                tid as int,
                sem_id as int,
                release_woken(old(self).resources@[sem_id as int].unwrap()),
            ),
    {
        self.release(tid, sem_id)
    }

    /// Create a condition variable in the next free condvar slot.
    pub fn sys_condvar_create(&mut self) -> (r: isize)
        requires
            old(self).wf(),
            old(self).condvars@.len() < 0x7fff_ffff,
        ensures
            final(self).wf(),
            r == old(self).condvars@.len(),
            final(self).condvars@.len() == old(self).condvars@.len() + 1,
            final(self).resources@ == old(self).resources@,
            final(self).available@ == old(self).available@,
            final(self).allocation@ == old(self).allocation@,
            final(self).need@ == old(self).need@,
    {
        let id = self.condvars.len();
        self.condvars.push(Some(Condvar::new()));
        id as isize
    }

    /// Wake the first waiter of condvar `condvar_id`, if any.
    pub fn sys_condvar_signal(&mut self, condvar_id: usize) -> (r: isize)
        requires
            old(self).wf(),
            condvar_id < old(self).condvars@.len(),
            old(self).condvars@[condvar_id as int] is Some,
        ensures
            final(self).wf(),
            r == 0,
            final(self).resources@ == old(self).resources@,
            final(self).available@ == old(self).available@,
            final(self).allocation@ == old(self).allocation@,
            final(self).need@ == old(self).need@,
            final(self).condvars@.len() == old(self).condvars@.len(),
    {
        let slot = self.condvars.remove(condvar_id);
        let new_slot = match slot {
            Some(mut c) => {
                let _w = c.signal();
                Some(c)
            },
            None => {
                proof {
                    assert(false);
                }
                None
            },
        };
        self.condvars.insert(condvar_id, new_slot);
        0
    }

    /// Block thread `tid` on condvar `condvar_id`, releasing the (held)
    /// mutex `mutex_id`; the thread re-acquires the mutex when signalled.
    pub fn sys_condvar_wait(&mut self, tid: usize, condvar_id: usize, mutex_id: usize) -> (r:
        isize)
        requires
            old(self).wf(),
            tid < MAX_THREAD_NUM,
            condvar_id < old(self).condvars@.len(),
            old(self).condvars@[condvar_id as int] is Some,
            mutex_id < old(self).resources@.len(),
            old(self).resources@[mutex_id as int] matches Some(res) && is_mutex(res)
                && !res_free(res),
            old(self).allocation@[tid as int]@[mutex_id as int] >= 1,
            old(self).available@[mutex_id as int] < 255,
            (old(self).resources@[mutex_id as int] matches Some(Resource::Blocking(m))
                ==> (m.wait_queue@.len() > 0 ==> m.wait_queue@[0] < MAX_THREAD_NUM && old(self).allocation@[m.wait_queue@[0] as int]@[mutex_id as int] < 255 && old(self).need@[m.wait_queue@[0] as int]@[mutex_id as int] >= 1)),
        ensures
            final(self).wf(),
            r == 0,
            final(self).threads@ == old(self).threads@,
            final(self).enable_deadlock_detect == old(self).enable_deadlock_detect,
            final(self).resources@.len() == old(self).resources@.len(),
            forall|r2: int|
                0 <= r2 < old(self).resources@.len() && r2 != mutex_id ==> final(self).resources@[r2] == old(self).resources@[r2],
            final(self).resources@[mutex_id as int] is Some,
            res_release_step(
                old(self).resources@[mutex_id as int].unwrap(),
                final(self).resources@[mutex_id as int].unwrap(),
            ),
            release_matrices_ok(
                *old(self),
                *final(self),
                tid as int,
                mutex_id as int,
                release_woken(old(self).resources@[mutex_id as int].unwrap()),
            ),
            final(self).condvars@.len() == old(self).condvars@.len(),
            forall|c2: int|
                0 <= c2 < old(self).condvars@.len() && c2 != condvar_id ==> final(self).condvars@[c2] == old(self).condvars@[c2],
            final(self).condvars@[condvar_id as int] is Some,
            final(self).condvars@[condvar_id as int].unwrap().wait_queue@ == old(self).condvars@[condvar_id as int].unwrap().wait_queue@.push(tid),
    {
        let ghost st0 = *old(self);
        let _rr = self.release(tid, mutex_id);
        let ghost st1 = *self;
        let ghost cv0 = self.condvars@;
        let slot = self.condvars.remove(condvar_id);
        let new_slot = match slot {
            Some(mut c) => {
                c.enqueue(tid);
                Some(c)
            },
            None => {
                proof {
                    assert(false);
                }
                None
            },
        };
        self.condvars.insert(condvar_id, new_slot);
        proof {
            assert(self.condvars@ =~= cv0.update(condvar_id as int, new_slot));
            assert(self.need_m() == st1.need_m() && self.alloc_m() == st1.alloc_m());
        }
        0
    }
}

} // verus!
