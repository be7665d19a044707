//! Task-side records: the switch context, the per-task accounting block,
//! and the address arithmetic of the static app slots.

use vstd::prelude::*;

verus! {

/// Number of syscall ids a task's call counters cover.
pub const MAX_SYSCALL_NUM: usize = 500;

/// Base address of the first application image.
pub const APP_BASE_ADDRESS: usize = 0x80400000;

/// Size of one application slot.
pub const APP_SIZE_LIMIT: usize = 0x20000;

/// The status of a task in its life cycle.
#[derive(Clone, Copy, PartialEq, Eq, Structural, Debug)]
pub enum TaskStatus {
    UnInit,
    Ready,
    Running,
    Exited,
}

/// The registers a task switch saves: return address, stack pointer and
/// the twelve callee-saved registers.
pub struct TaskContext {
    pub ra: usize,
    pub sp: usize,
    pub s: Vec<usize>,
}

impl TaskContext {
    /// An all-zero context.
    pub fn zero_init() -> (r: TaskContext)
        ensures
            r.ra == 0,
            r.sp == 0,
            r.s@ == Seq::new(12, |i: int| 0usize),
    {
        let r = TaskContext { ra: 0, sp: 0, s: vec![0usize; 12] };
        proof {
            assert(r.s@ =~= Seq::new(12, |i: int| 0usize));
        }
        r
    }

    /// A context that resumes at the trap-return entry `trap_return` on the
    /// kernel stack `kstack_ptr`; the entry's address comes from the
    /// runtime.
    pub fn goto_trap_return(trap_return: usize, kstack_ptr: usize) -> (r: TaskContext)
        ensures
            r.ra == trap_return,
            r.sp == kstack_ptr,
            r.s@ == Seq::new(12, |i: int| 0usize),
    {
        let r = TaskContext { ra: trap_return, sp: kstack_ptr, s: vec![0usize; 12] };
        proof {
            assert(r.s@ =~= Seq::new(12, |i: int| 0usize));
        }
        r
    }
}

/// Per-task accounting: status, per-syscall call counts, and running time.
pub struct TaskInfo {
    pub status: TaskStatus,
    pub syscall_times: Vec<u32>,
    pub time: usize,
}

impl TaskInfo {
    /// Fresh accounting for a task in the given status.
    pub fn new(status: TaskStatus) -> (r: TaskInfo)
        ensures
            r.status == status,
            r.time == 0,
            r.syscall_times@.len() == MAX_SYSCALL_NUM,
            forall|i: int| 0 <= i < MAX_SYSCALL_NUM ==> r.syscall_times@[i] == 0,
    {
        TaskInfo { status, syscall_times: vec![0u32; MAX_SYSCALL_NUM], time: 0 }
    }
}

/// The control block of a task: its status, saved context, accounting and
/// start time in microseconds.
pub struct TaskControlBlock {
    pub task_status: TaskStatus,
    pub task_cx: TaskContext,
    pub task_info: TaskInfo,
    pub start_time: usize,
}

impl TaskControlBlock {
    /// Record and return the task's running time in milliseconds, given
    /// the clock's current microsecond reading.
    pub fn time_elapsed(&mut self, now_us: usize) -> (r: usize)
        requires
            now_us >= old(self).start_time,
        ensures
            r == (now_us - old(self).start_time) / 1000,
            final(self).task_info.time == r,
            final(self).task_info.status == old(self).task_info.status,
            final(self).task_info.syscall_times@ == old(self).task_info.syscall_times@,
            final(self).task_status == old(self).task_status,
            final(self).start_time == old(self).start_time,
    {
        self.task_info.time = (now_us - self.start_time) / 1000;
        self.task_info.time
    }

    /// Count one more call of syscall `syscall_id`.
    pub fn syscall_record_update(&mut self, syscall_id: usize)
        requires
            syscall_id < old(self).task_info.syscall_times@.len(),
            old(self).task_info.syscall_times@[syscall_id as int] < u32::MAX,
        ensures
            final(self).task_info.syscall_times@ == old(self).task_info.syscall_times@.update(
                syscall_id as int,
                (old(self).task_info.syscall_times@[syscall_id as int] + 1) as u32,
            ),
            final(self).task_info.status == old(self).task_info.status,
            final(self).task_info.time == old(self).task_info.time,
            final(self).task_status == old(self).task_status,
            final(self).start_time == old(self).start_time,
    {
        let row = &mut self.task_info.syscall_times;
        let v = row[syscall_id];
        row[syscall_id] = v + 1;
    }
}

/// A time split into whole seconds and the microseconds beyond them.
#[derive(Clone, Copy, PartialEq, Eq, Structural, Debug)]
pub struct TimeVal {
    pub sec: usize,
    pub usec: usize,
}

/// Base address of application slot `app_id`.
pub fn get_base_i(app_id: usize) -> (r: usize)
    requires
        app_id <= 16,
    ensures
        r == APP_BASE_ADDRESS + app_id * APP_SIZE_LIMIT,
{
    proof {
        assert(app_id * 0x20000 <= 16 * 0x20000) by (nonlinear_arith)
            requires
                app_id <= 16,
        ;
    }
    APP_BASE_ADDRESS + app_id * APP_SIZE_LIMIT
}

} // verus!
