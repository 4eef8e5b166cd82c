//! The task table and the round-robin scheduler: starting one past the
//! task that last ran, scan the table once around and dispatch the first
//! Ready task.

use vstd::prelude::*;
use vstd::arithmetic::div_mod::{lemma_fundamental_div_mod, lemma_mod_self_0, lemma_small_mod, lemma_mod_twice, lemma_add_mod_noop};
use crate::task::task::{TaskControlBlock, TaskStatus};

verus! {

/// The task table and the cursor of the currently running task.
pub struct TaskManager {
    pub tasks: Vec<TaskControlBlock>,
    pub cur_task: usize,
}

impl TaskManager {
    /// The lifecycle states of all tasks, in table order.
    pub open spec fn statuses(self) -> Seq<TaskStatus> {
        self.tasks@.map(|i: int, t: TaskControlBlock| t.status)
    }

    pub open spec fn num(self) -> int {
        self.tasks@.len() as int
    }

    /// The cursor stays inside the table.
    pub open spec fn wf_basic(self) -> bool {
        self.num() > 0 ==> self.cur_task < self.num()
    }

    /// The index the round-robin scan returns: the first Ready task at
    /// distance `d..=len` after `cur`, wrapping around.
    pub open spec fn find_next_spec(s: Seq<TaskStatus>, cur: int, d: int) -> Option<int>
        decreases s.len() + 1 - d,
    {
        if s.len() == 0 || d < 1 || d > s.len() {
            None
        } else if s[(cur + d) % (s.len() as int)] == TaskStatus::Ready {
            Some((cur + d) % (s.len() as int))
        } else {
            Self::find_next_spec(s, cur, d + 1)
        }
    }

    /// Scan the table once around, starting after the current task, for
    /// the first Ready task.
    pub fn find_next_task(&self) -> (r: Option<usize>)
        requires
            self.num() > 0,
            self.num() <= 0x4000_0000,
            self.cur_task < self.num(),
        ensures
            match r {
                Some(k) => k < self.num() && Some(k as int) == Self::find_next_spec(
                    self.statuses(),
                    self.cur_task as int,
                    1,
                ),
                None => Self::find_next_spec(self.statuses(), self.cur_task as int, 1) is None,
            },
    {
        let n: usize = self.tasks.len();
        let mut i: usize = 1;
        while i <= n
            invariant
                1 <= i <= n + 1,
                n == self.num(),
                n <= 0x4000_0000,
                self.cur_task < n,
                Self::find_next_spec(self.statuses(), self.cur_task as int, 1)
                    == Self::find_next_spec(self.statuses(), self.cur_task as int, i as int),
            decreases n + 1 - i,
        {
            let next_task_id: usize = (self.cur_task + i) % n;
            proof {
                assert((self.cur_task + i) as int % n as int == (self.cur_task as int
                    + i as int) % (n as int));
                assert(self.statuses()[next_task_id as int] == self.tasks@[next_task_id
                    as int].status);
            }
            if self.tasks[next_task_id].status == TaskStatus::Ready {
                return Some(next_task_id);
            }
            i = i + 1;
        }
        None
    }

    /// Mark the running task Ready again (a voluntary or timer yield).
    pub fn mark_current_suspended(&mut self)
        requires
            old(self).num() > 0,
            old(self).cur_task < old(self).num(),
            old(self).statuses()[old(self).cur_task as int] == TaskStatus::Running,
        ensures
            final(self).cur_task == old(self).cur_task,
            final(self).num() == old(self).num(),
            final(self).statuses() == old(self).statuses().update(
                old(self).cur_task as int,
                TaskStatus::Ready,
            ),
            forall|i: int|
                0 <= i < old(self).num() && i != old(self).cur_task ==> #[trigger] final(self).tasks@[i] == old(self).tasks@[i],
            final(self).tasks@[old(self).cur_task as int].status == TaskStatus::Ready,
            final(self).tasks@[old(self).cur_task as int].ctx == old(self).tasks@[old(
                self,
            ).cur_task as int].ctx,
            final(self).tasks@[old(self).cur_task as int].memory_set == old(self).tasks@[old(
                self,
            ).cur_task as int].memory_set,
            final(self).tasks@[old(self).cur_task as int].trap_ctx == old(self).tasks@[old(
                self,
            ).cur_task as int].trap_ctx,
            final(self).tasks@[old(self).cur_task as int].trap_ctx_ppn == old(self).tasks@[old(
                self,
            ).cur_task as int].trap_ctx_ppn,
            final(self).tasks@[old(self).cur_task as int].base_size == old(self).tasks@[old(
                self,
            ).cur_task as int].base_size,
    {
        let cur: usize = self.cur_task;
        self.tasks[cur].status = TaskStatus::Ready;
    }

    /// Mark the running task Exited (a voluntary exit or a fatal fault).
    pub fn mark_current_exited(&mut self)
        requires
            old(self).num() > 0,
            old(self).cur_task < old(self).num(),
            old(self).statuses()[old(self).cur_task as int] == TaskStatus::Running,
        ensures
            final(self).cur_task == old(self).cur_task,
            final(self).num() == old(self).num(),
            final(self).statuses() == old(self).statuses().update(
                old(self).cur_task as int,
                TaskStatus::Exited,
            ),
            forall|i: int|
                0 <= i < old(self).num() && i != old(self).cur_task ==> #[trigger] final(self).tasks@[i] == old(self).tasks@[i],
            final(self).tasks@[old(self).cur_task as int].status == TaskStatus::Exited,
            final(self).tasks@[old(self).cur_task as int].ctx == old(self).tasks@[old(
                self,
            ).cur_task as int].ctx,
            final(self).tasks@[old(self).cur_task as int].memory_set == old(self).tasks@[old(
                self,
            ).cur_task as int].memory_set,
            final(self).tasks@[old(self).cur_task as int].trap_ctx == old(self).tasks@[old(
                self,
            ).cur_task as int].trap_ctx,
            final(self).tasks@[old(self).cur_task as int].trap_ctx_ppn == old(self).tasks@[old(
                self,
            ).cur_task as int].trap_ctx_ppn,
            final(self).tasks@[old(self).cur_task as int].base_size == old(self).tasks@[old(
                self,
            ).cur_task as int].base_size,
    {
        let cur: usize = self.cur_task;
        self.tasks[cur].status = TaskStatus::Exited;
    }

    /// Dispatch: find the next Ready task, mark it Running, advance the
    /// cursor, and report the context transfer to perform; nothing if no
    /// task is Ready.
    pub fn run_next_task(&mut self) -> (r: Option<(usize, usize)>)
        requires
            old(self).num() > 0,
            old(self).num() <= 0x4000_0000,
            old(self).cur_task < old(self).num(),
        ensures
            final(self).num() == old(self).num(),
            match r {
                Some(pair) => {
                    &&& Some(pair.1 as int) == Self::find_next_spec(
                        old(self).statuses(),
                        old(self).cur_task as int,
                        1,
                    )
                    &&& pair.0 == old(self).cur_task
                    &&& pair.1 < old(self).num()
                    &&& final(self).cur_task == pair.1
                    &&& final(self).statuses() == old(self).statuses().update(
                        pair.1 as int,
                        TaskStatus::Running,
                    )
                    &&& forall|i: int|
                        0 <= i < old(self).num() && i != pair.1 ==> #[trigger] final(self).tasks@[i] == old(self).tasks@[i]
                    &&& final(self).tasks@[pair.1 as int].status == TaskStatus::Running
                    &&& final(self).tasks@[pair.1 as int].ctx == old(self).tasks@[pair.1
                        as int].ctx
                    &&& final(self).tasks@[pair.1 as int].memory_set == old(self).tasks@[pair.1
                        as int].memory_set
                    &&& final(self).tasks@[pair.1 as int].trap_ctx == old(self).tasks@[pair.1
                        as int].trap_ctx
                    &&& final(self).tasks@[pair.1 as int].trap_ctx_ppn == old(self).tasks@[pair.1
                        as int].trap_ctx_ppn
                    &&& final(self).tasks@[pair.1 as int].base_size == old(self).tasks@[pair.1
                        as int].base_size
                },
                None => {
                    &&& Self::find_next_spec(
                        old(self).statuses(),
                        old(self).cur_task as int,
                        1,
                    ) is None
                    &&& *final(self) == *old(self)
                },
            },
    {
        match self.find_next_task() {
            Some(next_task_id) => {
                let current_task_id: usize = self.cur_task;
                self.tasks[next_task_id].status = TaskStatus::Running;
                self.cur_task = next_task_id;
                Some((current_task_id, next_task_id))
            },
            None => None,
        }
    }

    /// Start the very first task: task 0 becomes Running. The context
    /// transfer leaves from a disposable context that is never resumed.
    pub fn run_first_task(&mut self)
        requires
            old(self).num() > 0,
        ensures
            final(self).num() == old(self).num(),
            final(self).cur_task == 0,
            final(self).statuses() == old(self).statuses().update(0, TaskStatus::Running),
            forall|i: int|
                0 < i < old(self).num() ==> #[trigger] final(self).tasks@[i] == old(
                    self,
                ).tasks@[i],
            final(self).tasks@[0].status == TaskStatus::Running,
            final(self).tasks@[0].ctx == old(self).tasks@[0].ctx,
            final(self).tasks@[0].memory_set == old(self).tasks@[0].memory_set,
            final(self).tasks@[0].trap_ctx == old(self).tasks@[0].trap_ctx,
            final(self).tasks@[0].trap_ctx_ppn == old(self).tasks@[0].trap_ctx_ppn,
            final(self).tasks@[0].base_size == old(self).tasks@[0].base_size,
    {
        self.tasks[0].status = TaskStatus::Running;
        self.cur_task = 0;
    }

    /// The running task's index.
    pub fn get_current_idx(&self) -> (r: usize)
        ensures
            r == self.cur_task,
    {
        self.cur_task
    }
}

/// With every task Ready, the dispatch starting after position `p` picks
/// exactly the next position in rotation.
pub proof fn lemma_round_robin_next(s: Seq<TaskStatus>, p: int)
    requires
        s.len() > 0,
        0 <= p < s.len(),
        forall|i: int| 0 <= i < s.len() ==> s[i] == TaskStatus::Ready,
    ensures
        TaskManager::find_next_spec(s, p, 1) == Some((p + 1) % (s.len() as int)),
{
    let n = s.len() as int;
    lemma_fundamental_div_mod(p + 1, n);
    assert(0 <= (p + 1) % n < n) by {
        vstd::arithmetic::div_mod::lemma_mod_bound(p + 1, n);
    }
    assert(s[(p + 1) % n] == TaskStatus::Ready);
}

/// The task the k-th dispatch of a round visits, counting from the
/// position after `cur`.
pub open spec fn rotation(cur: int, k: int, n: int) -> int {
    (cur + 1 + k) % n
}

/// The dispatch step of the round at which task `t` runs.
pub open spec fn rotation_inverse(cur: int, t: int, n: int) -> int {
    ((t - cur - 1) % n + n) % n
}

/// With N tasks all Ready, N consecutive dispatches starting after the
/// previously running task visit positions in strict rotation: the k-th
/// dispatch runs task `rotation(cur, k, N)`, these N positions are
/// pairwise distinct, and every task index is among them — each task runs
/// exactly once per round.
pub proof fn lemma_round_robin_fair(cur: int, n: int)
    requires
        n > 0,
        0 <= cur < n,
    ensures
        forall|k1: int, k2: int|
            0 <= k1 < k2 < n ==> #[trigger] rotation(cur, k1, n) != #[trigger] rotation(
                cur,
                k2,
                n,
            ),
        forall|t: int|
            0 <= t < n ==> 0 <= #[trigger] rotation_inverse(cur, t, n) < n && rotation(
                cur,
                rotation_inverse(cur, t, n),
                n,
            ) == t,
{
    assert forall|k1: int, k2: int| 0 <= k1 < k2 < n implies #[trigger] rotation(cur, k1, n)
        != #[trigger] rotation(cur, k2, n) by {
        if (cur + 1 + k1) % n == (cur + 1 + k2) % n {
            lemma_fundamental_div_mod(cur + 1 + k1, n);
            lemma_fundamental_div_mod(cur + 1 + k2, n);
            let d1 = (cur + 1 + k1) / n;
            let d2 = (cur + 1 + k2) / n;
            assert(k2 - k1 == n * d2 - n * d1);
            assert(0 < k2 - k1 < n);
            assert(false) by (nonlinear_arith)
                requires
                    k2 - k1 == n * d2 - n * d1,
                    0 < k2 - k1 < n,
            ;
        }
    }
    assert forall|t: int| 0 <= t < n implies 0 <= #[trigger] rotation_inverse(cur, t, n) < n
        && rotation(cur, rotation_inverse(cur, t, n), n) == t by {
        let k = ((t - cur - 1) % n + n) % n;
        assert(0 <= k < n) by {
            vstd::arithmetic::div_mod::lemma_mod_bound((t - cur - 1) % n + n, n);
        }
        assert(rotation(cur, k, n) == t) by {
            lemma_mod_path(cur, t, n);
        }
    }
}

/// Adding back the rotation distance returns to the target index.
proof fn lemma_mod_path(cur: int, t: int, n: int)
    requires
        n > 0,
        0 <= cur < n,
        0 <= t < n,
    ensures
        (cur + 1 + (((t - cur - 1) % n + n) % n)) % n == t,
{
    let d = t - cur - 1;
    lemma_mod_twice_plus(d, n);
    lemma_add_mod_noop(cur + 1, d % n, n);
    assert((cur + 1) % n + d % n == (cur + 1) % n + (d % n));
    assert(((cur + 1) + (d % n)) % n == ((cur + 1) % n + (d % n) % n) % n);
    assert((d % n) % n == d % n) by {
        lemma_mod_twice(d, n);
    }
    lemma_add_mod_noop(cur + 1, d, n);
    assert(((cur + 1) + d) % n == ((cur + 1) % n + d % n) % n);
    assert((cur + 1) + d == t);
    assert(t % n == t) by {
        lemma_small_mod(t as nat, n as nat);
    }
}

/// `(d % n + n) % n == d % n` for positive `n`.
proof fn lemma_mod_twice_plus(d: int, n: int)
    requires
        n > 0,
    ensures
        ((d % n) + n) % n == d % n,
{
    vstd::arithmetic::div_mod::lemma_mod_bound(d, n);
    lemma_small_mod((d % n) as nat, n as nat);
    vstd::arithmetic::div_mod::lemma_mod_add_multiples_vanish(d % n, n);
}


/// Whatever index the round-robin scan returns is in range and Ready.
pub proof fn lemma_find_next_ready(s: Seq<TaskStatus>, cur: int, d: int)
    ensures
        match TaskManager::find_next_spec(s, cur, d) {
            Some(k) => 0 <= k < s.len() && s[k] == TaskStatus::Ready,
            None => true,
        },
    decreases s.len() + 1 - d,
{
    if s.len() == 0 || d < 1 || d > s.len() {
    } else if s[(cur + d) % (s.len() as int)] == TaskStatus::Ready {
        vstd::arithmetic::div_mod::lemma_mod_bound(cur + d, s.len() as int);
    } else {
        lemma_find_next_ready(s, cur, d + 1);
    }
}


/// If the scan from distance `d` finds nothing, no position at distance
/// `d..=len` is Ready.
proof fn lemma_find_next_scan(s: Seq<TaskStatus>, cur: int, d: int)
    requires
        s.len() > 0,
        1 <= d <= s.len() + 1,
    ensures
        TaskManager::find_next_spec(s, cur, d) is None ==> forall|e: int|
            d <= e <= s.len() ==> #[trigger] s[(cur + e) % (s.len() as int)]
                != TaskStatus::Ready,
    decreases s.len() + 1 - d,
{
    if d <= s.len() {
        lemma_find_next_scan(s, cur, d + 1);
    }
}

/// An empty round-robin scan means no task at all is Ready: the scan
/// starts one past the cursor and goes exactly once around.
pub proof fn lemma_find_next_none_no_ready(s: Seq<TaskStatus>, cur: int)
    requires
        s.len() > 0,
        0 <= cur < s.len(),
    ensures
        TaskManager::find_next_spec(s, cur, 1) is None ==> forall|i: int|
            0 <= i < s.len() ==> s[i] != TaskStatus::Ready,
{
    let n = s.len() as int;
    if TaskManager::find_next_spec(s, cur, 1) is None {
        lemma_find_next_scan(s, cur, 1);
        assert forall|i: int| 0 <= i < n implies s[i] != TaskStatus::Ready by {
            let k = ((i - cur - 1) % n + n) % n;
            assert(0 <= k < n) by {
                vstd::arithmetic::div_mod::lemma_mod_bound((i - cur - 1) % n + n, n);
            }
            lemma_mod_path(cur, i, n);
            assert((cur + (k + 1)) % n == i);
            assert(1 <= k + 1 <= n);
        }
    }
}

} // verus!
