//! The running tasks of the jobs: one entry per channel and task number.
use crate::model::{JobMessage, PubKeyBytes, ShortChannelIdDir, TaskIdentifier};
use vstd::prelude::*;

verus! {

/// One task of a job: its state, whether it runs, whether it was told to
/// stop, whether it is a one-off, the directed channel it keeps other tasks
/// of its job off, and the node at the other end of its channel.
#[derive(Debug, Clone, Copy)]
pub struct Task {
    pub task_ident: TaskIdentifier,
    pub latest_state: JobMessage,
    pub active: bool,
    pub should_stop: bool,
    pub once: bool,
    pub parallel_ban: Option<ShortChannelIdDir>,
    pub other_pubkey: PubKeyBytes,
}

/// A task as `set_active` leaves it: starting it also takes back a stop.
pub open spec fn spec_set_active(t: Task, active: bool) -> Task {
    Task { active, should_stop: if active { false } else { t.should_stop }, ..t }
}

impl Task {
    /// A new task, running and not told to stop.
    pub fn new(short_channel_id: u64, task_id: u16, latest_state: JobMessage, once: bool, other_pubkey: PubKeyBytes) -> (r: Task)
        ensures
            r == (Task {
                task_ident: TaskIdentifier { short_channel_id, task_id },
                latest_state,
                active: true,
                should_stop: false,
                once,
                parallel_ban: None,
                other_pubkey,
            }),
    {
        Task {
            latest_state,
            active: true,
            should_stop: false,
            once,
            other_pubkey,
            parallel_ban: None,
            task_ident: TaskIdentifier::new(short_channel_id, task_id),
        }
    }

    pub fn get_state(&self) -> (r: JobMessage)
        ensures
            r == self.latest_state,
    {
        self.latest_state
    }

    pub fn set_state(&mut self, state: JobMessage)
        ensures
            *final(self) == (Task { latest_state: state, ..*old(self) }),
    {
        self.latest_state = state;
    }

    /// Tells the task to stop.
    pub fn stop(&mut self)
        ensures
            *final(self) == (Task { should_stop: true, ..*old(self) }),
    {
        self.should_stop = true;
    }

    pub fn should_stop(&self) -> (r: bool)
        ensures
            r == self.should_stop,
    {
        self.should_stop
    }

    pub fn is_active(&self) -> (r: bool)
        ensures
            r == self.active,
    {
        self.active
    }

    /// Marks the task running or not; starting it takes back a stop.
    pub fn set_active(&mut self, active: bool)
        ensures
            *final(self) == spec_set_active(*old(self), active),
    {
        self.active = active;
        if active {
            self.should_stop = false;
        }
    }

    pub fn get_chan_id(&self) -> (r: u64)
        ensures
            r == self.task_ident.short_channel_id,
    {
        self.task_ident.get_chan_id()
    }

    pub fn get_identifier(&self) -> (r: &TaskIdentifier)
        ensures
            *r == self.task_ident,
    {
        &self.task_ident
    }

    pub fn is_once(&self) -> (r: bool)
        ensures
            r == self.once,
    {
        self.once
    }
}

/// The tasks of all jobs, each under the identifier it was filed under, in
/// the order they were added; no two share an identifier.
#[derive(Debug, Clone)]
pub struct Tasks {
    tasks: Vec<(TaskIdentifier, Task)>,
}

/// Whether no two tasks share an identifier.
pub open spec fn idents_distinct(s: Seq<(TaskIdentifier, Task)>) -> bool {
    forall|i: int, j: int| 0 <= i < j < s.len() ==> #[trigger] s[i].0 != #[trigger] s[j].0
}

/// The index of the task with identifier `id`, if there is one.
pub open spec fn task_index(s: Seq<(TaskIdentifier, Task)>, id: TaskIdentifier) -> Option<int> {
    if exists|i: int| 0 <= i < s.len() && #[trigger] s[i].0 == id {
        Some(choose|i: int| 0 <= i < s.len() && #[trigger] s[i].0 == id)
    } else {
        None
    }
}

/// Whether some task belongs to channel `scid`.
pub open spec fn has_scid(s: Seq<(TaskIdentifier, Task)>, scid: u64) -> bool {
    exists|i: int| 0 <= i < s.len() && #[trigger] s[i].0.short_channel_id == scid
}

/// The tasks of other channels than `scid`, in their order.
pub open spec fn without_scid(s: Seq<(TaskIdentifier, Task)>, scid: u64) -> Seq<(TaskIdentifier, Task)>
    decreases s.len(),
{
    if s.len() == 0 {
        s
    } else {
        let r = without_scid(s.drop_last(), scid);
        if s.last().0.short_channel_id == scid { r } else { r.push(s.last()) }
    }
}

/// Whether a task belongs to channel `scid`.
pub open spec fn of_scid(scid: u64) -> spec_fn((TaskIdentifier, Task)) -> bool {
    |e: (TaskIdentifier, Task)| e.0.short_channel_id == scid
}

/// Whether a task belongs to another channel than `scid`.
pub open spec fn not_of_scid(scid: u64) -> spec_fn((TaskIdentifier, Task)) -> bool {
    |e: (TaskIdentifier, Task)| e.0.short_channel_id != scid
}

/// Whether a task of channel `scid` among the first `n` keeps the others
/// off `b`.
pub open spec fn banned_upto(s: Seq<(TaskIdentifier, Task)>, scid: u64, n: int, b: ShortChannelIdDir) -> bool {
    exists|j: int| 0 <= j < n && s[j].0.short_channel_id == scid && #[trigger] s[j].1.parallel_ban == Some(b)
}

/// The tasks with the one filed under `id` changed by `f`.
pub open spec fn update_task(s: Seq<(TaskIdentifier, Task)>, id: TaskIdentifier, f: spec_fn(Task) -> Task) -> Seq<(TaskIdentifier, Task)> {
    s.map_values(|e: (TaskIdentifier, Task)| if e.0 == id { (e.0, f(e.1)) } else { e })
}

/// The tasks themselves, without the identifiers they are filed under.
pub open spec fn tasks_of(s: Seq<(TaskIdentifier, Task)>) -> Seq<Task> {
    s.map_values(|e: (TaskIdentifier, Task)| e.1)
}

impl View for Tasks {
    type V = Seq<(TaskIdentifier, Task)>;

    closed spec fn view(&self) -> Seq<(TaskIdentifier, Task)> {
        self.tasks@
    }
}

impl Tasks {
    /// Whether no two tasks share an identifier.
    pub closed spec fn wf(&self) -> bool {
        idents_distinct(self.tasks@)
    }

    pub fn new() -> (r: Tasks)
        ensures
            r.wf(),
            r@ == Seq::<(TaskIdentifier, Task)>::empty(),
    {
        Tasks { tasks: Vec::new() }
    }

    /// The position of the task with identifier `id`.
    fn find(&self, id: &TaskIdentifier) -> (r: Option<usize>)
        requires
            self.wf(),
        ensures
            match r {
                Some(i) => i < self@.len() && self@[i as int].0 == *id,
                None => task_index(self@, *id) is None,
            },
    {
        let mut i: usize = 0;
        while i < self.tasks.len()
            invariant
                i <= self.tasks@.len(),
                forall|j: int| 0 <= j < i ==> #[trigger] self.tasks@[j].0 != *id,
            decreases self.tasks@.len() - i,
        {
            let t = self.tasks[i].0;
            if t.short_channel_id == id.short_channel_id && t.task_id == id.task_id {
                return Some(i);
            }
            i = i + 1;
        }
        None
    }

    /// Files a task under channel `scid` and number `task_id`; refused,
    /// with nothing changed, when a task is filed there already.
    pub fn insert_task(&mut self, scid: u64, task_id: u16, task: Task) -> (r: Result<(), ()>)
        requires
            old(self).wf(),
        ensures
            final(self).wf(),
            task_index(old(self)@, TaskIdentifier { short_channel_id: scid, task_id }) is Some
                ==> r is Err && final(self)@ == old(self)@,
            task_index(old(self)@, TaskIdentifier { short_channel_id: scid, task_id }) is None
                ==> r is Ok && final(self)@ == old(self)@.push((TaskIdentifier { short_channel_id: scid, task_id }, task)),
    {
        let id = TaskIdentifier::new(scid, task_id);
        match self.find(&id) {
            Some(_) => Err(()),
            None => {
                self.tasks.push((id, task));
                proof {
                    assert forall|i: int, j: int| 0 <= i < j < self.tasks@.len() implies #[trigger] self.tasks@[i].0 != #[trigger] self.tasks@[j].0 by {
                        if j == self.tasks@.len() - 1 {
                            if self.tasks@[i].0 == id {
                                assert(old(self).tasks@[i].0 == id);
                            }
                        }
                    }
                }
                Ok(())
            },
        }
    }

    /// Whether some task of channel `scid` runs.
    pub fn is_any_active(&self, scid: u64) -> (r: bool)
        ensures
            r == exists|i: int| 0 <= i < self@.len() && (#[trigger] self@[i]).0.short_channel_id == scid && self@[i].1.active,
    {
        let mut i: usize = 0;
        while i < self.tasks.len()
            invariant
                i <= self.tasks@.len(),
                forall|j: int| 0 <= j < i ==> !((#[trigger] self.tasks@[j]).0.short_channel_id == scid && self.tasks@[j].1.active),
            decreases self.tasks@.len() - i,
        {
            if self.tasks[i].0.short_channel_id == scid && self.tasks[i].1.active {
                return true;
            }
            i = i + 1;
        }
        false
    }

    /// Marks the task `id` running or not (nothing if there is none).
    pub fn set_active(&mut self, id: &TaskIdentifier, active: bool)
        requires
            old(self).wf(),
        ensures
            final(self).wf(),
            final(self)@ == update_task(old(self)@, *id, |t: Task| spec_set_active(t, active)),
    {
        match self.find(id) {
            Some(i) => {
                let (k, mut t) = self.tasks[i];
                t.set_active(active);
                self.tasks.set(i, (k, t));
                proof {
                    self.lemma_updated_at(old(self).tasks@, i as int, *id, |t: Task| spec_set_active(t, active));
                }
            },
            None => {
                proof {
                    self.lemma_update_absent(*id, |t: Task| spec_set_active(t, active));
                }
            },
        }
    }

    /// Records the latest state of task `id` (nothing if there is none).
    pub fn set_state(&mut self, id: &TaskIdentifier, state: JobMessage)
        requires
            old(self).wf(),
        ensures
            final(self).wf(),
            final(self)@ == update_task(old(self)@, *id, |t: Task| Task { latest_state: state, ..t }),
    {
        match self.find(id) {
            Some(i) => {
                let (k, mut t) = self.tasks[i];
                t.set_state(state);
                self.tasks.set(i, (k, t));
                proof {
                    self.lemma_updated_at(old(self).tasks@, i as int, *id, |t: Task| Task { latest_state: state, ..t });
                }
            },
            None => {
                proof {
                    self.lemma_update_absent(*id, |t: Task| Task { latest_state: state, ..t });
                }
            },
        }
    }

    /// Sets the directed channel task `id` keeps the other tasks of its job
    /// off (nothing if there is no such task).
    pub fn set_parallel_ban(&mut self, id: &TaskIdentifier, ban: Option<ShortChannelIdDir>)
        requires
            old(self).wf(),
        ensures
            final(self).wf(),
            final(self)@ == update_task(old(self)@, *id, |t: Task| Task { parallel_ban: ban, ..t }),
    {
        match self.find(id) {
            Some(i) => {
                let (k, mut t) = self.tasks[i];
                t.parallel_ban = ban;
                self.tasks.set(i, (k, t));
                proof {
                    self.lemma_updated_at(old(self).tasks@, i as int, *id, |t: Task| Task { parallel_ban: ban, ..t });
                }
            },
            None => {
                proof {
                    self.lemma_update_absent(*id, |t: Task| Task { parallel_ban: ban, ..t });
                }
            },
        }
    }

    /// Tells task `id` to stop (nothing if there is none).
    pub fn stop_task(&mut self, id: &TaskIdentifier)
        requires
            old(self).wf(),
        ensures
            final(self).wf(),
            final(self)@ == update_task(old(self)@, *id, |t: Task| Task { should_stop: true, ..t }),
    {
        match self.find(id) {
            Some(i) => {
                let (k, mut t) = self.tasks[i];
                t.stop();
                self.tasks.set(i, (k, t));
                proof {
                    self.lemma_updated_at(old(self).tasks@, i as int, *id, |t: Task| Task { should_stop: true, ..t });
                }
            },
            None => {
                proof {
                    self.lemma_update_absent(*id, |t: Task| Task { should_stop: true, ..t });
                }
            },
        }
    }

    proof fn lemma_updated_at(&self, old_tasks: Seq<(TaskIdentifier, Task)>, i: int, id: TaskIdentifier, f: spec_fn(Task) -> Task)
        requires
            idents_distinct(old_tasks),
            0 <= i < old_tasks.len(),
            old_tasks[i].0 == id,
            self.tasks@ == old_tasks.update(i, (id, f(old_tasks[i].1))),
        ensures
            self.wf(),
            self@ == update_task(old_tasks, id, f),
    {
        assert forall|j: int| 0 <= j < old_tasks.len() && j != i implies #[trigger] old_tasks[j].0 != id by {
            if j < i {
                assert(old_tasks[j].0 != old_tasks[i].0);
            } else {
                assert(old_tasks[i].0 != old_tasks[j].0);
            }
        }
        assert(self.tasks@ =~= update_task(old_tasks, id, f));
        assert forall|a: int, b: int| 0 <= a < b < self.tasks@.len() implies #[trigger] self.tasks@[a].0 != #[trigger] self.tasks@[b].0 by {
            assert(old_tasks[a].0 != old_tasks[b].0);
        }
    }

    proof fn lemma_update_absent(&self, id: TaskIdentifier, f: spec_fn(Task) -> Task)
        requires
            task_index(self@, id) is None,
        ensures
            self@ == update_task(self@, id, f),
    {
        assert forall|j: int| 0 <= j < self@.len() implies #[trigger] self@[j].0 != id by {
            if self@[j].0 == id {
                assert(exists|i: int| 0 <= i < self@.len() && #[trigger] self@[i].0 == id);
            }
        }
        assert(self@ =~= update_task(self@, id, f));
    }

    /// The task filed under `id`, if there is one.
    pub fn get_task(&self, id: &TaskIdentifier) -> (r: Option<Task>)
        requires
            self.wf(),
        ensures
            match r {
                Some(t) => exists|i: int| 0 <= i < self@.len() && self@[i] == (*id, t),
                None => task_index(self@, *id) is None,
            },
    {
        match self.find(id) {
            Some(i) => {
                let (k, t) = self.tasks[i];
                proof {
                    assert(self@[i as int] == (*id, t));
                }
                Some(t)
            },
            None => None,
        }
    }

    /// The tasks of channel `scid`, in their order.
    pub fn get_scid_tasks(&self, scid: u64) -> (r: Vec<Task>)
        ensures
            r@ == tasks_of(self@.filter(of_scid(scid))),
    {
        let mut r: Vec<Task> = Vec::new();
        let mut i: usize = 0;
        while i < self.tasks.len()
            invariant
                i <= self.tasks@.len(),
                r@ == tasks_of(self.tasks@.subrange(0, i as int).filter(of_scid(scid))),
            decreases self.tasks@.len() - i,
        {
            let ghost pre = self.tasks@.subrange(0, i + 1);
            proof {
                assert(pre.drop_last() =~= self.tasks@.subrange(0, i as int));
                assert(pre.last() == self.tasks@[i as int]);
            }
            let ghost before = r@;
            if self.tasks[i].0.short_channel_id == scid {
                r.push(self.tasks[i].1);
            }
            proof {
                assert(pre.len() == i + 1);
                reveal(Seq::filter);
                let f = of_scid(scid);
                assert(pre.filter(f) == (if f(pre.last()) { pre.drop_last().filter(f).push(pre.last()) } else { pre.drop_last().filter(f) }));
                let q = pre.drop_last().filter(f);
                assert(tasks_of(q.push(pre.last())) =~= tasks_of(q).push(pre.last().1));
                assert(r@ =~= tasks_of(pre.filter(f)));
            }
            i = i + 1;
        }
        proof {
            assert(self.tasks@.subrange(0, self.tasks@.len() as int) =~= self.tasks@);
        }
        r
    }

    /// All tasks, in their order.
    pub fn get_all_tasks(&self) -> (r: Vec<Task>)
        ensures
            r@ == tasks_of(self@),
    {
        let mut r: Vec<Task> = Vec::new();
        let mut i: usize = 0;
        while i < self.tasks.len()
            invariant
                i <= self.tasks@.len(),
                r@ == tasks_of(self.tasks@.subrange(0, i as int)),
            decreases self.tasks@.len() - i,
        {
            r.push(self.tasks[i].1);
            proof {
                assert(r@ =~= tasks_of(self.tasks@.subrange(0, i + 1)));
            }
            i = i + 1;
        }
        proof {
            assert(self.tasks@.subrange(0, self.tasks@.len() as int) =~= self.tasks@);
        }
        r
    }

    /// The directed channels the tasks of channel `scid` keep each other
    /// off, each once; refused when the channel has no task.
    pub fn get_parallelbans(&self, scid: u64) -> (r: Result<Vec<ShortChannelIdDir>, ()>)
        ensures
            !has_scid(self@, scid) ==> r is Err,
            has_scid(self@, scid) ==> (r matches Ok(bans) && bans@.no_duplicates() && (forall|b: ShortChannelIdDir|
                #[trigger] bans@.contains(b) <==> banned_upto(self@, scid, self@.len() as int, b))),
    {
        let mut found = false;
        let mut bans: Vec<ShortChannelIdDir> = Vec::new();
        let mut i: usize = 0;
        while i < self.tasks.len()
            invariant
                i <= self.tasks@.len(),
                found == exists|j: int| 0 <= j < i && #[trigger] self.tasks@[j].0.short_channel_id == scid,
                bans@.no_duplicates(),
                forall|b: ShortChannelIdDir| #[trigger] bans@.contains(b) <==> banned_upto(self.tasks@, scid, i as int, b),
            decreases self.tasks@.len() - i,
        {
            let t = self.tasks[i];
            let ghost old_bans = bans@;
            proof {
                assert forall|b: ShortChannelIdDir| banned_upto(self.tasks@, scid, i + 1, b) <==> (banned_upto(self.tasks@, scid, i as int, b)
                    || (t.0.short_channel_id == scid && t.1.parallel_ban == Some(b))) by {
                    if banned_upto(self.tasks@, scid, i + 1, b) && !banned_upto(self.tasks@, scid, i as int, b) {
                        let j = choose|j: int| 0 <= j < i + 1 && self.tasks@[j].0.short_channel_id == scid && #[trigger] self.tasks@[j].1.parallel_ban == Some(b);
                        assert(j == i);
                    }
                    if t.0.short_channel_id == scid && t.1.parallel_ban == Some(b) {
                        assert(self.tasks@[i as int].1.parallel_ban == Some(b));
                    }
                    if banned_upto(self.tasks@, scid, i as int, b) {
                        let j = choose|j: int| 0 <= j < i && self.tasks@[j].0.short_channel_id == scid && #[trigger] self.tasks@[j].1.parallel_ban == Some(b);
                        assert(self.tasks@[j].1.parallel_ban == Some(b));
                    }
                }
            }
            if t.0.short_channel_id == scid {
                found = true;
                if let Some(b) = t.1.parallel_ban {
                    if !crate::model::contains_scid_dir(bans.as_slice(), &b) {
                        bans.push(b);
                        proof {
                            assert forall|x: ShortChannelIdDir| #[trigger] bans@.contains(x) <==> (old_bans.contains(x) || x == b) by {
                                if bans@.contains(x) && x != b {
                                    let k = choose|k: int| 0 <= k < bans@.len() && bans@[k] == x;
                                    assert(old_bans[k] == x);
                                }
                                if x == b {
                                    assert(bans@[bans@.len() - 1] == b);
                                }
                                if old_bans.contains(x) {
                                    let k = choose|k: int| 0 <= k < old_bans.len() && old_bans[k] == x;
                                    assert(bans@[k] == x);
                                }
                            }
                        }
                    }
                }
            }
            proof {
                assert(found == exists|j: int| 0 <= j < i + 1 && #[trigger] self.tasks@[j].0.short_channel_id == scid) by {
                    if t.0.short_channel_id == scid {
                        assert(self.tasks@[i as int].0.short_channel_id == scid);
                    }
                }
            }
            i = i + 1;
        }
        if found {
            Ok(bans)
        } else {
            Err(())
        }
    }

    /// Removes every task.
    pub fn remove_all_tasks(&mut self)
        ensures
            final(self).wf(),
            final(self)@ == Seq::<(TaskIdentifier, Task)>::empty(),
    {
        self.tasks = Vec::new();
    }

    /// Removes the tasks of channel `scid`, keeping the others in their
    /// order.
    pub fn remove_task(&mut self, scid: u64)
        requires
            old(self).wf(),
        ensures
            final(self).wf(),
            final(self)@ == old(self)@.filter(not_of_scid(scid)),
    {
        let mut kept: Vec<(TaskIdentifier, Task)> = Vec::new();
        let mut i: usize = 0;
        let ghost old_tasks = self.tasks@;
        while i < self.tasks.len()
            invariant
                i <= self.tasks@.len(),
                self.tasks@ == old_tasks,
                idents_distinct(old_tasks),
                idents_distinct(kept@),
                forall|a: int| 0 <= a < kept@.len() ==> exists|j: int| 0 <= j < i && #[trigger] old_tasks[j] == #[trigger] kept@[a],
                kept@ == old_tasks.subrange(0, i as int).filter(not_of_scid(scid)),
            decreases self.tasks@.len() - i,
        {
            let ghost pre = old_tasks.subrange(0, i + 1);
            let ghost old_kept = kept@;
            proof {
                assert(pre.drop_last() =~= old_tasks.subrange(0, i as int));
                assert(pre.last() == old_tasks[i as int]);
            }
            if self.tasks[i].0.short_channel_id != scid {
                kept.push(self.tasks[i]);
                proof {
                    assert forall|a: int, b: int| 0 <= a < b < kept@.len() implies #[trigger] kept@[a].0 != #[trigger] kept@[b].0 by {
                        if b == kept@.len() - 1 {
                            let j = choose|j: int| 0 <= j < i && #[trigger] old_tasks[j] == old_kept[a];
                            assert(old_tasks[j].0 != old_tasks[i as int].0);
                        } else {
                            assert(old_kept[a].0 != old_kept[b].0);
                        }
                    }
                    assert forall|a: int| 0 <= a < kept@.len() implies exists|j: int| 0 <= j < i + 1 && #[trigger] old_tasks[j] == #[trigger] kept@[a] by {
                        if a == kept@.len() - 1 {
                            assert(old_tasks[i as int] == kept@[a]);
                        } else {
                            let j = choose|j: int| 0 <= j < i && #[trigger] old_tasks[j] == old_kept[a];
                            assert(old_tasks[j] == kept@[a]);
                        }
                    }
                }
            }
            proof {
                assert(pre.len() == i + 1);
                reveal(Seq::filter);
                let f = not_of_scid(scid);
                assert(pre.filter(f) == (if f(pre.last()) { pre.drop_last().filter(f).push(pre.last()) } else { pre.drop_last().filter(f) }));
                assert(kept@ =~= pre.filter(f));
            }
            i = i + 1;
        }
        proof {
            assert(old_tasks.subrange(0, old_tasks.len() as int) =~= old_tasks);
        }
        self.tasks = kept;
    }
}

/// A task told to stop, reporting that it stops.
pub open spec fn stopping(t: Task) -> Task {
    Task { latest_state: JobMessage::Stopping, should_stop: true, ..t }
}

/// The tasks with those of channel `scid` (all, for `None`) told to stop.
pub open spec fn stop_matching(s: Seq<(TaskIdentifier, Task)>, scid: Option<u64>) -> Seq<(TaskIdentifier, Task)> {
    s.map_values(|e: (TaskIdentifier, Task)| if scid is None || e.0.short_channel_id == scid->0 { (e.0, stopping(e.1)) } else { e })
}

/// How many tasks belong to channel `scid` (all, for `None`).
pub open spec fn count_matching(s: Seq<(TaskIdentifier, Task)>, scid: Option<u64>) -> nat
    decreases s.len(),
{
    if s.len() == 0 {
        0
    } else {
        count_matching(s.drop_last(), scid)
            + if scid is None || s.last().0.short_channel_id == scid->0 { 1nat } else { 0nat }
    }
}

impl Tasks {
    /// Tells the tasks of channel `scid` (every task, for `None`) to stop,
    /// and gives how many were told.
    pub fn stop_tasks(&mut self, scid: Option<u64>) -> (r: usize)
        requires
            old(self).wf(),
        ensures
            final(self).wf(),
            final(self)@ == stop_matching(old(self)@, scid),
            r == count_matching(old(self)@, scid),
    {
        let ghost old_tasks = self.tasks@;
        let mut count: usize = 0;
        let mut i: usize = 0;
        while i < self.tasks.len()
            invariant
                i <= self.tasks@.len(),
                self.tasks@.len() == old_tasks.len(),
                idents_distinct(old_tasks),
                count == count_matching(old_tasks.subrange(0, i as int), scid),
                count <= i,
                forall|j: int| 0 <= j < i ==> #[trigger] self.tasks@[j] == stop_matching(old_tasks, scid)[j],
                forall|j: int| i <= j < self.tasks@.len() ==> #[trigger] self.tasks@[j] == old_tasks[j],
            decreases self.tasks@.len() - i,
        {
            proof {
                assert(old_tasks.subrange(0, i + 1).drop_last() =~= old_tasks.subrange(0, i as int));
            }
            let (k, mut t) = self.tasks[i];
            let hit = match scid {
                None => true,
                Some(c) => k.short_channel_id == c,
            };
            if hit {
                t.set_state(JobMessage::Stopping);
                t.stop();
                self.tasks.set(i, (k, t));
                count = count + 1;
            }
            i = i + 1;
        }
        proof {
            assert(old_tasks.subrange(0, old_tasks.len() as int) =~= old_tasks);
            assert(self.tasks@ =~= stop_matching(old_tasks, scid));
            assert forall|a: int, b: int| 0 <= a < b < self.tasks@.len() implies #[trigger] self.tasks@[a].0 != #[trigger] self.tasks@[b].0 by {
                assert(old_tasks[a].0 != old_tasks[b].0);
            }
        }
        count
    }

    /// Readies task `id` to be started: a missing one is added (started, of
    /// the given kind), a stopped one restarted; a running one is left
    /// alone. Whether the task is to be started is returned.
    pub fn prepare_start(&mut self, id: &TaskIdentifier, once: bool, other_pubkey: PubKeyBytes) -> (r: bool)
        requires
            old(self).wf(),
        ensures
            final(self).wf(),
            task_index(old(self)@, *id) is None ==> r && final(self)@ == old(self)@.push((*id, Task {
                task_ident: *id,
                latest_state: JobMessage::Starting,
                active: true,
                should_stop: false,
                once,
                parallel_ban: None,
                other_pubkey,
            })),
            task_index(old(self)@, *id) matches Some(i) ==> (if old(self)@[i].1.active {
                !r && final(self)@ == old(self)@
            } else {
                r && final(self)@ == update_task(old(self)@, *id, |t: Task| spec_set_active(Task { latest_state: JobMessage::Starting, ..t }, true))
            }),
    {
        match self.find(id) {
            None => {
                let task = Task::new(id.short_channel_id, id.task_id, JobMessage::Starting, once, other_pubkey);
                let r = self.insert_task(id.short_channel_id, id.task_id, task);
                proof {
                    assert(TaskIdentifier { short_channel_id: id.short_channel_id, task_id: id.task_id } == *id);
                }
                true
            },
            Some(i) => {
                proof {
                    assert(exists|k: int| 0 <= k < self@.len() && #[trigger] self@[k].0 == *id) by {
                        assert(self@[i as int].0 == *id);
                    }
                    let k = task_index(self@, *id)->Some_0;
                    if k != i {
                        if k < i {
                            assert(self.tasks@[k].0 != self.tasks@[i as int].0);
                        } else {
                            assert(self.tasks@[i as int].0 != self.tasks@[k].0);
                        }
                    }
                }
                if self.tasks[i].1.active {
                    return false;
                }
                let (k, mut t) = self.tasks[i];
                t.set_state(JobMessage::Starting);
                t.set_active(true);
                self.tasks.set(i, (k, t));
                proof {
                    self.lemma_updated_at(old(self).tasks@, i as int, *id, |t: Task| spec_set_active(Task { latest_state: JobMessage::Starting, ..t }, true));
                }
                true
            },
        }
    }

    /// Whether a one-off job runs on channel `scid`: some task of it is a
    /// one-off and some task of it runs.
    pub fn once_job_running(&self, scid: u64) -> (r: bool)
        ensures
            r == ((exists|i: int| 0 <= i < self@.len() && (#[trigger] self@[i]).0.short_channel_id == scid && self@[i].1.once)
                && (exists|i: int| 0 <= i < self@.len() && (#[trigger] self@[i]).0.short_channel_id == scid && self@[i].1.active)),
    {
        let mut any_once = false;
        let mut i: usize = 0;
        while i < self.tasks.len()
            invariant
                i <= self.tasks@.len(),
                any_once == exists|j: int| 0 <= j < i && (#[trigger] self.tasks@[j]).0.short_channel_id == scid && self.tasks@[j].1.once,
            decreases self.tasks@.len() - i,
        {
            if self.tasks[i].0.short_channel_id == scid && self.tasks[i].1.once {
                any_once = true;
            }
            proof {
                assert(any_once == exists|j: int| 0 <= j < i + 1 && (#[trigger] self.tasks@[j]).0.short_channel_id == scid && self.tasks@[j].1.once) by {
                    if any_once && !(exists|j: int| 0 <= j < i && (#[trigger] self.tasks@[j]).0.short_channel_id == scid && self.tasks@[j].1.once) {
                        assert(self.tasks@[i as int].0.short_channel_id == scid && self.tasks@[i as int].1.once);
                    }
                }
            }
            i = i + 1;
        }
        any_once && self.is_any_active(scid)
    }
}

/// Where identifiers are distinct, the task at `k` is the one its
/// identifier finds.
pub proof fn lemma_task_index_at(tasks: &Tasks, k: int)
    requires
        tasks.wf(),
        0 <= k < tasks@.len(),
    ensures
        task_index(tasks@, tasks@[k].0) == Some(k),
{
    let id = tasks@[k].0;
    assert(exists|i: int| 0 <= i < tasks@.len() && #[trigger] tasks@[i].0 == id) by {
        assert(tasks@[k].0 == id);
    }
    let j = task_index(tasks@, id)->Some_0;
    if j != k {
        if j < k {
            assert(tasks.tasks@[j].0 != tasks.tasks@[k].0);
        } else {
            assert(tasks.tasks@[k].0 != tasks.tasks@[j].0);
        }
    }
}

} // verus!
