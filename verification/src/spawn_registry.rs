//! The registry of `spawn`ed background tasks: which tasks a handle can
//! still join, their memoized results, and the channels that die with
//! them. The registry decides; the caller owns the threads, the clock and
//! the lock around the registry.

use vstd::prelude::*;
use crate::ast::Value;
use crate::value::{copy_string, copy_value, same_value, lemma_same_value_refl};

verus! {

/// What the registry needs of a task's thread handle.
pub trait TaskHandle {
    /// Whether the task's thread has run to its end.
    fn is_finished(&self) -> bool;
}

/// Where a task is in its life.
pub enum TaskSlot<H> {
    /// Its thread runs (or has ended and not been joined yet).
    Running(H),
    /// Another caller is joining it right now.
    Joining,
    /// Joined; the memoized result.
    Done(Result<Value, String>),
}

/// One task's entry: its slot, when it was spawned (milliseconds on the
/// caller's clock), the channels declared to die with it, and whether its
/// thread has signed off.
pub struct TaskEntry<H> {
    pub slot: TaskSlot<H>,
    pub started: u64,
    pub watched: Vec<Value>,
    pub finished: bool,
}

/// What a step of a blocking join found.
pub enum JoinPoll<H> {
    /// No task has this id.
    Unknown,
    /// The task was joined before: its memoized result.
    Ready(Result<Value, String>),
    /// The task still runs, or another caller is joining it: look again.
    Wait,
    /// The task's thread has ended and is now this caller's to join; the
    /// entry is marked as being joined. Carries the spawn time.
    Take(H, u64),
}

/// What a look at a task for a timed join found.
pub enum JoinCheck {
    /// No task has this id.
    Unknown,
    /// The task was joined before: its memoized result.
    Done(Result<Value, String>),
    /// The task is unjoined; whether its thread has ended.
    Pending(bool),
}

/// Whether `b` is an exact copy of the task result `a`.
pub open spec fn same_outcome(a: Result<Value, String>, b: Result<Value, String>) -> bool {
    match (a, b) {
        (Ok(x), Ok(y)) => same_value(x, y),
        (Err(x), Err(y)) => x@ == y@,
        _ => false,
    }
}

/// An exact copy of a task result.
pub fn copy_outcome(r: &Result<Value, String>) -> (c: Result<Value, String>)
    ensures
        same_outcome(*r, c),
{
    match r {
        Ok(v) => Ok(copy_value(v)),
        Err(e) => Err(copy_string(e)),
    }
}

/// The position of the entry for `id`.
pub open spec fn find_task<H>(entries: Seq<(u64, TaskEntry<H>)>, id: u64) -> Option<int>
    decreases entries.len(),
{
    if entries.len() == 0 {
        None
    } else if entries[0].0 == id {
        Some(0)
    } else {
        match find_task(entries.drop_first(), id) {
            Some(i) => Some(i + 1),
            None => None,
        }
    }
}

/// `find_task` finds the first entry with the id.
pub proof fn lemma_find_task<H>(entries: Seq<(u64, TaskEntry<H>)>, id: u64)
    ensures
        match find_task(entries, id) {
            Some(i) => 0 <= i < entries.len() && entries[i].0 == id && forall|j: int|
                0 <= j < i ==> (#[trigger] entries[j]).0 != id,
            None => forall|j: int| 0 <= j < entries.len() ==> (#[trigger] entries[j]).0 != id,
        },
    decreases entries.len(),
{
    if entries.len() > 0 && entries[0].0 != id {
        lemma_find_task(entries.drop_first(), id);
        assert forall|j: int| 1 <= j < entries.len() implies entries[j] == entries.drop_first()[j - 1] by {}
    }
}

/// With ids strictly increasing, the entry holding an id is the one found.
pub proof fn lemma_find_unique<H>(entries: Seq<(u64, TaskEntry<H>)>, id: u64, i: int)
    requires
        forall|a: int, b: int| 0 <= a < b < entries.len() ==> entries[a].0 < entries[b].0,
        0 <= i < entries.len(),
        entries[i].0 == id,
    ensures
        find_task(entries, id) == Some(i),
{
    lemma_find_task(entries, id);
}

/// The task registry: entries in increasing id order, and the next id to
/// hand out.
pub struct TaskRegistry<H> {
    entries: Vec<(u64, TaskEntry<H>)>,
    next: u64,
}

impl<H: TaskHandle> TaskRegistry<H> {
    /// The entries, in increasing id order.
    pub closed spec fn entries(&self) -> Seq<(u64, TaskEntry<H>)> {
        self.entries@
    }

    /// The next id to hand out.
    pub closed spec fn next_spec(&self) -> u64 {
        self.next
    }

    /// Ids strictly increase along the entries.
    pub open spec fn wf(&self) -> bool {
        forall|i: int, j: int| 0 <= i < j < self.entries().len() ==> self.entries()[i].0 < self.entries()[j].0
    }

    /// The ids of the tasks, in increasing order.
    pub open spec fn ids(&self) -> Seq<u64> {
        self.entries().map_values(|e: (u64, TaskEntry<H>)| e.0)
    }

    /// The entry of task `id`.
    pub open spec fn task(&self, id: u64) -> Option<TaskEntry<H>> {
        match find_task(self.entries(), id) {
            Some(i) => Some(self.entries()[i].1),
            None => None,
        }
    }

    /// An empty registry; ids start at 1.
    pub fn new() -> (r: Self)
        ensures
            r.wf(),
            r.entries().len() == 0,
            r.next_spec() == 1,
    {
        TaskRegistry { entries: Vec::new(), next: 1 }
    }

    /// Hands out a fresh id (ids wrap around after the largest `u64`).
    pub fn next_id(&mut self) -> (id: u64)
        ensures
            id == old(self).next_spec(),
            final(self).next_spec() == if old(self).next_spec() == u64::MAX {
                0
            } else {
                (old(self).next_spec() + 1) as u64
            },
            final(self).entries() == old(self).entries(),
    {
        let id = self.next;
        self.next = self.next.wrapping_add(1);
        id
    }

    /// The position of the entry for `id`, if there is one.
    fn position(&self, id: u64) -> (r: Option<usize>)
        ensures
            match r {
                Some(i) => find_task(self.entries(), id) == Some(i as int) && i < self.entries().len()
                    && self.entries()[i as int].0 == id,
                None => find_task(self.entries(), id) is None,
            },
    {
        proof {
            lemma_find_task(self.entries(), id);
        }
        let mut i: usize = 0;
        while i < self.entries.len()
            invariant
                i <= self.entries@.len(),
                forall|j: int| 0 <= j < i ==> (#[trigger] self.entries@[j]).0 != id,
                match find_task(self.entries@, id) {
                    Some(k) => 0 <= k < self.entries@.len() && self.entries@[k].0 == id && forall|j: int|
                        0 <= j < k ==> (#[trigger] self.entries@[j]).0 != id,
                    None => forall|j: int| 0 <= j < self.entries@.len() ==> (#[trigger] self.entries@[j]).0 != id,
                },
            decreases self.entries@.len() - i,
        {
            if self.entries[i].0 == id {
                return Some(i);
            }
            i = i + 1;
        }
        None
    }

    /// Sets the entry of task `id`, replacing any it had.
    fn put(&mut self, id: u64, entry: TaskEntry<H>)
        requires
            old(self).wf(),
        ensures
            final(self).wf(),
            final(self).next_spec() == old(self).next_spec(),
            final(self).task(id) == Some(entry),
            forall|k: u64| k != id ==> #[trigger] final(self).task(k) == old(self).task(k),
    {
        let ghost old_entries = self.entries@;
        proof {
            lemma_find_task(old_entries, id);
        }
        let mut i: usize = 0;
        while i < self.entries.len() && self.entries[i].0 < id
            invariant
                i <= self.entries@.len(),
                self.entries@ == old_entries,
                forall|j: int| 0 <= j < i ==> (#[trigger] self.entries@[j]).0 < id,
            decreases self.entries@.len() - i,
        {
            i = i + 1;
        }
        if i < self.entries.len() && self.entries[i].0 == id {
            self.entries.set(i, (id, entry));
            proof {
                let n = self.entries@;
                assert forall|a: int, b: int| 0 <= a < b < n.len() implies n[a].0 < n[b].0 by {
                    assert(n[a].0 == old_entries[a].0 && n[b].0 == old_entries[b].0);
                }
                lemma_find_unique(n, id, i as int);
                assert forall|k: u64| k != id implies #[trigger] self.task(k) == old(self).task(k) by {
                    lemma_find_task(old_entries, k);
                    match find_task(old_entries, k) {
                        Some(a) => {
                            assert(n[a] == old_entries[a]);
                            lemma_find_unique(n, k, a);
                        },
                        None => {
                            lemma_find_task(n, k);
                            if let Some(c) = find_task(n, k) {
                                assert(n[c] == old_entries[c]);
                            }
                        },
                    }
                }
            }
        } else {
            self.entries.insert(i, (id, entry));
            proof {
                let n = self.entries@;
                assert forall|a: int, b: int| 0 <= a < b < n.len() implies n[a].0 < n[b].0 by {
                    if b < i {
                        assert(n[a] == old_entries[a] && n[b] == old_entries[b]);
                    } else if b == i {
                        assert(n[a] == old_entries[a]);
                    } else if a < i {
                        assert(n[a] == old_entries[a] && n[b] == old_entries[b - 1]);
                        if b - 1 > i {
                            assert(old_entries[i as int].0 < old_entries[b - 1].0);
                        }
                    } else if a == i {
                        assert(n[b] == old_entries[b - 1]);
                        assert(old_entries[i as int].0 != id);
                        if b - 1 > i {
                            assert(old_entries[i as int].0 < old_entries[b - 1].0);
                        }
                    } else {
                        assert(n[a] == old_entries[a - 1] && n[b] == old_entries[b - 1]);
                    }
                }
                assert(n[i as int].0 == id);
                lemma_find_unique(n, id, i as int);
                assert forall|k: u64| k != id implies #[trigger] self.task(k) == old(self).task(k) by {
                    lemma_find_task(old_entries, k);
                    match find_task(old_entries, k) {
                        Some(a) => {
                            if a < i {
                                assert(n[a] == old_entries[a]);
                                lemma_find_unique(n, k, a);
                            } else {
                                assert(n[a + 1] == old_entries[a]);
                                lemma_find_unique(n, k, a + 1);
                            }
                        },
                        None => {
                            lemma_find_task(n, k);
                            if let Some(c) = find_task(n, k) {
                                if c < i {
                                    assert(n[c] == old_entries[c]);
                                } else if c > i {
                                    assert(n[c] == old_entries[c - 1]);
                                }
                            }
                        },
                    }
                }
            }
        }
    }
}


/// With the same id at each position, an id is found at the same place.
pub proof fn lemma_find_same_ids<H>(a: Seq<(u64, TaskEntry<H>)>, b: Seq<(u64, TaskEntry<H>)>, id: u64)
    requires
        a.len() == b.len(),
        forall|j: int| 0 <= j < a.len() ==> (#[trigger] a[j]).0 == b[j].0,
    ensures
        find_task(a, id) == find_task(b, id),
    decreases a.len(),
{
    if a.len() > 0 {
        assert(a[0].0 == b[0].0);
        assert forall|j: int| 0 <= j < a.len() - 1 implies (#[trigger] a.drop_first()[j]).0 == b.drop_first()[j].0 by {
            assert(a.drop_first()[j] == a[j + 1]);
            assert(b.drop_first()[j] == b[j + 1]);
        }
        lemma_find_same_ids(a.drop_first(), b.drop_first(), id);
    }
}

/// The elapsed time between a spawn and `now` (none if the clock reads
/// earlier).
pub open spec fn elapsed(now: u64, started: u64) -> u64 {
    if now >= started {
        (now - started) as u64
    } else {
        0
    }
}

/// Whether `s` names the state of a task in `slot`. A running slot whose
/// thread has already ended reads "done".
pub open spec fn state_named<H>(slot: TaskSlot<H>, s: Seq<char>) -> bool {
    match slot {
        TaskSlot::Running(_) => s == "running"@ || s == "done"@,
        TaskSlot::Joining => s == "joining"@,
        TaskSlot::Done(_) => s == "done"@,
    }
}

impl<H: TaskHandle> TaskRegistry<H> {
    /// Records a freshly spawned task: running, spawned at `started`,
    /// watching nothing. A previous entry with the same id is replaced.
    pub fn register(&mut self, id: u64, handle: H, started: u64)
        requires
            old(self).wf(),
        ensures
            final(self).wf(),
            final(self).next_spec() == old(self).next_spec(),
            final(self).task(id) matches Some(e) && e.slot == TaskSlot::Running(handle) && e.started == started
                && e.watched@.len() == 0 && !e.finished,
            forall|k: u64| k != id ==> #[trigger] final(self).task(k) == old(self).task(k),
    {
        let entry = TaskEntry { slot: TaskSlot::Running(handle), started, watched: Vec::new(), finished: false };
        self.put(id, entry);
    }

    /// Swaps the entry at position `i` for `e`.
    fn swap_entry(&mut self, i: usize, e: &mut TaskEntry<H>)
        requires
            i < old(self).entries().len(),
        ensures
            final(self).entries() == old(self).entries().update(i as int, (old(self).entries()[i as int].0, *old(e))),
            *final(e) == old(self).entries()[i as int].1,
            final(self).next_spec() == old(self).next_spec(),
    {
        let id = self.entries[i].0;
        let mut pair = (id, TaskEntry { slot: TaskSlot::Joining, started: 0, watched: Vec::new(), finished: false });
        std::mem::swap(&mut pair.1, e);
        self.entries.set_and_swap(i, &mut pair);
        let (_, taken) = pair;
        *e = taken;
        proof {
            assert(self.entries@ =~= old(self).entries@.update(i as int, (old(self).entries@[i as int].0, *old(e))));
        }
    }

    /// Updating the entry at a position keeps the ids, so the registry stays
    /// well formed and every other task keeps its entry.
    proof fn lemma_update_keeps(old_entries: Seq<(u64, TaskEntry<H>)>, new_entries: Seq<(u64, TaskEntry<H>)>, i: int, id: u64)
        requires
            forall|a: int, b: int| 0 <= a < b < old_entries.len() ==> old_entries[a].0 < old_entries[b].0,
            0 <= i < old_entries.len(),
            old_entries[i].0 == id,
            new_entries.len() == old_entries.len(),
            new_entries[i].0 == id,
            forall|j: int| 0 <= j < old_entries.len() && j != i ==> #[trigger] new_entries[j] == old_entries[j],
        ensures
            forall|a: int, b: int| 0 <= a < b < new_entries.len() ==> new_entries[a].0 < new_entries[b].0,
            find_task(new_entries, id) == Some(i),
            forall|k: u64| k != id ==> #[trigger] find_task(new_entries, k) == find_task(old_entries, k) && (
            find_task(old_entries, k) matches Some(c) ==> new_entries[c] == old_entries[c]),
    {
        assert forall|j: int| 0 <= j < old_entries.len() implies (#[trigger] new_entries[j]).0 == old_entries[j].0 by {
            if j != i {
                assert(new_entries[j] == old_entries[j]);
            }
        }
        assert forall|a: int, b: int| 0 <= a < b < new_entries.len() implies new_entries[a].0 < new_entries[b].0 by {
            assert(new_entries[a].0 == old_entries[a].0);
            assert(new_entries[b].0 == old_entries[b].0);
        }
        lemma_find_unique(new_entries, id, i);
        assert forall|k: u64| k != id implies #[trigger] find_task(new_entries, k) == find_task(old_entries, k) && (
        find_task(old_entries, k) matches Some(c) ==> new_entries[c] == old_entries[c]) by {
            lemma_find_same_ids(new_entries, old_entries, k);
            lemma_find_task(old_entries, k);
        }
    }

    /// Declares that `channel` dies with task `id`: true when the task is
    /// known and has not signed off (it now holds the channel); false,
    /// changing nothing, otherwise (the caller then closes the channel).
    pub fn watch(&mut self, id: u64, channel: Value) -> (r: bool)
        requires
            old(self).wf(),
        ensures
            final(self).wf(),
            r == (old(self).task(id) matches Some(e) && !e.finished),
            r ==> (final(self).task(id) matches Some(f) && f.slot == old(self).task(id)->0.slot && f.started
                == old(self).task(id)->0.started && f.watched@ == old(self).task(id)->0.watched@.push(channel)
                && !f.finished),
            !r ==> final(self).entries() == old(self).entries(),
            forall|k: u64| k != id ==> #[trigger] final(self).task(k) == old(self).task(k),
            final(self).next_spec() == old(self).next_spec(),
    {
        match self.position(id) {
            None => false,
            Some(i) => {
                if self.entries[i].1.finished {
                    return false;
                }
                let ghost old_entries = self.entries@;
                let mut e = TaskEntry { slot: TaskSlot::Joining, started: 0, watched: Vec::new(), finished: false };
                self.swap_entry(i, &mut e);
                e.watched.push(channel);
                self.swap_entry(i, &mut e);
                proof {
                    Self::lemma_update_keeps(old_entries, self.entries@, i as int, id);
                }
                true
            },
        }
    }

    /// The task's own thread signing off: marks it finished and hands back
    /// the channels it was watching (none for an unknown id, which changes
    /// nothing).
    pub fn finish(&mut self, id: u64) -> (r: Vec<Value>)
        requires
            old(self).wf(),
        ensures
            final(self).wf(),
            match old(self).task(id) {
                Some(e) => r@ == e.watched@ && (final(self).task(id) matches Some(f) && f.slot == e.slot
                    && f.started == e.started && f.watched@.len() == 0 && f.finished),
                None => r@.len() == 0 && final(self).entries() == old(self).entries(),
            },
            forall|k: u64| k != id ==> #[trigger] final(self).task(k) == old(self).task(k),
            final(self).next_spec() == old(self).next_spec(),
    {
        match self.position(id) {
            None => Vec::new(),
            Some(i) => {
                let ghost old_entries = self.entries@;
                let mut e = TaskEntry { slot: TaskSlot::Joining, started: 0, watched: Vec::new(), finished: false };
                self.swap_entry(i, &mut e);
                let TaskEntry { slot, started, watched, finished: _ } = e;
                let mut back = TaskEntry { slot, started, watched: Vec::new(), finished: true };
                self.swap_entry(i, &mut back);
                proof {
                    Self::lemma_update_keeps(old_entries, self.entries@, i as int, id);
                }
                watched
            },
        }
    }

    /// Drops the entry of task `id` (its memoized result, or its handle,
    /// which detaches the thread).
    pub fn forget(&mut self, id: u64)
        requires
            old(self).wf(),
        ensures
            final(self).wf(),
            final(self).task(id) is None,
            forall|k: u64| k != id ==> #[trigger] final(self).task(k) == old(self).task(k),
            final(self).next_spec() == old(self).next_spec(),
    {
        match self.position(id) {
            None => {},
            Some(i) => {
                let ghost old_entries = self.entries@;
                self.entries.remove(i);
                proof {
                    let n = self.entries@;
                    assert forall|a: int, b: int| 0 <= a < b < n.len() implies n[a].0 < n[b].0 by {
                        if b < i {
                            assert(n[a] == old_entries[a] && n[b] == old_entries[b]);
                        } else if a < i {
                            assert(n[a] == old_entries[a] && n[b] == old_entries[b + 1]);
                        } else {
                            assert(n[a] == old_entries[a + 1] && n[b] == old_entries[b + 1]);
                        }
                    }
                    lemma_find_task(n, id);
                    lemma_find_task(old_entries, id);
                    if let Some(c) = find_task(n, id) {
                        if c < i {
                            assert(n[c] == old_entries[c]);
                        } else {
                            assert(n[c] == old_entries[c + 1]);
                        }
                    }
                    assert forall|k: u64| k != id implies #[trigger] self.task(k) == old(self).task(k) by {
                        lemma_find_task(old_entries, k);
                        match find_task(old_entries, k) {
                            Some(a) => {
                                if a < i {
                                    assert(n[a] == old_entries[a]);
                                    lemma_find_unique(n, k, a);
                                } else {
                                    assert(n[a - 1] == old_entries[a]);
                                    lemma_find_unique(n, k, a - 1);
                                }
                            },
                            None => {
                                lemma_find_task(n, k);
                                if let Some(c) = find_task(n, k) {
                                    if c < i {
                                        assert(n[c] == old_entries[c]);
                                    } else {
                                        assert(n[c] == old_entries[c + 1]);
                                    }
                                }
                            },
                        }
                    }
                }
            },
        }
    }

    /// A snapshot of every task: its id, its state ("running", "joining"
    /// or "done"; a running task whose thread has ended reads "done"), and
    /// the milliseconds since it was spawned, in increasing id order.
    pub fn list(&self, now: u64) -> (r: Vec<(u64, &'static str, u64)>)
        requires
            self.wf(),
        ensures
            r@.len() == self.entries().len(),
            forall|i: int|
                0 <= i < r@.len() ==> (#[trigger] r@[i]).0 == self.entries()[i].0 && state_named(
                    self.entries()[i].1.slot,
                    r@[i].1@,
                ) && r@[i].2 == elapsed(now, self.entries()[i].1.started),
            forall|i: int, j: int| 0 <= i < j < r@.len() ==> r@[i].0 < r@[j].0,
    {
        let mut out: Vec<(u64, &'static str, u64)> = Vec::new();
        let mut i: usize = 0;
        while i < self.entries.len()
            invariant
                i <= self.entries@.len(),
                out@.len() == i,
                forall|j: int|
                    0 <= j < i ==> (#[trigger] out@[j]).0 == self.entries@[j].0 && state_named(
                        self.entries@[j].1.slot,
                        out@[j].1@,
                    ) && out@[j].2 == elapsed(now, self.entries@[j].1.started),
            decreases self.entries@.len() - i,
        {
            let e = &self.entries[i].1;
            let state: &'static str = match &e.slot {
                TaskSlot::Running(h) => if h.is_finished() {
                    "done"
                } else {
                    "running"
                },
                TaskSlot::Joining => "joining",
                TaskSlot::Done(_) => "done",
            };
            let ms: u64 = if now >= e.started {
                now - e.started
            } else {
                0
            };
            out.push((self.entries[i].0, state, ms));
            i = i + 1;
        }
        out
    }

    /// One step of a blocking join of task `id`: its memoized result, or
    /// its handle once the thread has ended (the entry is then marked as
    /// being joined), or word to look again.
    pub fn poll_join(&mut self, id: u64) -> (r: JoinPoll<H>)
        requires
            old(self).wf(),
        ensures
            final(self).wf(),
            final(self).next_spec() == old(self).next_spec(),
            forall|k: u64| k != id ==> #[trigger] final(self).task(k) == old(self).task(k),
            match old(self).task(id) {
                None => r is Unknown && final(self).entries() == old(self).entries(),
                Some(e) => match e.slot {
                    TaskSlot::Done(res) => (r matches JoinPoll::Ready(c) && same_outcome(res, c))
                        && final(self).entries() == old(self).entries(),
                    TaskSlot::Joining => r is Wait && final(self).entries() == old(self).entries(),
                    TaskSlot::Running(h) => (r is Wait && final(self).entries() == old(self).entries()) || (
                    r matches JoinPoll::Take(g, s) && g == h && s == e.started && (final(self).task(id) matches Some(
                        f,
                    ) && f.slot is Joining && f.started == e.started && f.watched@.len() == 0 && f.finished)),
                },
            },
    {
        match self.position(id) {
            None => JoinPoll::Unknown,
            Some(i) => {
                let ready = match &self.entries[i].1.slot {
                    TaskSlot::Done(res) => {
                        return JoinPoll::Ready(copy_outcome(res));
                    },
                    TaskSlot::Joining => false,
                    TaskSlot::Running(h) => h.is_finished(),
                };
                if !ready {
                    return JoinPoll::Wait;
                }
                let ghost old_entries = self.entries@;
                let mut e = TaskEntry { slot: TaskSlot::Joining, started: 0, watched: Vec::new(), finished: true };
                self.swap_entry(i, &mut e);
                let started = e.started;
                let mut back = TaskEntry { slot: TaskSlot::Joining, started, watched: Vec::new(), finished: true };
                self.swap_entry(i, &mut back);
                proof {
                    Self::lemma_update_keeps(old_entries, self.entries@, i as int, id);
                }
                match e.slot {
                    TaskSlot::Running(h) => JoinPoll::Take(h, started),
                    _ => {
                        proof {
                            assert(false);
                        }
                        JoinPoll::Wait
                    },
                }
            },
        }
    }

    /// Memoizes the result of joining task `id` (spawned at `started`) and
    /// hands it back.
    pub fn complete_join(&mut self, id: u64, started: u64, result: Result<Value, String>) -> (r: Result<
        Value,
        String,
    >)
        requires
            old(self).wf(),
        ensures
            final(self).wf(),
            final(self).next_spec() == old(self).next_spec(),
            r == result,
            final(self).task(id) matches Some(f) && (f.slot matches TaskSlot::Done(c) && same_outcome(result, c))
                && f.started == started && f.watched@.len() == 0 && f.finished,
            forall|k: u64| k != id ==> #[trigger] final(self).task(k) == old(self).task(k),
    {
        let memo = copy_outcome(&result);
        self.put(id, TaskEntry { slot: TaskSlot::Done(memo), started, watched: Vec::new(), finished: true });
        result
    }

    /// A look at task `id` for a timed join: its memoized result, or
    /// whether its thread has ended (a task being joined by another caller
    /// reads as not ended).
    pub fn check_join(&self, id: u64) -> (r: JoinCheck)
        requires
            self.wf(),
        ensures
            match self.task(id) {
                None => r is Unknown,
                Some(e) => match e.slot {
                    TaskSlot::Done(res) => r matches JoinCheck::Done(c) && same_outcome(res, c),
                    TaskSlot::Joining => r == JoinCheck::Pending(false),
                    TaskSlot::Running(_) => r is Pending,
                },
            },
    {
        match self.position(id) {
            None => JoinCheck::Unknown,
            Some(i) => match &self.entries[i].1.slot {
                TaskSlot::Done(res) => JoinCheck::Done(copy_outcome(res)),
                TaskSlot::Joining => JoinCheck::Pending(false),
                TaskSlot::Running(h) => JoinCheck::Pending(h.is_finished()),
            },
        }
    }
}

/// What a task handle holds: the id of the task it can join. All clones of
/// a handle share one guard; when the last goes, the task's entry is
/// forgotten.
#[derive(Debug, PartialEq, Eq, Structural)]
pub struct SpawnGuard {
    id: u64,
}

impl SpawnGuard {
    /// The id a guard holds.
    pub closed spec fn task_id(&self) -> u64 {
        self.id
    }

    /// A guard for task `id`.
    pub fn new(id: u64) -> (g: Self)
        ensures
            g.task_id() == id,
    {
        SpawnGuard { id }
    }

    /// The id of the guarded task.
    pub fn id(&self) -> (id: u64)
        ensures
            id == self.task_id(),
    {
        self.id
    }
}

/// Two guards are equal exactly when they watch the same task.
pub proof fn law_guards_equal_iff_same_task(a: SpawnGuard, b: SpawnGuard)
    ensures
        (a == b) <==> a.task_id() == b.task_id(),
{
}

} // verus!
