//! The in-memory task collection, loaded once from the backing file's text,
//! with a flag that says whether it must be written back.
use vstd::prelude::*;
use crate::store::{all_records, lines_of, parse_store, render, store_text};
use crate::task::{record_of, Instant, Task, TaskError};
use crate::util::{get_random_id, is_generated_id};

verus! {

/// How many random ids `create` draws before giving up.
pub const MAX_ID_ATTEMPTS: u32 = 10000;

/// Whether some record has the id `id`.
pub open spec fn has_id(tasks: Seq<Task>, id: Seq<char>) -> bool {
    exists|j: int| 0 <= j < tasks.len() && #[trigger] tasks[j].id@ == id
}

/// Whether `i` is the position of the first record with the id `id`.
pub open spec fn is_first(tasks: Seq<Task>, id: Seq<char>, i: int) -> bool {
    &&& 0 <= i < tasks.len()
    &&& tasks[i].id@ == id
    &&& forall|j: int| 0 <= j < i ==> #[trigger] tasks[j].id@ != id
}

/// Whether no two records share an id.
pub open spec fn ids_unique(tasks: Seq<Task>) -> bool {
    forall|i: int, j: int|
        0 <= i < tasks.len() && 0 <= j < tasks.len() && i != j ==> #[trigger] tasks[i].id@
            != #[trigger] tasks[j].id@
}

/// The record with its done flag set.
pub open spec fn finished(t: Task) -> Task {
    Task { id: t.id, done: true, name: t.name, date: t.date }
}

/// The records not yet done, in order.
pub open spec fn unfinished_of(tasks: Seq<Task>) -> Seq<Task>
    decreases tasks.len(),
{
    if tasks.len() == 0 {
        Seq::empty()
    } else if tasks.last().done {
        unfinished_of(tasks.drop_last())
    } else {
        unfinished_of(tasks.drop_last()).push(tasks.last())
    }
}

pub struct TaskManager {
    tasks: Vec<Task>,
    dirty: bool,
    /// The changes made since loading or since the last write-back.
    changes: Ghost<nat>,
}

impl TaskManager {
    /// Well-formed: there is something to write back exactly when a change
    /// was made.
    pub closed spec fn wf(&self) -> bool {
        self.dirty == (self.changes@ > 0)
    }

    /// How many changes (an append, a record marked done, a removal) were
    /// made since loading or since the last write-back.
    pub closed spec fn changes(&self) -> nat {
        self.changes@
    }

    /// The records, in order.
    pub closed spec fn records(&self) -> Seq<Task> {
        self.tasks@
    }

    /// Whether there are changes that have not been written back.
    pub closed spec fn pending(&self) -> bool {
        self.dirty
    }

    /// A manager over the records that `contents`, the backing file's text,
    /// holds, with nothing to write back.
    pub fn load(contents: &String) -> (r: Result<TaskManager, TaskError>)
        ensures
            match r {
                Ok(m) => all_records(contents@) && m.wf() && !m.pending() && m.changes() == 0 && m.records().len() == lines_of(
                    contents@,
                ).len() && forall|i: int|
                    0 <= i < m.records().len() ==> record_of(lines_of(contents@)[i]) == Some(
                        #[trigger] m.records()[i].stored(),
                    ) && m.records()[i].date.nanos == 0,
                Err(e) => !all_records(contents@) && e == TaskError::MalformedRecord,
            },
    {
        let tasks = parse_store(contents)?;
        Ok(TaskManager { tasks, dirty: false, changes: Ghost(0) })
    }

    /// Every record, in order.
    pub fn all(&self) -> (r: &Vec<Task>)
        ensures
            r@ == self.records(),
    {
        &self.tasks
    }

    /// The records not yet done, in order.
    pub fn unfinished(&self) -> (r: Vec<&Task>)
        ensures
            r@.map_values(|t: &Task| *t) == unfinished_of(self.records()),
    {
        let mut r: Vec<&Task> = Vec::new();
        let mut i: usize = 0;
        while i < self.tasks.len()
            invariant
                i <= self.tasks@.len(),
                r@.map_values(|t: &Task| *t) == unfinished_of(self.tasks@.subrange(0, i as int)),
            decreases self.tasks@.len() - i,
        {
            let t = &self.tasks[i];
            assert(self.tasks@.subrange(0, i + 1).drop_last() =~= self.tasks@.subrange(0, i as int));
            let ghost before = r@;
            if !t.done {
                r.push(t);
                assert(r@.map_values(|t: &Task| *t) =~= before.map_values(|t: &Task| *t).push(*t));
            }
            i = i + 1;
        }
        assert(self.tasks@.subrange(0, self.tasks@.len() as int) =~= self.tasks@);
        r
    }

    /// The position of the first record with the id `task_id`.
    pub fn get_index(&self, task_id: String) -> (r: Option<usize>)
        ensures
            match r {
                Some(i) => is_first(self.records(), task_id@, i as int),
                None => !has_id(self.records(), task_id@),
            },
    {
        let mut i: usize = 0;
        while i < self.tasks.len()
            invariant
                i <= self.tasks@.len(),
                forall|j: int| 0 <= j < i ==> #[trigger] self.tasks@[j].id@ != task_id@,
            decreases self.tasks@.len() - i,
        {
            if self.tasks[i].id == task_id {
                return Some(i);
            }
            i = i + 1;
        }
        None
    }

    /// Appends a record; there is then something to write back.
    pub fn add(&mut self, task: Task)
        requires
            old(self).wf(),
        ensures
            final(self).wf(),
            final(self).records() == old(self).records().push(task),
            final(self).pending(),
            final(self).changes() == old(self).changes() + 1,
    {
        self.tasks.push(task);
        self.dirty = true;
        self.changes = Ghost(self.changes@ + 1);
    }

    /// Sets the done flag of the first record with the id `task_id`; does
    /// nothing when there is none.
    pub fn done(&mut self, task_id: String)
        requires
            old(self).wf(),
        ensures
            final(self).wf(),
            !has_id(old(self).records(), task_id@) ==> final(self).records() == old(self).records()
                && final(self).pending() == old(self).pending() && final(self).changes() == old(
                self,
            ).changes(),
            has_id(old(self).records(), task_id@) ==> final(self).changes() == old(self).changes()
                + 1,
            forall|i: int|
                is_first(old(self).records(), task_id@, i) ==> final(self).records() == old(
                    self,
                ).records().update(i, finished(old(self).records()[i])) && final(self).pending(),
            final(self).records().len() == old(self).records().len(),
            forall|k: int|
                0 <= k < old(self).records().len() && #[trigger] old(self).records()[k].done
                    ==> final(self).records()[k].done,
    {
        match self.get_index(task_id) {
            Some(index) => {
                let ghost before = self.tasks@;
                let mut t = self.tasks.remove(index);
                t.done = true;
                self.tasks.insert(index, t);
                assert(self.tasks@ =~= before.update(index as int, finished(before[index as int])));
                self.dirty = true;
                self.changes = Ghost(self.changes@ + 1);
                proof {
                    assert forall|i: int| is_first(before, task_id@, i) implies i == index by {
                        if i < index {
                            assert(before[i].id@ != task_id@);
                        } else if i > index {
                            assert(before[index as int].id@ != task_id@);
                        }
                    }
                }
            },
            None => {},
        }
    }

    /// Removes the first record with the id `task_id`; does nothing when
    /// there is none.
    pub fn remove(&mut self, task_id: String)
        requires
            old(self).wf(),
        ensures
            final(self).wf(),
            !has_id(old(self).records(), task_id@) ==> final(self).records() == old(self).records()
                && final(self).pending() == old(self).pending() && final(self).changes() == old(
                self,
            ).changes(),
            has_id(old(self).records(), task_id@) ==> final(self).changes() == old(self).changes()
                + 1,
            forall|i: int|
                is_first(old(self).records(), task_id@, i) ==> final(self).records() == old(
                    self,
                ).records().remove(i) && final(self).pending(),
    {
        match self.get_index(task_id) {
            Some(index) => {
                let ghost before = self.tasks@;
                self.tasks.remove(index);
                self.dirty = true;
                self.changes = Ghost(self.changes@ + 1);
                proof {
                    assert forall|i: int| is_first(before, task_id@, i) implies i == index by {
                        if i < index {
                            assert(before[i].id@ != task_id@);
                        } else if i > index {
                            assert(before[index as int].id@ != task_id@);
                        }
                    }
                }
            },
            None => {},
        }
    }

    /// Creates a task named `name`, due at `date`, and appends it.
    /// `InvalidDate` when there is no date (it could not be read), and the
    /// errors of `create`; the records stay as they were on an error.
    pub fn add_new(&mut self, name: String, date: Option<Instant>) -> (r: Result<Task, TaskError>)
        requires
            old(self).wf(),
        ensures
            final(self).wf(),
            r == Err::<Task, TaskError>(TaskError::InvalidDate) <==> date.is_none(),
            match r {
                Ok(t) => final(self).records() == old(self).records().push(t)
                    && !has_id(old(self).records(), t.id@) && is_generated_id(t.id@)
                    && t.name == name && Some(t.date) == date && !t.done && final(self).pending(),
                Err(e) => (e == TaskError::InvalidDate || e == TaskError::ExhaustedIdSpace)
                    && final(self).records() == old(self).records()
                    && final(self).pending() == old(self).pending(),
            },
    {
        let date = match date {
            Some(d) => d,
            None => {
                return Err(TaskError::InvalidDate);
            },
        };
        let t = self.create(name, date)?;
        let shown = t.duplicate();
        self.add(t);
        Ok(shown)
    }

    /// The new unfinished task with the drawn id `id`, when no record has
    /// that id; `None` when one has.
    pub fn accept_id(&self, id: String, name: String, date: Instant) -> (r: Option<Task>)
        ensures
            r is Some <==> !has_id(self.records(), id@),
            r is Some ==> r.unwrap().id == id && r.unwrap().name == name && r.unwrap().date == date
                && !r.unwrap().done,
    {
        if self.get_index(id.clone()).is_none() {
            Some(Task::new(id, name, date))
        } else {
            None
        }
    }

    /// `done`, but `TaskNotFound` when no record has the id.
    pub fn done_checked(&mut self, task_id: String) -> (r: Result<(), TaskError>)
        requires
            old(self).wf(),
        ensures
            final(self).wf(),
            r is Err <==> !has_id(old(self).records(), task_id@),
            r is Err ==> r == Err::<(), TaskError>(TaskError::TaskNotFound) && final(self).records()
                == old(self).records() && final(self).pending() == old(self).pending(),
            forall|i: int|
                is_first(old(self).records(), task_id@, i) ==> final(self).records() == old(
                    self,
                ).records().update(i, finished(old(self).records()[i])) && final(self).pending(),
    {
        match self.get_index(task_id.clone()) {
            Some(_) => {
                self.done(task_id);
                Ok(())
            },
            None => Err(TaskError::TaskNotFound),
        }
    }

    /// `remove`, but `TaskNotFound` when no record has the id.
    pub fn remove_checked(&mut self, task_id: String) -> (r: Result<(), TaskError>)
        requires
            old(self).wf(),
        ensures
            final(self).wf(),
            r is Err <==> !has_id(old(self).records(), task_id@),
            r is Err ==> r == Err::<(), TaskError>(TaskError::TaskNotFound) && final(self).records()
                == old(self).records() && final(self).pending() == old(self).pending(),
            forall|i: int|
                is_first(old(self).records(), task_id@, i) ==> final(self).records() == old(
                    self,
                ).records().remove(i) && final(self).pending(),
    {
        match self.get_index(task_id.clone()) {
            Some(_) => {
                self.remove(task_id);
                Ok(())
            },
            None => Err(TaskError::TaskNotFound),
        }
    }

    /// Whether there are changes that have not been written back.
    pub fn is_dirty(&self) -> (r: bool)
        requires
            self.wf(),
        ensures
            r == self.pending(),
            r <==> self.changes() > 0,
    {
        self.dirty
    }

    /// The text to write to the backing file: `Some` exactly when there are
    /// changes that have not been written back.
    pub fn sync(&self) -> (r: Option<String>)
        requires
            self.wf(),
        ensures
            r.is_some() == self.pending(),
            r.is_some() <==> self.changes() > 0,
            r.is_some() ==> r.unwrap()@ == store_text(self.records()),
    {
        if self.dirty {
            Some(render(&self.tasks))
        } else {
            None
        }
    }

    /// Records that the text from `sync` was written: nothing is left to
    /// write back.
    pub fn synced(&mut self)
        requires
            old(self).wf(),
        ensures
            final(self).wf(),
            final(self).records() == old(self).records(),
            !final(self).pending(),
            final(self).changes() == 0,
    {
        self.dirty = false;
        self.changes = Ghost(0);
    }

    /// A new unfinished task with a random id that no record has, drawing at
    /// most `MAX_ID_ATTEMPTS` ids and keeping the first that `accept_id`
    /// accepts; `ExhaustedIdSpace` when every draw was taken.
    pub fn create(&self, name: String, date: Instant) -> (r: Result<Task, TaskError>)
        ensures
            match r {
                Ok(t) => !has_id(self.records(), t.id@) && is_generated_id(t.id@) && t.name == name
                    && t.date == date && !t.done,
                Err(e) => e == TaskError::ExhaustedIdSpace,
            },
    {
        let mut attempt: u32 = 0;
        while attempt < MAX_ID_ATTEMPTS
            invariant
                attempt <= MAX_ID_ATTEMPTS,
            decreases MAX_ID_ATTEMPTS - attempt,
        {
            let id = get_random_id();
            if let Some(t) = self.accept_id(id, name.clone(), date) {
                return Ok(t);
            }
            attempt = attempt + 1;
        }
        Err(TaskError::ExhaustedIdSpace)
    }
}

/// Id uniqueness: appending a record whose id no record has, as `create`
/// gives, keeps the ids of a collection distinct.
pub proof fn lemma_add_fresh_keeps_ids_unique(tasks: Seq<Task>, t: Task)
    requires
        ids_unique(tasks),
        !has_id(tasks, t.id@),
    ensures
        ids_unique(tasks.push(t)),
{
    let s = tasks.push(t);
    assert forall|i: int, j: int|
        0 <= i < s.len() && 0 <= j < s.len() && i != j implies #[trigger] s[i].id@
        != #[trigger] s[j].id@ by {
        if i == tasks.len() {
            assert(s[j] == tasks[j]);
            assert(s[i] == t);
            assert(tasks[j].id@ != t.id@);
        } else if j == tasks.len() {
            assert(s[i] == tasks[i]);
            assert(s[j] == t);
            assert(tasks[i].id@ != t.id@);
        } else {
            assert(s[i] == tasks[i] && s[j] == tasks[j]);
        }
    }
}

/// Idempotent removal: in a collection with distinct ids, once the record
/// with an id is removed no record has that id, so removing it again
/// changes nothing.
pub proof fn lemma_removed_id_is_gone(tasks: Seq<Task>, id: Seq<char>, i: int)
    requires
        ids_unique(tasks),
        is_first(tasks, id, i),
    ensures
        !has_id(tasks.remove(i), id),
{
    let s = tasks.remove(i);
    assert forall|j: int| 0 <= j < s.len() implies #[trigger] s[j].id@ != id by {
        if j < i {
            assert(s[j] == tasks[j]);
        } else {
            assert(s[j] == tasks[j + 1]);
            assert(tasks[j + 1].id@ != tasks[i].id@);
        }
    }
}

} // verus!
