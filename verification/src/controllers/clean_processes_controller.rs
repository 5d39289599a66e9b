//! The store of cleaning tasks and of the processes running for them.

use vstd::prelude::*;
use vstd::string::StringExecFns;
use crate::models::task_model::{copy_strings, TaskModel, TaskStatus, TaskView};
use crate::models::task_process_model::TaskProcessModel;

verus! {

/// The tasks as plain values, in store order.
pub open spec fn task_views(tasks: Seq<TaskModel>) -> Seq<TaskView> {
    tasks.map_values(|t: TaskModel| t@)
}

/// The position of the first task with id `id`, or the number of tasks when
/// there is none.
pub open spec fn find_task(tasks: Seq<TaskView>, id: Seq<char>) -> int
    decreases tasks.len(),
{
    if tasks.len() == 0 {
        0
    } else if tasks[0].id == id {
        0
    } else {
        1 + find_task(tasks.drop_first(), id)
    }
}

/// Some task has id `id`.
pub open spec fn has_task(tasks: Seq<TaskView>, id: Seq<char>) -> bool {
    find_task(tasks, id) < tasks.len()
}

/// `find_task` gives the first position holding the id.
pub proof fn lemma_find_task(tasks: Seq<TaskView>, id: Seq<char>)
    ensures
        0 <= find_task(tasks, id) <= tasks.len(),
        forall|k: int| 0 <= k < find_task(tasks, id) ==> #[trigger] tasks[k].id != id,
        find_task(tasks, id) < tasks.len() ==> tasks[find_task(tasks, id)].id == id,
    decreases tasks.len(),
{
    if tasks.len() > 0 && tasks[0].id != id {
        lemma_find_task(tasks.drop_first(), id);
        assert forall|k: int| 0 <= k < find_task(tasks, id) implies #[trigger] tasks[k].id != id by {
            if k > 0 {
                assert(tasks[k] == tasks.drop_first()[k - 1]);
            }
        }
    }
}

/// The position `i` is the first one holding id `id`.
proof fn lemma_find_task_at(tasks: Seq<TaskView>, id: Seq<char>, i: int)
    requires
        0 <= i <= tasks.len(),
        forall|k: int| 0 <= k < i ==> #[trigger] tasks[k].id != id,
        i < tasks.len() ==> tasks[i].id == id,
    ensures
        find_task(tasks, id) == i,
{
    lemma_find_task(tasks, id);
    let f = find_task(tasks, id);
    if f < i {
        assert(tasks[f].id != id);
    } else if f > i {
        assert(tasks[i].id != id);
    }
}

/// The ids of the running processes, in order.
pub open spec fn process_ids(ps: Seq<TaskProcessModel>) -> Seq<Seq<char>> {
    ps.map_values(|p: TaskProcessModel| p.task_id@)
}

/// The position of the first entry equal to `id`, or the length when there is
/// none.
pub open spec fn find_id(ids: Seq<Seq<char>>, id: Seq<char>) -> int
    decreases ids.len(),
{
    if ids.len() == 0 {
        0
    } else if ids[0] == id {
        0
    } else {
        1 + find_id(ids.drop_first(), id)
    }
}

/// `find_id` gives the first position holding the id.
pub proof fn lemma_find_id(ids: Seq<Seq<char>>, id: Seq<char>)
    ensures
        0 <= find_id(ids, id) <= ids.len(),
        forall|k: int| 0 <= k < find_id(ids, id) ==> #[trigger] ids[k] != id,
        find_id(ids, id) < ids.len() ==> ids[find_id(ids, id)] == id,
        find_id(ids, id) < ids.len() <==> ids.contains(id),
    decreases ids.len(),
{
    if ids.len() > 0 && ids[0] != id {
        lemma_find_id(ids.drop_first(), id);
        assert forall|k: int| 0 <= k < find_id(ids, id) implies #[trigger] ids[k] != id by {
            if k > 0 {
                assert(ids[k] == ids.drop_first()[k - 1]);
            }
        }
    }
    let f = find_id(ids, id);
    if ids.contains(id) && f == ids.len() {
        let k = choose|k: int| 0 <= k < ids.len() && ids[k] == id;
        assert(ids[k] != id);
    }
}

/// The processes whose task id is not `id`, in order.
pub open spec fn without_task(ps: Seq<TaskProcessModel>, id: Seq<char>) -> Seq<TaskProcessModel>
    decreases ps.len(),
{
    if ps.len() == 0 {
        seq![]
    } else if ps.last().task_id@ == id {
        without_task(ps.drop_last(), id)
    } else {
        without_task(ps.drop_last(), id).push(ps.last())
    }
}

/// With no process registered for `id`, dropping its processes changes
/// nothing.
pub proof fn lemma_without_absent(ps: Seq<TaskProcessModel>, id: Seq<char>)
    requires
        !process_ids(ps).contains(id),
    ensures
        without_task(ps, id) == ps,
    decreases ps.len(),
{
    if ps.len() > 0 {
        assert(process_ids(ps)[ps.len() - 1] == ps.last().task_id@);
        assert forall|k: int| 0 <= k < process_ids(ps.drop_last()).len() implies process_ids(
            ps.drop_last(),
        )[k] != id by {
            assert(process_ids(ps)[k] == process_ids(ps.drop_last())[k]);
        }
        lemma_without_absent(ps.drop_last(), id);
        assert(ps.drop_last().push(ps.last()) =~= ps);
    }
}

/// What a cleaning loop for a task needs: its patterns, its folder, its
/// interval and how many duplicates to keep.
pub struct CleaningJob {
    pub regex_patterns: Vec<String>,
    pub folder_path: String,
    /// Minutes between two passes.
    pub interval: u32,
    pub dup_to_leave: u8,
}

impl CleaningJob {
    /// The job for `task`.
    pub fn for_task(task: &TaskModel) -> (job: CleaningJob)
        ensures
            job.regex_patterns@.map_values(|s: String| s@) == task@.regex_patterns,
            job.folder_path@ == task@.folder_path,
            job.interval == task@.auto_run_interval,
            job.dup_to_leave == task@.number_of_dup_to_keep,
    {
        CleaningJob {
            regex_patterns: copy_strings(&task.regex_patterns),
            folder_path: task.folder_path.clone(),
            interval: task.auto_run_interval,
            dup_to_leave: task.number_of_dup_to_keep,
        }
    }

    /// The pause between two passes, in seconds (the interval is in minutes).
    pub fn sleep_seconds(&self) -> (secs: u64)
        ensures
            secs == self.interval * 60,
    {
        (self.interval as u64) * 60
    }
}

/// The tasks and the cleaning processes running for them.
pub struct CleanProcessController {
    pub tasks_processes: Vec<TaskProcessModel>,
    pub tasks: Vec<TaskModel>,
}

impl CleanProcessController {
    /// A controller over `tasks` (as loaded from storage) with no process
    /// running.
    pub fn with_tasks(tasks: Vec<TaskModel>) -> (res: CleanProcessController)
        ensures
            res.tasks@ == tasks@,
            res.tasks_processes@.len() == 0,
    {
        CleanProcessController { tasks, tasks_processes: Vec::new() }
    }

    /// The position of the first task with id `id`, or the number of tasks.
    fn position_of(&self, id: &String) -> (pos: usize)
        ensures
            pos == find_task(task_views(self.tasks@), id@),
    {
        let ghost tv = task_views(self.tasks@);
        let mut i: usize = 0;
        while i < self.tasks.len()
            invariant
                i <= self.tasks@.len(),
                tv == task_views(self.tasks@),
                forall|k: int| 0 <= k < i ==> #[trigger] tv[k].id != id@,
            decreases self.tasks@.len() - i,
        {
            if self.tasks[i].id == *id {
                proof {
                    lemma_find_task_at(tv, id@, i as int);
                }
                return i;
            }
            i = i + 1;
        }
        proof {
            lemma_find_task_at(tv, id@, i as int);
        }
        i
    }

    /// The first task with id `id`, if any.
    pub fn get_task(&self, id: &str) -> (res: Option<&TaskModel>)
        ensures
            res is Some <==> has_task(task_views(self.tasks@), id@),
            res matches Some(t) ==> t@ == task_views(self.tasks@)[find_task(
                task_views(self.tasks@),
                id@,
            )],
    {
        let pos = self.position_of(&String::from_str(id));
        if pos < self.tasks.len() {
            Some(&self.tasks[pos])
        } else {
            None
        }
    }

    /// Replaces the first task with the id of `new_task` by a copy of it;
    /// refused, with nothing changed, when no task has that id.
    pub fn update_task(&mut self, new_task: &TaskModel) -> (res: Result<String, String>)
        ensures
            ({
                let old_tv = task_views(old(self).tasks@);
                let pos = find_task(old_tv, new_task@.id);
                if pos < old_tv.len() {
                    &&& res matches Ok(msg) && msg@ == "Task zaktualizowany"@
                    &&& task_views(final(self).tasks@) == old_tv.update(pos, new_task@)
                } else {
                    &&& res matches Err(msg) && msg@ == "Nie znaleziono taska"@
                    &&& final(self).tasks@ == old(self).tasks@
                }
            }),
            final(self).tasks_processes@ == old(self).tasks_processes@,
    {
        let pos = self.position_of(&new_task.id);
        if pos < self.tasks.len() {
            let ghost before = self.tasks@;
            self.tasks.remove(pos);
            self.tasks.insert(pos, new_task.duplicate());
            assert(task_views(self.tasks@) =~= task_views(before).update(pos as int, new_task@));
            Ok(String::from_str("Task zaktualizowany"))
        } else {
            Err(String::from_str("Nie znaleziono taska"))
        }
    }

    /// Removes the first task with id `task_id`; refused, with nothing
    /// changed, when there is none.
    pub fn delete_task(&mut self, task_id: &str) -> (res: Result<String, String>)
        ensures
            ({
                let old_tv = task_views(old(self).tasks@);
                let pos = find_task(old_tv, task_id@);
                if pos < old_tv.len() {
                    &&& res matches Ok(msg) && msg@ == "Udało się usunąć taska"@
                    &&& task_views(final(self).tasks@) == old_tv.remove(pos)
                } else {
                    &&& res matches Err(msg) && msg@ == "Nie znaleziono taska"@
                    &&& final(self).tasks@ == old(self).tasks@
                }
            }),
            final(self).tasks_processes@ == old(self).tasks_processes@,
    {
        let pos = self.position_of(&String::from_str(task_id));
        if pos < self.tasks.len() {
            let ghost before = self.tasks@;
            self.tasks.remove(pos);
            assert(task_views(self.tasks@) =~= task_views(before).remove(pos as int));
            Ok(String::from_str("Udało się usunąć taska"))
        } else {
            Err(String::from_str("Nie znaleziono taska"))
        }
    }

    /// Appends a copy of `task` and returns another copy; refused, with
    /// nothing changed, when a task with the same id is already stored.
    pub fn add_task(&mut self, task: &TaskModel) -> (res: Result<TaskModel, String>)
        ensures
            ({
                let old_tv = task_views(old(self).tasks@);
                if !has_task(old_tv, task@.id) {
                    &&& res matches Ok(t) && t@ == task@
                    &&& task_views(final(self).tasks@) == old_tv.push(task@)
                } else {
                    &&& res matches Err(msg) && msg@ == "W systemie istnieje już task o takim Id"@
                    &&& final(self).tasks@ == old(self).tasks@
                }
            }),
            final(self).tasks_processes@ == old(self).tasks_processes@,
    {
        let pos = self.position_of(&task.id);
        proof {
            lemma_find_task(task_views(self.tasks@), task@.id);
        }
        if pos == self.tasks.len() {
            let ghost before = self.tasks@;
            self.tasks.push(task.duplicate());
            assert(task_views(self.tasks@) =~= task_views(before).push(task@));
            Ok(task.duplicate())
        } else {
            Err(String::from_str("W systemie istnieje już task o takim Id"))
        }
    }

    /// The position of the first process for task `id`, or the number of
    /// processes.
    fn process_position(&self, id: &String) -> (pos: usize)
        ensures
            pos <= self.tasks_processes@.len(),
            forall|k: int| 0 <= k < pos ==> #[trigger] process_ids(self.tasks_processes@)[k] != id@,
            pos < self.tasks_processes@.len() ==> process_ids(self.tasks_processes@)[pos as int]
                == id@,
    {
        let mut i: usize = 0;
        while i < self.tasks_processes.len()
            invariant
                i <= self.tasks_processes@.len(),
                forall|k: int|
                    0 <= k < i ==> #[trigger] process_ids(self.tasks_processes@)[k] != id@,
            decreases self.tasks_processes@.len() - i,
        {
            if self.tasks_processes[i].task_id == *id {
                return i;
            }
            i = i + 1;
        }
        i
    }

    /// Whether a process is registered for task `task_id`.
    pub fn has_process(&self, task_id: &str) -> (res: bool)
        ensures
            res == process_ids(self.tasks_processes@).contains(task_id@),
    {
        let pos = self.process_position(&String::from_str(task_id));
        if pos < self.tasks_processes.len() {
            true
        } else {
            assert forall|k: int| 0 <= k < process_ids(self.tasks_processes@).len() implies process_ids(
                self.tasks_processes@,
            )[k] != task_id@ by {}
            false
        }
    }

    /// Registers the cleaning loop `process` for `task_model`, marks the task
    /// scheduled and stores that status. Refused when a process is already
    /// registered for the task: then nothing changes and `process` is handed
    /// back, for the caller to abort.
    pub fn create_process(
        &mut self,
        task_model: &mut TaskModel,
        process: tokio::task::JoinHandle<()>,
    ) -> (res: Result<(), (String, tokio::task::JoinHandle<()>)>)
        ensures
            ({
                let id = old(task_model)@.id;
                if process_ids(old(self).tasks_processes@).contains(id) {
                    &&& res matches Err(e) && e.0@ == "Task znajduje się już w procesach"@
                        && e.1 == process
                    &&& final(self).tasks_processes@ == old(self).tasks_processes@
                    &&& final(self).tasks@ == old(self).tasks@
                    &&& final(task_model)@ == old(task_model)@
                } else {
                    let scheduled = TaskView { status: TaskStatus::Sheduled, ..old(task_model)@ };
                    let old_tv = task_views(old(self).tasks@);
                    let pos = find_task(old_tv, id);
                    &&& res is Ok
                    &&& final(self).tasks_processes@.len() == old(self).tasks_processes@.len() + 1
                    &&& final(self).tasks_processes@.drop_last() == old(self).tasks_processes@
                    &&& final(self).tasks_processes@.last().process == process
                    &&& final(self).tasks_processes@.last().task_id@ == id
                    &&& final(task_model)@ == scheduled
                    &&& task_views(final(self).tasks@) == (if pos < old_tv.len() {
                        old_tv.update(pos, scheduled)
                    } else {
                        old_tv
                    })
                }
            }),
    {
        if self.has_process(task_model.id.as_str()) {
            return Err((String::from_str("Task znajduje się już w procesach"), process));
        }
        let entry = TaskProcessModel::new(process, task_model.id.clone());
        self.tasks_processes.push(entry);
        task_model.status = TaskStatus::Sheduled;
        let _ = self.update_task(task_model);
        Ok(())
    }

    /// Takes out the processes registered for `task_id` and hands back the
    /// first of them, for the caller to abort unless it has finished; the
    /// other processes stay, in order. Refused, with nothing changed, when
    /// none is registered.
    pub fn stop_process(&mut self, task_id: &str) -> (res: Result<TaskProcessModel, String>)
        ensures
            if process_ids(old(self).tasks_processes@).contains(task_id@) {
                &&& res matches Ok(p) && p == old(self).tasks_processes@[find_id(
                    process_ids(old(self).tasks_processes@),
                    task_id@,
                )]
                &&& final(self).tasks_processes@ == without_task(
                    old(self).tasks_processes@,
                    task_id@,
                )
            } else {
                &&& res matches Err(msg) && msg@ == "Błąd podczas zatrzymywania procesu"@
                &&& final(self).tasks_processes@ == old(self).tasks_processes@
            },
            final(self).tasks@ == old(self).tasks@,
    {
        let id = String::from_str(task_id);
        let pos = self.process_position(&id);
        proof {
            lemma_find_id(process_ids(self.tasks_processes@), task_id@);
            let f = find_id(process_ids(self.tasks_processes@), task_id@);
            if f < pos {
                assert(process_ids(self.tasks_processes@)[f] != task_id@);
            }
            if pos < f {
                assert(process_ids(self.tasks_processes@)[pos as int] != task_id@);
            }
        }
        if pos == self.tasks_processes.len() {
            return Err(String::from_str("Błąd podczas zatrzymywania procesu"));
        }
        assert(process_ids(self.tasks_processes@)[pos as int] == task_id@);
        let ghost registered = self.tasks_processes@;
        let ghost tasks_before = self.tasks@;
        let total = self.tasks_processes.len();
        let mut kept: Vec<TaskProcessModel> = Vec::new();
        let mut first: Option<TaskProcessModel> = None;
        let mut n: usize = 0;
        while self.tasks_processes.len() > 0
            invariant
                n <= registered.len(),
                pos < registered.len(),
                registered[pos as int].task_id@ == task_id@,
                n <= pos ==> first is None,
                n > pos ==> first == Some(registered[pos as int]),
                self.tasks_processes@ == registered.skip(n as int),
                kept@ == without_task(registered.take(n as int), task_id@),
                id@ == task_id@,
                self.tasks@ == tasks_before,
                total == registered.len(),
            decreases self.tasks_processes@.len(),
        {
            assert(n < registered.len());
            let p = self.tasks_processes.remove(0);
            assert(registered.take(n + 1).drop_last() =~= registered.take(n as int));
            assert(registered.take(n + 1).last() == p);
            if p.task_id != id {
                kept.push(p);
            } else if n == pos {
                first = Some(p);
            }
            n = n + 1;
            assert(self.tasks_processes@ =~= registered.skip(n as int));
        }
        assert(registered.take(n as int) =~= registered);
        self.tasks_processes = kept;
        match first {
            Some(p) => Ok(p),
            None => {
                assert(false);
                Err(String::from_str("Błąd podczas zatrzymywania procesu"))
            },
        }
    }
}


/// No two tasks share an id.
pub open spec fn unique_ids(tasks: Seq<TaskView>) -> bool {
    forall|a: int, b: int|
        0 <= a < tasks.len() && 0 <= b < tasks.len() && a != b ==> #[trigger] tasks[a].id
            != #[trigger] tasks[b].id
}

/// A task that `add_task` accepted is what `get_task` then finds for its id.
pub proof fn lemma_get_after_add(tasks: Seq<TaskView>, task: TaskView)
    requires
        !has_task(tasks, task.id),
    ensures
        has_task(tasks.push(task), task.id),
        tasks.push(task)[find_task(tasks.push(task), task.id)] == task,
{
    lemma_find_task(tasks, task.id);
    let after = tasks.push(task);
    assert forall|k: int| 0 <= k < tasks.len() implies #[trigger] after[k].id != task.id by {
        assert(after[k] == tasks[k]);
    }
    lemma_find_task_at(after, task.id, tasks.len() as int);
}

/// After `update_task` accepted a task, `get_task` for its id finds the new
/// version.
pub proof fn lemma_get_after_update(tasks: Seq<TaskView>, task: TaskView)
    requires
        has_task(tasks, task.id),
    ensures
        ({
            let after = tasks.update(find_task(tasks, task.id), task);
            &&& has_task(after, task.id)
            &&& after[find_task(after, task.id)] == task
        }),
{
    lemma_find_task(tasks, task.id);
    let pos = find_task(tasks, task.id);
    let after = tasks.update(pos, task);
    assert forall|k: int| 0 <= k < pos implies #[trigger] after[k].id != task.id by {
        assert(after[k] == tasks[k]);
    }
    lemma_find_task_at(after, task.id, pos);
}

/// Adding a task whose id is new keeps ids unique.
pub proof fn lemma_add_keeps_ids_unique(tasks: Seq<TaskView>, task: TaskView)
    requires
        unique_ids(tasks),
        !has_task(tasks, task.id),
    ensures
        unique_ids(tasks.push(task)),
{
    lemma_find_task(tasks, task.id);
    let after = tasks.push(task);
    assert forall|a: int, b: int|
        0 <= a < after.len() && 0 <= b < after.len() && a != b implies #[trigger] after[a].id
        != #[trigger] after[b].id by {
        if a < tasks.len() && b < tasks.len() {
            assert(after[a] == tasks[a] && after[b] == tasks[b]);
        } else if a < tasks.len() {
            assert(after[a] == tasks[a]);
        } else {
            assert(after[b] == tasks[b]);
        }
    }
}

/// Updating a task (the new version carries the id it was found by) keeps ids
/// unique.
pub proof fn lemma_update_keeps_ids_unique(tasks: Seq<TaskView>, task: TaskView)
    requires
        unique_ids(tasks),
        has_task(tasks, task.id),
    ensures
        unique_ids(tasks.update(find_task(tasks, task.id), task)),
{
    lemma_find_task(tasks, task.id);
    let pos = find_task(tasks, task.id);
    let after = tasks.update(pos, task);
    assert forall|a: int, b: int|
        0 <= a < after.len() && 0 <= b < after.len() && a != b implies #[trigger] after[a].id
        != #[trigger] after[b].id by {
        if a != pos && b != pos {
            assert(after[a] == tasks[a] && after[b] == tasks[b]);
        } else if a == pos {
            assert(after[b] == tasks[b]);
            assert(tasks[pos].id != tasks[b].id);
        } else {
            assert(after[a] == tasks[a]);
            assert(tasks[pos].id != tasks[a].id);
        }
    }
}

/// Deleting a task keeps ids unique, and with unique ids the deleted task's id
/// is no longer found.
pub proof fn lemma_delete_removes_id(tasks: Seq<TaskView>, id: Seq<char>)
    requires
        unique_ids(tasks),
        has_task(tasks, id),
    ensures
        unique_ids(tasks.remove(find_task(tasks, id))),
        !has_task(tasks.remove(find_task(tasks, id)), id),
{
    lemma_find_task(tasks, id);
    let pos = find_task(tasks, id);
    let after = tasks.remove(pos);
    assert forall|k: int| 0 <= k < after.len() implies #[trigger] after[k].id != id by {
        if k < pos {
            assert(after[k] == tasks[k]);
        } else {
            assert(after[k] == tasks[k + 1]);
            assert(tasks[pos].id != tasks[k + 1].id);
        }
    }
    lemma_find_task_at(after, id, after.len() as int);
    assert forall|a: int, b: int|
        0 <= a < after.len() && 0 <= b < after.len() && a != b implies #[trigger] after[a].id
        != #[trigger] after[b].id by {
        let a0 = if a < pos { a } else { a + 1 };
        let b0 = if b < pos { b } else { b + 1 };
        assert(after[a] == tasks[a0] && after[b] == tasks[b0]);
    }
}

/// After `stop_process` no process is registered for the stopped task, and
/// every other task keeps exactly its processes, in order.
pub proof fn lemma_stop_leaves_no_process(ps: Seq<TaskProcessModel>, id: Seq<char>, other: Seq<char>)
    requires
        other != id,
    ensures
        !process_ids(without_task(ps, id)).contains(id),
        process_ids(without_task(ps, id)).contains(other) <==> process_ids(ps).contains(other),
    decreases ps.len(),
{
    if ps.len() > 0 {
        lemma_stop_leaves_no_process(ps.drop_last(), id, other);
        let prev = without_task(ps.drop_last(), id);
        let pids = process_ids(ps);
        let dids = process_ids(ps.drop_last());
        let last_id = ps.last().task_id@;
        assert(pids =~= dids.push(last_id));
        assert(pids.contains(other) <==> (dids.contains(other) || last_id == other)) by {
            if pids.contains(other) {
                let k = choose|k: int| 0 <= k < pids.len() && pids[k] == other;
                if k < dids.len() {
                    assert(dids[k] == other);
                }
            }
            if dids.contains(other) {
                let k = choose|k: int| 0 <= k < dids.len() && dids[k] == other;
                assert(pids[k] == other);
            }
            if last_id == other {
                assert(pids[dids.len() as int] == other);
            }
        }
        if last_id != id {
            let qids = process_ids(prev);
            let rids = process_ids(prev.push(ps.last()));
            assert(rids =~= qids.push(last_id));
            assert forall|x: Seq<char>| rids.contains(x) <==> (qids.contains(x) || last_id == x) by {
                if rids.contains(x) {
                    let k = choose|k: int| 0 <= k < rids.len() && rids[k] == x;
                    if k < qids.len() {
                        assert(qids[k] == x);
                    }
                }
                if qids.contains(x) {
                    let k = choose|k: int| 0 <= k < qids.len() && qids[k] == x;
                    assert(rids[k] == x);
                }
                if last_id == x {
                    assert(rids[qids.len() as int] == x);
                }
            }
        }
    }
}

/// After `create_process` registered a process for a task, a second request
/// for that task is refused.
pub proof fn lemma_created_process_blocks_another(ps: Seq<TaskProcessModel>, p: TaskProcessModel)
    ensures
        process_ids(ps.push(p)).contains(p.task_id@),
{
    assert(process_ids(ps.push(p))[ps.len() as int] == p.task_id@);
}

/// A process registered by `create_process` for a task that had none is the
/// one that `stop_process` for that task then hands back, and taking it out
/// gives back the processes as they were before.
pub proof fn lemma_stop_after_create(ps: Seq<TaskProcessModel>, p: TaskProcessModel)
    requires
        !process_ids(ps).contains(p.task_id@),
    ensures
        process_ids(ps.push(p)).contains(p.task_id@),
        ps.push(p)[find_id(process_ids(ps.push(p)), p.task_id@)] == p,
        without_task(ps.push(p), p.task_id@) == ps,
{
    let after = ps.push(p);
    let id = p.task_id@;
    lemma_created_process_blocks_another(ps, p);
    lemma_find_id(process_ids(after), id);
    let f = find_id(process_ids(after), id);
    if f < ps.len() {
        assert(process_ids(after)[f] == process_ids(ps)[f]);
        assert(process_ids(ps).contains(id));
    }
    assert(after.drop_last() =~= ps);
    lemma_without_absent(ps, id);
}

} // verus!
