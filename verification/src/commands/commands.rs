//! The backend behind the user interface's commands: initialisation once,
//! then task listing, lookup, creation, deletion, update, and starting and
//! stopping of cleaning processes.

use vstd::prelude::*;
use vstd::string::StringExecFns;
use crate::controllers::clean_processes_controller::{
    find_id, find_task, has_task, process_ids, task_views, without_task, CleanProcessController,
    CleaningJob,
};
use crate::models::task_model::{copy_strings, default_task, uuid_shaped, TaskModel, TaskStatus, TaskView};
use crate::models::task_process_model::TaskProcessModel;

verus! {

/// The reply to any command before `init`.
pub open spec fn not_initialized_msg() -> Seq<char> {
    "Rust nie został zainicjalizowany! użyj metody init żeby to zmienić"@
}

/// The reply when no task has the requested id.
pub open spec fn not_found_msg(id: Seq<char>) -> Seq<char> {
    "Nie znaleziono zadania dla id "@ + id
}

fn not_initialized() -> (msg: String)
    ensures
        msg@ == not_initialized_msg(),
{
    String::from_str("Rust nie został zainicjalizowany! użyj metody init żeby to zmienić")
}

fn not_found(id: &str) -> (msg: String)
    ensures
        msg@ == not_found_msg(id@),
{
    String::from_str("Nie znaleziono zadania dla id ").concat(id)
}

/// A copy of a list of tasks.
fn copy_tasks(tasks: &Vec<TaskModel>) -> (res: Vec<TaskModel>)
    ensures
        task_views(res@) == task_views(tasks@),
{
    let mut res: Vec<TaskModel> = Vec::new();
    for i in 0..tasks.len()
        invariant
            res@.len() == i,
            forall|k: int| 0 <= k < i ==> #[trigger] res@[k]@ == tasks@[k]@,
    {
        res.push(tasks[i].duplicate());
    }
    assert(task_views(res@) =~= task_views(tasks@));
    res
}

/// The backend state: uninitialised, or a controller over the loaded tasks.
pub struct Backend {
    pub controller: Option<CleanProcessController>,
}

impl Backend {
    /// A backend that has not been initialised.
    pub fn new() -> (b: Backend)
        ensures
            b.controller is None,
    {
        Backend { controller: None }
    }

    pub fn is_initialized(&self) -> (res: bool)
        ensures
            res == self.controller is Some,
    {
        self.controller.is_some()
    }

    /// Initialises the backend with the tasks loaded from storage; refused
    /// once it is initialised.
    pub fn init(&mut self, tasks: Vec<TaskModel>) -> (res: Result<(), String>)
        ensures
            match old(self).controller {
                Some(_) => {
                    &&& res matches Err(msg) && msg@ == "Rust jest już zainicjalizowany"@
                    &&& final(self).controller == old(self).controller
                },
                None => {
                    &&& res is Ok
                    &&& final(self).controller matches Some(c) && c.tasks@ == tasks@
                        && c.tasks_processes@.len() == 0
                },
            },
    {
        if self.controller.is_some() {
            return Err(String::from_str("Rust jest już zainicjalizowany"));
        }
        self.controller = Some(CleanProcessController::with_tasks(tasks));
        Ok(())
    }

    /// All tasks.
    pub fn get_tasks(&self) -> (res: Result<Vec<TaskModel>, String>)
        ensures
            match self.controller {
                Some(c) => res matches Ok(ts) && task_views(ts@) == task_views(c.tasks@),
                None => res matches Err(msg) && msg@ == not_initialized_msg(),
            },
    {
        match &self.controller {
            Some(c) => Ok(copy_tasks(&c.tasks)),
            None => Err(not_initialized()),
        }
    }

    /// The task with id `task_id` (the first one).
    pub fn get_task(&self, task_id: &str) -> (res: Result<TaskModel, String>)
        ensures
            match self.controller {
                Some(c) => {
                    let tv = task_views(c.tasks@);
                    if has_task(tv, task_id@) {
                        res matches Ok(t) && t@ == tv[find_task(tv, task_id@)]
                    } else {
                        res matches Err(msg) && msg@ == not_found_msg(task_id@)
                    }
                },
                None => res matches Err(msg) && msg@ == not_initialized_msg(),
            },
    {
        match &self.controller {
            Some(c) => match c.get_task(task_id) {
                Some(t) => Ok(t.duplicate()),
                None => Err(not_found(task_id)),
            },
            None => Err(not_initialized()),
        }
    }

    /// Stores `task` as a new task and returns it; the error of the store is
    /// reported after a fixed prefix.
    pub fn add_new_task(&mut self, task: TaskModel) -> (res: Result<TaskModel, String>)
        ensures
            match old(self).controller {
                Some(c) => {
                    let tv = task_views(c.tasks@);
                    &&& final(self).controller matches Some(c2) && c2.tasks_processes@
                        == c.tasks_processes@ && if !has_task(tv, task@.id) {
                        &&& res matches Ok(t) && t@ == task@
                        &&& task_views(c2.tasks@) == tv.push(task@)
                    } else {
                        &&& res matches Err(msg) && msg@ == "Nie udało się dodać nowego taska! "@
                            + "W systemie istnieje już task o takim Id"@
                        &&& c2.tasks@ == c.tasks@
                    }
                },
                None => {
                    &&& res matches Err(msg) && msg@ == not_initialized_msg()
                    &&& final(self).controller is None
                },
            },
    {
        match &mut self.controller {
            Some(c) => match c.add_task(&task) {
                Ok(t) => Ok(t),
                Err(e) => Err(String::from_str("Nie udało się dodać nowego taska! ").concat(
                    e.as_str(),
                )),
            },
            None => Err(not_initialized()),
        }
    }

    /// Creates a task with the default settings under a fresh random id and
    /// stores it.
    pub fn add_task(&mut self) -> (res: Result<TaskModel, String>)
        ensures
            match old(self).controller {
                Some(c) => {
                    &&& final(self).controller matches Some(c2) && c2.tasks_processes@
                        == c.tasks_processes@
                    &&& match res {
                        Ok(t) => {
                            &&& t@ == default_task(t@.id)
                            &&& uuid_shaped(t@.id)
                            &&& !has_task(task_views(c.tasks@), t@.id)
                            &&& final(self).controller matches Some(c2) && task_views(c2.tasks@)
                                == task_views(c.tasks@).push(t@)
                        },
                        Err(msg) => {
                            &&& msg@ == "Nie udało się dodać nowego taska! "@
                                + "W systemie istnieje już task o takim Id"@
                            &&& final(self).controller matches Some(c2) && c2.tasks@ == c.tasks@
                        },
                    }
                },
                None => {
                    &&& res matches Err(msg) && msg@ == not_initialized_msg()
                    &&& final(self).controller is None
                },
            },
            old(self).controller matches Some(c) && (forall|k: int|
                0 <= k < c.tasks@.len() ==> !uuid_shaped(#[trigger] c.tasks@[k]@.id)) ==> res is Ok,
    {
        if self.controller.is_none() {
            return Err(not_initialized());
        }
        let task = TaskModel::new_default();
        proof {
            let c = self.controller->0;
            crate::controllers::clean_processes_controller::lemma_find_task(
                task_views(c.tasks@),
                task@.id,
            );
            let pos = find_task(task_views(c.tasks@), task@.id);
            if pos < c.tasks@.len() {
                assert(task_views(c.tasks@)[pos] == c.tasks@[pos]@);
            }
        }
        self.add_new_task(task)
    }

    /// Deletes the task with id `task_id` (the first one).
    pub fn del_task(&mut self, task_id: &str) -> (res: Result<(), String>)
        ensures
            match old(self).controller {
                Some(c) => {
                    let tv = task_views(c.tasks@);
                    &&& final(self).controller matches Some(c2) && c2.tasks_processes@
                        == c.tasks_processes@ && if has_task(tv, task_id@) {
                        &&& res is Ok
                        &&& task_views(c2.tasks@) == tv.remove(find_task(tv, task_id@))
                    } else {
                        &&& res matches Err(msg) && msg@ == "Nie udało się usunąć taska: "@
                            + "Nie znaleziono taska"@
                        &&& c2.tasks@ == c.tasks@
                    }
                },
                None => {
                    &&& res matches Err(msg) && msg@ == not_initialized_msg()
                    &&& final(self).controller is None
                },
            },
    {
        match &mut self.controller {
            Some(c) => match c.delete_task(task_id) {
                Ok(_) => Ok(()),
                Err(e) => Err(String::from_str("Nie udało się usunąć taska: ").concat(e.as_str())),
            },
            None => Err(not_initialized()),
        }
    }

    /// Decides whether a cleaning process may be started for `task_id` and,
    /// if so, what it has to run.
    pub fn prepare_run(&self, task_id: &str) -> (res: Result<CleaningJob, String>)
        ensures
            match self.controller {
                Some(c) => {
                    let tv = task_views(c.tasks@);
                    if !has_task(tv, task_id@) {
                        res matches Err(msg) && msg@ == not_found_msg(task_id@)
                    } else if process_ids(c.tasks_processes@).contains(task_id@) {
                        res matches Err(msg) && msg@ == "Błąd tworzenia procesu dla taska"@
                    } else {
                        let t = tv[find_task(tv, task_id@)];
                        &&& res matches Ok(job) && job.regex_patterns@.map_values(|s: String| s@)
                            == t.regex_patterns && job.folder_path@ == t.folder_path
                            && job.interval == t.auto_run_interval && job.dup_to_leave
                            == t.number_of_dup_to_keep
                    }
                },
                None => res matches Err(msg) && msg@ == not_initialized_msg(),
            },
    {
        match &self.controller {
            Some(c) => match c.get_task(task_id) {
                Some(t) => {
                    if c.has_process(task_id) {
                        Err(String::from_str("Błąd tworzenia procesu dla taska"))
                    } else {
                        Ok(CleaningJob::for_task(t))
                    }
                },
                None => Err(not_found(task_id)),
            },
            None => Err(not_initialized()),
        }
    }

    /// Registers the cleaning loop `process`, started for `task_id`, and marks
    /// the task scheduled. When the request is refused `process` is handed
    /// back with the reply, for the caller to abort.
    pub fn run_task(&mut self, task_id: &str, process: tokio::task::JoinHandle<()>) -> (res: Result<
        (),
        (String, tokio::task::JoinHandle<()>),
    >)
        ensures
            match old(self).controller {
                Some(c) => {
                    let tv = task_views(c.tasks@);
                    let pos = find_task(tv, task_id@);
                    &&& final(self).controller is Some
                    &&& if !has_task(tv, task_id@) {
                        &&& res matches Err(e) && e.0@ == not_found_msg(task_id@) && e.1 == process
                        &&& final(self).controller == old(self).controller
                    } else if process_ids(c.tasks_processes@).contains(task_id@) {
                        &&& res matches Err(e) && e.0@ == "Błąd tworzenia procesu dla taska"@
                            && e.1 == process
                        &&& final(self).controller matches Some(c2) && c2.tasks@ == c.tasks@
                            && c2.tasks_processes@ == c.tasks_processes@
                    } else {
                        &&& res is Ok
                        &&& final(self).controller matches Some(c2) && task_views(c2.tasks@)
                            == tv.update(pos, TaskView { status: TaskStatus::Sheduled, ..tv[pos] })
                            && c2.tasks_processes@.drop_last() == c.tasks_processes@
                            && c2.tasks_processes@.len() == c.tasks_processes@.len() + 1
                            && c2.tasks_processes@.last().process == process
                            && c2.tasks_processes@.last().task_id@ == task_id@
                    }
                },
                None => {
                    &&& res matches Err(e) && e.0@ == not_initialized_msg() && e.1 == process
                    &&& final(self).controller is None
                },
            },
    {
        match &mut self.controller {
            Some(c) => {
                let found = match c.get_task(task_id) {
                    Some(t) => Some(t.duplicate()),
                    None => None,
                };
                match found {
                    Some(t) => {
                        let mut task = t;
                        let ghost tv = task_views(c.tasks@);
                        proof {
                            crate::controllers::clean_processes_controller::lemma_find_task(
                                tv,
                                task_id@,
                            );
                        }
                        assert(task@.id == task_id@);
                        match c.create_process(&mut task, process) {
                            Ok(_) => Ok(()),
                            Err(e) => {
                                let (_, handle) = e;
                                Err((String::from_str("Błąd tworzenia procesu dla taska"), handle))
                            },
                        }
                    },
                    None => Err((not_found(task_id), process)),
                }
            },
            None => Err((not_initialized(), process)),
        }
    }

    /// Takes out the cleaning processes of task `task_id` and hands back the
    /// first of them, for the caller to abort unless it has finished.
    pub fn stop_task(&mut self, task_id: &str) -> (res: Result<TaskProcessModel, String>)
        ensures
            match old(self).controller {
                Some(c) => {
                    let tv = task_views(c.tasks@);
                    &&& final(self).controller matches Some(c2) && c2.tasks@ == c.tasks@
                    &&& if !has_task(tv, task_id@) {
                        &&& res matches Err(msg) && msg@ == not_found_msg(task_id@)
                        &&& final(self).controller == old(self).controller
                    } else if !process_ids(c.tasks_processes@).contains(task_id@) {
                        &&& res matches Err(msg) && msg@ == "Błąd zatrzymywania procesu dla taska"@
                        &&& final(self).controller matches Some(c2) && c2.tasks_processes@
                            == c.tasks_processes@
                    } else {
                        &&& res matches Ok(p) && p == c.tasks_processes@[find_id(
                            process_ids(c.tasks_processes@),
                            task_id@,
                        )]
                        &&& final(self).controller matches Some(c2) && c2.tasks_processes@
                            == without_task(c.tasks_processes@, task_id@)
                    }
                },
                None => {
                    &&& res matches Err(msg) && msg@ == not_initialized_msg()
                    &&& final(self).controller is None
                },
            },
    {
        match &mut self.controller {
            Some(c) => {
                if c.get_task(task_id).is_none() {
                    return Err(not_found(task_id));
                }
                match c.stop_process(task_id) {
                    Ok(p) => Ok(p),
                    Err(_) => Err(String::from_str("Błąd zatrzymywania procesu dla taska")),
                }
            },
            None => Err(not_initialized()),
        }
    }

    /// Replaces the stored task that has the id of `task` by `task`, after
    /// taking out the task's cleaning processes; the first of them, if any, is
    /// handed back for the caller to abort unless it has finished.
    pub fn update_task(&mut self, task: &TaskModel) -> (res: Result<Option<TaskProcessModel>, String>)
        ensures
            match old(self).controller {
                Some(c) => {
                    let tv = task_views(c.tasks@);
                    &&& final(self).controller is Some
                    &&& if !has_task(tv, task@.id) {
                        &&& res matches Err(msg) && msg@ == not_found_msg(task@.id)
                        &&& final(self).controller == old(self).controller
                    } else {
                        &&& res matches Ok(stopped) && if process_ids(c.tasks_processes@).contains(
                            task@.id,
                        ) {
                            stopped == Some(
                                c.tasks_processes@[find_id(process_ids(c.tasks_processes@), task@.id)],
                            )
                        } else {
                            stopped is None
                        }
                        &&& final(self).controller matches Some(c2) && task_views(c2.tasks@)
                            == tv.update(find_task(tv, task@.id), task@)
                            && c2.tasks_processes@ == without_task(c.tasks_processes@, task@.id)
                    }
                },
                None => {
                    &&& res matches Err(msg) && msg@ == not_initialized_msg()
                    &&& final(self).controller is None
                },
            },
    {
        match &mut self.controller {
            Some(c) => {
                let old_task = match c.get_task(task.id.as_str()) {
                    Some(t) => t.duplicate(),
                    None => {
                        return Err(not_found(task.id.as_str()));
                    },
                };
                proof {
                    crate::controllers::clean_processes_controller::lemma_find_task(
                        task_views(c.tasks@),
                        task@.id,
                    );
                }
                let stopped = match c.stop_process(old_task.id.as_str()) {
                    Ok(p) => Some(p),
                    Err(_) => None,
                };
                proof {
                    if !process_ids(old(self).controller->0.tasks_processes@).contains(task@.id) {
                        crate::controllers::clean_processes_controller::lemma_without_absent(
                            old(self).controller->0.tasks_processes@,
                            task@.id,
                        );
                    }
                }
                match c.update_task(task) {
                    Ok(_) => Ok(stopped),
                    Err(_) => Err(String::from_str("Błąd przy aktualizacji taska")),
                }
            },
            None => Err(not_initialized()),
        }
    }
}

/// Two default tasks added one after the other under two distinct ids that
/// were not stored (as two calls of `add_task` produce when their generated
/// ids are fresh) are both accepted: the second id is still new after the
/// first addition, the store grows by two, and each id then finds its own
/// default task.
pub proof fn lemma_two_fresh_adds(tasks: Seq<TaskView>, id1: Seq<char>, id2: Seq<char>)
    requires
        !has_task(tasks, id1),
        !has_task(tasks, id2),
        id1 != id2,
    ensures
        ({
            let once = tasks.push(default_task(id1));
            let twice = once.push(default_task(id2));
            &&& !has_task(once, id2)
            &&& twice.len() == tasks.len() + 2
            &&& has_task(twice, id1) && twice[find_task(twice, id1)] == default_task(id1)
            &&& has_task(twice, id2) && twice[find_task(twice, id2)] == default_task(id2)
        }),
{
    let once = tasks.push(default_task(id1));
    let twice = once.push(default_task(id2));
    let n = tasks.len() as int;
    crate::controllers::clean_processes_controller::lemma_find_task(tasks, id1);
    crate::controllers::clean_processes_controller::lemma_find_task(tasks, id2);
    crate::controllers::clean_processes_controller::lemma_find_task(once, id2);
    let f2 = find_task(once, id2);
    if f2 < once.len() {
        if f2 < n {
            assert(once[f2] == tasks[f2]);
        }
    }
    crate::controllers::clean_processes_controller::lemma_get_after_add(once, default_task(id2));
    crate::controllers::clean_processes_controller::lemma_find_task(twice, id1);
    let f1 = find_task(twice, id1);
    assert(twice[n] == default_task(id1));
    if f1 < n {
        assert(twice[f1] == tasks[f1]);
    }
    if f1 > n {
        assert(twice[n].id == id1);
    }
    assert(f1 == n);
}

} // verus!
