use foxinsocks::controllers::clean_processes_controller::{CleanProcessController, CleaningJob};
use foxinsocks::models::task_model::{TaskModel, TaskStatus};
use foxinsocks::models::task_process_model::TaskProcessModel;

fn task(id: &str, title: &str) -> TaskModel {
    let mut t = TaskModel::new_with_id(id.to_string());
    t.title = title.to_string();
    t
}

fn runtime() -> tokio::runtime::Runtime {
    tokio::runtime::Runtime::new().unwrap()
}

#[test]
fn new_task_has_documented_defaults() {
    let t = TaskModel::new_default();
    assert_eq!(t.id.len(), 36);
    assert_eq!(t.id.chars().nth(8), Some('-'));
    assert_eq!(t.id.chars().nth(23), Some('-'));
    assert_eq!(t.id.chars().nth(14), Some('4'));
    assert!(matches!(t.id.chars().nth(19), Some('8' | '9' | 'a' | 'b')));
    assert!(t.id.chars().all(|c| c == '-' || c.is_ascii_digit() || ('a'..='f').contains(&c)));
    assert_eq!(t.title, "New Task");
    assert_eq!(t.description, "");
    assert!(!t.auto_run);
    assert_eq!(t.auto_run_interval, 60);
    assert_eq!(t.task_process_id, 0);
    assert_eq!(t.status, TaskStatus::Idle);
    assert!(t.regex_patterns.is_empty());
    assert_eq!(t.folder_path, "");
    assert_eq!(t.number_of_dup_to_keep, 2);
    let other = TaskModel::default();
    assert_ne!(other.id, t.id);
    assert_eq!(TaskStatus::default(), TaskStatus::Idle);
}

#[test]
fn add_then_get_returns_task() {
    let mut c = CleanProcessController::with_tasks(Vec::new());
    let added = c.add_task(&task("a", "first")).ok().unwrap();
    assert_eq!(added.id, "a");
    assert_eq!(c.get_task("a").unwrap().title, "first");
    assert!(c.get_task("b").is_none());
}

#[test]
fn add_with_existing_id_is_refused() {
    let mut c = CleanProcessController::with_tasks(vec![task("a", "first")]);
    let res = c.add_task(&task("a", "second"));
    assert_eq!(res.err().unwrap(), "W systemie istnieje już task o takim Id");
    assert_eq!(c.tasks.len(), 1);
    assert_eq!(c.get_task("a").unwrap().title, "first");
}

#[test]
fn update_replaces_first_match() {
    let mut c = CleanProcessController::with_tasks(vec![task("a", "one"), task("b", "two"), task("a", "dup")]);
    assert_eq!(c.update_task(&task("a", "new")), Ok("Task zaktualizowany".to_string()));
    assert_eq!(c.tasks[0].title, "new");
    assert_eq!(c.tasks[2].title, "dup");
    assert_eq!(c.update_task(&task("z", "x")), Err("Nie znaleziono taska".to_string()));
}

#[test]
fn delete_removes_first_match() {
    let mut c = CleanProcessController::with_tasks(vec![task("a", "one"), task("b", "two")]);
    assert_eq!(c.delete_task("a"), Ok("Udało się usunąć taska".to_string()));
    assert!(c.get_task("a").is_none());
    assert_eq!(c.tasks.len(), 1);
    assert_eq!(c.delete_task("a"), Err("Nie znaleziono taska".to_string()));
}

#[test]
fn create_process_schedules_task_and_blocks_second() {
    let rt = runtime();
    let mut c = CleanProcessController::with_tasks(vec![task("a", "one")]);
    let mut t = c.get_task("a").unwrap().clone();
    assert!(c.create_process(&mut t, rt.spawn(async {})).is_ok());
    assert_eq!(t.status, TaskStatus::Sheduled);
    assert_eq!(c.get_task("a").unwrap().status, TaskStatus::Sheduled);
    assert!(c.has_process("a"));
    let mut again = c.get_task("a").unwrap().clone();
    let second = rt.spawn(async {
        loop {
            tokio::time::sleep(std::time::Duration::from_millis(5)).await;
        }
    });
    let second_id = second.id();
    let (msg, handed_back) = c.create_process(&mut again, second).err().unwrap();
    assert_eq!(msg, "Task znajduje się już w procesach");
    assert_eq!(handed_back.id(), second_id);
    assert_eq!(c.tasks_processes.len(), 1);
    handed_back.abort();
    assert!(rt.block_on(handed_back).unwrap_err().is_cancelled());
}

#[test]
fn stop_process_drops_all_entries_of_task() {
    let rt = runtime();
    let mut c = CleanProcessController::with_tasks(Vec::new());
    c.tasks_processes.push(TaskProcessModel::new(rt.spawn(async {}), "a".to_string()));
    c.tasks_processes.push(TaskProcessModel::new(rt.spawn(async {}), "b".to_string()));
    c.tasks_processes.push(TaskProcessModel::new(rt.spawn(async {}), "a".to_string()));
    let first_id = c.tasks_processes[0].process.id();
    let stopped = c.stop_process("a").ok().unwrap();
    assert_eq!(stopped.task_id, "a");
    assert_eq!(stopped.process.id(), first_id);
    assert_eq!(c.tasks_processes.len(), 1);
    assert_eq!(c.tasks_processes[0].task_id, "b");
    assert_eq!(c.stop_process("a").err().unwrap(), "Błąd podczas zatrzymywania procesu");
    assert!(!c.has_process("a"));
}

#[test]
fn stop_process_aborts_running_loop() {
    let rt = runtime();
    let mut c = CleanProcessController::with_tasks(vec![task("a", "one")]);
    let mut t = c.get_task("a").unwrap().clone();
    let handle = rt.spawn(async {
        loop {
            tokio::time::sleep(std::time::Duration::from_millis(5)).await;
        }
    });
    let spawned_id = handle.id();
    assert!(c.create_process(&mut t, handle).is_ok());
    let stopped = c.stop_process("a").ok().unwrap();
    assert_eq!(stopped.process.id(), spawned_id);
    assert!(c.tasks_processes.is_empty());
    if !stopped.process.is_finished() {
        stopped.process.abort();
    }
    assert!(rt.block_on(stopped.process).unwrap_err().is_cancelled());
}

#[test]
fn cleaning_job_copies_task_settings() {
    let mut t = task("a", "one");
    t.regex_patterns = vec!["^x".to_string()];
    t.folder_path = "/tmp/x".to_string();
    t.auto_run_interval = 15;
    t.number_of_dup_to_keep = 3;
    let job = CleaningJob::for_task(&t);
    assert_eq!(job.regex_patterns, vec!["^x".to_string()]);
    assert_eq!(job.folder_path, "/tmp/x");
    assert_eq!(job.interval, 15);
    assert_eq!(job.dup_to_leave, 3);
    assert_eq!(job.sleep_seconds(), 900);
}
