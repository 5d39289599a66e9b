use foxinsocks::commands::commands::Backend;
use foxinsocks::models::task_model::{TaskModel, TaskStatus};

const NOT_INIT: &str = "Rust nie został zainicjalizowany! użyj metody init żeby to zmienić";

fn task(id: &str) -> TaskModel {
    TaskModel::new_with_id(id.to_string())
}

#[test]
fn commands_before_init_are_refused() {
    let rt = tokio::runtime::Runtime::new().unwrap();
    let mut b = Backend::new();
    assert!(!b.is_initialized());
    assert_eq!(b.get_tasks().err().unwrap(), NOT_INIT);
    assert_eq!(b.get_task("a").err().unwrap(), NOT_INIT);
    assert_eq!(b.add_task().err().unwrap(), NOT_INIT);
    assert_eq!(b.del_task("a").err().unwrap(), NOT_INIT);
    assert_eq!(b.prepare_run("a").err().unwrap(), NOT_INIT);
    assert_eq!(b.run_task("a", rt.spawn(async {})).err().unwrap().0, NOT_INIT);
    assert_eq!(b.stop_task("a").err().unwrap(), NOT_INIT);
    assert_eq!(b.update_task(&task("a")).err().unwrap(), NOT_INIT);
}

#[test]
fn init_only_once() {
    let mut b = Backend::new();
    assert_eq!(b.init(vec![task("a")]), Ok(()));
    assert_eq!(b.init(Vec::new()), Err("Rust jest już zainicjalizowany".to_string()));
    assert_eq!(b.get_tasks().ok().unwrap().len(), 1);
}

#[test]
fn add_get_delete_cycle() {
    let mut b = Backend::new();
    b.init(Vec::new()).unwrap();
    let t = b.add_task().ok().unwrap();
    assert_eq!(t.title, "New Task");
    assert_eq!(b.get_task(&t.id).ok().unwrap().id, t.id);
    assert_eq!(b.del_task(&t.id), Ok(()));
    assert_eq!(b.get_task(&t.id).err().unwrap(), format!("Nie znaleziono zadania dla id {}", t.id));
    assert_eq!(
        b.del_task(&t.id).err().unwrap(),
        "Nie udało się usunąć taska: Nie znaleziono taska"
    );
}

#[test]
fn add_new_task_with_taken_id_is_refused() {
    let mut b = Backend::new();
    b.init(vec![task("a")]).unwrap();
    assert_eq!(
        b.add_new_task(task("a")).err().unwrap(),
        "Nie udało się dodać nowego taska! W systemie istnieje już task o takim Id"
    );
}

#[test]
fn run_and_stop_task() {
    let rt = tokio::runtime::Runtime::new().unwrap();
    let mut b = Backend::new();
    let mut t = task("a");
    t.regex_patterns = vec!["^(x)".to_string()];
    b.init(vec![t]).unwrap();
    assert_eq!(b.prepare_run("zz").err().unwrap(), "Nie znaleziono zadania dla id zz");
    let job = b.prepare_run("a").ok().unwrap();
    assert_eq!(job.regex_patterns, vec!["^(x)".to_string()]);
    assert!(b.run_task("a", rt.spawn(async {})).is_ok());
    assert_eq!(b.get_task("a").ok().unwrap().status, TaskStatus::Sheduled);
    assert_eq!(b.prepare_run("a").err().unwrap(), "Błąd tworzenia procesu dla taska");
    assert_eq!(
        b.run_task("a", rt.spawn(async {})).err().unwrap().0,
        "Błąd tworzenia procesu dla taska"
    );
    assert_eq!(b.stop_task("a").ok().unwrap().task_id, "a");
    assert_eq!(b.stop_task("a").err().unwrap(), "Błąd zatrzymywania procesu dla taska");
    assert_eq!(b.stop_task("q").err().unwrap(), "Nie znaleziono zadania dla id q");
}

#[test]
fn update_task_stops_process_and_replaces() {
    let rt = tokio::runtime::Runtime::new().unwrap();
    let mut b = Backend::new();
    b.init(vec![task("a")]).unwrap();
    let handle = rt.spawn(async {});
    let spawned_id = handle.id();
    assert!(b.run_task("a", handle).is_ok());
    let mut changed = task("a");
    changed.title = "renamed".to_string();
    let stopped = b.update_task(&changed).ok().unwrap().unwrap();
    assert_eq!(stopped.process.id(), spawned_id);
    assert_eq!(stopped.task_id, "a");
    assert_eq!(b.get_task("a").ok().unwrap().title, "renamed");
    assert!(b.controller.as_ref().unwrap().tasks_processes.is_empty());
    assert_eq!(b.update_task(&task("nope")).err().unwrap(), "Nie znaleziono zadania dla id nope");
    assert!(b.update_task(&changed).ok().unwrap().is_none());
}

#[test]
fn refused_run_hands_back_the_spawned_loop() {
    let rt = tokio::runtime::Runtime::new().unwrap();
    let mut b = Backend::new();
    b.init(vec![task("a")]).unwrap();
    let handle = rt.spawn(async {
        loop {
            tokio::time::sleep(std::time::Duration::from_millis(5)).await;
        }
    });
    let spawned_id = handle.id();
    let (msg, back) = b.run_task("missing", handle).err().unwrap();
    assert_eq!(msg, "Nie znaleziono zadania dla id missing");
    assert_eq!(back.id(), spawned_id);
    back.abort();
    assert!(rt.block_on(back).unwrap_err().is_cancelled());
}
