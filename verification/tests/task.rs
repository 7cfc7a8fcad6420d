use asset_pipeline::task::resolved_or_given;
use asset_pipeline::task::{Action, Task, TaskStore};

fn s(x: &str) -> String {
    x.to_string()
}

fn paths(v: &[&str]) -> Vec<String> {
    v.iter().map(|p| p.to_string()).collect()
}

#[test]
fn stale_when_input_newer_than_output() {
    assert!(Task::is_stale(Some(&[5, 9]), Some(&[7, 8]), 100));
    assert!(!Task::is_stale(Some(&[5, 7]), Some(&[7, 8]), 100));
    assert!(!Task::is_stale(Some(&[5, 6]), Some(&[7, 8]), 100));
}

#[test]
fn unknown_times_use_now_and_epoch() {
    // unreadable inputs count as now, unreadable outputs as the epoch
    assert!(Task::is_stale(None, Some(&[50]), 100));
    assert!(!Task::is_stale(None, Some(&[150]), 100));
    assert!(Task::is_stale(Some(&[1]), None, 100));
    assert!(Task::is_stale(Some(&[]), Some(&[]), 100));
    assert!(!Task::is_stale(Some(&[-5]), Some(&[]), 100));
    assert!(!Task::is_stale(Some(&[0]), None, 100));
}

#[test]
fn new_task_keeps_its_parts() {
    let t = Task::new(Action::Atlas, paths(&["a"]), paths(&["b", "c"]));
    assert_eq!(t.action, Action::Atlas);
    assert_eq!(t.inputs, paths(&["a"]));
    assert_eq!(t.outputs, paths(&["b", "c"]));
}

#[test]
fn store_lists_tasks_under_each_input() {
    let mut store = TaskStore::new();
    store.add_resolved(Action::Atlas, paths(&["x", "y"]), paths(&["o1"]));
    store.add_resolved(Action::IosIcon, paths(&["y"]), paths(&["o2"]));
    assert_eq!(store.len(), 2);
    assert_eq!(store.tasks_for(&s("x")), vec![0]);
    assert_eq!(store.tasks_for(&s("y")), vec![0, 1]);
    assert_eq!(store.tasks_for(&s("z")), Vec::<usize>::new());
    assert_eq!(store.task(1).action, Action::IosIcon);
}

#[test]
fn task_without_input_goes_under_empty_path() {
    let mut store = TaskStore::new();
    store.add_resolved(Action::AndroidValues, Vec::new(), paths(&["strings.xml"]));
    assert_eq!(store.task(0).inputs, vec![String::new()]);
    assert_eq!(store.tasks_for(&String::new()), vec![0]);
}

#[test]
fn repeated_input_lists_task_twice() {
    let mut store = TaskStore::new();
    store.add_resolved(Action::Atlas, paths(&["a", "a"]), paths(&["o"]));
    assert_eq!(store.tasks_for(&s("a")), vec![0, 0]);
    let run = store.tasks_to_run();
    assert_eq!(run, vec![(s("a"), 0)]);
}

#[test]
fn every_task_runs_once() {
    let mut store = TaskStore::new();
    store.add_resolved(Action::Atlas, paths(&["a", "b", "c"]), paths(&["o1"]));
    store.add_resolved(Action::Atlas, paths(&["c", "d"]), paths(&["o2"]));
    store.add_resolved(Action::AndroidValues, Vec::new(), paths(&["o3"]));
    store.add_resolved(Action::Atlas, paths(&["b"]), paths(&["o4"]));
    let run = store.tasks_to_run();
    let mut ids: Vec<usize> = run.iter().map(|(_, id)| *id).collect();
    ids.sort();
    assert_eq!(ids, vec![0, 1, 2, 3]);
    for (path, id) in &run {
        assert!(store.task(*id).inputs.contains(path));
    }
}

#[test]
fn clear_forgets_everything() {
    let mut store = TaskStore::new();
    store.add_resolved(Action::Atlas, paths(&["a"]), paths(&["o"]));
    store.clear();
    assert_eq!(store.len(), 0);
    assert_eq!(store.tasks_for(&s("a")), Vec::<usize>::new());
    assert!(store.tasks_to_run().is_empty());
}

#[test]
fn add_resolves_existing_paths() {
    let mut store = TaskStore::new();
    store.add(Action::Atlas, &paths(&["/tmp/..", "/no/such/file/xyz"]), &paths(&["/tmp/../tmp"]));
    let t = store.task(0);
    assert_eq!(t.inputs, paths(&["/", "/no/such/file/xyz"]));
    assert_eq!(t.outputs, paths(&["/tmp"]));
    assert_eq!(store.tasks_for(&s("/")), vec![0]);
    assert_eq!(store.tasks_for(&s("/tmp/..")), Vec::<usize>::new());
}

#[test]
fn add_without_inputs_uses_empty_path() {
    let mut store = TaskStore::new();
    store.add(Action::AndroidValues, &[], &paths(&["/no/such/out.xml"]));
    assert_eq!(store.task(0).inputs, vec![String::new()]);
    assert_eq!(store.task(0).outputs, paths(&["/no/such/out.xml"]));
}

#[test]
fn tasks_found_under_any_spelling_of_the_path() {
    let mut store = TaskStore::new();
    store.add_resolved(Action::Atlas, paths(&["x", "a/./b"]), paths(&["o"]));
    store.add_resolved(Action::Atlas, paths(&["x/"]), paths(&["p"]));
    assert_eq!(store.tasks_for(&s("x")), vec![0, 1]);
    assert_eq!(store.tasks_for(&s("x//")), vec![0, 1]);
    assert_eq!(store.tasks_for(&s("a/b")), vec![0]);
    assert_eq!(store.tasks_for(&s("./x")), Vec::<usize>::new());
    assert_eq!(store.tasks_to_run().len(), 2);
}

#[test]
fn resolved_path_or_given() {
    assert_eq!(resolved_or_given(&s("rel"), &Some(s("/abs/rel"))), "/abs/rel");
    assert_eq!(resolved_or_given(&s("rel"), &None), "rel");
}

#[test]
fn unresolved_paths_kept_as_given() {
    let mut store = TaskStore::new();
    store.add_with_outcomes(
        Action::IosIcon,
        &paths(&["bg.svg", "fg.svg"]),
        &paths(&["out/icon.png"]),
        &[Some(s("/work/bg.svg")), None],
        &[None],
    );
    assert_eq!(store.task(0).action, Action::IosIcon);
    assert_eq!(store.task(0).inputs, paths(&["/work/bg.svg", "fg.svg"]));
    assert_eq!(store.task(0).outputs, paths(&["out/icon.png"]));
    assert_eq!(store.tasks_for(&s("fg.svg")), vec![0]);
    assert_eq!(store.tasks_for(&s("/work/bg.svg")), vec![0]);
    assert_eq!(store.tasks_for(&s("bg.svg")), Vec::<usize>::new());
}

#[test]
fn missing_files_kept_as_given() {
    let mut store = TaskStore::new();
    store.add(Action::Atlas, &paths(&["/no/such/dir/a.ase"]), &paths(&["/no/such/dir/out.png"]));
    assert_eq!(store.task(0).inputs, paths(&["/no/such/dir/a.ase"]));
    assert_eq!(store.task(0).outputs, paths(&["/no/such/dir/out.png"]));
}
