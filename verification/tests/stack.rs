use task_heap::error::HeapError;
use task_heap::stack::TaskStack;
use task_heap::task::Status;
use task_heap::task::Task;

fn strings(items: &[&str]) -> Vec<String> {
    items.iter().map(|s| s.to_string()).collect()
}

fn stack_of(names: &[&str]) -> TaskStack {
    let mut stack = TaskStack::new("work", "things to do", 10, strings(&["office"]));
    for name in names {
        stack.push(Task::from_arg(name));
    }
    stack
}

fn statuses(stack: &TaskStack) -> Vec<Status> {
    (0..stack.len()).map(|i| stack.get(i).unwrap().get_status()).collect()
}

#[test]
fn new_stack_is_empty() {
    let stack = TaskStack::new("work", "things to do", 10, strings(&["office", "office", "desk"]));
    assert_eq!(stack.get_name(), "work");
    assert_eq!(stack.get_description(), "things to do");
    assert_eq!(stack.get_weight(), 10);
    assert_eq!(stack.get_tags(), vec!["office", "desk"]);
    assert!(stack.is_empty());
    assert_eq!(stack.len(), 0);
}

#[test]
fn stack_setters_chain() {
    let mut stack = stack_of(&[]);
    stack.set_name("home").set_description("chores").set_weight(3);
    assert_eq!(stack.get_name(), "home");
    assert_eq!(stack.get_description(), "chores");
    assert_eq!(stack.get_weight(), 3);
}

#[test]
fn stack_has_tags_is_intersection() {
    let stack = TaskStack::new("s", "", 1, strings(&["a", "b"]));
    assert!(stack.has_tags(&[]));
    assert!(stack.has_tags(&strings(&["b", "a"])));
    assert!(!stack.has_tags(&strings(&["a", "c"])));
}

#[test]
fn tasks_keep_their_order() {
    let mut stack = stack_of(&[]);
    stack.push(Task::new("a", "", 1, Vec::new()));
    stack.push(Task::new("c", "", 3, Vec::new()));
    stack.insert(Task::new("b", "", 2, Vec::new()), 1);
    stack.insert(Task::new("z", "", 0, Vec::new()), 0);
    stack.insert(Task::new("e", "", 9, Vec::new()), 4);
    assert_eq!(stack.get_staged_weights(), vec![0, 1, 2, 3, 9]);
    assert!(stack.delete(0));
    assert!(!stack.delete(4));
    assert!(stack.delete(3));
    assert_eq!(stack.get_staged_weights(), vec![1, 2, 3]);
    assert_eq!(stack.len(), 3);
    stack.clear_all();
    assert!(stack.is_empty());
    assert!(!stack.delete(0));
}

#[test]
fn set_done_out_of_range_is_an_index_error() {
    let mut stack = stack_of(&["a"]);
    assert!(matches!(stack.set_done(1), Err(HeapError::IndexError(op)) if op == "set_done"));
    assert!(matches!(stack_of(&[]).set_done(0), Err(HeapError::IndexError(_))));
    assert!(matches!(stack.stage(5), Err(HeapError::IndexError(op)) if op == "stage"));
    assert!(matches!(stack.unstage(5), Err(HeapError::IndexError(op)) if op == "unstage"));
    assert_eq!(stack.len(), 1);
}

fn weighted(names_and_weights: &[(&str, u32)]) -> TaskStack {
    let mut stack = TaskStack::new("s", "", 1, Vec::new());
    for (name, weight) in names_and_weights {
        stack.push(Task::new(name, "", *weight, Vec::new()));
    }
    stack
}

#[test]
fn finishing_the_only_staged_task_stages_the_next() {
    let mut stack = weighted(&[("a", 1), ("b", 2), ("c", 3)]);
    stack.stage(0).unwrap();
    assert_eq!(statuses(&stack), vec![Status::Staged, Status::Unstaged, Status::Unstaged]);
    stack.set_done(0).unwrap();
    assert_eq!(statuses(&stack), vec![Status::Finished, Status::Staged, Status::Unstaged]);
    stack.set_done(1).unwrap();
    assert_eq!(statuses(&stack), vec![Status::Finished, Status::Finished, Status::Staged]);
    stack.set_done(2).unwrap();
    assert_eq!(statuses(&stack), vec![Status::Finished, Status::Finished, Status::Finished]);
    stack.set_done(0).unwrap();
    assert_eq!(statuses(&stack), vec![Status::Finished, Status::Finished, Status::Finished]);
    assert!(stack.get(3).is_none());
}

#[test]
fn set_done_stages_one_task_at_most() {
    let mut stack = weighted(&[("a", 1), ("b", 2), ("c", 3), ("d", 4)]);
    stack.set_done(3).unwrap();
    assert_eq!(
        statuses(&stack),
        vec![Status::Staged, Status::Unstaged, Status::Unstaged, Status::Finished]
    );
    stack.stage(2).unwrap();
    stack.set_done(0).unwrap();
    assert_eq!(
        statuses(&stack),
        vec![Status::Finished, Status::Unstaged, Status::Staged, Status::Finished]
    );
    stack.set_done(2).unwrap();
    assert_eq!(
        statuses(&stack),
        vec![Status::Finished, Status::Staged, Status::Finished, Status::Finished]
    );
    stack.unstage(1).unwrap();
    assert_eq!(statuses(&stack)[1], Status::Unstaged);
}

#[test]
fn clear_done_keeps_the_order_of_the_rest() {
    let mut stack = weighted(&[("a", 1), ("b", 2), ("c", 3), ("d", 4), ("e", 5)]);
    stack.set_done(1).unwrap();
    stack.set_done(3).unwrap();
    stack.clear_done();
    assert_eq!(stack.get_staged_weights(), vec![1, 3, 5]);
    stack.clear_done();
    assert_eq!(stack.get_staged_weights(), vec![1, 3, 5]);
    assert_eq!(stack.get(1).unwrap().get_name(), "c");
}

#[test]
fn summary_names_the_fields() {
    let mut stack = TaskStack::new("work", "things to do", 10, strings(&["office", "de\"sk"]));
    stack.push(Task::from_arg("a"));
    stack.push(Task::from_arg("b"));
    assert_eq!(
        stack.summary(),
        "TaskStack { name: work, description: things to do, weight: 10, tags: {\"office\", \"de\\\"sk\"}, tasks: 2 }"
    );
    assert_eq!(
        TaskStack::new("", "", 0, Vec::new()).summary(),
        "TaskStack { name: , description: , weight: 0, tags: {}, tasks: 0 }"
    );
}
