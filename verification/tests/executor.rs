use task_heap::commands::Commands;
use task_heap::error::HeapError;
use task_heap::executor::answer_is_yes;
use task_heap::executor::consume;
use task_heap::executor::Action;
use task_heap::executor::Executor;
use task_heap::executor::Prompt;
use task_heap::heap::TaskHeap;
use task_heap::task::Task;
use task_heap::tokenizer::tokenize;

fn strings(items: &[&str]) -> Vec<String> {
    items.iter().map(|s| s.to_string()).collect()
}

fn commands(args: &[&str]) -> Vec<Commands> {
    let line = tokenize(&strings(args)).unwrap();
    assert!(line.unknown.is_empty());
    line.commands
}

fn names(heap: &TaskHeap) -> Vec<String> {
    (0..heap.len()).map(|i| heap.get_at(i).unwrap().get_name().to_string()).collect()
}

fn two_tasks() -> TaskHeap {
    let mut walk = Executor::new(
        TaskHeap::new(),
        commands(&[
            "--push", "Buy", "milk", "--weight", "50", "--tag", "home", "--push", "Write", "report",
            "--weight", "50", "--tag", "work",
        ]),
    );
    assert!(matches!(walk.step(), Ok(Action::Applied(w)) if w.is_empty()));
    assert!(matches!(walk.step(), Ok(Action::Applied(w)) if w.is_empty()));
    assert!(matches!(walk.step(), Ok(Action::Done)));
    walk.finish().unwrap()
}

#[test]
fn qualifiers_are_consumed_greedily() {
    let list = commands(&["--push", "a", "-w", "1", "-at", "x", "-n", "b", "-p", "d", "--pop", "-at", "x", "-at", "y", "-w", "2"]);
    assert_eq!(consume(&list, 0), 3);
    assert_eq!(consume(&list, 3), 4);
    assert_eq!(consume(&list, 4), 5);
    assert_eq!(consume(&list, 5), 8);
    assert_eq!(consume(&list, 8), 9);
}

#[test]
fn pop_with_one_candidate_always_takes_it() {
    for _ in 0..100 {
        let mut walk = Executor::new(two_tasks(), commands(&["--pop", "--tag", "home"]));
        match walk.step() {
            Ok(Action::Confirm(Prompt::Pop, tasks)) => {
                assert_eq!(tasks.len(), 1);
                assert_eq!(tasks[0].get_name(), "Buy milk");
            }
            other => panic!("{:?}", other),
        }
        assert!(walk.has_question());
        assert!(walk.answer("y"));
        assert!(!walk.has_question());
        assert!(matches!(walk.step(), Ok(Action::Done)));
        assert_eq!(names(&walk.finish().unwrap()), strings(&["Write report"]));
    }
}

#[test]
fn pop_takes_the_task_that_the_draw_counts_to() {
    let mut walk = Executor::new(two_tasks(), commands(&["--pop"]));
    assert_eq!(walk.pop_weights(), Some(vec![50, 50]));
    match walk.step_with_draw(1) {
        Ok(Action::Confirm(Prompt::Pop, tasks)) => assert_eq!(tasks[0].get_name(), "Write report"),
        other => panic!("{:?}", other),
    }
    assert!(walk.answer(" Y \n"));
    assert_eq!(names(walk.heap()), strings(&["Buy milk"]));
    let mut walk = Executor::new(two_tasks(), commands(&["--pop"]));
    assert!(matches!(walk.step_with_draw(2), Err(HeapError::IndexError(op)) if op == "pop"));
    assert!(walk.has_failed());
}

#[test]
fn declined_pop_changes_nothing() {
    for answer in ["n", "", "yes", "yy", "no", "ÿ"] {
        let mut walk = Executor::new(two_tasks(), commands(&["--pop"]));
        assert!(matches!(walk.step(), Ok(Action::Confirm(Prompt::Pop, _))));
        assert!(!walk.answer(answer));
        assert!(matches!(walk.step(), Ok(Action::Done)));
        assert_eq!(walk.finish().unwrap().len(), 2);
    }
}

#[test]
fn unanswered_question_is_dropped() {
    let mut walk = Executor::new(two_tasks(), commands(&["--reset", "--list"]));
    assert!(matches!(walk.step(), Ok(Action::Confirm(Prompt::Reset, t)) if t.is_empty()));
    assert!(matches!(walk.step(), Ok(Action::Show(t)) if t.len() == 2));
    assert!(!walk.answer("y"));
    assert_eq!(walk.finish().unwrap().len(), 2);
}

#[test]
fn pop_on_an_empty_heap_fails() {
    let mut walk = Executor::new(TaskHeap::new(), commands(&["--pop"]));
    assert_eq!(walk.pop_weights(), Some(Vec::new()));
    assert!(matches!(walk.step(), Err(HeapError::NoTasksOnHeap)));
    assert!(walk.has_failed());
    assert!(walk.finish().is_none());
}

#[test]
fn pop_without_a_match_fails() {
    let mut walk = Executor::new(two_tasks(), commands(&["--pop", "--tag", "home,work"]));
    assert!(matches!(walk.step(), Err(HeapError::NoTaggedElements(t)) if t == "home,work"));
}

#[test]
fn pop_joins_the_tags_of_every_qualifier() {
    let mut heap = two_tasks();
    heap.insert(Task::new("Both", "", 1, strings(&["home", "work"])));
    let mut walk = Executor::new(heap, commands(&["--pop", "--tag", "home", "--tag", "work"]));
    match walk.step() {
        Ok(Action::Confirm(Prompt::Pop, tasks)) => assert_eq!(tasks[0].get_name(), "Both"),
        other => panic!("{:?}", other),
    }
}

#[test]
fn pop_among_weightless_tasks_fails() {
    let mut heap = TaskHeap::new();
    heap.insert(Task::new("a", "", 0, Vec::new()));
    heap.insert(Task::new("b", "", 0, Vec::new()));
    let mut walk = Executor::new(heap, commands(&["--pop"]));
    assert!(matches!(walk.step(), Err(HeapError::DegenerateWeights)));
    assert!(walk.finish().is_none());
}

#[test]
fn weightless_task_is_never_popped() {
    for _ in 0..100 {
        let mut heap = TaskHeap::new();
        heap.insert(Task::new("zero", "", 0, Vec::new()));
        heap.insert(Task::new("some", "", 3, Vec::new()));
        let mut walk = Executor::new(heap, commands(&["--pop"]));
        match walk.step() {
            Ok(Action::Confirm(Prompt::Pop, tasks)) => assert_eq!(tasks[0].get_name(), "some"),
            other => panic!("{:?}", other),
        }
    }
}

#[test]
fn rename_then_list_shows_the_new_name_only() {
    let mut walk = Executor::new(
        two_tasks(),
        commands(&["--edit", "Buy milk", "--name", "Buy oat milk", "--list", "--tag", "home"]),
    );
    assert!(matches!(walk.step(), Ok(Action::Applied(w)) if w.is_empty()));
    match walk.step() {
        Ok(Action::Show(tasks)) => {
            assert_eq!(tasks.len(), 1);
            assert_eq!(tasks[0].get_name(), "Buy oat milk");
            assert_eq!(tasks[0].get_weight(), 50);
            assert_eq!(tasks[0].get_tags(), vec!["home"]);
        }
        other => panic!("{:?}", other),
    }
    assert!(matches!(walk.step(), Ok(Action::Done)));
    let heap = walk.finish().unwrap();
    assert!(!heap.contains_key(&Task::hash_fn("Buy milk")));
    assert!(heap.contains_key(&Task::hash_fn("Buy oat milk")));
    assert_eq!(heap.len(), 2);
}

#[test]
fn delete_by_unmatched_tag_fails_and_keeps_the_store() {
    let mut walk = Executor::new(two_tasks(), commands(&["--delete", "--tag", "garden"]));
    assert!(matches!(walk.step(), Err(HeapError::NoTaggedElements(t)) if t == "garden"));
    assert_eq!(names(walk.heap()), strings(&["Buy milk", "Write report"]));
    assert!(walk.finish().is_none());
}

#[test]
fn delete_by_tag_takes_every_match() {
    let mut heap = two_tasks();
    heap.insert(Task::new("Call mum", "", 1, strings(&["home"])));
    let mut walk = Executor::new(heap, commands(&["--delete", "ignored", "--tag", "home"]));
    match walk.step() {
        Ok(Action::Confirm(Prompt::Delete, tasks)) => {
            let shown: Vec<&str> = tasks.iter().map(|t| t.get_name()).collect();
            assert_eq!(shown, vec!["Buy milk", "Call mum"]);
        }
        other => panic!("{:?}", other),
    }
    assert!(walk.answer("y"));
    assert_eq!(names(walk.heap()), strings(&["Write report"]));
}

#[test]
fn delete_by_name_takes_that_task() {
    let mut walk = Executor::new(two_tasks(), commands(&["--delete", "Write", "report"]));
    match walk.step() {
        Ok(Action::Confirm(Prompt::Delete, tasks)) => assert_eq!(tasks[0].get_name(), "Write report"),
        other => panic!("{:?}", other),
    }
    assert!(!walk.answer("n"));
    assert_eq!(walk.heap().len(), 2);
    let mut walk = Executor::new(two_tasks(), commands(&["--delete", "Write", "report"]));
    assert!(walk.step().is_ok());
    assert!(walk.answer("y"));
    assert_eq!(names(walk.heap()), strings(&["Buy milk"]));
}

#[test]
fn delete_needs_a_name_or_a_tag() {
    let mut walk = Executor::new(two_tasks(), commands(&["--delete"]));
    match walk.step() {
        Err(HeapError::MissingArgument((what, flag))) => {
            assert_eq!(what, "name or tag");
            assert_eq!(flag, "delete");
        }
        other => panic!("{:?}", other),
    }
    let mut walk = Executor::new(two_tasks(), commands(&["--delete", "Nope"]));
    assert!(matches!(walk.step(), Err(HeapError::TaskNotFound(n)) if n == "Nope"));
}

#[test]
fn reset_empties_the_heap_once_confirmed() {
    let mut walk = Executor::new(two_tasks(), commands(&["--reset"]));
    assert!(matches!(walk.step(), Ok(Action::Confirm(Prompt::Reset, _))));
    assert!(walk.answer("y"));
    assert!(walk.finish().unwrap().is_empty());
}

#[test]
fn list_shows_the_tasks_that_pass_the_filter() {
    let mut walk = Executor::new(two_tasks(), commands(&["--list", "--list", "--tag", "work"]));
    assert!(matches!(walk.step(), Ok(Action::Show(t)) if t.len() == 2));
    assert!(matches!(walk.step(), Ok(Action::Show(t)) if t.len() == 1 && t[0].get_name() == "Write report"));
}

#[test]
fn list_with_nothing_to_show_fails() {
    let mut walk = Executor::new(TaskHeap::new(), commands(&["--list"]));
    assert!(matches!(walk.step(), Err(HeapError::NoTaggedElements(t)) if t.is_empty()));
    let mut walk = Executor::new(two_tasks(), commands(&["--list", "--tag", "garden"]));
    assert!(matches!(walk.step(), Err(HeapError::NoTasksOnHeap)));
}

#[test]
fn standalone_qualifiers_are_passed_over() {
    let mut walk = Executor::new(
        two_tasks(),
        commands(&["--name", "x", "--help", "--tag", "a", "--clear-tags", "Buy milk", "--weight", "3"]),
    );
    assert!(matches!(walk.step(), Ok(Action::Ignored(0))));
    assert!(matches!(walk.step(), Ok(Action::Help)));
    assert!(matches!(walk.step(), Ok(Action::Ignored(2))));
    assert!(matches!(walk.step(), Ok(Action::Applied(w)) if w.is_empty()));
    assert!(matches!(walk.step(), Ok(Action::Ignored(4))));
    assert!(matches!(walk.step(), Ok(Action::Done)));
    assert!(matches!(walk.commands()[4], Commands::Weight(_)));
    let heap = walk.finish().unwrap();
    assert!(heap.get_at(0).unwrap().get_tags().is_empty());
    assert_eq!(heap.get_at(0).unwrap().get_weight(), 50);
}

#[test]
fn rejected_weights_are_reported() {
    let mut walk =
        Executor::new(TaskHeap::new(), commands(&["--push", "a", "--weight", "heavy", "--weight", "3", "--weight", "x y"]));
    assert!(matches!(walk.step(), Ok(Action::Applied(w)) if w == strings(&["heavy", "x y"])));
    assert_eq!(walk.heap().get_at(0).unwrap().get_weight(), 100);
}

#[test]
fn a_failed_command_discards_the_batch() {
    let mut walk = Executor::new(
        two_tasks(),
        commands(&["--push", "New", "--edit", "Missing", "--name", "x", "--push", "Later"]),
    );
    assert!(walk.step().is_ok());
    assert!(matches!(walk.step(), Err(HeapError::TaskNotFound(n)) if n == "Missing"));
    assert!(walk.has_failed());
    assert!(matches!(walk.step(), Ok(Action::Done)));
    assert!(!walk.answer("y"));
    assert!(walk.finish().is_none());
}

#[test]
fn a_walk_that_was_not_finished_gives_nothing_back() {
    let mut walk = Executor::new(two_tasks(), commands(&["--list", "--list"]));
    assert!(walk.step().is_ok());
    assert!(walk.finish().is_none());
    assert!(Executor::new(two_tasks(), Vec::new()).finish().is_some());
}

#[test]
fn push_of_a_taken_name_fails() {
    let mut walk = Executor::new(two_tasks(), commands(&["--push", "Buy", "milk", "--weight", "1"]));
    assert!(matches!(walk.step(), Err(HeapError::TaskAlreadyExists(n)) if n == "Buy milk"));
    assert_eq!(walk.heap().get_at(0).unwrap().get_weight(), 50);
}

#[test]
fn only_y_confirms() {
    assert!(answer_is_yes("y"));
    assert!(answer_is_yes("Y"));
    assert!(answer_is_yes("  y\n"));
    assert!(!answer_is_yes("yes"));
    assert!(!answer_is_yes(""));
    assert!(!answer_is_yes("n"));
    for word in ["y", "Y", "yes", "n", "ý", "Ｙ", ""] {
        assert_eq!(answer_is_yes(word), word.to_lowercase() == "y", "{:?}", word);
    }
}
