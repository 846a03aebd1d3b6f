use task_heap::commands::Commands;
use task_heap::error::HeapError;
use task_heap::heap::apply_qualifier;
use task_heap::heap::collect_filter_tags;
use task_heap::heap::extract_array_by_tag;
use task_heap::heap::find_rejected_weights;
use task_heap::heap::or_empty;
use task_heap::heap::same_key;
use task_heap::heap::TaskHeap;
use task_heap::task::Task;

fn strings(items: &[&str]) -> Vec<String> {
    items.iter().map(|s| s.to_string()).collect()
}

fn names(heap: &TaskHeap) -> Vec<String> {
    (0..heap.len()).map(|i| heap.get_at(i).unwrap().get_name().to_string()).collect()
}

fn sample() -> TaskHeap {
    let mut heap = TaskHeap::new();
    heap.insert(Task::new("Buy milk", "two litres", 50, strings(&["home", "shop"])));
    heap.insert(Task::new("Write report", "", 50, strings(&["work"])));
    heap.insert(Task::new("Call mum", "", 10, strings(&["home"])));
    heap
}

#[test]
fn new_heap_is_empty() {
    let heap = TaskHeap::new();
    assert!(heap.is_empty());
    assert_eq!(heap.len(), 0);
    assert!(heap.get_at(0).is_none());
    assert!(!heap.contains_key(&Task::hash_fn("a")));
}

#[test]
fn keys_are_compared_bytewise() {
    assert!(same_key(&Task::hash_fn("a"), &Task::hash_fn("a")));
    assert!(!same_key(&Task::hash_fn("a"), &Task::hash_fn("b")));
    let mut twin = Task::hash_fn("a");
    twin[31] ^= 1;
    assert!(!same_key(&Task::hash_fn("a"), &twin));
}

#[test]
fn tasks_are_found_by_key() {
    let heap = sample();
    assert_eq!(heap.len(), 3);
    assert_eq!(heap.find(&Task::hash_fn("Write report")), Some(1));
    assert_eq!(heap.find(&Task::hash_fn("write report")), None);
    assert!(heap.contains_key(&Task::hash_fn("Call mum")));
    assert_eq!(heap.get(&Task::hash_fn("Buy milk")).unwrap().get_description(), "two litres");
    assert!(heap.get(&Task::hash_fn("nope")).is_none());
}

#[test]
fn insert_replaces_the_task_of_the_same_name() {
    let mut heap = sample();
    heap.insert(Task::new("Write report", "again", 7, Vec::new()));
    assert_eq!(names(&heap), strings(&["Buy milk", "Write report", "Call mum"]));
    assert_eq!(heap.get_at(1).unwrap().get_weight(), 7);
}

#[test]
fn remove_takes_one_task_out() {
    let mut heap = sample();
    let gone = heap.remove(&Task::hash_fn("Buy milk")).unwrap();
    assert_eq!(gone.get_name(), "Buy milk");
    assert!(heap.remove(&Task::hash_fn("Buy milk")).is_none());
    assert_eq!(names(&heap), strings(&["Write report", "Call mum"]));
    assert!(heap.remove_at(2).is_none());
    assert_eq!(heap.remove_at(1).unwrap().get_name(), "Call mum");
    heap.clear();
    assert!(heap.is_empty());
}

#[test]
fn matching_places_follow_the_filter() {
    let heap = sample();
    assert_eq!(heap.matching(&[]), vec![0, 1, 2]);
    assert_eq!(heap.matching(&strings(&["home"])), vec![0, 2]);
    assert_eq!(heap.matching(&strings(&["home", "shop"])), vec![0]);
    assert_eq!(heap.matching(&strings(&["home", "work"])), Vec::<usize>::new());
    let found = extract_array_by_tag(&heap, &strings(&["home"]));
    let found: Vec<&str> = found.iter().map(|t| t.get_name()).collect();
    assert_eq!(found, vec!["Buy milk", "Call mum"]);
    assert_eq!(extract_array_by_tag(&heap, &[]).len(), 3);
    let copies = heap.copies(&vec![2, 0]);
    assert_eq!(copies[0].get_name(), "Call mum");
    assert_eq!(copies[1].get_name(), "Buy milk");
}

#[test]
fn remove_matching_takes_the_tagged_out() {
    let mut heap = sample();
    heap.remove_matching(&strings(&["home"]));
    assert_eq!(names(&heap), strings(&["Write report"]));
    heap.remove_matching(&strings(&["nope"]));
    assert_eq!(names(&heap), strings(&["Write report"]));
    heap.remove_matching(&[]);
    assert!(heap.is_empty());
}

#[test]
fn push_applies_the_qualifiers() {
    let mut heap = TaskHeap::new();
    let qualifiers = vec![
        Commands::Description("two litres".to_string()),
        Commands::Weight("50".to_string()),
        Commands::Tag(strings(&["home", "shop"])),
        Commands::Tag(strings(&["home", "cold"])),
    ];
    heap.push("Buy milk", &qualifiers).unwrap();
    let task = heap.get(&Task::hash_fn("Buy milk")).unwrap();
    assert_eq!(task.get_description(), "two litres");
    assert_eq!(task.get_weight(), 50);
    assert_eq!(task.get_tags(), vec!["home", "shop", "cold"]);
    heap.push("Plain", &[]).unwrap();
    assert_eq!(heap.get_at(1).unwrap().get_weight(), 100);
}

#[test]
fn push_refuses_a_taken_name() {
    let mut heap = sample();
    match heap.push("Buy milk", &[Commands::Weight("1".to_string())]) {
        Err(HeapError::TaskAlreadyExists(name)) => assert_eq!(name, "Buy milk"),
        other => panic!("{:?}", other),
    }
    assert_eq!(heap.len(), 3);
    assert_eq!(heap.get_at(0).unwrap().get_weight(), 50);
}

#[test]
fn edit_changes_in_place() {
    let mut heap = sample();
    let qualifiers = vec![
        Commands::Description("three litres".to_string()),
        Commands::Weight("lots".to_string()),
        Commands::Untag(strings(&["shop"])),
        Commands::Tag(strings(&["urgent"])),
    ];
    heap.edit("Buy milk", &qualifiers).unwrap();
    assert_eq!(names(&heap), strings(&["Buy milk", "Write report", "Call mum"]));
    let task = heap.get_at(0).unwrap();
    assert_eq!(task.get_description(), "three litres");
    assert_eq!(task.get_weight(), 100);
    assert_eq!(task.get_tags(), vec!["home", "urgent"]);
}

#[test]
fn rename_moves_the_task_to_its_new_key() {
    let mut heap = sample();
    heap.edit("Buy milk", &[Commands::Name("Buy oat milk".to_string())]).unwrap();
    assert!(!heap.contains_key(&Task::hash_fn("Buy milk")));
    let task = heap.get(&Task::hash_fn("Buy oat milk")).unwrap();
    assert_eq!(task.get_name(), "Buy oat milk");
    assert_eq!(task.get_description(), "two litres");
    assert_eq!(task.get_weight(), 50);
    assert_eq!(task.get_tags(), vec!["home", "shop"]);
    assert_eq!(heap.len(), 3);
    assert_eq!(names(&heap), strings(&["Write report", "Call mum", "Buy oat milk"]));
}

#[test]
fn rename_to_the_same_name_keeps_the_place() {
    let mut heap = sample();
    heap.edit("Write report", &[Commands::Name("Write report".to_string())]).unwrap();
    assert_eq!(names(&heap), strings(&["Buy milk", "Write report", "Call mum"]));
}

#[test]
fn rename_onto_a_taken_name_replaces_that_task() {
    let mut heap = sample();
    heap.edit("Buy milk", &[Commands::Name("Call mum".to_string())]).unwrap();
    assert_eq!(names(&heap), strings(&["Write report", "Call mum"]));
    assert_eq!(heap.get_at(1).unwrap().get_description(), "two litres");
}

#[test]
fn edit_of_a_missing_task_fails() {
    let mut heap = sample();
    match heap.edit("Nope", &[Commands::Name("x".to_string())]) {
        Err(HeapError::TaskNotFound(name)) => assert_eq!(name, "Nope"),
        other => panic!("{:?}", other),
    }
    assert_eq!(names(&heap), strings(&["Buy milk", "Write report", "Call mum"]));
}

#[test]
fn clear_tags_empties_the_tags() {
    let mut heap = sample();
    heap.clear_tags("Buy milk").unwrap();
    assert!(heap.get_at(0).unwrap().get_tags().is_empty());
    assert_eq!(heap.get_at(0).unwrap().get_name(), "Buy milk");
    assert!(matches!(heap.clear_tags("Nope"), Err(HeapError::TaskNotFound(n)) if n == "Nope"));
}

#[test]
fn qualifiers_act_one_by_one() {
    let mut task = Task::from_arg("a");
    apply_qualifier(&mut task, &Commands::Name("b".to_string()));
    apply_qualifier(&mut task, &Commands::Pop);
    apply_qualifier(&mut task, &Commands::Push("c".to_string()));
    assert_eq!(task.get_name(), "b");
    let qualifiers = vec![
        Commands::Weight("1".to_string()),
        Commands::Weight("one".to_string()),
        Commands::Tag(strings(&["x", "y"])),
        Commands::Weight("".to_string()),
        Commands::Tag(strings(&["z"])),
    ];
    assert_eq!(find_rejected_weights(&qualifiers), strings(&["one", ""]));
    assert_eq!(collect_filter_tags(&qualifiers), strings(&["x", "y", "z"]));
}

#[test]
fn records_are_read_and_written() {
    let records = strings(&["Buy milk,two litres,50,home shop", "Write report", "Buy milk,,1,"]);
    let heap = TaskHeap::from_records(&records).unwrap();
    assert_eq!(names(&heap), strings(&["Buy milk", "Write report"]));
    assert_eq!(heap.get_at(0).unwrap().get_weight(), 1);
    assert_eq!(heap.to_records(), strings(&["Buy milk,,1,", "Write report,,100,"]));
    assert!(TaskHeap::from_records(&Vec::new()).unwrap().is_empty());
}

#[test]
fn first_corrupt_record_is_the_error() {
    let records = strings(&["a", ",b", "c,,x"]);
    match TaskHeap::from_records(&records) {
        Err(HeapError::CorruptData(row)) => assert_eq!(row, ",b"),
        other => panic!("{:?}", other),
    }
}

#[test]
fn a_missing_store_starts_empty() {
    assert!(or_empty(Err(HeapError::FileDoesNotExist)).unwrap().is_empty());
    assert_eq!(or_empty(Ok(sample())).unwrap().len(), 3);
    assert!(matches!(or_empty(Err(HeapError::CorruptData("x".to_string()))), Err(HeapError::CorruptData(r)) if r == "x"));
    let cause = std::io::Error::new(std::io::ErrorKind::Other, "no");
    assert!(matches!(or_empty(Err(HeapError::FileError(cause))), Err(HeapError::FileError(_))));
}
