use task_heap::error::HeapError;

#[test]
fn messages_name_what_went_wrong() {
    assert_eq!(HeapError::CorruptData("a,b,c".to_string()).message(), "Data row is corrupt: a,b,c");
    assert_eq!(HeapError::FileDoesNotExist.message(), "File does not exist");
    assert_eq!(
        HeapError::MissingArgument(("name".to_string(), "push".to_string())).message(),
        "A name is required for --push."
    );
    assert_eq!(HeapError::DoesNotTakeArg("pop".to_string()).message(), "--pop does not take arguments.");
    assert_eq!(HeapError::TagCannotBeEmpty.message(), "Tag cannot be empty or contain whitespace.\n");
    assert_eq!(
        HeapError::NoTaggedElements("a,b".to_string()).message(),
        "No elements found where tags a,b intersect.\n"
    );
    assert_eq!(HeapError::TaskNotFound("x".to_string()).message(), "Task \"x\" was not found.\n");
    assert_eq!(HeapError::TaskAlreadyExists("x".to_string()).message(), "Task \"x\" already exists.\n");
    assert_eq!(HeapError::NoTasksOnHeap.message(), "No tasks found in the heap.\n");
    assert_eq!(HeapError::IndexError("set_done".to_string()).message(), "Index out of range in set_done.\n");
    assert_eq!(
        HeapError::DegenerateWeights.message(),
        "The weights of the tasks to choose from add up to zero.\n"
    );
}

#[test]
fn file_error_message_holds_the_cause() {
    let cause = std::io::Error::new(std::io::ErrorKind::Other, "disk on fire");
    let error = HeapError::from(cause);
    assert!(matches!(error, HeapError::FileError(_)));
    assert_eq!(error.message(), "File Input Error: disk on fire");
}
