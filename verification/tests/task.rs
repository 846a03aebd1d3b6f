use task_heap::error::HeapError;
use task_heap::task::Status;
use task_heap::task::Task;
use task_heap::task::DEFAULT_WEIGHT;

fn strings(items: &[&str]) -> Vec<String> {
    items.iter().map(|s| s.to_string()).collect()
}

#[test]
fn new_task_holds_its_fields() {
    let task = Task::new("Buy milk", "two litres", 50, strings(&["home", "shop", "home"]));
    assert_eq!(task.get_name(), "Buy milk");
    assert_eq!(task.get_description(), "two litres");
    assert_eq!(task.get_weight(), 50);
    assert_eq!(task.get_tags(), vec!["home", "shop"]);
    assert_eq!(task.get_status(), Status::Unstaged);
}

#[test]
fn from_arg_uses_defaults() {
    let task = Task::from_arg("Write report");
    assert_eq!(task.get_name(), "Write report");
    assert_eq!(task.get_description(), "");
    assert_eq!(task.get_weight(), 100);
    assert_eq!(DEFAULT_WEIGHT, 100);
    assert!(task.get_tags().is_empty());
    assert!(task.is_unstaged());
}

#[test]
fn hash_is_sha256_of_the_name() {
    let expected: [u8; 32] = [
        0xba, 0x78, 0x16, 0xbf, 0x8f, 0x01, 0xcf, 0xea, 0x41, 0x41, 0x40, 0xde, 0x5d, 0xae, 0x22,
        0x23, 0xb0, 0x03, 0x61, 0xa3, 0x96, 0x17, 0x7a, 0x9c, 0xb4, 0x10, 0xff, 0x61, 0xf2, 0x00,
        0x15, 0xad,
    ];
    assert_eq!(Task::hash_fn("abc"), expected);
    assert_eq!(Task::from_arg("abc").get_hash(), expected);
    assert_ne!(Task::hash_fn("abd"), expected);
}

#[test]
fn hash_is_stable_across_calls() {
    for name in ["", "a", "Buy milk", "Größe", "名前"] {
        assert_eq!(Task::hash_fn(name), Task::hash_fn(name));
        assert_eq!(Task::from_arg(name).get_hash(), Task::hash_fn(name));
    }
}

#[test]
fn rename_changes_the_hash_only() {
    let mut task = Task::new("Buy milk", "two litres", 50, strings(&["home"]));
    let before = task.get_hash();
    task.set_name("Buy oat milk");
    assert_ne!(task.get_hash(), before);
    assert_eq!(task.get_hash(), Task::hash_fn("Buy oat milk"));
    assert_eq!(task.get_description(), "two litres");
    assert_eq!(task.get_weight(), 50);
    assert_eq!(task.get_tags(), vec!["home"]);
}

#[test]
fn setters_chain() {
    let mut task = Task::from_arg("a");
    task.set_name("b").set_desc("text").set_weight("7").add_tag("x").add_tag("y");
    assert_eq!(task.get_name(), "b");
    assert_eq!(task.get_description(), "text");
    assert_eq!(task.get_weight(), 7);
    assert_eq!(task.get_tags(), vec!["x", "y"]);
    task.clear_tags().add_tag("z");
    assert_eq!(task.get_tags(), vec!["z"]);
}

#[test]
fn set_weight_falls_back_to_the_default() {
    let mut task = Task::from_arg("a");
    task.set_weight("12");
    assert_eq!(task.get_weight(), 12);
    task.set_weight("heavy");
    assert_eq!(task.get_weight(), 100);
    task.set_weight("0");
    assert_eq!(task.get_weight(), 0);
    task.set_weight("-3");
    assert_eq!(task.get_weight(), 100);
    task.set_weight("");
    assert_eq!(task.get_weight(), 100);
}

#[test]
fn tags_are_a_set() {
    let mut task = Task::from_arg("a");
    task.add_tag("x");
    task.add_tag("x");
    task.add_tag("X");
    assert_eq!(task.get_tags(), vec!["x", "X"]);
    assert!(task.has_tag("x"));
    assert!(!task.has_tag("y"));
    task.remove_tag("x");
    assert_eq!(task.get_tags(), vec!["X"]);
    task.remove_tag("missing");
    assert_eq!(task.get_tags(), vec!["X"]);
    task.add_tags(&strings(&["a", "b", "a"]));
    assert_eq!(task.get_tags(), vec!["X", "a", "b"]);
    task.remove_tags(&strings(&["X", "b", "nope"]));
    assert_eq!(task.get_tags(), vec!["a"]);
}

#[test]
fn has_tags_is_intersection() {
    let task = Task::new("a", "", 1, strings(&["home", "urgent"]));
    assert!(task.has_tags(&[]));
    assert!(task.has_tags(&strings(&["home"])));
    assert!(task.has_tags(&strings(&["urgent", "home"])));
    assert!(!task.has_tags(&strings(&["home", "work"])));
    assert!(!task.has_tags(&strings(&["work"])));
    assert!(Task::from_arg("b").has_tags(&[]));
    assert!(!Task::from_arg("b").has_tags(&strings(&["home"])));
}

#[test]
fn life_cycle_steps() {
    let mut task = Task::from_arg("a");
    assert!(task.is_unstaged());
    task.unstage();
    assert!(task.is_unstaged());
    task.stage();
    assert!(task.is_staged());
    task.stage();
    assert!(task.is_staged());
    task.unstage();
    assert!(task.is_unstaged());
    task.stage();
    task.finish();
    assert!(task.is_finished());
    task.stage();
    assert!(task.is_finished());
    task.unstage();
    assert!(task.is_finished());
    let mut other = Task::from_arg("b");
    other.finish();
    assert_eq!(other.get_status(), Status::Finished);
    other.move_to(Status::Unstaged);
    assert_eq!(other.get_status(), Status::Finished);
}

#[test]
fn clone_copies_everything() {
    let mut task = Task::new("a", "d", 3, strings(&["x", "y"]));
    task.stage();
    let copy = task.clone();
    assert_eq!(copy.get_name(), "a");
    assert_eq!(copy.get_description(), "d");
    assert_eq!(copy.get_weight(), 3);
    assert_eq!(copy.get_tags(), vec!["x", "y"]);
    assert!(copy.is_staged());
}

#[test]
fn record_is_read() {
    let task = Task::from_str(" Buy milk , two litres , 50 ,home  shop home").unwrap();
    assert_eq!(task.get_name(), "Buy milk");
    assert_eq!(task.get_description(), "two litres");
    assert_eq!(task.get_weight(), 50);
    assert_eq!(task.get_tags(), vec!["home", "shop"]);
    assert!(task.is_unstaged());
}

#[test]
fn record_fields_may_be_missing() {
    let task = Task::from_str("name").unwrap();
    assert_eq!(task.get_description(), "");
    assert_eq!(task.get_weight(), 100);
    assert!(task.get_tags().is_empty());
    let task = Task::from_str("name,desc").unwrap();
    assert_eq!(task.get_description(), "desc");
    assert_eq!(task.get_weight(), 100);
    let task = Task::from_str("name,desc,7").unwrap();
    assert_eq!(task.get_weight(), 7);
    assert!(task.get_tags().is_empty());
    let task = Task::from_str("name,desc,7,a,ignored").unwrap();
    assert_eq!(task.get_tags(), vec!["a"]);
}

#[test]
fn record_without_name_is_corrupt() {
    for row in ["", "   ", ",desc,1,tag", " ,,"] {
        match Task::from_str(row) {
            Err(HeapError::CorruptData(text)) => assert_eq!(text, row),
            other => panic!("{:?}", other),
        }
    }
}

#[test]
fn record_with_bad_weight_is_corrupt() {
    for row in ["name,desc,100a,tag", "name,desc,,tag", "name,desc,-1", "name,desc,4294967296"] {
        match Task::from_str(row) {
            Err(HeapError::CorruptData(text)) => assert_eq!(text, row),
            other => panic!("{:?}", other),
        }
    }
}

#[test]
fn record_is_written() {
    let task = Task::new("Buy milk", "two litres", 50, strings(&["home", "shop"]));
    assert_eq!(task.to_record(), "Buy milk,two litres,50,home shop");
    assert_eq!(Task::from_arg("x").to_record(), "x,,100,");
}

#[test]
fn record_round_trip() {
    let task = Task::new("Buy milk", "two litres", 4000000000, strings(&["home", "shop"]));
    let back = Task::from_str(&task.to_record()).unwrap();
    assert_eq!(back.get_name(), task.get_name());
    assert_eq!(back.get_description(), task.get_description());
    assert_eq!(back.get_weight(), task.get_weight());
    assert_eq!(back.get_tags(), task.get_tags());
}
