use task_heap::table::header;
use task_heap::table::pad_end;
use task_heap::table::pad_start;
use task_heap::table::row;
use task_heap::table::rows_from_lines;
use task_heap::table::rows_of_task;
use task_heap::table::rule;
use task_heap::table::single_task_table;
use task_heap::table::sort_texts;
use task_heap::table::task_table;
use task_heap::table::text_before;
use task_heap::table::truncate;
use task_heap::table::W_TAGS;
use task_heap::table::W_WEIGHT;
use task_heap::task::Task;

fn strings(items: &[&str]) -> Vec<String> {
    items.iter().map(|s| s.to_string()).collect()
}

#[test]
fn dictionary_order_agrees_with_std() {
    let words = ["", "a", "ab", "b", "B", "é", "e", "z", "ab ", "\u{10000}", "\u{ffff}", "aa"];
    for a in words {
        for b in words {
            assert_eq!(text_before(a, b), a <= b, "{:?} {:?}", a, b);
        }
    }
}

#[test]
fn texts_are_sorted() {
    assert_eq!(sort_texts(vec!["pear", "apple", "fig", "Apple", "apple"]), vec!["Apple", "apple", "apple", "fig", "pear"]);
    assert_eq!(sort_texts(Vec::new()), Vec::<&str>::new());
    let mut expected = vec!["b", "a", "", "ab", "é", "z"];
    expected.sort();
    assert_eq!(sort_texts(vec!["b", "a", "", "ab", "é", "z"]), expected);
}

#[test]
fn long_text_is_cut_with_two_dots() {
    assert_eq!(truncate("4294967295", 6), "4294..");
    assert_eq!(truncate("123456", 6), "123456");
    assert_eq!(truncate("1234567", 6), "1234..");
    assert_eq!(truncate("", 2), "");
    assert_eq!(truncate("abc", 2), "..");
    assert_eq!(truncate("ééé", 4), "é..");
    assert_eq!(truncate("ééé", 6), "ééé");
}

#[test]
fn padding_counts_characters() {
    assert_eq!(pad_end("ab", 5), "ab   ");
    assert_eq!(pad_end("abcdef", 5), "abcdef");
    assert_eq!(pad_end("é", 3), "é  ");
    assert_eq!(pad_end("", 0), "");
    assert_eq!(pad_start("ab", 5), "   ab");
    assert_eq!(pad_start("abcdef", 5), "abcdef");
    assert_eq!(pad_start("é", 3), format!("{:>3}", "é"));
    assert_eq!(rule(0), "");
    assert_eq!(rule(5), "-----");
}

#[test]
fn rows_are_set_in_four_columns() {
    assert_eq!(W_WEIGHT, 6);
    assert_eq!(W_TAGS, 20);
    assert_eq!(row("n", "d", "7", "t", 5, 10), "n     | d          |      7 | t                   ");
    assert_eq!(header(5, 10), "NAME  | DESCRIPTION | WEIGHT | TAGS                ");
    assert_eq!(
        row("name", "description", "100", "a b", 9, 13),
        format!("{:<9} | {:<13} | {:>6} | {:<20}", "name", "description", "100", "a b")
    );
}

#[test]
fn rows_follow_the_longest_cell() {
    let rows = rows_from_lines(&strings(&["n1", "n2"]), &strings(&["d1"]), &strings(&["t1", "t2", "t3"]), 4294967295, 5, 10);
    assert_eq!(
        rows,
        vec![
            format!("{:<5} | {:<10} | {:>6} | {:<20}", "n1", "d1", "4294..", "t1"),
            format!("{:<5} | {:<10} | {:>6} | {:<20}", "n2", "", "", "t2"),
            format!("{:<5} | {:<10} | {:>6} | {:<20}", "", "", "", "t3"),
        ]
    );
    assert!(rows_from_lines(&Vec::new(), &Vec::new(), &Vec::new(), 1, 5, 10).is_empty());
}

#[test]
fn cells_are_wrapped_and_tags_sorted() {
    let task = Task::new("Buy some milk", "two litres of the good one", 50, strings(&["shop", "home"]));
    let rows = rows_of_task(&task, 8, 12);
    assert_eq!(
        rows,
        vec![
            format!("{:<8} | {:<12} | {:>6} | {:<20}", "Buy some", "two litres", "50", "home shop"),
            format!("{:<8} | {:<12} | {:>6} | {:<20}", "milk", "of the good", "", ""),
            format!("{:<8} | {:<12} | {:>6} | {:<20}", "", "one", "", ""),
        ]
    );
}

#[test]
fn an_empty_task_still_has_a_row() {
    let rows = rows_of_task(&Task::from_arg("x"), 5, 10);
    assert_eq!(rows, vec![format!("{:<5} | {:<10} | {:>6} | {:<20}", "x", "", "100", "")]);
}

#[test]
fn table_has_header_rules_and_rows() {
    let a = Task::new("a", "first", 1, strings(&["t"]));
    let b = Task::new("b", "second", 2, Vec::new());
    let table = task_table(&vec![&a, &b], 12, 5, 10);
    assert_eq!(
        table,
        vec![
            format!("{:<5} | {:<10} | {:>6} | {:<20}", "NAME", "DESCRIPTION", "WEIGHT", "TAGS"),
            "-".repeat(12),
            format!("{:<5} | {:<10} | {:>6} | {:<20}", "a", "first", "1", "t"),
            "-".repeat(12),
            format!("{:<5} | {:<10} | {:>6} | {:<20}", "b", "second", "2", ""),
            "-".repeat(12),
        ]
    );
    assert_eq!(task_table(&Vec::new(), 3, 5, 10).len(), 2);
    assert_eq!(single_task_table(&a, 12, 5, 10), task_table(&vec![&a], 12, 5, 10));
}

#[test]
fn zero_width_columns_do_not_break_the_table() {
    let task = Task::new("ab", "cd", 1, strings(&["e"]));
    let rows = rows_of_task(&task, 0, 0);
    assert!(!rows.is_empty());
}
