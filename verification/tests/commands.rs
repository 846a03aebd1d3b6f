use task_heap::commands::Commands;

fn one_of_each() -> Vec<Commands> {
    vec![
        Commands::Push("a".to_string()),
        Commands::Pop,
        Commands::Delete("a".to_string()),
        Commands::Edit("a".to_string()),
        Commands::ClearTags("a".to_string()),
        Commands::List,
        Commands::Reset,
        Commands::Help,
        Commands::Name("n".to_string()),
        Commands::Description("d".to_string()),
        Commands::Weight("1".to_string()),
        Commands::Tag(vec!["t".to_string()]),
        Commands::Untag(vec!["t".to_string()]),
    ]
}

fn accepted_by(primary: usize) -> Vec<usize> {
    let all = one_of_each();
    let mut out = Vec::new();
    for (i, qualifier) in all.iter().enumerate() {
        if qualifier.is_valid_for(&all[primary]) {
            out.push(i);
        }
    }
    out
}

#[test]
fn push_takes_description_weight_and_tags() {
    assert_eq!(accepted_by(0), vec![9, 10, 11]);
}

#[test]
fn edit_takes_every_qualifier() {
    assert_eq!(accepted_by(3), vec![8, 9, 10, 11, 12]);
}

#[test]
fn pop_delete_and_list_take_tags_only() {
    assert_eq!(accepted_by(1), vec![11]);
    assert_eq!(accepted_by(2), vec![11]);
    assert_eq!(accepted_by(5), vec![11]);
}

#[test]
fn the_rest_takes_nothing() {
    for primary in [4, 6, 7, 8, 9, 10, 11, 12] {
        assert_eq!(accepted_by(primary), Vec::<usize>::new());
    }
}

#[test]
fn qualifiers_are_told_apart() {
    let kinds: Vec<bool> = one_of_each().iter().map(|c| c.is_qualifier()).collect();
    assert_eq!(
        kinds,
        vec![false, false, false, false, false, false, false, false, true, true, true, true, true]
    );
}
