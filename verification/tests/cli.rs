use todo_list::{apply, parse_command, parse_index, CliError, Command, TodoError, TodoList};

fn args(words: &[&str]) -> Vec<String> {
    words.iter().map(|w| w.to_string()).collect()
}

#[test]
fn no_arguments_means_show() {
    assert!(matches!(parse_command(&args(&["todo"])), Ok(Command::Show)));
    assert!(matches!(parse_command(&args(&[])), Ok(Command::Show)));
}

#[test]
fn add_and_its_aliases() {
    for w in ["add", "-a", "--add"] {
        match parse_command(&args(&["todo", w, "buy milk"])) {
            Ok(Command::Add(d)) => assert_eq!(d, "buy milk"),
            _ => panic!("{w} should parse as an add"),
        }
    }
}

#[test]
fn edit_and_its_aliases() {
    for w in ["edit", "-e", "--edit"] {
        match parse_command(&args(&["todo", w, "2", "new text"])) {
            Ok(Command::Edit(i, d)) => {
                assert_eq!(i, 2);
                assert_eq!(d, "new text");
            },
            _ => panic!("{w} should parse as an edit"),
        }
    }
}

#[test]
fn finish_and_remove_and_their_aliases() {
    for w in ["finish", "-f", "--finish"] {
        assert!(matches!(parse_command(&args(&["todo", w, "0"])), Ok(Command::Finish(0))));
    }
    for w in ["remove", "-r", "--remove"] {
        assert!(matches!(parse_command(&args(&["todo", w, "3"])), Ok(Command::Remove(3))));
    }
}

#[test]
fn clean_help_and_their_aliases() {
    for w in ["clean", "-c", "--clean"] {
        assert!(matches!(parse_command(&args(&["todo", w])), Ok(Command::Clean)));
    }
    for w in ["help", "-h", "--help"] {
        assert!(matches!(parse_command(&args(&["todo", w])), Ok(Command::Help)));
    }
}

#[test]
fn unknown_subcommands_are_rejected() {
    assert_eq!(parse_command(&args(&["todo", "frobnicate"])).err(), Some(CliError::UnknownCommand));
    assert_eq!(parse_command(&args(&["todo", "ADD", "x"])).err(), Some(CliError::UnknownCommand));
}

#[test]
fn missing_positional_arguments_are_rejected() {
    assert_eq!(parse_command(&args(&["todo", "add"])).err(), Some(CliError::MissingArgument));
    assert_eq!(parse_command(&args(&["todo", "edit", "1"])).err(), Some(CliError::MissingArgument));
    assert_eq!(parse_command(&args(&["todo", "finish"])).err(), Some(CliError::MissingArgument));
    assert_eq!(parse_command(&args(&["todo", "remove"])).err(), Some(CliError::MissingArgument));
}

#[test]
fn non_numeric_indices_are_rejected() {
    assert_eq!(parse_command(&args(&["todo", "finish", "abc"])).err(), Some(CliError::InvalidIndex));
    assert_eq!(parse_command(&args(&["todo", "remove", "1x"])).err(), Some(CliError::InvalidIndex));
    assert_eq!(
        parse_command(&args(&["todo", "edit", "-1", "text"])).err(),
        Some(CliError::InvalidIndex)
    );
}

#[test]
fn parse_index_accepts_digits_and_a_leading_plus() {
    assert_eq!(parse_index(&"0".to_string()), Some(0));
    assert_eq!(parse_index(&"7".to_string()), Some(7));
    assert_eq!(parse_index(&"007".to_string()), Some(7));
    assert_eq!(parse_index(&"+5".to_string()), Some(5));
    assert_eq!(parse_index(&"123456".to_string()), Some(123456));
}

#[test]
fn parse_index_rejects_what_is_not_a_small_number() {
    assert_eq!(parse_index(&"".to_string()), None);
    assert_eq!(parse_index(&"+".to_string()), None);
    assert_eq!(parse_index(&"abc".to_string()), None);
    assert_eq!(parse_index(&"1x".to_string()), None);
    assert_eq!(parse_index(&"-1".to_string()), None);
    assert_eq!(parse_index(&"1 2".to_string()), None);
    assert_eq!(parse_index(&"99999999999999999999999999999999".to_string()), None);
}

#[test]
fn apply_runs_the_single_mutation() {
    let mut list = TodoList::new();
    assert!(apply(&mut list, &Command::Add("a".to_string())).is_ok());
    assert!(apply(&mut list, &Command::Add("b".to_string())).is_ok());
    assert!(apply(&mut list, &Command::Finish(0)).is_ok());
    assert!(apply(&mut list, &Command::Edit(1, "b2".to_string())).is_ok());
    assert_eq!(list.items[0].status, true);
    assert_eq!(list.items[1].description, "b2");
    assert!(apply(&mut list, &Command::Clean).is_ok());
    assert_eq!(list.items.len(), 1);
    assert_eq!(list.items[0].description, "b2");
    assert!(apply(&mut list, &Command::Remove(0)).is_ok());
    assert_eq!(list.items.len(), 0);
}

#[test]
fn apply_reports_out_of_range_and_changes_nothing() {
    let mut list = TodoList::new();
    list.add("only");
    let before = list.to_document();
    assert_eq!(apply(&mut list, &Command::Finish(1)), Err(TodoError::OutOfRange));
    assert_eq!(apply(&mut list, &Command::Edit(9, "x".to_string())), Err(TodoError::OutOfRange));
    assert_eq!(apply(&mut list, &Command::Remove(2)), Err(TodoError::OutOfRange));
    assert_eq!(list.to_document(), before);
}

#[test]
fn apply_help_and_show_change_nothing() {
    let mut list = TodoList::new();
    list.add("keep me");
    let before = list.to_document();
    assert!(apply(&mut list, &Command::Help).is_ok());
    assert!(apply(&mut list, &Command::Show).is_ok());
    assert_eq!(list.to_document(), before);
}

#[test]
fn only_the_mutating_commands_ask_for_a_save() {
    assert!(Command::Add("x".to_string()).mutates());
    assert!(Command::Edit(0, "x".to_string()).mutates());
    assert!(Command::Finish(0).mutates());
    assert!(Command::Remove(0).mutates());
    assert!(Command::Clean.mutates());
    assert!(!Command::Help.mutates());
    assert!(!Command::Show.mutates());
}
