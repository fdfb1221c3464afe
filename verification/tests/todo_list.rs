use todo_list::config::Config;
use todo_list::entry::{parse_todos, Todo};
use todo_list::errors::TodoError;
use todo_list::order::sort_todos;
use todo_list::store::{add_line, list_lines, next_index};
use todo_list::{run, Outcome};

fn entry(index: i32, content: &str) -> Todo {
    Todo { index, content: String::from(content) }
}

#[test]
fn config() {
    let args: Vec<String> = vec!["argOne", "argTwo", "argThree", "argFour"]
        .iter()
        .map(|x| x.to_string())
        .collect();
    let config = Config::new(&args[..]).unwrap();
    assert_eq!(config.verb, "argTwo");
    if let Some(s) = config.noun {
        assert_eq!(s, "argThree argFour");
    } else {
        panic!("config.noun is None");
    }
}

#[test]
fn parse() {
    let contents = "2 Something else\n1 Something\n4 Another thing\n";
    let todos = parse_todos(&contents).unwrap();
    assert_eq!(todos[0].index, 2);
    assert_eq!(todos[0].content, "Something else");
    assert_eq!(todos[1].index, 1);
    assert_eq!(todos[1].content, "Something");
    assert_eq!(todos[2].index, 4);
    assert_eq!(todos[2].content, "Another thing");
}

#[test]
fn parse_then_sort() {
    let contents = "2 Something else\n1 Something\n4 Another thing\n";
    let todos = parse_todos(contents).unwrap();
    let sorted = sort_todos(todos);
    assert_eq!(sorted[0].index, 1);
    assert_eq!(sorted[0].content, "Something");
    assert_eq!(sorted[1].index, 2);
    assert_eq!(sorted[1].content, "Something else");
    assert_eq!(sorted[2].index, 4);
    assert_eq!(sorted[2].content, "Another thing");
}

#[test]
fn sort_is_stable_for_equal_indices() {
    let todos = parse_todos("2 a\n2 b\n1 c\n").unwrap();
    let lines = list_lines("2 a\n2 b\n1 c\n").unwrap();
    assert_eq!(todos.len(), 3);
    assert_eq!(lines, vec!["1. c", "2. a", "2. b"]);
}

#[test]
fn config_resolves_add_with_noun() {
    let args: Vec<String> = vec!["prog", "add", "Buy", "milk"]
        .iter()
        .map(|x| x.to_string())
        .collect();
    let config = Config::new(&args[..]).unwrap();
    assert_eq!(config.verb, "add");
    assert_eq!(config.noun, Some(String::from("Buy milk")));
}

#[test]
fn config_without_verb_fails() {
    let args: Vec<String> = vec![String::from("prog")];
    let r = Config::new(&args[..]);
    assert!(matches!(r, Err(TodoError::NotEnoughArguments)));
}

#[test]
fn add_without_noun_fails_at_dispatch() {
    let args: Vec<String> = vec![String::from("prog"), String::from("add")];
    let config = Config::new(&args[..]).unwrap();
    assert_eq!(config.verb, "add");
    assert_eq!(config.noun, None);
    let r = run(config, Ok(String::new()));
    assert!(matches!(r, Err(TodoError::NotEnoughArguments)));
}

#[test]
fn next_index_after_contiguous_run() {
    let todos = vec![entry(1, "a"), entry(2, "b"), entry(3, "c")];
    assert_eq!(next_index(&todos), 4);
}

#[test]
fn next_index_of_empty_store() {
    let todos: Vec<Todo> = Vec::new();
    assert_eq!(next_index(&todos), 1);
}

#[test]
fn next_index_when_one_is_free() {
    let todos = vec![entry(2, "a"), entry(3, "b"), entry(4, "c")];
    assert_eq!(next_index(&todos), 1);
}

#[test]
fn next_index_finds_first_gap() {
    let todos = vec![entry(1, "a"), entry(3, "b"), entry(4, "c")];
    assert_eq!(next_index(&todos), 2);
}

#[test]
fn append_then_list_round_trip() {
    let store = "1 One\n2 Two\n";
    let line = add_line(store, "Buy milk").unwrap();
    assert_eq!(line, "3 Buy milk");
    let grown = format!("{}{}\n", store, line);
    let lines = list_lines(&grown).unwrap();
    assert_eq!(lines, vec!["1. One", "2. Two", "3. Buy milk"]);
}

#[test]
fn add_to_empty_store() {
    assert_eq!(add_line("", "First").unwrap(), "1 First");
}

#[test]
fn unknown_verb_is_refused() {
    let config = Config { verb: String::from("delete"), noun: Some(String::from("1")) };
    let r = run(config, Ok(String::new()));
    assert!(matches!(r, Err(TodoError::InvalidCommand)));
}

#[test]
fn unreadable_store_fails_list() {
    let config = Config { verb: String::from("list"), noun: None };
    let r = run(config, Err(String::from("No such file or directory")));
    match r {
        Err(TodoError::IoError(m)) => assert_eq!(m, "No such file or directory"),
        _ => panic!("expected an IoError"),
    }
}

#[test]
fn run_lists_sorted_entries() {
    let config = Config { verb: String::from("list"), noun: None };
    let r = run(config, Ok(String::from("2 b\n1 a\n")));
    match r {
        Ok(Outcome::Listed(lines)) => assert_eq!(lines, vec!["1. a", "2. b"]),
        _ => panic!("expected a listing"),
    }
}

#[test]
fn run_appends_with_next_index() {
    let config = Config { verb: String::from("add"), noun: Some(String::from("x")) };
    let r = run(config, Ok(String::from("1 a")));
    match r {
        Ok(Outcome::Appended(line)) => assert_eq!(line, "2 x"),
        _ => panic!("expected an appended line"),
    }
}

#[test]
fn bad_leading_token_is_a_parse_error() {
    let r = Todo::new("abc hello");
    assert!(matches!(r, Err(TodoError::ParseError)));
    let whole = parse_todos("1 fine\nabc hello\n");
    assert!(matches!(whole, Err(TodoError::ParseError)));
}

#[test]
fn listing_a_bad_store_fails() {
    let config = Config { verb: String::from("list"), noun: None };
    let r = run(config, Ok(String::from("abc hello\n")));
    assert!(matches!(r, Err(TodoError::ParseError)));
}

#[test]
fn entry_line_shapes() {
    let t = Todo::new("7 words with  spaces").unwrap();
    assert_eq!(t.index, 7);
    assert_eq!(t.content, "words with  spaces");
    let bare = Todo::new("5").unwrap();
    assert_eq!(bare.index, 5);
    assert_eq!(bare.content, "");
    let doubled = Todo::new("5  double").unwrap();
    assert_eq!(doubled.content, " double");
}

#[test]
fn entry_index_numerals() {
    assert_eq!(Todo::new("-12 x").unwrap().index, -12);
    assert_eq!(Todo::new("+7").unwrap().index, 7);
    assert_eq!(Todo::new("007 x").unwrap().index, 7);
    assert_eq!(Todo::new("2147483647 a").unwrap().index, 2147483647);
    assert_eq!(Todo::new("-2147483648 a").unwrap().index, -2147483648);
    assert!(matches!(Todo::new("2147483648 a"), Err(TodoError::ParseError)));
    assert!(matches!(Todo::new("-2147483649 a"), Err(TodoError::ParseError)));
    assert!(matches!(Todo::new("1e3 x"), Err(TodoError::ParseError)));
    assert!(matches!(Todo::new(""), Err(TodoError::ParseError)));
    assert!(matches!(Todo::new("- 1"), Err(TodoError::ParseError)));
}

#[test]
fn negative_index_is_listed() {
    assert_eq!(list_lines("-5 z\n").unwrap(), vec!["-5. z"]);
}

#[test]
fn empty_store_lists_nothing() {
    let lines = list_lines("").unwrap();
    assert!(lines.is_empty());
    assert!(matches!(list_lines("\n"), Err(TodoError::ParseError)));
}

#[test]
fn entries_compare_by_index_alone() {
    assert!(entry(1, "a") == entry(1, "b"));
    assert!(entry(1, "a") != entry(2, "a"));
    assert!(entry(1, "z") < entry(2, "a"));
    assert!(!(entry(1, "a") < entry(1, "b")));
    assert!(entry(3, "a") > entry(2, "z"));
}

#[test]
fn error_messages() {
    assert_eq!(TodoError::InvalidCommand.message(), "Invalid command");
    assert_eq!(TodoError::NotEnoughArguments.message(), "Not enough arguments");
    assert_eq!(TodoError::IoError(String::from("disk on fire")).message(), "disk on fire");
}
