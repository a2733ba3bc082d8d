use teleport::{run_cmd, Entries, MarksRepository, HELP};

struct MockRepo {}

impl MarksRepository for MockRepo {
    fn get_marks(&self) -> Entries {
        let mut map = Entries::new();
        map.insert("0".to_string(), "/dir".to_string());
        map.insert("1".to_string(), "/dir/two".to_string());
        map
    }

    fn get_bookmarks(&self) -> Entries {
        let mut map = Entries::new();
        map.insert("a".to_string(), "/dir".to_string());
        map.insert("b".to_string(), "/dir/two".to_string());
        map
    }

    fn add_mark(&self, _path: Option<String>) -> Result<usize, String> {
        Ok(5)
    }

    fn store_bookmarks(&self, _bookmarks: Entries) {}

    fn clear_marks(&self) {}

    fn current_dir(&self) -> String {
        "/home/u".to_string()
    }

    fn is_dir(&self, path: &str) -> bool {
        path != "missing"
    }
}

fn mock_repo() -> MockRepo {
    MockRepo {}
}

#[test]
fn should_print_help() {
    let result = run_cmd(vec!["bin".to_string(), "-h".to_string()], mock_repo());

    assert!(result.is_ok());
    assert_eq!(result.unwrap(), HELP.to_string());
}

#[test]
fn should_fail_with_unknown_flag() {
    let result = run_cmd(vec!["bin".to_string(), "-unknown".to_string()], mock_repo());

    assert!(result.is_err());
    assert_eq!(result.unwrap_err(), "Unkown command for mark command");
}

#[test]
fn should_list_marks() {
    let result = run_cmd(vec!["bin".to_string(), "-ls".to_string()], mock_repo());

    let out = [
        "\n# Marks\n\n",
        "0     : /dir\n",
        "1     : /dir/two\n",
        "\n# Bookmarks\n\n",
        "a     : /dir\n",
        "b     : /dir/two\n\n",
    ]
    .concat();

    assert!(result.is_ok());
    assert_eq!(result.unwrap(), out);
}

#[test]
fn should_add_mark() {
    let result = run_cmd(vec!["bin".to_string()], mock_repo());

    assert!(result.is_ok());
    assert_eq!(result.unwrap(), "Marked as 5\n");
}

#[test]
fn should_add_mark_with_path() {
    let result = run_cmd(vec!["bin".to_string(), "dir".to_string()], mock_repo());

    assert!(result.is_ok());
    assert_eq!(result.unwrap(), "Marked as 5\n");
}

#[test]
fn should_get_mark() {
    let result = run_cmd(
        vec!["bin".to_string(), "-g".to_string(), "0".to_string()],
        mock_repo(),
    );

    assert!(result.is_ok());
    assert_eq!(result.unwrap(), "/dir");
}

#[test]
fn should_fail_to_get_mark_without_key_arg() {
    let result = run_cmd(vec!["bin".to_string(), "-g".to_string()], mock_repo());

    assert!(result.is_err());
    assert_eq!(result.unwrap_err(), "Get command requires key argument\n");
}

#[test]
fn should_add_bookmark_for_current_dir() {
    let result = run_cmd(
        vec!["bin".to_string(), "-b".to_string(), "cd".to_string()],
        mock_repo(),
    );

    assert!(result.is_ok());
    assert_eq!(result.unwrap(), "Bookmarked as cd\n");
}

#[test]
fn should_remove_bookmark() {
    let result = run_cmd(
        vec!["bin".to_string(), "-rm".to_string(), "b".to_string()],
        mock_repo(),
    );

    assert!(result.is_ok());
    assert_eq!(result.unwrap(), "Removed b\n");
}

#[test]
fn should_clear_marks() {
    let result = run_cmd(vec!["bin".to_string(), "-clr".to_string()], mock_repo());

    assert!(result.is_ok());
    assert_eq!(result.unwrap(), "Cleared marks\n");
}

#[test]
fn long_help_flag_prints_usage() {
    let result = run_cmd(vec!["bin".to_string(), "--help".to_string()], mock_repo());
    assert_eq!(result, Ok(HELP.to_string()));
}

#[test]
fn mixing_flags_is_refused() {
    let result = run_cmd(
        vec!["bin".to_string(), "-ls".to_string(), "-g".to_string()],
        mock_repo(),
    );
    assert_eq!(result, Err("Cannot mix flags".to_string()));
}

#[test]
fn two_paths_without_flag_are_refused() {
    let result = run_cmd(
        vec!["bin".to_string(), "one".to_string(), "two".to_string()],
        mock_repo(),
    );
    assert_eq!(result, Err("Too many argurments".to_string()));
}

#[test]
fn get_with_two_keys_is_refused() {
    let result = run_cmd(
        vec!["bin".to_string(), "-g".to_string(), "a".to_string(), "b".to_string()],
        mock_repo(),
    );
    assert_eq!(result, Err("Too many arguments".to_string()));
}

#[test]
fn get_prefers_bookmark_and_falls_back_to_nothing() {
    let found = run_cmd(
        vec!["bin".to_string(), "-g".to_string(), "b".to_string()],
        mock_repo(),
    );
    assert_eq!(found, Ok("/dir/two".to_string()));
    let missing = run_cmd(
        vec!["bin".to_string(), "-g".to_string(), "zz".to_string()],
        mock_repo(),
    );
    assert_eq!(missing, Ok(String::new()));
}

#[test]
fn bookmark_argument_counts() {
    let with_dir = run_cmd(
        vec!["bin".to_string(), "sub".to_string(), "-b".to_string(), "key".to_string()],
        mock_repo(),
    );
    assert_eq!(with_dir, Ok("Bookmarked as key\n".to_string()));
    let none = run_cmd(vec!["bin".to_string(), "-b".to_string()], mock_repo());
    assert_eq!(none, Err("Wrong number of arguments".to_string()));
    let missing_dir = run_cmd(
        vec!["bin".to_string(), "missing".to_string(), "-b".to_string(), "key".to_string()],
        mock_repo(),
    );
    assert_eq!(missing_dir, Err("Path arg must be a directory".to_string()));
}

#[test]
fn remove_of_absent_bookmark_fails() {
    let result = run_cmd(
        vec!["bin".to_string(), "-rm".to_string(), "zz".to_string()],
        mock_repo(),
    );
    assert_eq!(result, Err("No bookmark named zz found".to_string()));
    let no_key = run_cmd(vec!["bin".to_string(), "-rm".to_string()], mock_repo());
    assert_eq!(no_key, Err("Wrong number of arguments".to_string()));
}

#[test]
fn clear_with_argument_is_refused() {
    let result = run_cmd(
        vec!["bin".to_string(), "--clear".to_string(), "x".to_string()],
        mock_repo(),
    );
    assert_eq!(result, Err("Wrong number of arguments".to_string()));
    let long = run_cmd(vec!["bin".to_string(), "--clear".to_string()], mock_repo());
    assert_eq!(long, Ok("Cleared marks\n".to_string()));
}
