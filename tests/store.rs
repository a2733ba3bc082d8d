use teleport::{
    bookmark_into, bookmarks_file_text, decimal_string, file_path_in, join_path_str, key_less, lookup_value,
    mark_entry, marked_text, new_mark, parse_entries, remove_from, render_list, resolve_dir, split_record,
    Entries, Repository,
};

fn entries(pairs: &[(&str, &str)]) -> Entries {
    let mut m = Entries::new();
    for (k, v) in pairs {
        m.insert(k.to_string(), v.to_string());
    }
    m
}

fn listed(m: &Entries) -> Vec<(String, String)> {
    (0..m.len()).map(|i| (m.key_at(i).clone(), m.value_at(i).clone())).collect()
}

#[test]
fn marks_get_keys_in_order() {
    let mut text = String::new();
    for expected in 0..12usize {
        let (key, line) = new_mark(&text, "/home/u", None, true).unwrap();
        assert_eq!(key, expected);
        assert_eq!(line, format!("{},/home/u\n", expected));
        text.push_str(&line);
    }
    assert_eq!(parse_entries(&text).len(), 12);
}

#[test]
fn store_text_round_trips() {
    let m = entries(&[("b", "/dir/two"), ("a", "/dir"), ("", "/empty key")]);
    let text = bookmarks_file_text(&m);
    assert_eq!(text, ",/empty key\na,/dir\nb,/dir/two\n");
    assert_eq!(listed(&parse_entries(&text)), listed(&m));
}

#[test]
fn cleared_marks_restart_at_zero() {
    let (key, line) = new_mark("", "/home/u", None, true).unwrap();
    assert_eq!(key, 0);
    assert_eq!(line, "0,/home/u\n");
}

#[test]
fn bookmark_wins_over_mark_with_same_key() {
    let marks = entries(&[("x", "/mark")]);
    let bookmarks = entries(&[("x", "/bookmark")]);
    assert_eq!(lookup_value(&"x".to_string(), &marks, &bookmarks), "/bookmark");
    assert_eq!(lookup_value(&"x".to_string(), &marks, &Entries::new()), "/mark");
    assert_eq!(lookup_value(&"y".to_string(), &marks, &bookmarks), "");
}

#[test]
fn remove_reports_absent_key_and_shrinks_on_present() {
    let mut b = entries(&[("a", "/dir"), ("b", "/dir/two")]);
    let before = listed(&b);
    assert_eq!(remove_from(&mut b, &"x".to_string()), Err("No bookmark named x found".to_string()));
    assert_eq!(listed(&b), before);
    assert_eq!(remove_from(&mut b, &"a".to_string()), Ok("Removed a\n".to_string()));
    assert_eq!(b.len(), 1);
    assert_eq!(b.get(&"a".to_string()), None);
    assert_eq!(b.get(&"b".to_string()), Some(&"/dir/two".to_string()));
}

#[test]
fn list_of_one_bookmark_and_no_marks() {
    let out = render_list(&Entries::new(), &entries(&[("a", "/dir")]));
    assert_eq!(out, "\n# Marks\n\n\n# Bookmarks\n\na     : /dir\n\n");
}

#[test]
fn list_keeps_long_keys_whole() {
    let out = render_list(&entries(&[("longkey", "/p")]), &Entries::new());
    assert_eq!(out, "\n# Marks\n\nlongkey : /p\n\n# Bookmarks\n\n\n");
}

#[test]
fn relative_path_resolves_against_working_directory() {
    let (key, line) = new_mark("", "/home/u", Some("relative/sub"), true).unwrap();
    assert_eq!(key, 0);
    assert_eq!(line, "0,/home/u/relative/sub\n");
    assert_eq!(
        new_mark("", "/home/u", Some("relative/sub"), false),
        Err("Path arg must be a directory".to_string())
    );
}

#[test]
fn absolute_path_is_kept() {
    assert_eq!(resolve_dir("/home/u", Some("/srv/data"), true), Ok("/srv/data".to_string()));
    assert_eq!(resolve_dir("/home/u", None, false), Ok("/home/u".to_string()));
}

#[test]
fn path_joining() {
    assert_eq!(join_path_str("/home/u", "a"), "/home/u/a");
    assert_eq!(join_path_str("/home/u/", "a"), "/home/u/a");
    assert_eq!(join_path_str("", "a"), "a");
    assert_eq!(join_path_str("/home/u", "/x"), "/x");
    assert_eq!(join_path_str("/home/u", ""), "/home/u/");
}

#[test]
fn store_files_lie_under_home() {
    assert_eq!(file_path_in("/home/u", "marked"), "/home/u/.cache/teleport/marked");
    assert_eq!(file_path_in("/home/u/", "bookmarked"), "/home/u/.cache/teleport/bookmarked");
    let repo = Repository::in_home("/root");
    assert_eq!(repo.marked, "/root/.cache/teleport/marked");
    assert_eq!(repo.bookmarked, "/root/.cache/teleport/bookmarked");
}

#[test]
fn home_store_paths_end_in_data_dir() {
    if let Some(repo) = Repository::new() {
        assert!(repo.marked.ends_with(".cache/teleport/marked"));
        assert!(repo.bookmarked.ends_with(".cache/teleport/bookmarked"));
    }
}

#[test]
fn parse_skips_lines_without_comma() {
    let m = parse_entries("0,/a\nbroken\n\n1,/b,extra\r\n2,\n");
    assert_eq!(
        listed(&m),
        vec![
            ("0".to_string(), "/a".to_string()),
            ("1".to_string(), "/b".to_string()),
            ("2".to_string(), "".to_string())
        ]
    );
}

#[test]
fn parse_last_line_without_newline_and_duplicates() {
    let m = parse_entries("k,/one\nk,/two\nz,/last");
    assert_eq!(
        listed(&m),
        vec![("k".to_string(), "/two".to_string()), ("z".to_string(), "/last".to_string())]
    );
    assert_eq!(parse_entries("").len(), 0);
}

#[test]
fn mark_keys_sort_as_strings() {
    let m = entries(&[("2", "/b"), ("10", "/a"), ("1", "/c")]);
    let keys: Vec<String> = listed(&m).into_iter().map(|p| p.0).collect();
    assert_eq!(keys, vec!["1".to_string(), "10".to_string(), "2".to_string()]);
    assert!(key_less(&"10".to_string(), &"2".to_string()));
    assert!(!key_less(&"2".to_string(), &"2".to_string()));
    assert!(key_less(&"a".to_string(), &"ab".to_string()));
    assert!(key_less(&"é".to_string(), &"日".to_string()));
}

#[test]
fn insert_overwrites_existing_key() {
    let mut m = entries(&[("a", "/old")]);
    m.insert("a".to_string(), "/new".to_string());
    assert_eq!(m.len(), 1);
    assert_eq!(m.get(&"a".to_string()), Some(&"/new".to_string()));
}

#[test]
fn records_and_numbers() {
    assert_eq!(split_record("k,v"), Some(("k".to_string(), "v".to_string())));
    assert_eq!(split_record("k,v\r"), Some(("k".to_string(), "v".to_string())));
    assert_eq!(split_record("novalue"), None);
    assert_eq!(decimal_string(0), "0");
    assert_eq!(decimal_string(1907), "1907");
    assert_eq!(mark_entry("/x", 42), "42,/x");
    assert_eq!(marked_text(13), "Marked as 13\n");
}

#[test]
fn bookmark_into_inserts_resolved_dir() {
    let mut b = entries(&[("a", "/dir")]);
    let r = bookmark_into(&mut b, &"k".to_string(), "/home/u", Some("sub"), true);
    assert_eq!(r, Ok("Bookmarked as k\n".to_string()));
    assert_eq!(b.get(&"k".to_string()), Some(&"/home/u/sub".to_string()));
    let r = bookmark_into(&mut b, &"m".to_string(), "/home/u", Some("sub"), false);
    assert_eq!(r, Err("Path arg must be a directory".to_string()));
    assert_eq!(b.len(), 2);
}
