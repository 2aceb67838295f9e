use add2path::pathlist::{
    join_paths, list_contains, parse_path_env, path_prepend, path_remove, toggle, ToggleAction,
};

fn list(entries: &[&str]) -> Vec<String> {
    entries.iter().map(|e| e.to_string()).collect()
}

#[test]
fn parse_splits_on_colons() {
    assert_eq!(parse_path_env("a:b:c"), list(&["a", "b", "c"]));
}

#[test]
fn parse_single_entry() {
    assert_eq!(parse_path_env("/usr/bin"), list(&["/usr/bin"]));
}

#[test]
fn parse_empty_string_is_one_empty_entry() {
    assert_eq!(parse_path_env(""), list(&[""]));
}

#[test]
fn parse_keeps_empty_entries() {
    assert_eq!(parse_path_env("a::b:"), list(&["a", "", "b", ""]));
}

#[test]
fn join_is_parse_inverse() {
    let v = parse_path_env("/usr/bin:/bin:/home/u/.local/bin");
    assert_eq!(join_paths(&v), "/usr/bin:/bin:/home/u/.local/bin");
}

#[test]
fn join_empty_list_entries() {
    assert_eq!(join_paths(&list(&["a", "", "b"])), "a::b");
    assert_eq!(join_paths(&list(&["a"])), "a");
}

#[test]
fn contains_finds_exact_entries_only() {
    let v = list(&["/usr/bin", "/bin"]);
    assert!(list_contains(&v, "/bin"));
    assert!(!list_contains(&v, "/bi"));
    assert!(!list_contains(&v, "/usr/bin/"));
}

#[test]
fn prepend_puts_entry_first() {
    let mut v = list(&["/usr/bin", "/bin"]);
    path_prepend("/new", &mut v);
    assert_eq!(v, list(&["/new", "/usr/bin", "/bin"]));
}

#[test]
fn prepend_drops_older_occurrences() {
    let mut v = list(&["/b", "/a", "/c", "/a"]);
    path_prepend("/a", &mut v);
    assert_eq!(v, list(&["/a", "/b", "/c"]));
}

#[test]
fn remove_drops_every_occurrence() {
    let mut v = list(&["/a", "/b", "/a", "/c", "/a"]);
    path_remove("/a", &mut v);
    assert_eq!(v, list(&["/b", "/c"]));
}

#[test]
fn remove_of_absent_entry_is_noop() {
    let mut v = list(&["/a", "/b"]);
    path_remove("/x", &mut v);
    assert_eq!(v, list(&["/a", "/b"]));
}

#[test]
fn toggle_adds_absent_directory_to_front() {
    let mut v = list(&["/usr/bin", "/bin"]);
    let action = toggle("/home/u/proj", &mut v);
    assert_eq!(action, ToggleAction::Added);
    assert_eq!(v, list(&["/home/u/proj", "/usr/bin", "/bin"]));
}

#[test]
fn toggle_removes_present_directory_everywhere() {
    let mut v = list(&["/d", "/a", "/d", "/b"]);
    let action = toggle("/d", &mut v);
    assert_eq!(action, ToggleAction::Removed);
    assert_eq!(v, list(&["/a", "/b"]));
}

#[test]
fn toggle_twice_restores_list_when_absent() {
    let before = list(&["/usr/bin", "/bin"]);
    let mut v = before.clone();
    toggle("/home/u/proj", &mut v);
    toggle("/home/u/proj", &mut v);
    assert_eq!(v, before);
}

#[test]
fn toggle_twice_restores_list_when_present_at_front() {
    let before = list(&["/home/u/proj", "/usr/bin"]);
    let mut v = before.clone();
    toggle("/home/u/proj", &mut v);
    toggle("/home/u/proj", &mut v);
    assert_eq!(v, before);
}
