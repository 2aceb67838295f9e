use add2path::config::{
    apply_path_export, line_is_export, make_export_line, render_lines, rewrite_config_content,
    split_lines, update_shell_config,
};

fn lines(entries: &[&str]) -> Vec<String> {
    entries.iter().map(|e| e.to_string()).collect()
}

#[test]
fn split_lines_basic() {
    assert_eq!(split_lines("a\nb"), lines(&["a", "b"]));
}

#[test]
fn split_lines_trailing_newline_adds_no_line() {
    assert_eq!(split_lines("a\nb\n"), lines(&["a", "b"]));
}

#[test]
fn split_lines_empty_text_has_no_lines() {
    assert_eq!(split_lines(""), lines(&[]));
}

#[test]
fn split_lines_lone_newline_is_one_empty_line() {
    assert_eq!(split_lines("\n"), lines(&[""]));
}

#[test]
fn split_lines_strips_carriage_returns() {
    assert_eq!(split_lines("a\r\nb\r\n"), lines(&["a", "b"]));
}

#[test]
fn render_appends_newline_to_each_line() {
    assert_eq!(render_lines(&lines(&["a", "b"])), "a\nb\n");
    assert_eq!(render_lines(&lines(&[])), "");
}

#[test]
fn export_line_recognition() {
    assert!(line_is_export("export PATH=\"/usr/bin\""));
    assert!(line_is_export("export PATH=$PATH:/x"));
    assert!(!line_is_export("# export PATH=\"/usr/bin\""));
    assert!(!line_is_export("export PAT=\"/usr/bin\""));
}

#[test]
fn make_export_line_quotes_value() {
    assert_eq!(make_export_line("/a:/b"), "export PATH=\"/a:/b\"");
}

#[test]
fn apply_replaces_first_export_line_in_place() {
    let input = lines(&["# hello", "export PATH=\"/old\"", "alias ll='ls -l'"]);
    let output = apply_path_export(&input, "/new");
    assert_eq!(
        output,
        lines(&["# hello", "export PATH=\"/new\"", "alias ll='ls -l'"])
    );
}

#[test]
fn apply_inserts_export_line_first_when_missing() {
    let input = lines(&["# hello", "alias ll='ls -l'"]);
    let output = apply_path_export(&input, "/new");
    assert_eq!(
        output,
        lines(&["export PATH=\"/new\"", "# hello", "alias ll='ls -l'"])
    );
}

#[test]
fn apply_leaves_later_export_lines_verbatim() {
    let input = lines(&["export PATH=\"/old\"", "export PATH=\"/older\""]);
    let output = apply_path_export(&input, "/new");
    assert_eq!(
        output,
        lines(&["export PATH=\"/new\"", "export PATH=\"/older\""])
    );
}

#[test]
fn rewrite_keeps_other_lines_verbatim_in_order() {
    let content = "# one\nexport PATH=\"/old\"\n# two\n";
    assert_eq!(
        rewrite_config_content(content, "/a:/b"),
        "# one\nexport PATH=\"/a:/b\"\n# two\n"
    );
}

#[test]
fn rewrite_of_empty_content_is_one_export_line() {
    assert_eq!(
        rewrite_config_content("", "/a:/b"),
        "export PATH=\"/a:/b\"\n"
    );
}

#[test]
fn rewrite_normalizes_missing_final_newline() {
    assert_eq!(
        rewrite_config_content("# note", "/a"),
        "export PATH=\"/a\"\n# note\n"
    );
}

#[test]
fn update_joins_entries_into_export_line() {
    let paths = lines(&["/home/u/proj", "/usr/bin"]);
    let content = "export PATH=\"/usr/bin\"\n# end\n";
    assert_eq!(
        update_shell_config(&paths, content),
        "export PATH=\"/home/u/proj:/usr/bin\"\n# end\n"
    );
}
