//! Whole runs at the library level: what one invocation computes from the
//! environment values the program would hand it.

use add2path::config::update_shell_config;
use add2path::messages::{added_message, removed_message, skipped_message, toggle_message};
use add2path::pathlist::{parse_path_env, toggle, ToggleAction};
use add2path::shell::determine_shell_config_path;

#[test]
fn first_run_adds_cwd_and_rewrites_bashrc() {
    // SHELL=/bin/bash, HOME=/home/u, cwd /home/u/proj, PATH lacking it.
    let config_path = determine_shell_config_path("/home/u", "/bin/bash").unwrap();
    assert_eq!(config_path, "/home/u/.bashrc");

    let mut paths = parse_path_env("/usr/bin:/bin");
    let action = toggle("/home/u/proj", &mut paths);
    assert_eq!(action, ToggleAction::Added);
    assert_eq!(
        toggle_message(action, "/home/u/proj"),
        "Added /home/u/proj to PATH"
    );

    let old_content = "# paths\nexport PATH=\"/usr/bin:/bin\"\n";
    let new_content = update_shell_config(&paths, old_content);
    assert_eq!(
        new_content,
        "# paths\nexport PATH=\"/home/u/proj:/usr/bin:/bin\"\n"
    );
    let export_value = "/home/u/proj:/usr/bin:/bin";
    assert_eq!(export_value.split(':').next().unwrap(), "/home/u/proj");
}

#[test]
fn second_run_removes_cwd_again() {
    // The same state after the first run: PATH now holds /home/u/proj.
    let mut paths = parse_path_env("/home/u/proj:/usr/bin:/bin");
    let action = toggle("/home/u/proj", &mut paths);
    assert_eq!(action, ToggleAction::Removed);
    assert_eq!(
        toggle_message(action, "/home/u/proj"),
        "Removed /home/u/proj from PATH"
    );

    let old_content = "# paths\nexport PATH=\"/home/u/proj:/usr/bin:/bin\"\n";
    let new_content = update_shell_config(&paths, old_content);
    assert_eq!(new_content, "# paths\nexport PATH=\"/usr/bin:/bin\"\n");
    assert!(!new_content.contains("/home/u/proj"));
}

#[test]
fn both_runs_together_restore_the_list() {
    let before = parse_path_env("/usr/bin:/bin");
    let mut paths = before.clone();
    toggle("/home/u/proj", &mut paths);
    toggle("/home/u/proj", &mut paths);
    assert_eq!(paths, before);
}

#[test]
fn nonexistent_argument_is_reported_skipped() {
    // The filesystem check happens in the driver; the report for a path that
    // fails it is this exact text, and no toggle or rewrite is computed.
    assert_eq!(
        skipped_message("./does-not-exist"),
        "Did not add ./does-not-exist to PATH, path does not exist or is not a directory."
    );
}

#[test]
fn report_texts_are_exact() {
    assert_eq!(added_message("/x"), "Added /x to PATH");
    assert_eq!(removed_message("/x"), "Removed /x from PATH");
}
