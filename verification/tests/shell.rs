use add2path::shell::determine_shell_config_path;

#[test]
fn bash_gets_bashrc() {
    assert_eq!(
        determine_shell_config_path("/home/u", "/bin/bash"),
        Some("/home/u/.bashrc".to_string())
    );
}

#[test]
fn zsh_gets_zshrc() {
    assert_eq!(
        determine_shell_config_path("/home/u", "/usr/bin/zsh"),
        Some("/home/u/.zshrc".to_string())
    );
}

#[test]
fn fish_gets_fish_config() {
    assert_eq!(
        determine_shell_config_path("/home/u", "/usr/bin/fish"),
        Some("/home/u/.config/fish/config.fish".to_string())
    );
}

#[test]
fn bash_wins_over_a_later_match() {
    assert_eq!(
        determine_shell_config_path("/home/u", "/opt/bash-with-fish"),
        Some("/home/u/.bashrc".to_string())
    );
}

#[test]
fn unsupported_shell_gets_nothing() {
    assert_eq!(determine_shell_config_path("/home/u", "/bin/tcsh"), None);
    assert_eq!(determine_shell_config_path("/home/u", ""), None);
}

#[test]
fn empty_home_leaves_name_bare() {
    assert_eq!(
        determine_shell_config_path("", "/bin/bash"),
        Some(".bashrc".to_string())
    );
}

#[test]
fn home_with_trailing_slash_is_not_doubled() {
    assert_eq!(
        determine_shell_config_path("/home/u/", "/bin/bash"),
        Some("/home/u/.bashrc".to_string())
    );
}
