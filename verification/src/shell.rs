//! Which startup file a shell reads, from the `HOME` and `SHELL` values.

use vstd::prelude::*;

use crate::strings::{contains_seq, str_contains};

verus! {

/// `base` and `name` joined with exactly one '/' between them; an empty base
/// leaves `name` bare, as joining a relative name onto an empty path does.
pub open spec fn join_path(base: Seq<char>, name: Seq<char>) -> Seq<char> {
    if base.len() == 0 {
        name
    } else if base[base.len() - 1] == '/' {
        base + name
    } else {
        base + seq!['/'] + name
    }
}

/// The startup file for a shell: `.bashrc` under the home directory when the
/// shell's name mentions "bash", `.zshrc` for "zsh",
/// `.config/fish/config.fish` for "fish" — tried in that order — and none
/// for anything else.
pub open spec fn config_path_spec(home: Seq<char>, shell: Seq<char>) -> Option<Seq<char>> {
    if contains_seq(shell, "bash"@) {
        Some(join_path(home, ".bashrc"@))
    } else if contains_seq(shell, "zsh"@) {
        Some(join_path(home, ".zshrc"@))
    } else if contains_seq(shell, "fish"@) {
        Some(join_path(home, ".config/fish/config.fish"@))
    } else {
        None
    }
}

fn join_path_exec(base: &str, name: &str) -> (r: String)
    ensures
        r@ == join_path(base@, name@),
{
    let n: usize = base.unicode_len();
    if n == 0 {
        name.to_owned()
    } else if base.get_char(n - 1) == '/' {
        let mut r: String = base.to_owned();
        r.append(name);
        r
    } else {
        let mut r: String = base.to_owned();
        r.append("/");
        proof {
            reveal_strlit("/");
            assert("/"@ =~= seq!['/']);
        }
        r.append(name);
        r
    }
}

/// The startup file the rewrite targets, given the `HOME` and `SHELL`
/// environment values.  `None` means the shell is unsupported, which the
/// caller must treat as fatal.
pub fn determine_shell_config_path(home: &str, shell: &str) -> (r: Option<String>)
    ensures
        r.deep_view() == config_path_spec(home@, shell@),
{
    if str_contains(shell, "bash") {
        Some(join_path_exec(home, ".bashrc"))
    } else if str_contains(shell, "zsh") {
        Some(join_path_exec(home, ".zshrc"))
    } else if str_contains(shell, "fish") {
        Some(join_path_exec(home, ".config/fish/config.fish"))
    } else {
        None
    }
}

} // verus!
