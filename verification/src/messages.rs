//! The exact texts the tool reports for each outcome of a toggle.

use vstd::prelude::*;

use crate::pathlist::ToggleAction;

verus! {

/// `Added <dir> to PATH`.
pub fn added_message(dir: &str) -> (r: String)
    ensures
        r@ == "Added "@ + dir@ + " to PATH"@,
{
    let mut r: String = "Added ".to_owned();
    r.append(dir);
    r.append(" to PATH");
    r
}

/// `Removed <dir> from PATH`.
pub fn removed_message(dir: &str) -> (r: String)
    ensures
        r@ == "Removed "@ + dir@ + " from PATH"@,
{
    let mut r: String = "Removed ".to_owned();
    r.append(dir);
    r.append(" from PATH");
    r
}

/// The report for a toggle, by which way it went.
pub fn toggle_message(action: ToggleAction, dir: &str) -> (r: String)
    ensures
        action == ToggleAction::Added ==> r@ == "Added "@ + dir@ + " to PATH"@,
        action == ToggleAction::Removed ==> r@ == "Removed "@ + dir@ + " from PATH"@,
{
    match action {
        ToggleAction::Added => added_message(dir),
        ToggleAction::Removed => removed_message(dir),
    }
}

/// The report for an argument that names no existing directory:
/// `Did not add <arg> to PATH, path does not exist or is not a directory.`
pub fn skipped_message(arg: &str) -> (r: String)
    ensures
        r@ == "Did not add "@ + arg@ + " to PATH, path does not exist or is not a directory."@,
{
    let mut r: String = "Did not add ".to_owned();
    r.append(arg);
    r.append(" to PATH, path does not exist or is not a directory.");
    r
}

} // verus!
