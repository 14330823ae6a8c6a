use kignore::{scan_entries, Decision, LocateError, Locator, PlannedAction, Scan};

fn listing(names: &[&str]) -> Vec<Option<String>> {
    names.iter().map(|n| Some(n.to_string())).collect()
}

/// Drives a locator over the listings of a directory and its ancestors, the
/// last of which is the filesystem root. Returns the decision and how many
/// listings were read.
fn run(chain: &[Vec<Option<String>>]) -> (Decision, usize) {
    let mut locator = Locator::new();
    for (read, names) in chain.iter().enumerate() {
        let d = locator.on_entries(names);
        if d != Decision::ReadParent {
            return (d, read + 1);
        }
    }
    (locator.on_no_parent(), chain.len())
}

#[test]
fn marker_beside_start_creates_there() {
    let chain = vec![listing(&[".git", "main.rs"]), listing(&["home"])];
    assert_eq!(run(&chain), (Decision::Done(PlannedAction::CreateAtRoot { level: 0 }), 1));
}

#[test]
fn marker_further_up_creates_at_repository_root() {
    let chain = vec![
        listing(&["a.txt"]),
        listing(&["src", "Cargo.toml"]),
        listing(&["README", ".git", "crates"]),
        listing(&["repos"]),
    ];
    assert_eq!(run(&chain), (Decision::Done(PlannedAction::CreateAtRoot { level: 2 }), 3));
}

#[test]
fn ignore_file_outside_repository_fails() {
    let chain = vec![listing(&["x"]), listing(&[".gitignore", "y"]), listing(&["z"])];
    assert_eq!(run(&chain), (Decision::Failed(LocateError::NoEnclosingRepository), 3));
}

#[test]
fn nothing_up_to_root_fails() {
    let chain = vec![listing(&["a"]), listing(&["b", "c"]), listing(&[])];
    assert_eq!(run(&chain), (Decision::Failed(LocateError::NotInRepository), 3));
}

#[test]
fn ignore_file_and_marker_together_appends() {
    let chain = vec![listing(&["src", ".git", ".gitignore"])];
    assert_eq!(run(&chain), (Decision::Done(PlannedAction::AppendToExisting { level: 0 }), 1));
}

#[test]
fn ignore_file_confirmed_by_marker_above() {
    let chain = vec![
        listing(&[".gitignore", "lib.rs"]),
        listing(&["docs"]),
        listing(&[".git"]),
        listing(&["never read"]),
    ];
    assert_eq!(run(&chain), (Decision::Done(PlannedAction::AppendToExisting { level: 0 }), 3));
}

#[test]
fn marker_below_ignore_file_wins() {
    let chain = vec![listing(&["nested", ".git"]), listing(&[".gitignore", ".git"])];
    assert_eq!(run(&chain), (Decision::Done(PlannedAction::CreateAtRoot { level: 0 }), 1));
}

#[test]
fn unreadable_name_before_ignore_file_fails() {
    let chain = vec![vec![Some("a".to_string()), None, Some(".gitignore".to_string())]];
    assert_eq!(run(&chain), (Decision::Failed(LocateError::UnreadableName { level: 0, entry: 1 }), 1));
}

#[test]
fn unreadable_name_after_ignore_file_fails_confirmation() {
    let chain = vec![vec![Some(".gitignore".to_string()), None, Some(".git".to_string())]];
    assert_eq!(run(&chain), (Decision::Failed(LocateError::UnreadableName { level: 0, entry: 1 }), 1));
}

#[test]
fn unreadable_name_further_up_fails() {
    let chain = vec![listing(&["a"]), vec![None]];
    assert_eq!(run(&chain), (Decision::Failed(LocateError::UnreadableName { level: 1, entry: 0 }), 2));
}

#[test]
fn created_file_is_found_on_next_run() {
    let first = vec![listing(&["a"]), listing(&[".git", "b"])];
    assert_eq!(run(&first), (Decision::Done(PlannedAction::CreateAtRoot { level: 1 }), 2));
    let second = vec![listing(&["a"]), listing(&[".git", ".gitignore", "b"])];
    assert_eq!(run(&second), (Decision::Done(PlannedAction::AppendToExisting { level: 1 }), 2));
}

#[test]
fn scan_stops_at_first_match_or_unreadable() {
    assert_eq!(scan_entries(&listing(&["x", ".git", ".git"]), ".git"), Scan::Found(1));
    assert_eq!(scan_entries(&listing(&["x", ".gitignore"]), ".git"), Scan::Absent);
    assert_eq!(scan_entries(&vec![None, Some(".git".to_string())], ".git"), Scan::Unreadable(0));
    assert_eq!(scan_entries(&vec![], ".git"), Scan::Absent);
}
