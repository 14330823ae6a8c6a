use kignore::{same_text, select_log_level, tidy_line};

#[test]
fn rm_lines_are_shortened_to_the_path() {
    assert_eq!(tidy_line("rm 'src/a.log'"), "src/a.log");
    assert_eq!(tidy_line("rm 'it's.log'"), "it's.log");
    assert_eq!(tidy_line("rm ''"), "");
    assert_eq!(tidy_line("rm 'é/ü.log' done"), "é/ü.log");
}

#[test]
fn other_lines_are_kept() {
    assert_eq!(tidy_line("fatal: not a git repository"), "fatal: not a git repository");
    assert_eq!(tidy_line("rm 'half"), "rm 'half");
    assert_eq!(tidy_line("mv 'a' 'b'"), "mv 'a' 'b'");
    assert_eq!(tidy_line(""), "");
}

#[test]
fn known_log_levels_are_kept() {
    assert_eq!(select_log_level(Some("off")), "off");
    assert_eq!(select_log_level(Some("info")), "info");
    assert_eq!(select_log_level(Some("debug")), "debug");
    assert_eq!(select_log_level(Some("warn")), "warn");
    assert_eq!(select_log_level(Some("error")), "error");
}

#[test]
fn other_log_levels_become_error() {
    assert_eq!(select_log_level(None), "error");
    assert_eq!(select_log_level(Some("trace")), "error");
    assert_eq!(select_log_level(Some("")), "error");
    assert_eq!(select_log_level(Some("DEBUG")), "error");
}

#[test]
fn text_equality() {
    assert!(same_text(".git", ".git"));
    assert!(!same_text(".git", ".gitignore"));
    assert!(same_text("", ""));
    assert!(!same_text("ab", "ba"));
}
