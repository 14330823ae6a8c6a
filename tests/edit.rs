use kignore::{contains_pattern, edit_for, pattern_line, IgnoreEdit};

#[test]
fn new_file_holds_the_pattern_line() {
    assert_eq!(pattern_line("*.log"), "*.log\n");
    assert_eq!(pattern_line(""), "\n");
}

#[test]
fn pattern_already_present_is_skipped() {
    assert_eq!(edit_for("node_modules\n", "node_modules"), IgnoreEdit::AlreadyPresent);
}

#[test]
fn absent_pattern_gets_appended() {
    assert_eq!(edit_for("target\n", "*.log"), IgnoreEdit::Append("*.log\n".to_string()));
    assert_eq!(edit_for("", "*.log"), IgnoreEdit::Append("*.log\n".to_string()));
}

#[test]
fn append_then_read_back() {
    let before = "target\n/dist\n";
    let after = match edit_for(before, "*.log") {
        IgnoreEdit::Append(line) => format!("{}{}", before, line),
        IgnoreEdit::AlreadyPresent => panic!("pattern is not in the file"),
    };
    assert!(after.starts_with(before));
    assert_eq!(&after[before.len()..], "*.log\n");
    assert_eq!(after.lines().collect::<Vec<_>>(), vec!["target", "/dist", "*.log"]);
}

#[test]
fn second_application_is_skipped() {
    let mut content = String::from("a\n");
    if let IgnoreEdit::Append(line) = edit_for(&content, "build/") {
        content.push_str(&line);
    }
    assert_eq!(content, "a\nbuild/\n");
    assert_eq!(edit_for(&content, "build/"), IgnoreEdit::AlreadyPresent);
    let created = pattern_line("build/");
    assert_eq!(edit_for(&created, "build/"), IgnoreEdit::AlreadyPresent);
    assert_eq!(content.matches("build/").count(), 1);
}

#[test]
fn containment_is_by_substring() {
    assert!(contains_pattern("node_modules/cache\n", "node_modules"));
    assert!(contains_pattern("abc", ""));
    assert!(contains_pattern("", ""));
    assert!(!contains_pattern("", "a"));
    assert!(!contains_pattern("ab", "abc"));
    assert!(contains_pattern("xxabc", "abc"));
    assert!(!contains_pattern("a*b", "a.b"));
    assert!(contains_pattern("héllo wörld", "ö"));
}

#[test]
fn unterminated_last_line_is_closed_before_the_pattern() {
    assert_eq!(edit_for("x", "y"), IgnoreEdit::Append("\ny\n".to_string()));
    let before = "target\n/dist";
    let after = match edit_for(before, "*.log") {
        IgnoreEdit::Append(text) => format!("{}{}", before, text),
        IgnoreEdit::AlreadyPresent => panic!("pattern is not in the file"),
    };
    assert_eq!(after, "target\n/dist\n*.log\n");
    assert_eq!(after.lines().collect::<Vec<_>>(), vec!["target", "/dist", "*.log"]);
}

#[test]
fn appended_pattern_stands_once_as_its_own_line() {
    let before = "a";
    let after = match edit_for(before, "aa") {
        IgnoreEdit::Append(text) => format!("{}{}", before, text),
        IgnoreEdit::AlreadyPresent => panic!("pattern is not in the file"),
    };
    assert_eq!(after, "a\naa\n");
    assert_eq!(after.matches("aa").count(), 1);
    assert_eq!(after.lines().filter(|l| *l == "aa").count(), 1);
    assert_eq!(edit_for(&after, "aa"), IgnoreEdit::AlreadyPresent);
}
