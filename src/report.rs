use vstd::prelude::*;

use crate::text::{chars_of, contains_pattern, same_text, text_contains};

verus! {

/// The log levels that can be asked for by name.
pub open spec fn is_level_name(s: Seq<char>) -> bool {
    s == "off"@ || s == "info"@ || s == "debug"@ || s == "warn"@ || s == "error"@
}

/// The log level in force: the one asked for where it is a known name, and
/// `error` otherwise or where none is asked for.
pub open spec fn log_level_of(requested: Option<&str>) -> Seq<char> {
    match requested {
        Some(s) => if is_level_name(s@) {
            s@
        } else {
            "error"@
        },
        None => "error"@,
    }
}

/// Picks the log level from what was asked for on the command line.
pub fn select_log_level(requested: Option<&str>) -> (r: &'static str)
    ensures
        r@ == log_level_of(requested),
{
    match requested {
        Some(s) => {
            if same_text(s, "off") {
                "off"
            } else if same_text(s, "info") {
                "info"
            } else if same_text(s, "debug") {
                "debug"
            } else if same_text(s, "warn") {
                "warn"
            } else {
                "error"
            }
        },
        None => "error",
    }
}

/// `i` and `j` are the first and the last quote mark of `line`, and differ.
pub open spec fn quoted_span(line: Seq<char>, i: int, j: int) -> bool {
    &&& 0 <= i < j < line.len()
    &&& line[i] == '\'' && line[j] == '\''
    &&& forall|k: int| 0 <= k < i ==> line[k] != '\''
    &&& forall|k: int| j < k < line.len() ==> line[k] != '\''
}

/// Whether a line of the version-control tool's report gets shortened: it
/// mentions `rm` and holds two quote marks or more.
pub open spec fn is_tidied(line: Seq<char>) -> bool {
    text_contains(line, "rm"@) && exists|i: int, j: int| quoted_span(line, i, j)
}

/// Shortens a report line such as `rm 'dir/file'` to the path between its
/// first and last quote marks; any other line is kept whole.
pub fn tidy_line(line: &str) -> (r: &str)
    ensures
        forall|i: int, j: int|
            is_tidied(line@) && quoted_span(line@, i, j) ==> r@ == line@.subrange(i + 1, j),
        !is_tidied(line@) ==> r@ == line@,
{
    if !contains_pattern(line, "rm") {
        return line;
    }
    let cs = chars_of(line);
    let n = cs.len();
    let mut i: usize = 0;
    while i < n && cs[i] != '\''
        invariant
            n == cs@.len(),
            cs@ == line@,
            i <= n,
            forall|k: int| 0 <= k < i ==> cs@[k] != '\'',
        decreases n - i,
    {
        i = i + 1;
    }
    if i == n {
        assert forall|a: int, b: int| !quoted_span(line@, a, b) by {
            if 0 <= a < n {
                assert(cs@[a] != '\'');
            }
        }
        return line;
    }
    let mut j: usize = n;
    while j > i + 1 && cs[j - 1] != '\''
        invariant
            n == cs@.len(),
            cs@ == line@,
            i < n,
            cs@[i as int] == '\'',
            i + 1 <= j <= n,
            forall|k: int| 0 <= k < i ==> cs@[k] != '\'',
            forall|k: int| j <= k < n ==> cs@[k] != '\'',
        decreases j,
    {
        j = j - 1;
    }
    if j == i + 1 {
        assert forall|a: int, b: int| !quoted_span(line@, a, b) by {
            if quoted_span(line@, a, b) {
                if a < i {
                    assert(cs@[a] != '\'');
                } else if a > i {
                    assert(line@[i as int] == '\'');
                } else {
                    assert(cs@[b] != '\'');
                }
            }
        }
        return line;
    }
    assert(quoted_span(line@, i as int, j - 1));
    assert forall|a: int, b: int| quoted_span(line@, a, b) implies a == i && b == j - 1 by {
        if a < i {
            assert(cs@[a] != '\'');
        } else if a > i {
            assert(line@[i as int] == '\'');
        }
        if b < j - 1 {
            assert(line@[j - 1] == '\'');
        } else if b > j - 1 {
            assert(cs@[b] != '\'');
        }
    }
    line.substring_char(i + 1, j - 1)
}

} // verus!
