use vstd::prelude::*;

use crate::text::{contains_pattern, occurs_at, text_contains};

verus! {

/// The line that records `pattern` in an ignore file.
pub open spec fn line_of(pattern: Seq<char>) -> Seq<char> {
    pattern.push('\n')
}

/// Whether the last line of `content` has no line break at its end.
pub open spec fn lacks_final_break(content: Seq<char>) -> bool {
    content.len() > 0 && content.last() != '\n'
}

/// `content` with its last line closed by a line break where it lacks one.
pub open spec fn closed(content: Seq<char>) -> Seq<char> {
    if lacks_final_break(content) {
        content.push('\n')
    } else {
        content
    }
}

/// What goes at the end of an ignore file holding `content` to record
/// `pattern` on a line of its own: a line break first where the last line
/// lacks one, then the pattern's line.
pub open spec fn appended_text(content: Seq<char>, pattern: Seq<char>) -> Seq<char> {
    if lacks_final_break(content) {
        seq!['\n'] + line_of(pattern)
    } else {
        line_of(pattern)
    }
}

/// What an existing ignore file holds once `pattern` has been applied to it:
/// unchanged where the pattern already stands in it, else with the pattern
/// added as a line of its own.
pub open spec fn after_append(content: Seq<char>, pattern: Seq<char>) -> Seq<char> {
    if text_contains(content, pattern) {
        content
    } else {
        content + appended_text(content, pattern)
    }
}

/// `text` holds no line break.
pub open spec fn is_single_line(text: Seq<char>) -> bool {
    forall|k: int| 0 <= k < text.len() ==> text[k] != '\n'
}

/// What happens to an existing ignore file.
#[derive(Debug, Clone, PartialEq, Eq)]
pub enum IgnoreEdit {
    /// The pattern already stands in the file: leave it as it is.
    AlreadyPresent,
    /// Append this text to the end of the file.
    Append(String),
}

/// The line that records `pattern`: the pattern and a line break. It is the
/// whole of a newly created ignore file.
pub fn pattern_line(pattern: &str) -> (r: String)
    ensures
        r@ == line_of(pattern@),
{
    let mut line = String::new();
    line.append(pattern);
    line.append("\n");
    proof {
        reveal_strlit("\n");
    }
    line
}

/// Decides what to do with an existing ignore file that holds `content`:
/// nothing where the pattern already stands anywhere in it, else append the
/// pattern as a new line, after a line break where the last line lacks one.
pub fn edit_for(content: &str, pattern: &str) -> (r: IgnoreEdit)
    ensures
        text_contains(content@, pattern@) <==> r is AlreadyPresent,
        r matches IgnoreEdit::Append(text) ==> text@ == appended_text(content@, pattern@)
            && content@ + text@ == after_append(content@, pattern@),
{
    if contains_pattern(content, pattern) {
        return IgnoreEdit::AlreadyPresent;
    }
    let n = content.unicode_len();
    let mut text = String::new();
    if n > 0 && content.get_char(n - 1) != '\n' {
        text.append("\n");
    }
    text.append(pattern);
    text.append("\n");
    proof {
        reveal_strlit("\n");
        assert(seq!['\n'] + line_of(pattern@) =~= seq!['\n'] + pattern@ + seq!['\n']);
        assert(line_of(pattern@) =~= Seq::<char>::empty() + pattern@ + seq!['\n']);
    }
    IgnoreEdit::Append(text)
}

/// Appending a pattern keeps what the file held, unchanged and in front, and
/// adds the pattern as the file's last line, on a line of its own: what
/// precedes it is empty or ends in a line break.
pub proof fn law_append_keeps_content(content: Seq<char>, pattern: Seq<char>)
    requires
        !text_contains(content, pattern),
    ensures
        after_append(content, pattern) == closed(content) + line_of(pattern),
        closed(content).subrange(0, content.len() as int) == content,
        closed(content).len() == 0 || closed(content).last() == '\n',
        after_append(content, pattern).subrange(0, content.len() as int) == content,
        after_append(content, pattern).subrange(
            closed(content).len() as int,
            after_append(content, pattern).len() as int,
        ) == line_of(pattern),
{
    let after = after_append(content, pattern);
    let c = closed(content);
    assert(after =~= c + line_of(pattern));
    assert(c.subrange(0, content.len() as int) =~= content);
    assert(after.subrange(0, content.len() as int) =~= content);
    assert(after.subrange(c.len() as int, after.len() as int) =~= line_of(pattern));
}

/// A pattern stands in the file that applying it leaves, so applying it a
/// second time changes nothing.
pub proof fn law_append_is_idempotent(content: Seq<char>, pattern: Seq<char>)
    ensures
        text_contains(after_append(content, pattern), pattern),
        after_append(after_append(content, pattern), pattern) == after_append(content, pattern),
{
    if !text_contains(content, pattern) {
        let after = after_append(content, pattern);
        let c = closed(content);
        assert(after =~= c + line_of(pattern));
        assert(after.subrange(c.len() as int, (c.len() + pattern.len()) as int) =~= pattern);
        assert(occurs_at(after, pattern, c.len() as int));
    }
}

/// A non-empty pattern of one line that the file did not hold stands exactly
/// once in the file after it is appended: at the start of its new line.
pub proof fn law_appended_pattern_occurs_once(content: Seq<char>, pattern: Seq<char>)
    requires
        !text_contains(content, pattern),
        pattern.len() > 0,
        is_single_line(pattern),
    ensures
        forall|i: int|
            occurs_at(after_append(content, pattern), pattern, i) <==> i == closed(content).len(),
{
    let after = after_append(content, pattern);
    let c = closed(content);
    let n = content.len() as int;
    let tl = c.len() as int;
    let pl = pattern.len() as int;
    assert(after =~= c + line_of(pattern));
    assert(after.subrange(tl, tl + pl) =~= pattern);
    assert forall|i: int| occurs_at(after, pattern, i) implies i == tl by {
        if i != tl {
            let w = after.subrange(i, i + pl);
            if i + pl <= n {
                assert(content.subrange(i, i + pl) =~= w);
                assert(occurs_at(content, pattern, i));
            } else if i < tl {
                let br = if tl == n + 1 {
                    n
                } else {
                    n - 1
                };
                assert(after[br] == '\n');
                assert(w[br - i] == after[br]);
                assert(pattern[br - i] == '\n');
            } else {
                assert(w[pl - 1] == after[i + pl - 1]);
                assert(pattern[pl - 1] == '\n');
            }
        }
    }
}

/// A newly created ignore file, which holds the pattern's line alone, already
/// holds the pattern: a second run leaves it as it is.
pub proof fn law_created_file_holds_pattern(pattern: Seq<char>)
    ensures
        text_contains(line_of(pattern), pattern),
        after_append(line_of(pattern), pattern) == line_of(pattern),
{
    assert(line_of(pattern).subrange(0, pattern.len() as int) =~= pattern);
    assert(occurs_at(line_of(pattern), pattern, 0));
}

} // verus!
