//! Editing a note as text: the text handed to an editor is a `Title: ` line,
//! a blank line and the body; reading the edited text back takes the title
//! from the first line and the body from what follows.

use vstd::prelude::*;
use crate::pageviews::chars_of;

verus! {

/// Whether std counts a character as whitespace (`char::is_whitespace`, the
/// Unicode `White_Space` property).
pub uninterp spec fn unicode_white_space(c: char) -> bool;

/// Calls `char::is_whitespace`. Claimed: it answers `unicode_white_space` of
/// the character, a function of the character alone.
#[verifier::external_body]
fn char_is_whitespace(c: char) -> (r: bool)
    ensures
        r == unicode_white_space(c),
{
    c.is_whitespace()
}

/// Why edited text does not read as a note.
#[derive(Debug, Clone, Copy, PartialEq, Eq, Structural)]
pub enum EditError {
    /// The first line does not start with `Title: `.
    MissingTitlePrefix,
    /// The title is empty once surrounding whitespace is trimmed.
    EmptyTitle,
}

/// The text's leading whitespace dropped (`str::trim_start`).
pub open spec fn trim_start_chars(s: Seq<char>) -> Seq<char>
    decreases s.len(),
{
    if s.len() > 0 && unicode_white_space(s[0]) {
        trim_start_chars(s.drop_first())
    } else {
        s
    }
}

/// The text's trailing whitespace dropped (`str::trim_end`).
pub open spec fn trim_end_chars(s: Seq<char>) -> Seq<char>
    decreases s.len(),
{
    if s.len() > 0 && unicode_white_space(s.last()) {
        trim_end_chars(s.drop_last())
    } else {
        s
    }
}

/// The text with whitespace trimmed at both ends (`str::trim`).
pub open spec fn trim_chars(s: Seq<char>) -> Seq<char> {
    trim_end_chars(trim_start_chars(s))
}

/// A line of whitespace only.
pub open spec fn is_blank(line: Seq<char>) -> bool {
    forall|i: int| 0 <= i < line.len() ==> unicode_white_space(#[trigger] line[i])
}

/// The prefix of the first line of an edited note.
pub open spec fn title_prefix() -> Seq<char> {
    seq!['T', 'i', 't', 'l', 'e', ':', ' ']
}

/// The end of the line that starts at `i`: the position of the next newline,
/// or the end of the text.
pub open spec fn line_end(s: Seq<char>, i: int) -> int
    decreases s.len() - i,
{
    if i >= s.len() || s[i] == '\n' {
        i
    } else {
        line_end(s, i + 1)
    }
}

/// The text of a note as handed to an editor.
pub open spec fn edit_text_model(title: Seq<char>, body: Seq<char>) -> Seq<char> {
    title_prefix() + title + seq!['\n', '\n'] + body
}

/// The title and body that edited text gives: the title is the first line
/// after its `Title: ` prefix, trimmed; the body is the rest after the first
/// line, or after the second when that one is blank and more lines follow,
/// with trailing whitespace trimmed.
pub open spec fn parse_edit(s: Seq<char>) -> Result<(Seq<char>, Seq<char>), EditError> {
    let e1 = line_end(s, 0);
    if !(e1 >= 7 && s.subrange(0, 7) == title_prefix()) {
        Err(EditError::MissingTitlePrefix)
    } else if trim_chars(s.subrange(7, e1)).len() == 0 {
        Err(EditError::EmptyTitle)
    } else {
        let body = if e1 >= s.len() {
            Seq::empty()
        } else {
            let e2 = line_end(s, e1 + 1);
            if e2 < s.len() && is_blank(s.subrange(e1 + 1, e2)) {
                s.subrange(e2 + 1, s.len() as int)
            } else {
                s.subrange(e1 + 1, s.len() as int)
            }
        };
        Ok((trim_chars(s.subrange(7, e1)), trim_end_chars(body)))
    }
}

/// A line without a newline ends where the text after it begins.
proof fn lemma_line_end_at(s: Seq<char>, i: int, e: int)
    requires
        0 <= i <= e <= s.len(),
        e == s.len() || s[e] == '\n',
        forall|j: int| i <= j < e ==> s[j] != '\n',
    ensures
        line_end(s, i) == e,
    decreases e - i,
{
    if i < e {
        lemma_line_end_at(s, i + 1, e);
    }
}

/// The end of the line that starts at `i`.
fn line_end_exec(s: &Vec<char>, i: usize) -> (r: usize)
    requires
        i <= s@.len(),
    ensures
        r as int == line_end(s@, i as int),
        i <= r <= s@.len(),
{
    let mut j = i;
    while j < s.len() && s[j] != '\n'
        invariant
            i <= j <= s@.len(),
            line_end(s@, j as int) == line_end(s@, i as int),
        decreases s@.len() - j,
    {
        j += 1;
    }
    j
}

/// The first position in `a..b` that is not whitespace, or `b`: where the
/// text `a..b` starts once trimmed at the start.
pub(crate) fn skip_white_exec(s: &Vec<char>, a: usize, b: usize) -> (r: usize)
    requires
        a <= b <= s@.len(),
    ensures
        a <= r <= b,
        trim_start_chars(s@.subrange(a as int, b as int)) == s@.subrange(r as int, b as int),
        forall|j: int| a <= j < r ==> unicode_white_space(#[trigger] s@[j]),
        r < b ==> !unicode_white_space(s@[r as int]),
{
    let mut j = a;
    while j < b && char_is_whitespace(s[j])
        invariant
            a <= j <= b,
            b <= s@.len(),
            trim_start_chars(s@.subrange(a as int, b as int)) == trim_start_chars(
                s@.subrange(j as int, b as int),
            ),
            forall|k: int| a <= k < j ==> unicode_white_space(#[trigger] s@[k]),
        decreases b - j,
    {
        proof {
            assert(s@.subrange(j as int, b as int).drop_first() =~= s@.subrange(j + 1, b as int));
        }
        j += 1;
    }
    j
}

/// The last position in `a..b` after which only whitespace follows: where the
/// text `a..b` ends once trimmed at the end.
pub(crate) fn trim_end_exec(s: &Vec<char>, a: usize, b: usize) -> (r: usize)
    requires
        a <= b <= s@.len(),
    ensures
        a <= r <= b,
        trim_end_chars(s@.subrange(a as int, b as int)) == s@.subrange(a as int, r as int),
{
    let mut k = b;
    while k > a && char_is_whitespace(s[k - 1])
        invariant
            a <= k <= b,
            b <= s@.len(),
            trim_end_chars(s@.subrange(a as int, b as int)) == trim_end_chars(
                s@.subrange(a as int, k as int),
            ),
        decreases k - a,
    {
        proof {
            assert(s@.subrange(a as int, k as int).drop_last() =~= s@.subrange(a as int, k - 1));
        }
        k -= 1;
    }
    k
}

/// Reads edited text back as a title and a body, as `parse_edit` says.
pub fn parse_edited_note(content: &str) -> (r: Result<(String, String), EditError>)
    ensures
        match (r, parse_edit(content@)) {
            (Ok((t, b)), Ok((mt, mb))) => t@ == mt && b@ == mb,
            (Err(e), Err(f)) => e == f,
            _ => false,
        },
{
    let s = chars_of(content);
    let n = s.len();
    let e1 = line_end_exec(&s, 0);
    let has_prefix = e1 >= 7 && s[0] == 'T' && s[1] == 'i' && s[2] == 't' && s[3] == 'l' && s[4] == 'e'
        && s[5] == ':' && s[6] == ' ';
    proof {
        if e1 >= 7 {
            assert(has_prefix == (s@.subrange(0, 7) =~= title_prefix()));
        }
    }
    if !has_prefix {
        return Err(EditError::MissingTitlePrefix);
    }
    let a = skip_white_exec(&s, 7, e1);
    let b = trim_end_exec(&s, a, e1);
    proof {
        assert(trim_chars(s@.subrange(7, e1 as int)) == s@.subrange(a as int, b as int));
    }
    if a == b {
        return Err(EditError::EmptyTitle);
    }
    let title = content.substring_char(a, b).to_owned();
    let body_start: usize = if e1 >= n {
        n
    } else {
        let e2 = line_end_exec(&s, e1 + 1);
        let w = skip_white_exec(&s, e1 + 1, e2);
        proof {
            if w == e2 {
                assert(is_blank(s@.subrange(e1 + 1, e2 as int)));
            } else {
                assert(s@.subrange(e1 + 1, e2 as int)[w - e1 - 1] == s@[w as int]);
            }
        }
        if e2 < n && w == e2 {
            e2 + 1
        } else {
            e1 + 1
        }
    };
    let body_end = trim_end_exec(&s, body_start, n);
    proof {
        if e1 >= n {
            assert(s@.subrange(n as int, n as int) =~= Seq::<char>::empty());
        }
    }
    let body = content.substring_char(body_start, body_end).to_owned();
    Ok((title, body))
}

/// The text of a note as handed to an editor: `Title: `, the title, a blank
/// line, then the body.
pub fn edit_text(title: &str, body: &str) -> (r: String)
    ensures
        r@ == edit_text_model(title@, body@),
{
    let mut text = "Title: ".to_owned();
    text.append(title);
    text.append("\n\n");
    text.append(body);
    proof {
        reveal_strlit("Title: ");
        reveal_strlit("\n\n");
        assert(text@ =~= edit_text_model(title@, body@));
    }
    text
}

/// Reading back the text handed to an editor, unedited, gives the title and
/// body trimmed as reading trims them, for a title on one line; a title that
/// is whitespace only is refused as empty.
pub proof fn law_edit_text_reads_back(title: Seq<char>, body: Seq<char>)
    requires
        forall|i: int| 0 <= i < title.len() ==> #[trigger] title[i] != '\n',
    ensures
        parse_edit(edit_text_model(title, body)) == if trim_chars(title).len() == 0 {
            Err::<(Seq<char>, Seq<char>), EditError>(EditError::EmptyTitle)
        } else {
            Ok::<(Seq<char>, Seq<char>), EditError>((trim_chars(title), trim_end_chars(body)))
        },
{
    let s = edit_text_model(title, body);
    let e1: int = 7 + title.len() as int;
    assert forall|j: int| 0 <= j < e1 implies s[j] != '\n' by {
        if j >= 7 {
            assert(s[j] == title[j - 7]);
        }
    }
    assert(s[e1] == '\n');
    lemma_line_end_at(s, 0, e1);
    assert(s.subrange(0, 7) =~= title_prefix());
    assert(s.subrange(7, e1) =~= title);
    assert(s[e1 + 1] == '\n');
    lemma_line_end_at(s, e1 + 1, e1 + 1);
    assert(s.subrange(e1 + 1, e1 + 1) =~= Seq::<char>::empty());
    assert(s.subrange(e1 + 2, s.len() as int) =~= body);
}

} // verus!
